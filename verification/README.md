# codingame_snakebyte

A bot for the CodinGame "snakebyte" game, written in Verus and verified.

- `src/game.rs`: the grid and its snakes. `WorldState` keeps what the referee said;
  `FastWorld` is the fixed-size form the bot computes on: the neighbor table of the
  grid, breadth-first search, the move choice (go for an adjacent power source, else
  for the free neighbor with the most room), the simulation of one turn, and the
  command line that answers a turn.
- `src/input_reader.rs`: the referee's message format, read line by line from any
  `LineSource`; the readers' contracts speak of the lines the source gives, so a
  `TextCursor`, a source of lines held in memory, fixes what they return.
- `src/message.rs`: the referee's messages as text, and the proof that a message
  written that way reads back as the same message.
- `src/replay.rs`: stepping through a recorded game (keys and the timer of automatic
  play) and what each cell of the world shows.
- `src/text.rs`: trimming, integer parsing and decimal printing on characters.
- `app/`: the program around the library: standard input and output for the bot, and,
  with `--visualize`, a replay viewer drawn with macroquad; it checks each requirement
  of the library with the library's own checkers (`buildable`, `fits_turn`,
  `FastWorld::ids_in_range`) before the call.

Every function in `src/` carries a contract that Verus proves; the `law_*` proof
functions state properties that span several calls or hold of every state.
