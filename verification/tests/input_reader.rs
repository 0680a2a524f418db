use codingame_snakebyte::game::{Cell, TerrainCell};
use codingame_snakebyte::input_reader::{InputReader, LineSource, TextCursor};

#[test]
fn parses_initial_state() {
    let data = "1\n4\n3\n....\n.#..\n....\n2\n10\n11\n20\n21\n";
    let cursor = TextCursor::new(data);
    let mut reader = InputReader::new(cursor);

    let state = reader.read_initial_state().expect("initial state");
    assert_eq!(state.my_id, 1);
    assert_eq!(state.width, 4);
    assert_eq!(state.height, 3);
    assert_eq!(state.terrain.len(), 12);
    assert_eq!(state.terrain[1 * 4 + 1], TerrainCell::Wall);
    assert_eq!(state.my_snakebot_ids, vec![10, 11]);
    assert_eq!(state.opp_snakebot_ids, vec![20, 21]);
}

#[test]
fn parses_turn_state() {
    let data = "2\n1 2\n5 6\n3\n10 0,0:0,1:0,2\n20 5,5\n21 1,1:1,2\n";
    let cursor = TextCursor::new(data);
    let mut reader = InputReader::new(cursor);

    let turn = reader.read_turn_state().expect("turn state");
    assert_eq!(turn.power_sources.len(), 2);
    assert_eq!(turn.power_sources[0].pos.x, 1);
    assert_eq!(turn.power_sources[0].pos.y, 2);
    assert_eq!(turn.snakebots.len(), 3);
    assert_eq!(turn.snakebots[0].snakebot_id, 10);
    assert_eq!(turn.snakebots[0].body.len(), 3);
    assert_eq!(turn.snakebots[0].body[0], Cell { x: 0, y: 0 });
}

#[test]
fn reads_multiple_turns_until_eof() {
    let data = "0\n1\n10 0,0\n1\n3 4\n1\n10 0,1\n";
    let cursor = TextCursor::new(data);
    let mut reader = InputReader::new(cursor);

    let first = reader.read_turn_state().expect("first turn");
    let second = reader.read_turn_state().expect("second turn");
    let third = reader.read_turn_state();

    assert_eq!(first.power_sources.len(), 0);
    assert_eq!(first.snakebots.len(), 1);
    assert_eq!(second.power_sources[0].pos.x, 3);
    assert!(third.is_none());
}

#[test]
fn parses_full_snake_body_not_just_first_cell() {
    let data = "0\n1\n10 0,0:0,1:0,2:0,3\n";
    let cursor = TextCursor::new(data);
    let mut reader = InputReader::new(cursor);

    let turn = reader.read_turn_state().expect("turn state");
    assert_eq!(turn.snakebots.len(), 1);
    assert_eq!(turn.snakebots[0].body.len(), 4);
    assert_eq!(turn.snakebots[0].body[3], Cell { x: 0, y: 3 });
}

#[test]
fn accepts_snake_with_empty_body() {
    let data = "0\n1\n10\n";
    let cursor = TextCursor::new(data);
    let mut reader = InputReader::new(cursor);

    let turn = reader.read_turn_state().expect("turn state");
    assert_eq!(turn.snakebots.len(), 1);
    assert!(turn.snakebots[0].body.is_empty());
}

#[test]
fn rejects_invalid_snake_body_token() {
    let data = "0\n1\n10 0;0\n";
    let cursor = TextCursor::new(data);
    let mut reader = InputReader::new(cursor);

    assert!(reader.read_turn_state().is_none());
}

fn turn_of(data: &str) -> Option<codingame_snakebyte::game::TurnState> {
    InputReader::new(TextCursor::new(data)).read_turn_state()
}

#[test]
fn initial_state_needs_every_line() {
    let mut reader = InputReader::new(TextCursor::new("1\n4\n3\n....\n.#..\n"));
    assert!(reader.read_initial_state().is_none());
    let mut reader = InputReader::new(TextCursor::new(""));
    assert!(reader.read_initial_state().is_none());
}

#[test]
fn initial_state_with_negative_height_reads_to_the_end() {
    let mut reader = InputReader::new(TextCursor::new("1\n4\n-1\n....\n....\n"));
    assert!(reader.read_initial_state().is_none());
}

#[test]
fn initial_state_rows_keep_their_own_length_and_ids_are_trimmed() {
    let mut reader = InputReader::new(TextCursor::new(" 7 \n3\n2\n#.#x\n  ##\n1\n +4\n-5\n"));
    let state = reader.read_initial_state().expect("initial state");
    assert_eq!(state.my_id, 7);
    assert_eq!(state.terrain.len(), 6);
    assert_eq!(state.terrain[0], TerrainCell::Wall);
    assert_eq!(state.terrain[3], TerrainCell::Empty);
    assert_eq!(state.terrain[4], TerrainCell::Wall);
    assert_eq!(state.my_snakebot_ids, vec![4]);
    assert_eq!(state.opp_snakebot_ids, vec![-5]);
}

#[test]
fn numbers_out_of_range_are_rejected() {
    assert!(turn_of("2147483648\n").is_none());
    assert!(turn_of("1\n-1 2\n0\n").is_none());
    assert!(turn_of("1\n256 2\n0\n").is_none());
    assert!(turn_of("1\n+255 2 9\n0\n").is_some());
    assert!(turn_of("1\n3\n0\n").is_none());
}

#[test]
fn body_cells_are_cut_to_bytes() {
    let turn = turn_of("0\n1\n5 300,-1:+2,3\n").expect("turn state");
    assert_eq!(turn.snakebots[0].body[0], Cell { x: 44, y: 255 });
    assert_eq!(turn.snakebots[0].body[1], Cell { x: 2, y: 3 });
}

#[test]
fn malformed_bodies_are_rejected() {
    assert!(turn_of("0\n1\n5 1,1:\n").is_none());
    assert!(turn_of("0\n1\n5 a,1\n").is_none());
    assert!(turn_of("0\n1\n5  1,1\n").is_none());
    assert!(turn_of("0\n1\nx 1,1\n").is_none());
}

#[test]
fn a_failed_message_ends_at_the_line_that_failed() {
    let mut reader = InputReader::new(TextCursor::new("x\n0\n0\n"));
    assert!(reader.read_turn_state().is_none());
    let turn = reader.read_turn_state().expect("turn state");
    assert!(turn.power_sources.is_empty());
    assert!(turn.snakebots.is_empty());
    assert!(reader.read_turn_state().is_none());
}

#[test]
fn text_cursor_gives_lines_without_breaks() {
    let mut cursor = TextCursor::new("ab\n\nc");
    assert_eq!(cursor.next_line(), Some(vec!['a', 'b']));
    assert_eq!(cursor.next_line(), Some(vec![]));
    assert_eq!(cursor.next_line(), Some(vec!['c']));
    assert_eq!(cursor.next_line(), None);
}

#[test]
fn initial_state_and_turns_share_one_stream() {
    let data = "0\n2\n1\n..\n1\n3\n4\n1\n1 0\n1\n3 0,0\n";
    let mut reader = InputReader::new(TextCursor::new(data));
    let state = reader.read_initial_state().expect("initial state");
    assert_eq!(state.my_snakebot_ids, vec![3]);
    assert_eq!(state.opp_snakebot_ids, vec![4]);
    let turn = reader.read_turn_state().expect("turn state");
    assert_eq!(turn.power_sources[0].pos, Cell { x: 1, y: 0 });
    assert_eq!(turn.snakebots[0].snakebot_id, 3);
    assert!(reader.read_turn_state().is_none());
}

#[test]
fn a_written_turn_reads_back_and_leaves_what_follows() {
    let data = "1\n7 3\n2\n-4 1,2:1,3\n9\n0\n0\n";
    let mut reader = InputReader::new(TextCursor::new(data));
    let turn = reader.read_turn_state().expect("turn state");
    assert_eq!(turn.power_sources.len(), 1);
    assert_eq!(turn.power_sources[0].pos, Cell { x: 7, y: 3 });
    assert_eq!(turn.snakebots.len(), 2);
    assert_eq!(turn.snakebots[0].snakebot_id, -4);
    assert_eq!(turn.snakebots[0].body, vec![Cell { x: 1, y: 2 }, Cell { x: 1, y: 3 }]);
    assert_eq!(turn.snakebots[1].snakebot_id, 9);
    assert!(turn.snakebots[1].body.is_empty());
    let next = reader.read_turn_state().expect("the lines after the first turn");
    assert!(next.power_sources.is_empty());
    assert!(next.snakebots.is_empty());
    assert!(reader.read_turn_state().is_none());
}

#[test]
fn a_written_opening_reads_back() {
    let data = "3\n2\n2\n#.\n..\n1\n5\n6\n0\n0\n";
    let mut reader = InputReader::new(TextCursor::new(data));
    let state = reader.read_initial_state().expect("initial state");
    assert_eq!(state.my_id, 3);
    assert_eq!((state.width, state.height), (2, 2));
    assert_eq!(state.terrain, vec![TerrainCell::Wall, TerrainCell::Empty, TerrainCell::Empty, TerrainCell::Empty]);
    assert_eq!(state.my_snakebot_ids, vec![5]);
    assert_eq!(state.opp_snakebot_ids, vec![6]);
    let turn = reader.read_turn_state().expect("the turn after the opening");
    assert!(turn.power_sources.is_empty() && turn.snakebots.is_empty());
}
