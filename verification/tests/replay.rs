use codingame_snakebyte::game::{Cell, PowerSource, SnakeBot, Terrain, TurnState, WorldState, InitialState};
use codingame_snakebyte::replay::{cell_kind, replay_start, replay_step, timer_runs, CellKind, ReplayEvent, ReplayState};

fn state(turn_idx: usize, paused: bool, dirty: bool) -> ReplayState {
    ReplayState { turn_idx, paused, dirty }
}

#[test]
fn replay_opens_paused_on_the_first_turn() {
    assert_eq!(replay_start(3), state(0, true, false));
    assert_eq!(replay_start(0), state(0, true, true));
}

#[test]
fn space_toggles_pause() {
    assert_eq!(replay_step(state(1, true, false), ReplayEvent::TogglePause, 3), state(1, false, false));
    assert_eq!(replay_step(state(1, false, false), ReplayEvent::TogglePause, 3), state(1, true, false));
    assert_eq!(replay_step(state(0, true, true), ReplayEvent::TogglePause, 0), state(0, false, true));
}

#[test]
fn right_and_left_stay_within_the_turns() {
    assert_eq!(replay_step(state(0, true, false), ReplayEvent::Next, 3), state(1, true, true));
    assert_eq!(replay_step(state(2, true, false), ReplayEvent::Next, 3), state(2, true, true));
    assert_eq!(replay_step(state(2, true, false), ReplayEvent::Previous, 3), state(1, true, true));
    assert_eq!(replay_step(state(0, false, false), ReplayEvent::Previous, 3), state(0, false, true));
    assert_eq!(replay_step(state(0, true, false), ReplayEvent::Next, 0), state(0, true, false));
    assert_eq!(replay_step(state(0, true, false), ReplayEvent::Previous, 0), state(0, true, false));
}

#[test]
fn home_and_end_jump() {
    assert_eq!(replay_step(state(2, true, false), ReplayEvent::First, 3), state(0, true, true));
    assert_eq!(replay_step(state(0, true, false), ReplayEvent::First, 0), state(0, true, true));
    assert_eq!(replay_step(state(0, false, false), ReplayEvent::Last, 3), state(2, false, true));
    assert_eq!(replay_step(state(0, true, false), ReplayEvent::Last, 0), state(0, true, false));
}

#[test]
fn automatic_play_advances_and_pauses_at_the_end() {
    assert!(timer_runs(state(0, false, false), 3));
    assert!(!timer_runs(state(0, true, false), 3));
    assert!(!timer_runs(state(0, false, false), 0));
    assert_eq!(replay_step(state(0, false, false), ReplayEvent::Tick, 3), state(1, false, true));
    assert_eq!(replay_step(state(2, false, false), ReplayEvent::Tick, 3), state(2, true, false));
    assert_eq!(replay_step(state(1, true, false), ReplayEvent::Tick, 3), state(1, true, false));
}

#[test]
fn cells_show_power_snakes_and_terrain() {
    let mut terrain = vec![Terrain::Empty; 6];
    terrain[5] = Terrain::Wall;
    let init = InitialState {
        my_id: 0,
        width: 6,
        height: 1,
        terrain,
        my_snakebot_ids: vec![1],
        opp_snakebot_ids: vec![2],
    };
    let mut world = WorldState::from_initial(init);
    let turn = TurnState {
        power_sources: vec![PowerSource { pos: Cell { x: 0, y: 0 } }],
        snakebots: vec![
            SnakeBot { snakebot_id: 1, body: vec![Cell { x: 1, y: 0 }] },
            SnakeBot { snakebot_id: 2, body: vec![Cell { x: 2, y: 0 }] },
            SnakeBot { snakebot_id: 3, body: vec![Cell { x: 3, y: 0 }] },
        ],
    };
    world.apply_turn(&turn);
    assert_eq!(cell_kind(&world, 0), CellKind::Power);
    assert_eq!(cell_kind(&world, 1), CellKind::Mine);
    assert_eq!(cell_kind(&world, 2), CellKind::Opponent);
    assert_eq!(cell_kind(&world, 3), CellKind::OtherSnake);
    assert_eq!(cell_kind(&world, 4), CellKind::Empty);
    assert_eq!(cell_kind(&world, 5), CellKind::Wall);
}
