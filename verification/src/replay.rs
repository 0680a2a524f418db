use vstd::prelude::*;
use crate::game::{Terrain, WorldState, MAX_CELLS, OCC_POWER};

verus! {

// ---------------------------------------------------------------------------
// Stepping through a recorded game
// ---------------------------------------------------------------------------

/// Where a replay stands: the turn shown, whether it waits for the player, and whether
/// the picture of the world has to be rebuilt for the turn.
#[derive(Clone, Copy, PartialEq, Eq, Debug, Structural)]
pub struct ReplayState {
    pub turn_idx: usize,
    pub paused: bool,
    pub dirty: bool,
}

/// What moves a replay on: a key of the player, or the timer of automatic play.
#[derive(Clone, Copy, PartialEq, Eq, Debug, Structural)]
pub enum ReplayEvent {
    /// Space: play or pause.
    TogglePause,
    /// Right: the next turn.
    Next,
    /// Left: the previous turn.
    Previous,
    /// Home: the first turn.
    First,
    /// End: the last turn.
    Last,
    /// The step time of automatic play has passed.
    Tick,
}

impl ReplayState {
    /// The turn shown is one of the `turns` recorded (the first, where there is none).
    pub open spec fn fits(&self, turns: nat) -> bool {
        if turns == 0 {
            self.turn_idx == 0
        } else {
            self.turn_idx < turns
        }
    }
}

/// A replay of `turns` recorded turns as it opens: paused on the first turn, which is
/// shown already where there is one.
pub fn replay_start(turns: usize) -> (s: ReplayState)
    ensures
        s == (ReplayState { turn_idx: 0, paused: true, dirty: turns == 0 }),
        s.fits(turns as nat),
{
    ReplayState { turn_idx: 0, paused: true, dirty: turns == 0 }
}

/// Whether the timer of automatic play runs: the replay plays and has turns.
pub fn timer_runs(s: ReplayState, turns: usize) -> (r: bool)
    ensures
        r == (!s.paused && turns > 0),
{
    !s.paused && turns > 0
}

/// The replay after `ev`. Space toggles pausing. Right and Left step one turn, staying
/// within the recorded turns; Home and End jump to the first and the last turn; each of
/// them asks for the picture to be rebuilt, and all but Home do nothing where no turn
/// was recorded. A tick of automatic play, while the replay plays and has turns, moves
/// to the next turn, or pauses at the last one.
pub fn replay_step(s: ReplayState, ev: ReplayEvent, turns: usize) -> (n: ReplayState)
    requires
        s.fits(turns as nat),
    ensures
        n.fits(turns as nat),
        match ev {
            ReplayEvent::TogglePause => n == (ReplayState { paused: !s.paused, ..s }),
            ReplayEvent::Next => n == (if turns > 0 {
                ReplayState {
                    turn_idx: if s.turn_idx + 1 < turns {
                        (s.turn_idx + 1) as usize
                    } else {
                        (turns - 1) as usize
                    },
                    dirty: true,
                    ..s
                }
            } else {
                s
            }),
            ReplayEvent::Previous => n == (if turns > 0 {
                ReplayState {
                    turn_idx: if s.turn_idx > 0 {
                        (s.turn_idx - 1) as usize
                    } else {
                        0
                    },
                    dirty: true,
                    ..s
                }
            } else {
                s
            }),
            ReplayEvent::First => n == (ReplayState { turn_idx: 0, dirty: true, ..s }),
            ReplayEvent::Last => n == (if turns > 0 {
                ReplayState { turn_idx: (turns - 1) as usize, dirty: true, ..s }
            } else {
                s
            }),
            ReplayEvent::Tick => n == (if !s.paused && turns > 0 {
                if s.turn_idx + 1 < turns {
                    ReplayState { turn_idx: (s.turn_idx + 1) as usize, dirty: true, ..s }
                } else {
                    ReplayState { paused: true, ..s }
                }
            } else {
                s
            }),
        },
{
    match ev {
        ReplayEvent::TogglePause => ReplayState { paused: !s.paused, ..s },
        ReplayEvent::Next => {
            if turns > 0 {
                let next = if s.turn_idx + 1 < turns {
                    s.turn_idx + 1
                } else {
                    turns - 1
                };
                ReplayState { turn_idx: next, dirty: true, ..s }
            } else {
                s
            }
        },
        ReplayEvent::Previous => {
            if turns > 0 {
                ReplayState { turn_idx: s.turn_idx.saturating_sub(1), dirty: true, ..s }
            } else {
                s
            }
        },
        ReplayEvent::First => ReplayState { turn_idx: 0, dirty: true, ..s },
        ReplayEvent::Last => {
            if turns > 0 {
                ReplayState { turn_idx: turns - 1, dirty: true, ..s }
            } else {
                s
            }
        },
        ReplayEvent::Tick => {
            if !s.paused && turns > 0 {
                if s.turn_idx + 1 < turns {
                    ReplayState { turn_idx: s.turn_idx + 1, dirty: true, ..s }
                } else {
                    ReplayState { paused: true, ..s }
                }
            } else {
                s
            }
        },
    }
}

// ---------------------------------------------------------------------------
// What a cell shows
// ---------------------------------------------------------------------------

/// What a cell of the world shows.
#[derive(Clone, Copy, PartialEq, Eq, Debug, Structural)]
pub enum CellKind {
    Power,
    Mine,
    Opponent,
    OtherSnake,
    Wall,
    Empty,
}

/// One of the first `count` id slots of `ids` holds snake `id`.
pub open spec fn listed(ids: Seq<u8>, count: int, id: i16) -> bool {
    exists|i: int| 0 <= i < count && i < ids.len() && #[trigger] ids[i] == id as u8
}

/// What cell `idx` of `world` shows: a power source; a snake of mine, of the opponent,
/// or of neither list; else its terrain.
pub open spec fn kind_of(world: WorldState, idx: int) -> CellKind {
    let occ = world.occupancy@[idx];
    if occ == OCC_POWER {
        CellKind::Power
    } else if occ >= 0 {
        if listed(world.my_snakebot_ids@, world.my_snakebot_count as int, occ) {
            CellKind::Mine
        } else if listed(world.opp_snakebot_ids@, world.opp_snakebot_count as int, occ) {
            CellKind::Opponent
        } else {
            CellKind::OtherSnake
        }
    } else if world.terrain@[idx] == Terrain::Wall {
        CellKind::Wall
    } else {
        CellKind::Empty
    }
}

/// A cell shows as a power source exactly where it holds one; a cell that holds a snake
/// shows as mine exactly where one of my listed ids, any of the first
/// `my_snakebot_count` slots, is that snake's id; else as the opponent's exactly where one
/// of the opponent's listed ids is; else as another snake.
pub proof fn law_cell_kind_shows(world: WorldState, idx: int)
    requires
        world.wf(),
        0 <= idx < MAX_CELLS,
    ensures
        (kind_of(world, idx) == CellKind::Power) == (world.occupancy@[idx] == OCC_POWER),
        world.occupancy@[idx] >= 0 ==> ((kind_of(world, idx) == CellKind::Mine) == exists|i: int|
            0 <= i < world.my_snakebot_count && 0 <= i < world.my_snakebot_ids@.len()
                && #[trigger] world.my_snakebot_ids@[i] == world.occupancy@[idx] as u8),
        world.occupancy@[idx] >= 0 && kind_of(world, idx) != CellKind::Mine ==> ((kind_of(world, idx)
            == CellKind::Opponent) == exists|i: int|
            0 <= i < world.opp_snakebot_count && 0 <= i < world.opp_snakebot_ids@.len()
                && #[trigger] world.opp_snakebot_ids@[i] == world.occupancy@[idx] as u8),
        world.occupancy@[idx] >= 0 ==> kind_of(world, idx) == CellKind::Mine || kind_of(world, idx)
            == CellKind::Opponent || kind_of(world, idx) == CellKind::OtherSnake,
{
}

/// Whether one of the first `count` slots of `ids` holds snake `id`.
fn is_listed(ids: &Vec<u8>, count: u8, id: i16) -> (r: bool)
    ensures
        r == listed(ids@, count as int, id),
{
    let n = ids.len();
    let mut i: usize = 0;
    while i < n && i < count as usize
        invariant
            n == ids@.len(),
            i <= n,
            forall|k: int| 0 <= k < i ==> #[trigger] ids@[k] != id as u8,
        decreases n - i,
    {
        if ids[i] == id as u8 {
            return true;
        }
        i = i + 1;
    }
    false
}

/// What cell `idx` of `world` shows; see `kind_of`.
pub fn cell_kind(world: &WorldState, idx: usize) -> (r: CellKind)
    requires
        world.wf(),
        idx < MAX_CELLS,
    ensures
        r == kind_of(*world, idx as int),
{
    let occ = world.occupancy[idx];
    if occ == OCC_POWER {
        CellKind::Power
    } else if occ >= 0 {
        if is_listed(&world.my_snakebot_ids, world.my_snakebot_count, occ) {
            CellKind::Mine
        } else if is_listed(&world.opp_snakebot_ids, world.opp_snakebot_count, occ) {
            CellKind::Opponent
        } else {
            CellKind::OtherSnake
        }
    } else {
        match world.terrain[idx] {
            Terrain::Wall => CellKind::Wall,
            Terrain::Empty => CellKind::Empty,
        }
    }
}

} // verus!
