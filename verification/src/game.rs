use vstd::prelude::*;
use crate::text::{decimal, push_decimal};

verus! {

/// Widest grid the game uses.
pub const MAX_WIDTH: usize = 44;

/// Tallest grid the game uses.
pub const MAX_HEIGHT: usize = 24;

/// Number of cells of the largest grid; every per-cell table has this many entries.
pub const MAX_CELLS: usize = MAX_WIDTH * MAX_HEIGHT;

/// Number of snake slots of a `FastWorld`.
pub const MAX_SNAKES: usize = 16;

/// Number of body slots of a `FastSnake`.
pub const MAX_SNAKE_LEN: usize = 128;

/// Number of power source slots of a `FastWorld`.
pub const MAX_FOOD: usize = 128;

/// Occupancy value of a cell that holds nothing.
pub const OCC_EMPTY: i16 = -1;

/// Occupancy value of a cell that holds a power source.
pub const OCC_POWER: i16 = -2;

pub const DIR_UP: usize = 0;
pub const DIR_RIGHT: usize = 1;
pub const DIR_DOWN: usize = 2;
pub const DIR_LEFT: usize = 3;

/// Number of directions a snake can move in.
pub const DIR_COUNT: usize = 4;

/// Index of a cell in the row-major flattening of the grid.
pub type CellIndex = u16;

/// A grid position: column `x`, row `y`.
#[derive(Clone, Copy, PartialEq, Eq, Debug, Structural)]
pub struct Cell {
    pub x: u8,
    pub y: u8,
}

/// What the ground of a cell is made of.
#[derive(Clone, Copy, PartialEq, Eq, Debug, Structural)]
pub enum Terrain {
    Empty,
    Wall,
}

/// The name under which the input format speaks of a cell's terrain.
pub type TerrainCell = Terrain;

/// A snake as the referee describes it in a turn: its id and its body, head first.
#[derive(Clone, Debug)]
pub struct SnakeBot {
    pub snakebot_id: i32,
    pub body: Vec<Cell>,
}

/// What the referee says once, before the first turn.
#[derive(Clone, Debug)]
pub struct InitialState {
    pub my_id: i32,
    pub width: usize,
    pub height: usize,
    /// Row-major terrain of the grid.
    pub terrain: Vec<Terrain>,
    pub my_snakebot_ids: Vec<i32>,
    pub opp_snakebot_ids: Vec<i32>,
}

/// A power source on the grid.
#[derive(Clone, Copy, Debug)]
pub struct PowerSource {
    pub pos: Cell,
}

/// What the referee says at the start of each turn.
#[derive(Clone, Debug)]
pub struct TurnState {
    pub power_sources: Vec<PowerSource>,
    pub snakebots: Vec<SnakeBot>,
}

// ---------------------------------------------------------------------------
// Values of the messages
// ---------------------------------------------------------------------------

/// A snake as a value: its id and its body, head first.
#[verifier::ext_equal]
pub struct SnakeModel {
    pub snakebot_id: i32,
    pub body: Seq<Cell>,
}

impl View for SnakeBot {
    type V = SnakeModel;

    open spec fn view(&self) -> SnakeModel {
        SnakeModel { snakebot_id: self.snakebot_id, body: self.body@ }
    }
}

/// The referee's opening message as a value.
#[verifier::ext_equal]
pub struct InitialModel {
    pub my_id: i32,
    pub width: usize,
    pub height: usize,
    pub terrain: Seq<Terrain>,
    pub my_snakebot_ids: Seq<i32>,
    pub opp_snakebot_ids: Seq<i32>,
}

impl View for InitialState {
    type V = InitialModel;

    open spec fn view(&self) -> InitialModel {
        InitialModel {
            my_id: self.my_id,
            width: self.width,
            height: self.height,
            terrain: self.terrain@,
            my_snakebot_ids: self.my_snakebot_ids@,
            opp_snakebot_ids: self.opp_snakebot_ids@,
        }
    }
}

/// A turn message as a value: the cells of the power sources, and the snakes.
#[verifier::ext_equal]
pub struct TurnModel {
    pub power_sources: Seq<Cell>,
    pub snakebots: Seq<SnakeModel>,
}

impl View for TurnState {
    type V = TurnModel;

    open spec fn view(&self) -> TurnModel {
        TurnModel {
            power_sources: self.power_sources@.map_values(|p: PowerSource| p.pos),
            snakebots: self.snakebots@.map_values(|s: SnakeBot| s@),
        }
    }
}

// ---------------------------------------------------------------------------
// Cells and what a turn puts on them
// ---------------------------------------------------------------------------

/// Flat index of grid position `(x, y)` in a grid `width` cells wide.
pub open spec fn flat(x: int, y: int, width: int) -> int {
    y * width + x
}

/// Flat index of a cell in a grid `width` cells wide.
pub open spec fn cell_of(c: Cell, width: int) -> int {
    flat(c.x as int, c.y as int, width)
}

/// `c` is one of the cells of the body of `s`.
pub open spec fn snake_covers(s: SnakeBot, width: int, c: int) -> bool {
    exists|j: int| 0 <= j < s.body@.len() && #[trigger] cell_of(s.body@[j], width) == c
}

/// The id of the last snake of `snakes` whose body covers `c`, if any.
pub open spec fn top_snake(snakes: Seq<SnakeBot>, width: int, c: int) -> Option<i32>
    decreases snakes.len(),
{
    if snakes.len() == 0 {
        None
    } else if snake_covers(snakes.last(), width, c) {
        Some(snakes.last().snakebot_id)
    } else {
        top_snake(snakes.drop_last(), width, c)
    }
}

/// Some power source of `powers` stands on `c`.
pub open spec fn power_at(powers: Seq<PowerSource>, width: int, c: int) -> bool {
    exists|i: int| 0 <= i < powers.len() && #[trigger] cell_of(powers[i].pos, width) == c
}

/// What a cell holds in a turn: the id of the last snake listed on it, else a power
/// source, else nothing.
pub open spec fn occupant(powers: Seq<PowerSource>, snakes: Seq<SnakeBot>, width: int, c: int) -> i16 {
    match top_snake(snakes, width, c) {
        Some(id) => id as i16,
        None => if power_at(powers, width, c) {
            OCC_POWER
        } else {
            OCC_EMPTY
        },
    }
}

/// The occupancy table that a turn describes.
pub open spec fn turn_occupancy(turn: TurnState, width: int) -> Seq<i16> {
    Seq::new(MAX_CELLS as nat, |c: int| occupant(turn.power_sources@, turn.snakebots@, width, c))
}

/// Every position the turn names lies within the per-cell tables.
pub open spec fn turn_fits(turn: TurnState, width: int) -> bool {
    &&& forall|i: int|
        0 <= i < turn.power_sources@.len() ==> #[trigger] cell_of(turn.power_sources@[i].pos, width)
            < MAX_CELLS
    &&& forall|k: int, j: int|
        0 <= k < turn.snakebots@.len() && 0 <= j < turn.snakebots@[k].body@.len()
            ==> #[trigger] cell_of(turn.snakebots@[k].body@[j], width) < MAX_CELLS
}

/// A table of `MAX_CELLS` empty cells.
pub open spec fn empty_occupancy() -> Seq<i16> {
    Seq::new(MAX_CELLS as nat, |c: int| OCC_EMPTY)
}

fn flat_index(c: Cell, width: usize) -> (r: usize)
    requires
        cell_of(c, width as int) < MAX_CELLS,
    ensures
        r == cell_of(c, width as int),
{
    c.y as usize * width + c.x as usize
}

/// Fills a cleared occupancy table with what `turn` describes.
fn paint_turn(occupancy: &mut Vec<i16>, turn: &TurnState, width: usize)
    requires
        old(occupancy)@ == empty_occupancy(),
        turn_fits(*turn, width as int),
    ensures
        final(occupancy)@ == turn_occupancy(*turn, width as int),
{
    let ghost w = width as int;
    let ghost powers = turn.power_sources@;
    let ghost snakes = turn.snakebots@;
    let n = turn.power_sources.len();
    let mut i: usize = 0;
    while i < n
        invariant
            n == powers.len(),
            powers == turn.power_sources@,
            w == width,
            i <= n,
            turn_fits(*turn, w),
            occupancy@.len() == MAX_CELLS,
            forall|c: int|
                0 <= c < MAX_CELLS ==> #[trigger] occupancy@[c] == if power_at(powers.take(i as int), w, c) {
                    OCC_POWER
                } else {
                    OCC_EMPTY
                },
        decreases n - i,
    {
        let idx = flat_index(turn.power_sources[i].pos, width);
        occupancy.set(idx, OCC_POWER);
        proof {
            assert forall|c: int| 0 <= c < MAX_CELLS implies #[trigger] occupancy@[c] == if power_at(
                powers.take(i + 1),
                w,
                c,
            ) {
                OCC_POWER
            } else {
                OCC_EMPTY
            } by {
                let t0 = powers.take(i as int);
                let t1 = powers.take(i + 1);
                if power_at(t0, w, c) {
                    let k = choose|k: int| 0 <= k < t0.len() && #[trigger] cell_of(t0[k].pos, w) == c;
                    assert(t1[k] == t0[k]);
                }
                if power_at(t1, w, c) {
                    let k = choose|k: int| 0 <= k < t1.len() && #[trigger] cell_of(t1[k].pos, w) == c;
                    if k < i {
                        assert(t0[k] == t1[k]);
                    }
                }
                if c == idx {
                    assert(cell_of(t1[i as int].pos, w) == c);
                }
            }
        }
        i = i + 1;
    }
    assert(powers.take(n as int) =~= powers);
    let m = turn.snakebots.len();
    let mut k: usize = 0;
    while k < m
        invariant
            m == snakes.len(),
            snakes == turn.snakebots@,
            powers == turn.power_sources@,
            w == width,
            k <= m,
            turn_fits(*turn, w),
            occupancy@.len() == MAX_CELLS,
            forall|c: int|
                0 <= c < MAX_CELLS ==> #[trigger] occupancy@[c] == occupant(
                    powers,
                    snakes.take(k as int),
                    w,
                    c,
                ),
        decreases m - k,
    {
        let snake = &turn.snakebots[k];
        let id = snake.snakebot_id as i16;
        let blen = snake.body.len();
        let ghost before = occupancy@;
        let mut j: usize = 0;
        while j < blen
            invariant
                blen == snake.body@.len(),
                *snake == snakes[k as int],
                k < m,
                m == snakes.len(),
                snakes == turn.snakebots@,
                w == width,
                j <= blen,
                id == snake.snakebot_id as i16,
                turn_fits(*turn, w),
                before.len() == MAX_CELLS,
                occupancy@.len() == MAX_CELLS,
                forall|c: int|
                    0 <= c < MAX_CELLS ==> #[trigger] occupancy@[c] == if (exists|jj: int|
                        0 <= jj < j && #[trigger] cell_of(snake.body@[jj], w) == c) {
                        id
                    } else {
                        before[c]
                    },
            decreases blen - j,
        {
            assert(cell_of(turn.snakebots@[k as int].body@[j as int], w) < MAX_CELLS);
            let idx = flat_index(snake.body[j], width);
            occupancy.set(idx, id);
            proof {
                assert forall|c: int| 0 <= c < MAX_CELLS implies #[trigger] occupancy@[c] == if (exists|
                    jj: int,
                |
                    0 <= jj < j + 1 && #[trigger] cell_of(snake.body@[jj], w) == c) {
                    id
                } else {
                    before[c]
                } by {
                    if c == idx {
                        assert(cell_of(snake.body@[j as int], w) == c);
                    }
                }
            }
            j = j + 1;
        }
        proof {
            let t0 = snakes.take(k as int);
            let t1 = snakes.take(k + 1);
            assert(t1.drop_last() =~= t0);
            assert(t1.last() == snakes[k as int]);
            assert forall|c: int| 0 <= c < MAX_CELLS implies #[trigger] occupancy@[c] == occupant(
                powers,
                t1,
                w,
                c,
            ) by {
                if snake_covers(snakes[k as int], w, c) {
                    let jj = choose|jj: int|
                        0 <= jj < snake.body@.len() && #[trigger] cell_of(snake.body@[jj], w) == c;
                    assert(cell_of(snake.body@[jj], w) == c);
                }
            }
        }
        k = k + 1;
    }
    assert(snakes.take(m as int) =~= snakes);
    assert(occupancy@ =~= turn_occupancy(*turn, w));
}


// ---------------------------------------------------------------------------
// The world as the referee describes it
// ---------------------------------------------------------------------------

/// The snake id slots of a world: the first `MAX_SNAKES` ids, each cut to a byte,
/// and zero in the slots past the list.
pub open spec fn id_slots(ids: Seq<i32>) -> Seq<u8> {
    Seq::new(MAX_SNAKES as nat, |i: int| if i < ids.len() { ids[i] as u8 } else { 0u8 })
}

/// The terrain table of a world: the given terrain, cut or padded with empty cells to
/// `MAX_CELLS` entries.
pub open spec fn terrain_table(t: Seq<Terrain>) -> Seq<Terrain> {
    Seq::new(MAX_CELLS as nat, |c: int| if c < t.len() { t[c] } else { Terrain::Empty })
}

/// The cell at `(x, y)` of a grid `width` by `height` lies within the first
/// `width * height` flat indices.
pub proof fn lemma_flat_in_grid(x: int, y: int, width: int, height: int)
    requires
        0 <= x < width,
        0 <= y < height,
    ensures
        0 <= flat(x, y, width) < width * height,
{
    assert(y * width + width <= height * width) by (nonlinear_arith)
        requires
            0 <= y < height,
            0 <= width,
    ;
    assert(0 <= y * width) by (nonlinear_arith)
        requires
            0 <= y,
            0 <= width,
    ;
    assert(height * width == width * height) by (nonlinear_arith);
}

/// The state of the game that the referee gave so far, one table entry per cell.
#[derive(Clone, Debug)]
pub struct WorldState {
    pub my_id: i32,
    pub width: usize,
    pub height: usize,
    pub terrain: Vec<Terrain>,
    /// `OCC_EMPTY`, `OCC_POWER`, or the id of the snake on the cell.
    pub occupancy: Vec<i16>,
    pub my_snakebot_ids: Vec<u8>,
    pub my_snakebot_count: u8,
    pub opp_snakebot_ids: Vec<u8>,
    pub opp_snakebot_count: u8,
}

impl WorldState {
    /// The tables have their fixed sizes.
    pub open spec fn wf(&self) -> bool {
        &&& self.terrain@.len() == MAX_CELLS
        &&& self.occupancy@.len() == MAX_CELLS
        &&& self.my_snakebot_ids@.len() == MAX_SNAKES
        &&& self.opp_snakebot_ids@.len() == MAX_SNAKES
    }

    /// The character that shows cell `c`.
    pub open spec fn cell_char(&self, c: int) -> char {
        let o = self.occupancy@[c];
        if o == OCC_POWER {
            '*'
        } else if o >= 0 {
            if self.my_snakebot_ids@.contains(o as u8) {
                'M'
            } else {
                'S'
            }
        } else if self.terrain@[c] == Terrain::Wall {
            '#'
        } else {
            '.'
        }
    }

    /// A cell shows `*` exactly where it holds a power source; a cell that holds a snake
    /// shows `M` exactly where one of my id slots, any of them, holds that snake's id,
    /// and `S` otherwise.
    pub proof fn law_cell_char_shows(&self, c: int)
        requires
            self.wf(),
            0 <= c < MAX_CELLS,
        ensures
            (self.cell_char(c) == '*') == (self.occupancy@[c] == OCC_POWER),
            self.occupancy@[c] >= 0 ==> ((self.cell_char(c) == 'M') == exists|i: int|
                0 <= i < MAX_SNAKES && #[trigger] self.my_snakebot_ids@[i] == self.occupancy@[c] as u8),
            self.occupancy@[c] >= 0 ==> (self.cell_char(c) == 'M' || self.cell_char(c) == 'S'),
    {
        let o = self.occupancy@[c];
        if o >= 0 {
            if self.my_snakebot_ids@.contains(o as u8) {
                let i = choose|i: int| 0 <= i < self.my_snakebot_ids@.len() && self.my_snakebot_ids@[i] == o as u8;
                assert(self.my_snakebot_ids@[i] == o as u8);
            } else {
                assert forall|i: int| 0 <= i < MAX_SNAKES implies #[trigger] self.my_snakebot_ids@[i] != o as u8 by {
                    if self.my_snakebot_ids@[i] == o as u8 {
                        assert(self.my_snakebot_ids@.contains(o as u8));
                    }
                }
            }
        }
    }

    /// Row `y` of the picture.
    pub open spec fn row_text(&self, y: int) -> Seq<char> {
        Seq::new(self.width as nat, |x: int| self.cell_char(flat(x, y, self.width as int)))
    }

    /// The first `k` rows of the picture, separated by line breaks.
    pub open spec fn rows_text(&self, k: nat) -> Seq<char>
        decreases k,
    {
        if k == 0 {
            Seq::empty()
        } else if k == 1 {
            self.row_text(0)
        } else {
            self.rows_text((k - 1) as nat) + seq!['\n'] + self.row_text(k - 1)
        }
    }

    fn idx(&self, x: usize, y: usize) -> (r: usize)
        requires
            flat(x as int, y as int, self.width as int) <= usize::MAX,
        ensures
            r == flat(x as int, y as int, self.width as int),
    {
        y * self.width + x
    }

    #[allow(dead_code)]
    fn xy(&self, cell: CellIndex) -> (r: (usize, usize))
        requires
            self.width > 0,
        ensures
            (r.0 as int, r.1 as int) == unflat(cell as int, self.width as int),
    {
        let c = cell as usize;
        (c % self.width, c / self.width)
    }

    /// The world before the first turn: the referee's grid and snake ids, and no
    /// snake or power source on any cell.
    pub fn from_initial(initial: InitialState) -> (world: Self)
        ensures
            world.wf(),
            world.my_id == initial.my_id,
            world.width == initial.width,
            world.height == initial.height,
            world.terrain@ == terrain_table(initial.terrain@),
            world.occupancy@ == empty_occupancy(),
            world.my_snakebot_ids@ == id_slots(initial.my_snakebot_ids@),
            world.my_snakebot_count == initial.my_snakebot_ids@.len() as u8,
            world.opp_snakebot_ids@ == id_slots(initial.opp_snakebot_ids@),
            world.opp_snakebot_count == initial.opp_snakebot_ids@.len() as u8,
    {
        let my_ids = id_slots_of(&initial.my_snakebot_ids);
        let opp_ids = id_slots_of(&initial.opp_snakebot_ids);
        let mut terrain: Vec<Terrain> = Vec::new();
        let tlen = initial.terrain.len();
        let mut c: usize = 0;
        while c < MAX_CELLS
            invariant
                c <= MAX_CELLS,
                tlen == initial.terrain@.len(),
                terrain@ =~= terrain_table(initial.terrain@).take(c as int),
            decreases MAX_CELLS - c,
        {
            if c < tlen {
                terrain.push(initial.terrain[c]);
            } else {
                terrain.push(Terrain::Empty);
            }
            c = c + 1;
        }
        WorldState {
            my_id: initial.my_id,
            width: initial.width,
            height: initial.height,
            terrain,
            occupancy: empty_table(),
            my_snakebot_ids: my_ids,
            my_snakebot_count: initial.my_snakebot_ids.len() as u8,
            opp_snakebot_ids: opp_ids,
            opp_snakebot_count: initial.opp_snakebot_ids.len() as u8,
        }
    }

    fn clear_occupancy(&mut self)
        requires
            old(self).wf(),
        ensures
            final(self).occupancy@ == empty_occupancy(),
            final(self).my_id == old(self).my_id,
            final(self).width == old(self).width,
            final(self).height == old(self).height,
            final(self).terrain == old(self).terrain,
            final(self).my_snakebot_ids == old(self).my_snakebot_ids,
            final(self).my_snakebot_count == old(self).my_snakebot_count,
            final(self).opp_snakebot_ids == old(self).opp_snakebot_ids,
            final(self).opp_snakebot_count == old(self).opp_snakebot_count,
    {
        clear_table(&mut self.occupancy);
    }

    /// Puts the power sources and snakes of `turn` on the grid, in place of those of
    /// earlier turns.
    pub fn apply_turn(&mut self, turn: &TurnState)
        requires
            old(self).wf(),
            turn_fits(*turn, old(self).width as int),
        ensures
            final(self).wf(),
            final(self).occupancy@ == turn_occupancy(*turn, old(self).width as int),
            final(self).my_id == old(self).my_id,
            final(self).width == old(self).width,
            final(self).height == old(self).height,
            final(self).terrain == old(self).terrain,
            final(self).my_snakebot_ids == old(self).my_snakebot_ids,
            final(self).my_snakebot_count == old(self).my_snakebot_count,
            final(self).opp_snakebot_ids == old(self).opp_snakebot_ids,
            final(self).opp_snakebot_count == old(self).opp_snakebot_count,
    {
        self.clear_occupancy();
        paint_turn(&mut self.occupancy, turn, self.width);
    }

    /// The grid as text, one line per row: `*` for a power source, `M` for a snake
    /// whose id is among my snake id slots, `S` for another snake, `#` for a wall and
    /// `.` for an empty cell.
    pub fn render_ascii(&self) -> (out: String)
        requires
            self.wf(),
            self.width * self.height <= MAX_CELLS,
        ensures
            out@ == self.rows_text(self.height as nat),
    {
        let mut out = String::new();
        let w = self.width;
        let h = self.height;
        let mut y: usize = 0;
        while y < h
            invariant
                self.wf(),
                w == self.width,
                h == self.height,
                w * h <= MAX_CELLS,
                y <= h,
                out@ == (if y == 0 {
                    Seq::empty()
                } else if y < h {
                    self.rows_text(y as nat) + seq!['\n']
                } else {
                    self.rows_text(y as nat)
                }),
            decreases h - y,
        {
            let ghost prefix = out@;
            let mut x: usize = 0;
            while x < w
                invariant
                    self.wf(),
                    w == self.width,
                    h == self.height,
                    w * h <= MAX_CELLS,
                    y < h,
                    x <= w,
                    out@ == prefix + self.row_text(y as int).take(x as int),
                decreases w - x,
            {
                proof {
                    lemma_flat_in_grid(x as int, y as int, w as int, h as int);
                }
                let idx = self.idx(x, y);
                let ch = self.cell_char_at(idx);
                out.push(ch);
                proof {
                    assert(self.row_text(y as int).take(x + 1) =~= self.row_text(y as int).take(
                        x as int,
                    ).push(ch));
                }
                x = x + 1;
            }
            assert(self.row_text(y as int).take(w as int) =~= self.row_text(y as int));
            if y + 1 < h {
                out.push('\n');
            }
            y = y + 1;
        }
        out
    }

    fn cell_char_at(&self, idx: usize) -> (ch: char)
        requires
            self.wf(),
            idx < MAX_CELLS,
        ensures
            ch == self.cell_char(idx as int),
    {
        let o = self.occupancy[idx];
        if o == OCC_POWER {
            '*'
        } else if o >= 0 {
            if contains_byte(&self.my_snakebot_ids, o as u8) {
                'M'
            } else {
                'S'
            }
        } else {
            match self.terrain[idx] {
                Terrain::Wall => '#',
                Terrain::Empty => '.',
            }
        }
    }
}

/// `v` holds `b` somewhere.
fn contains_byte(v: &Vec<u8>, b: u8) -> (r: bool)
    ensures
        r == v@.contains(b),
{
    let n = v.len();
    let mut i: usize = 0;
    while i < n
        invariant
            n == v@.len(),
            i <= n,
            forall|k: int| 0 <= k < i ==> v@[k] != b,
        decreases n - i,
    {
        if v[i] == b {
            assert(v@[i as int] == b);
            return true;
        }
        i = i + 1;
    }
    false
}

fn id_slots_of(ids: &Vec<i32>) -> (r: Vec<u8>)
    ensures
        r@ == id_slots(ids@),
{
    let n = ids.len();
    let mut r: Vec<u8> = Vec::new();
    let mut i: usize = 0;
    while i < MAX_SNAKES
        invariant
            i <= MAX_SNAKES,
            n == ids@.len(),
            r@ =~= id_slots(ids@).take(i as int),
        decreases MAX_SNAKES - i,
    {
        if i < n {
            r.push(ids[i] as u8);
        } else {
            r.push(0u8);
        }
        i = i + 1;
    }
    r
}

/// A table of `MAX_CELLS` empty cells.
fn empty_table() -> (r: Vec<i16>)
    ensures
        r@ == empty_occupancy(),
{
    let mut r: Vec<i16> = Vec::new();
    let mut i: usize = 0;
    while i < MAX_CELLS
        invariant
            i <= MAX_CELLS,
            r@ =~= empty_occupancy().take(i as int),
        decreases MAX_CELLS - i,
    {
        r.push(OCC_EMPTY);
        i = i + 1;
    }
    r
}

/// Empties every cell of a table of `MAX_CELLS` cells.
fn clear_table(t: &mut Vec<i16>)
    requires
        old(t)@.len() == MAX_CELLS,
    ensures
        final(t)@ == empty_occupancy(),
{
    let mut i: usize = 0;
    while i < MAX_CELLS
        invariant
            i <= MAX_CELLS,
            t@.len() == MAX_CELLS,
            forall|c: int| 0 <= c < i ==> t@[c] == OCC_EMPTY,
        decreases MAX_CELLS - i,
    {
        t.set(i, OCC_EMPTY);
        i = i + 1;
    }
    assert(t@ =~= empty_occupancy());
}


// ---------------------------------------------------------------------------
// The neighbor table
// ---------------------------------------------------------------------------

/// The cell one step from `(x, y)` in direction `d`, or `(x, y)` itself where that
/// step would leave a grid of `width` by `height`.
pub open spec fn neighbor_cell(width: int, height: int, x: int, y: int, d: int) -> int {
    if d == DIR_UP {
        if y > 0 {
            flat(x, y - 1, width)
        } else {
            flat(x, y, width)
        }
    } else if d == DIR_RIGHT {
        if x + 1 < width {
            flat(x + 1, y, width)
        } else {
            flat(x, y, width)
        }
    } else if d == DIR_DOWN {
        if y + 1 < height {
            flat(x, y + 1, width)
        } else {
            flat(x, y, width)
        }
    } else {
        if x > 0 {
            flat(x - 1, y, width)
        } else {
            flat(x, y, width)
        }
    }
}

/// `nb` is the neighbor table of a grid of `width` by `height`: for each cell of the
/// grid, its neighbor in each direction, and zeros for the cells past the grid.
pub open spec fn neighbors_of_grid(nb: Seq<[CellIndex; DIR_COUNT]>, width: int, height: int) -> bool {
    &&& nb.len() == MAX_CELLS
    &&& forall|x: int, y: int, d: int|
        0 <= x < width && 0 <= y < height && 0 <= d < DIR_COUNT ==> #[trigger] nb[flat(x, y, width)][d]
            as int == neighbor_cell(width, height, x, y, d)
    &&& forall|c: int, d: int|
        width * height <= c < MAX_CELLS && 0 <= d < DIR_COUNT ==> #[trigger] nb[c][d] == 0
}

proof fn lemma_next_row(y: int, width: int)
    ensures
        (y + 1) * width == y * width + width,
        (y - 1) * width == y * width - width,
{
    assert((y + 1) * width == y * width + width) by (nonlinear_arith);
    assert((y - 1) * width == y * width - width) by (nonlinear_arith);
}

fn build_neighbors(width: usize, height: usize) -> (nb: Vec<[CellIndex; DIR_COUNT]>)
    requires
        width * height <= MAX_CELLS,
    ensures
        neighbors_of_grid(nb@, width as int, height as int),
{
    let mut nb: Vec<[CellIndex; DIR_COUNT]> = Vec::new();
    let mut i: usize = 0;
    while i < MAX_CELLS
        invariant
            i <= MAX_CELLS,
            nb@.len() == i,
            forall|c: int, d: int| 0 <= c < i && 0 <= d < DIR_COUNT ==> #[trigger] nb@[c][d] == 0,
        decreases MAX_CELLS - i,
    {
        let zeros: [CellIndex; DIR_COUNT] = [0, 0, 0, 0];
        nb.push(zeros);
        i = i + 1;
    }
    let ghost w = width as int;
    let ghost h = height as int;
    let total = width * height;
    let mut c: usize = 0;
    let mut y: usize = 0;
    while y < height
        invariant
            w == width,
            h == height,
            total == w * h,
            w * h <= MAX_CELLS,
            y <= height,
            c == y * w,
            c <= total,
            nb@.len() == MAX_CELLS,
            forall|xx: int, yy: int, d: int|
                0 <= xx < w && 0 <= yy < y && 0 <= d < DIR_COUNT ==> #[trigger] nb@[flat(xx, yy, w)][d]
                    as int == neighbor_cell(w, h, xx, yy, d),
            forall|cc: int, d: int|
                c <= cc < MAX_CELLS && 0 <= d < DIR_COUNT ==> #[trigger] nb@[cc][d] == 0,
        decreases height - y,
    {
        proof {
            lemma_next_row(y as int, w);
        }
        let mut x: usize = 0;
        while x < width
            invariant
                w == width,
                h == height,
                total == w * h,
                w * h <= MAX_CELLS,
                y < height,
                x <= width,
                c == y * w + x,
                nb@.len() == MAX_CELLS,
                (y + 1) * w == y * w + w,
                (y - 1) * w == y * w - w,
                forall|xx: int, yy: int, d: int|
                    0 <= xx < w && 0 <= yy < h && 0 <= d < DIR_COUNT && (yy < y || (yy == y && xx
                        < x)) ==> #[trigger] nb@[flat(xx, yy, w)][d] as int == neighbor_cell(
                        w,
                        h,
                        xx,
                        yy,
                        d,
                    ),
                forall|cc: int, d: int|
                    c <= cc < MAX_CELLS && 0 <= d < DIR_COUNT ==> #[trigger] nb@[cc][d] == 0,
            decreases width - x,
        {
            proof {
                lemma_flat_in_grid(x as int, y as int, w, h);
            }
            let up: CellIndex = if y > 0 {
                (c - width) as CellIndex
            } else {
                c as CellIndex
            };
            let right: CellIndex = if x + 1 < width {
                (c + 1) as CellIndex
            } else {
                c as CellIndex
            };
            let down: CellIndex = if y + 1 < height {
                proof {
                    lemma_flat_in_grid(x as int, y + 1, w, h);
                }
                (c + width) as CellIndex
            } else {
                c as CellIndex
            };
            let left: CellIndex = if x > 0 {
                (c - 1) as CellIndex
            } else {
                c as CellIndex
            };
            let entry: [CellIndex; DIR_COUNT] = [up, right, down, left];
            assert(entry[0] == up && entry[1] == right && entry[2] == down && entry[3] == left);
            let ghost old_nb = nb@;
            nb.set(c, entry);
            proof {
                assert forall|xx: int, yy: int, d: int|
                    0 <= xx < w && 0 <= yy < h && 0 <= d < DIR_COUNT && (yy < y || (yy == y && xx
                        < x + 1)) implies #[trigger] nb@[flat(xx, yy, w)][d] as int
                    == neighbor_cell(w, h, xx, yy, d) by {
                    if yy == y && xx == x {
                        assert(flat(xx, yy, w) == c);
                    } else {
                        if yy < y {
                            lemma_flat_in_grid(xx, yy, w, y as int);
                            assert(flat(xx, yy, w) < y * w) by (nonlinear_arith)
                                requires
                                    flat(xx, yy, w) < w * y,
                            ;
                        }
                        assert(flat(xx, yy, w) != c);
                        assert(nb@[flat(xx, yy, w)] == old_nb[flat(xx, yy, w)]);
                    }
                }
            }
            c = c + 1;
            x = x + 1;
        }
        proof {
            assert((y + 1) * w <= w * h) by (nonlinear_arith)
                requires
                    y + 1 <= h,
                    w >= 0,
            ;
        }
        y = y + 1;
    }
    proof {
        assert forall|xx: int, yy: int, d: int|
            0 <= xx < w && 0 <= yy < h && 0 <= d < DIR_COUNT implies #[trigger] nb@[flat(xx, yy, w)][d]
            as int == neighbor_cell(w, h, xx, yy, d) by {}
    }
    nb
}


// ---------------------------------------------------------------------------
// The fixed-size world
// ---------------------------------------------------------------------------

/// A snake in the fixed-size form that the simulation works on: `body[0..len]` is the
/// body, head first, as flat cell indices.
#[derive(Clone, Debug)]
pub struct FastSnake {
    pub id: i32,
    pub len: usize,
    pub body: Vec<CellIndex>,
}

/// The body slots of a snake whose body is `b`: its cells as flat indices, then zeros.
pub open spec fn body_table(b: Seq<Cell>, width: int) -> Seq<CellIndex> {
    Seq::new(
        MAX_SNAKE_LEN as nat,
        |j: int| if j < b.len() { cell_of(b[j], width) as CellIndex } else { 0 },
    )
}

/// The power slots for the power sources `p`: their cells as flat indices, then zeros.
pub open spec fn power_table(p: Seq<PowerSource>, width: int) -> Seq<CellIndex> {
    Seq::new(
        MAX_FOOD as nat,
        |k: int| if k < p.len() { cell_of(p[k].pos, width) as CellIndex } else { 0 },
    )
}

/// The world names `s` among my snakes.
pub open spec fn is_mine(world: WorldState, s: SnakeBot) -> bool {
    exists|i: int|
        0 <= i < world.my_snakebot_count && i < MAX_SNAKES && #[trigger] world.my_snakebot_ids@[i]
            == s.snakebot_id as u8
}

/// Each snake of the turn is told to be mine or not within my id slots: the world
/// counts at most `MAX_SNAKES` snakes of mine, or it lists each snake of the turn among
/// its first `MAX_SNAKES` slots of mine.
pub open spec fn ids_resolve(world: WorldState, turn: TurnState) -> bool {
    world.my_snakebot_count <= MAX_SNAKES || forall|k: int|
        0 <= k < turn.snakebots@.len() ==> listed_mine(world, #[trigger] turn.snakebots@[k].snakebot_id)
}

/// One of my first `MAX_SNAKES` id slots holds `id`.
pub open spec fn listed_mine(world: WorldState, id: i32) -> bool {
    exists|i: int| 0 <= i < MAX_SNAKES && #[trigger] world.my_snakebot_ids@[i] == id as u8
}

/// What a `FastWorld` is built from: a world whose grid fits the per-cell tables, and a
/// turn that fits the fixed-size tables and whose snakes the id slots tell apart.
pub open spec fn can_build(world: WorldState, turn: TurnState) -> bool {
    &&& world.wf()
    &&& world.width * world.height <= MAX_CELLS
    &&& turn.power_sources@.len() <= MAX_FOOD
    &&& turn.snakebots@.len() <= MAX_SNAKES
    &&& forall|k: int|
        0 <= k < turn.snakebots@.len() ==> #[trigger] turn.snakebots@[k].body@.len() <= MAX_SNAKE_LEN
    &&& turn_fits(turn, world.width as int)
    &&& ids_resolve(world, turn)
}

/// Id slots that list the ids of `chosen` first, and keep `base` in the slots past them.
pub open spec fn listed_ids(base: Seq<u8>, chosen: Seq<SnakeBot>) -> Seq<u8> {
    Seq::new(
        MAX_SNAKES as nat,
        |j: int| if j < chosen.len() { chosen[j].snakebot_id as u8 } else { base[j] },
    )
}

/// The snakes of a turn that the world names as mine, in turn order.
pub open spec fn my_snakes(world: WorldState, snakes: Seq<SnakeBot>) -> Seq<SnakeBot> {
    snakes.filter(|s: SnakeBot| is_mine(world, s))
}

/// The snakes of a turn that the world does not name as mine, in turn order.
pub open spec fn other_snakes(world: WorldState, snakes: Seq<SnakeBot>) -> Seq<SnakeBot> {
    snakes.filter(|s: SnakeBot| !is_mine(world, s))
}

pub open spec fn min_int(a: int, b: int) -> int {
    if a < b {
        a
    } else {
        b
    }
}

/// A world in the fixed-size form that the simulation and the move choice work on.
#[derive(Debug)]
pub struct FastWorld {
    pub width: usize,
    pub height: usize,
    pub size: usize,
    pub terrain: Vec<Terrain>,
    /// `OCC_EMPTY`, `OCC_POWER`, or the id of the snake on the cell.
    pub occupancy: Vec<i16>,
    pub my_snakebot_ids: Vec<u8>,
    pub my_snakebot_count: u8,
    pub opp_snakebot_ids: Vec<u8>,
    pub opp_snakebot_count: u8,
    pub snakes: Vec<FastSnake>,
    pub snake_count: usize,
    pub power: Vec<CellIndex>,
    pub power_count: usize,
    pub neighbors: Vec<[CellIndex; DIR_COUNT]>,
}

impl FastWorld {
    /// The per-cell tables have their fixed size and every neighbor names a cell: what a
    /// search over the grid reads.
    pub open spec fn grid_wf(&self) -> bool {
        &&& self.terrain@.len() == MAX_CELLS
        &&& self.occupancy@.len() == MAX_CELLS
        &&& self.neighbors@.len() == MAX_CELLS
        &&& forall|c: int, d: int|
            0 <= c < MAX_CELLS && 0 <= d < DIR_COUNT ==> #[trigger] self.neighbors@[c][d] < MAX_CELLS
    }

    /// The tables have their fixed sizes and every cell index in them names a cell.
    pub open spec fn wf(&self) -> bool {
        &&& self.terrain@.len() == MAX_CELLS
        &&& self.occupancy@.len() == MAX_CELLS
        &&& self.neighbors@.len() == MAX_CELLS
        &&& forall|c: int, d: int|
            0 <= c < MAX_CELLS && 0 <= d < DIR_COUNT ==> #[trigger] self.neighbors@[c][d] < MAX_CELLS
        &&& self.my_snakebot_ids@.len() == MAX_SNAKES
        &&& self.opp_snakebot_ids@.len() == MAX_SNAKES
        &&& self.my_snakebot_count <= MAX_SNAKES
        &&& self.opp_snakebot_count <= MAX_SNAKES
        &&& self.snakes@.len() == MAX_SNAKES
        &&& self.snake_count <= MAX_SNAKES
        &&& forall|i: int| 0 <= i < MAX_SNAKES ==> #[trigger] self.snakes@[i].body@.len() == MAX_SNAKE_LEN
        &&& forall|i: int| 0 <= i < MAX_SNAKES ==> #[trigger] self.snakes@[i].len <= MAX_SNAKE_LEN
        &&& forall|i: int, j: int|
            0 <= i < MAX_SNAKES && 0 <= j < MAX_SNAKE_LEN ==> #[trigger] self.snakes@[i].body@[j]
                < MAX_CELLS
        &&& self.power@.len() == MAX_FOOD
        &&& self.power_count <= MAX_FOOD
        &&& forall|k: int| 0 <= k < MAX_FOOD ==> #[trigger] self.power@[k] < MAX_CELLS
    }

    /// The fixed-size form of `world` with the power sources and snakes of `turn` on
    /// it. Snake slot `i` holds the `i`-th snake of the turn; the id slots list my
    /// snakes of the turn and the other snakes of the turn, as far as the slots go.
    pub fn from_world(world: &WorldState, turn: &TurnState) -> (fast: Self)
        requires
            can_build(*world, *turn),
        ensures
            fast.wf(),
            fast.width == world.width,
            fast.height == world.height,
            fast.size == world.width * world.height,
            fast.terrain@ == world.terrain@,
            fast.occupancy@ == turn_occupancy(*turn, world.width as int),
            neighbors_of_grid(fast.neighbors@, world.width as int, world.height as int),
            fast.snake_count == turn.snakebots@.len(),
            forall|i: int|
                0 <= i < turn.snakebots@.len() ==> {
                    &&& (#[trigger] fast.snakes@[i]).id == turn.snakebots@[i].snakebot_id
                    &&& fast.snakes@[i].len == turn.snakebots@[i].body@.len()
                    &&& fast.snakes@[i].body@ == body_table(
                        turn.snakebots@[i].body@,
                        world.width as int,
                    )
                },
            forall|i: int|
                turn.snakebots@.len() <= i < MAX_SNAKES ==> {
                    &&& (#[trigger] fast.snakes@[i]).id == 0
                    &&& fast.snakes@[i].len == 0
                    &&& fast.snakes@[i].body@ == body_table(Seq::empty(), world.width as int)
                },
            fast.power_count == turn.power_sources@.len(),
            fast.power@ == power_table(turn.power_sources@, world.width as int),
            fast.my_snakebot_count == min_int(
                my_snakes(*world, turn.snakebots@).len() as int,
                MAX_SNAKES as int,
            ),
            fast.my_snakebot_ids@ == listed_ids(
                world.my_snakebot_ids@,
                my_snakes(*world, turn.snakebots@),
            ),
            fast.opp_snakebot_count == min_int(
                other_snakes(*world, turn.snakebots@).len() as int,
                MAX_SNAKES as int,
            ),
            fast.opp_snakebot_ids@ == listed_ids(
                world.opp_snakebot_ids@,
                other_snakes(*world, turn.snakebots@),
            ),
    {
        let width = world.width;
        let ghost w = width as int;
        let mut occupancy = empty_table();
        paint_turn(&mut occupancy, turn, width);
        let neighbors = build_neighbors(world.width, world.height);
        proof {
            assert forall|c: int, d: int|
                0 <= c < MAX_CELLS && 0 <= d < DIR_COUNT implies #[trigger] neighbors@[c][d]
                < MAX_CELLS by {
                if c < w * world.height {
                    lemma_cell_in_grid(c, w, world.height as int);
                    let y = c / w;
                    let x = c % w;
                    assert(neighbors@[flat(x, y, w)][d] as int == neighbor_cell(
                        w,
                        world.height as int,
                        x,
                        y,
                        d,
                    ));
                    lemma_neighbor_in_grid(w, world.height as int, x, y, d);
                }
            }
        }
        // power sources
        let np = turn.power_sources.len();
        let mut power: Vec<CellIndex> = Vec::new();
        let mut k: usize = 0;
        while k < MAX_FOOD
            invariant
                k <= MAX_FOOD,
                np == turn.power_sources@.len(),
                w == width,
                turn_fits(*turn, w),
                power@ =~= power_table(turn.power_sources@, w).take(k as int),
            decreases MAX_FOOD - k,
        {
            if k < np {
                let idx = flat_index(turn.power_sources[k].pos, width);
                power.push(idx as CellIndex);
            } else {
                power.push(0);
            }
            k = k + 1;
        }
        // snakes
        let ns = turn.snakebots.len();
        let mut snakes: Vec<FastSnake> = Vec::new();
        let mut i: usize = 0;
        while i < MAX_SNAKES
            invariant
                i <= MAX_SNAKES,
                ns == turn.snakebots@.len(),
                ns <= MAX_SNAKES,
                w == width,
                turn_fits(*turn, w),
                forall|kk: int|
                    0 <= kk < turn.snakebots@.len() ==> #[trigger] turn.snakebots@[kk].body@.len()
                        <= MAX_SNAKE_LEN,
                snakes@.len() == i,
                forall|ii: int|
                    0 <= ii < i && ii < ns ==> {
                        &&& (#[trigger] snakes@[ii]).id == turn.snakebots@[ii].snakebot_id
                        &&& snakes@[ii].len == turn.snakebots@[ii].body@.len()
                        &&& snakes@[ii].body@ == body_table(turn.snakebots@[ii].body@, w)
                    },
                forall|ii: int|
                    ns <= ii < i ==> {
                        &&& (#[trigger] snakes@[ii]).id == 0
                        &&& snakes@[ii].len == 0
                        &&& snakes@[ii].body@ == body_table(Seq::empty(), w)
                    },
            decreases MAX_SNAKES - i,
        {
            if i < ns {
                let s = &turn.snakebots[i];
                let body = fast_body(&s.body, width);
                snakes.push(FastSnake { id: s.snakebot_id, len: s.body.len(), body });
            } else {
                let empty: Vec<Cell> = Vec::new();
                let body = fast_body(&empty, width);
                snakes.push(FastSnake { id: 0, len: 0, body });
            }
            i = i + 1;
        }
        // snake id slots
        let mut my_ids = copy_bytes(&world.my_snakebot_ids);
        let mut opp_ids = copy_bytes(&world.opp_snakebot_ids);
        let mut my_count: u8 = 0;
        let mut opp_count: u8 = 0;
        let ghost all = turn.snakebots@;
        let ghost mine_pred = |s: SnakeBot| is_mine(*world, s);
        let ghost other_pred = |s: SnakeBot| !is_mine(*world, s);
        let mut i: usize = 0;
        while i < ns
            invariant
                i <= ns,
                ns == all.len(),
                all == turn.snakebots@,
                world.wf(),
                ids_resolve(*world, *turn),
                mine_pred == (|s: SnakeBot| is_mine(*world, s)),
                other_pred == (|s: SnakeBot| !is_mine(*world, s)),
                my_count == min_int(all.take(i as int).filter(mine_pred).len() as int, MAX_SNAKES as int),
                my_ids@ == listed_ids(world.my_snakebot_ids@, all.take(i as int).filter(mine_pred)),
                opp_count == min_int(all.take(i as int).filter(other_pred).len() as int, MAX_SNAKES as int),
                opp_ids@ == listed_ids(world.opp_snakebot_ids@, all.take(i as int).filter(other_pred)),
            decreases ns - i,
        {
            let s = &turn.snakebots[i];
            let is_my_snake = names_as_mine(world, s.snakebot_id);
            proof {
                assert(all.take(i + 1) =~= all.take(i as int).push(all[i as int]));
                all.take(i as int).lemma_filter_push(all[i as int], mine_pred);
                all.take(i as int).lemma_filter_push(all[i as int], other_pred);
                assert(is_my_snake == mine_pred(all[i as int]));
            }
            if is_my_snake {
                let count = my_count as usize;
                if count < MAX_SNAKES {
                    my_ids.set(count, s.snakebot_id as u8);
                    my_count = my_count + 1;
                }
                assert(my_ids@ =~= listed_ids(world.my_snakebot_ids@, all.take(i + 1).filter(mine_pred)));
            } else {
                let count = opp_count as usize;
                if count < MAX_SNAKES {
                    opp_ids.set(count, s.snakebot_id as u8);
                    opp_count = opp_count + 1;
                }
                assert(opp_ids@ =~= listed_ids(world.opp_snakebot_ids@, all.take(i + 1).filter(other_pred)));
            }
            i = i + 1;
        }
        assert(all.take(ns as int) =~= all);
        proof {
            assert forall|ii: int, j: int|
                0 <= ii < MAX_SNAKES && 0 <= j < MAX_SNAKE_LEN implies #[trigger] snakes@[ii].body@[j]
                < MAX_CELLS by {
                if ii < ns {
                    if j < turn.snakebots@[ii].body@.len() {
                        assert(cell_of(turn.snakebots@[ii].body@[j], w) < MAX_CELLS);
                    }
                }
            }
            assert forall|kk: int| 0 <= kk < MAX_FOOD implies #[trigger] power@[kk] < MAX_CELLS by {
                if kk < np {
                    assert(cell_of(turn.power_sources@[kk].pos, w) < MAX_CELLS);
                }
            }
            assert(power@ =~= power_table(turn.power_sources@, w));
        }
        FastWorld {
            width: world.width,
            height: world.height,
            size: world.width * world.height,
            terrain: copy_terrain(&world.terrain),
            occupancy,
            my_snakebot_ids: my_ids,
            my_snakebot_count: my_count,
            opp_snakebot_ids: opp_ids,
            opp_snakebot_count: opp_count,
            snakes,
            snake_count: ns,
            power,
            power_count: np,
            neighbors,
        }
    }
}

/// Whether cell `c` of a grid `width` cells wide lies within the per-cell tables.
fn cell_fits(c: Cell, width: usize) -> (r: bool)
    ensures
        r == (cell_of(c, width as int) < MAX_CELLS),
{
    match (c.y as usize).checked_mul(width) {
        None => false,
        Some(m) => match m.checked_add(c.x as usize) {
            None => false,
            Some(f) => f < MAX_CELLS,
        },
    }
}

/// Whether every position that `turn` names lies within the per-cell tables of a grid
/// `width` cells wide: what `WorldState::apply_turn` asks of a turn.
pub fn fits_turn(turn: &TurnState, width: usize) -> (r: bool)
    ensures
        r == turn_fits(*turn, width as int),
{
    let np = turn.power_sources.len();
    let mut i: usize = 0;
    while i < np
        invariant
            np == turn.power_sources@.len(),
            i <= np,
            forall|k: int|
                0 <= k < i ==> #[trigger] cell_of(turn.power_sources@[k].pos, width as int) < MAX_CELLS,
        decreases np - i,
    {
        if !cell_fits(turn.power_sources[i].pos, width) {
            return false;
        }
        i = i + 1;
    }
    let ns = turn.snakebots.len();
    let mut k: usize = 0;
    while k < ns
        invariant
            np == turn.power_sources@.len(),
            ns == turn.snakebots@.len(),
            k <= ns,
            forall|q: int|
                0 <= q < np ==> #[trigger] cell_of(turn.power_sources@[q].pos, width as int) < MAX_CELLS,
            forall|kk: int, j: int|
                0 <= kk < k && 0 <= j < turn.snakebots@[kk].body@.len() ==> #[trigger] cell_of(
                    turn.snakebots@[kk].body@[j],
                    width as int,
                ) < MAX_CELLS,
        decreases ns - k,
    {
        let body = &turn.snakebots[k].body;
        let nb = body.len();
        let mut j: usize = 0;
        while j < nb
            invariant
                ns == turn.snakebots@.len(),
                k < ns,
                body@ == turn.snakebots@[k as int].body@,
                nb == body@.len(),
                j <= nb,
                forall|jj: int| 0 <= jj < j ==> #[trigger] cell_of(body@[jj], width as int) < MAX_CELLS,
            decreases nb - j,
        {
            if !cell_fits(body[j], width) {
                return false;
            }
            j = j + 1;
        }
        k = k + 1;
    }
    true
}

/// Whether `world` and `turn` are what `FastWorld::from_world` builds from.
pub fn buildable(world: &WorldState, turn: &TurnState) -> (r: bool)
    ensures
        r == can_build(*world, *turn),
{
    if world.terrain.len() != MAX_CELLS || world.occupancy.len() != MAX_CELLS
        || world.my_snakebot_ids.len() != MAX_SNAKES || world.opp_snakebot_ids.len() != MAX_SNAKES {
        return false;
    }
    match world.width.checked_mul(world.height) {
        None => {
            return false;
        },
        Some(n) => {
            if n > MAX_CELLS {
                return false;
            }
        },
    }
    if turn.power_sources.len() > MAX_FOOD || turn.snakebots.len() > MAX_SNAKES {
        return false;
    }
    let ns = turn.snakebots.len();
    let mut k: usize = 0;
    while k < ns
        invariant
            ns == turn.snakebots@.len(),
            k <= ns,
            forall|kk: int| 0 <= kk < k ==> #[trigger] turn.snakebots@[kk].body@.len() <= MAX_SNAKE_LEN,
        decreases ns - k,
    {
        if turn.snakebots[k].body.len() > MAX_SNAKE_LEN {
            return false;
        }
        k = k + 1;
    }
    if !fits_turn(turn, world.width) {
        return false;
    }
    if world.my_snakebot_count as usize <= MAX_SNAKES {
        return true;
    }
    let mut k: usize = 0;
    while k < ns
        invariant
            ns == turn.snakebots@.len(),
            k <= ns,
            world.wf(),
            world.width * world.height <= MAX_CELLS,
            turn.power_sources@.len() <= MAX_FOOD,
            ns <= MAX_SNAKES,
            forall|kk: int| 0 <= kk < ns ==> #[trigger] turn.snakebots@[kk].body@.len() <= MAX_SNAKE_LEN,
            turn_fits(*turn, world.width as int),
            world.my_snakebot_count > MAX_SNAKES,
            forall|kk: int|
                0 <= kk < k ==> listed_mine(*world, #[trigger] turn.snakebots@[kk].snakebot_id),
        decreases ns - k,
    {
        let id = turn.snakebots[k].snakebot_id;
        if !contains_byte(&world.my_snakebot_ids, id as u8) {
            proof {
                assert forall|i: int| 0 <= i < MAX_SNAKES implies #[trigger] world.my_snakebot_ids@[i]
                    != turn.snakebots@[k as int].snakebot_id as u8 by {
                    if world.my_snakebot_ids@[i] == id as u8 {
                        assert(world.my_snakebot_ids@.contains(id as u8));
                    }
                }
                assert(!listed_mine(*world, turn.snakebots@[k as int].snakebot_id));
            }
            return false;
        }
        proof {
            let i = choose|i: int| 0 <= i < world.my_snakebot_ids@.len() && world.my_snakebot_ids@[i] == id as u8;
            assert(world.my_snakebot_ids@[i] == turn.snakebots@[k as int].snakebot_id as u8);
        }
        k = k + 1;
    }
    true
}

/// Whether the world names a snake with this id among mine.
fn names_as_mine(world: &WorldState, id: i32) -> (r: bool)
    requires
        world.wf(),
        world.my_snakebot_count <= MAX_SNAKES || listed_mine(*world, id),
    ensures
        r == exists|i: int|
            0 <= i < world.my_snakebot_count && i < MAX_SNAKES && #[trigger] world.my_snakebot_ids@[i]
                == id as u8,
{
    let n = world.my_snakebot_count;
    let mut i: u8 = 0;
    while i < n
        invariant
            n == world.my_snakebot_count,
            world.wf(),
            n <= MAX_SNAKES || listed_mine(*world, id),
            i <= n,
            i <= MAX_SNAKES,
            forall|k: int| 0 <= k < i ==> #[trigger] world.my_snakebot_ids@[k] != id as u8,
        decreases n - i,
    {
        proof {
            if i >= MAX_SNAKES {
                let j = choose|j: int|
                    0 <= j < MAX_SNAKES && #[trigger] world.my_snakebot_ids@[j] == id as u8;
                assert(world.my_snakebot_ids@[j] != id as u8);
            }
        }
        if world.my_snakebot_ids[i as usize] == id as u8 {
            return true;
        }
        i = i + 1;
    }
    false
}

/// The body slots of a snake whose body is `b`.
fn fast_body(b: &Vec<Cell>, width: usize) -> (r: Vec<CellIndex>)
    requires
        b@.len() <= MAX_SNAKE_LEN,
        forall|j: int| 0 <= j < b@.len() ==> #[trigger] cell_of(b@[j], width as int) < MAX_CELLS,
    ensures
        r@ == body_table(b@, width as int),
{
    let n = b.len();
    let mut r: Vec<CellIndex> = Vec::new();
    let mut j: usize = 0;
    while j < MAX_SNAKE_LEN
        invariant
            j <= MAX_SNAKE_LEN,
            n == b@.len(),
            forall|jj: int| 0 <= jj < b@.len() ==> #[trigger] cell_of(b@[jj], width as int) < MAX_CELLS,
            r@ =~= body_table(b@, width as int).take(j as int),
        decreases MAX_SNAKE_LEN - j,
    {
        if j < n {
            let idx = flat_index(b[j], width);
            r.push(idx as CellIndex);
        } else {
            r.push(0);
        }
        j = j + 1;
    }
    r
}

fn copy_bytes(v: &Vec<u8>) -> (r: Vec<u8>)
    ensures
        r@ == v@,
{
    let n = v.len();
    let mut r: Vec<u8> = Vec::new();
    let mut i: usize = 0;
    while i < n
        invariant
            i <= n,
            n == v@.len(),
            r@ =~= v@.take(i as int),
        decreases n - i,
    {
        r.push(v[i]);
        i = i + 1;
    }
    assert(v@.take(n as int) =~= v@);
    r
}

fn copy_terrain(v: &Vec<Terrain>) -> (r: Vec<Terrain>)
    ensures
        r@ == v@,
{
    let n = v.len();
    let mut r: Vec<Terrain> = Vec::new();
    let mut i: usize = 0;
    while i < n
        invariant
            i <= n,
            n == v@.len(),
            r@ =~= v@.take(i as int),
        decreases n - i,
    {
        r.push(v[i]);
        i = i + 1;
    }
    assert(v@.take(n as int) =~= v@);
    r
}

/// The column and the row of flat index `c` in a grid `width` cells wide, as `xy`
/// computes them.
pub open spec fn unflat(c: int, width: int) -> (int, int) {
    (c % width, c / width)
}

/// A flat index gives back its column and row: for a column within the width,
/// taking the index apart as `xy` does undoes `idx`.
pub proof fn law_index_round_trip(x: int, y: int, width: int)
    requires
        0 <= x < width,
        0 <= y,
    ensures
        unflat(flat(x, y, width), width) == (x, y),
{
    vstd::arithmetic::div_mod::lemma_fundamental_div_mod_converse(flat(x, y, width), width, y, x);
}

/// Each flat index below `width * height` is the index of a cell of the grid.
pub proof fn lemma_cell_in_grid(c: int, width: int, height: int)
    requires
        0 <= c < width * height,
        width > 0,
    ensures
        0 <= c % width < width,
        0 <= c / width < height,
        c == flat(c % width, c / width, width),
{
    assert(c == (c / width) * width + c % width) by (nonlinear_arith)
        requires
            width > 0,
    ;
    assert(0 <= c % width < width) by (nonlinear_arith)
        requires
            width > 0,
    ;
    assert(0 <= c / width) by (nonlinear_arith)
        requires
            width > 0,
            c >= 0,
    ;
    assert(c / width < height) by (nonlinear_arith)
        requires
            width > 0,
            0 <= c < width * height,
    ;
}

/// A neighbor of a cell of the grid is a cell of the grid.
pub proof fn lemma_neighbor_in_grid(width: int, height: int, x: int, y: int, d: int)
    requires
        0 <= x < width,
        0 <= y < height,
    ensures
        0 <= neighbor_cell(width, height, x, y, d) < width * height,
{
    lemma_flat_in_grid(x, y, width, height);
    if y > 0 {
        lemma_flat_in_grid(x, y - 1, width, height);
    }
    if y + 1 < height {
        lemma_flat_in_grid(x, y + 1, width, height);
    }
    if x + 1 < width {
        lemma_flat_in_grid(x + 1, y, width, height);
    }
    if x > 0 {
        lemma_flat_in_grid(x - 1, y, width, height);
    }
}


// ---------------------------------------------------------------------------
// Simulating a turn
// ---------------------------------------------------------------------------

/// What a simulation step reads and changes of a `FastWorld`: the occupancy table and,
/// for each snake slot, its id, its length and its body slots.
#[verifier::ext_equal]
pub struct Board {
    pub occupancy: Seq<i16>,
    pub ids: Seq<i32>,
    pub lens: Seq<int>,
    pub bodies: Seq<Seq<CellIndex>>,
}

/// The tail of one of the first `count` snakes, one that has a body, is on `c`.
pub open spec fn tail_on(b: Board, count: int, c: int) -> bool {
    exists|i: int| 0 <= i < count && b.lens[i] > 0 && #[trigger] b.bodies[i][b.lens[i] - 1] == c
}

/// The board once the tails of the first `count` snakes have left their cells.
pub open spec fn free_tails(b: Board, count: int) -> Board {
    Board {
        occupancy: Seq::new(
            b.occupancy.len(),
            |c: int| if tail_on(b, count, c) { OCC_EMPTY } else { b.occupancy[c] },
        ),
        ids: b.ids,
        lens: b.lens,
        bodies: b.bodies,
    }
}

/// The last of the first `k` snakes that survives and moves its head onto `c`.
pub open spec fn last_mover(heads: Seq<CellIndex>, dead: Seq<bool>, c: int, k: int) -> Option<int>
    decreases k,
{
    if k <= 0 {
        None
    } else if !dead[k - 1] && heads[k - 1] == c {
        Some(k - 1)
    } else {
        last_mover(heads, dead, c, k - 1)
    }
}

/// The last mover onto `c` is snake `i` where `i` moves there alive and no later snake
/// among the first `k` does.
pub proof fn lemma_last_mover_is(heads: Seq<CellIndex>, dead: Seq<bool>, c: int, i: int, k: int)
    requires
        0 <= i < k,
        !dead[i],
        heads[i] == c,
        forall|j: int| i < j < k ==> dead[j] || #[trigger] heads[j] != c,
    ensures
        last_mover(heads, dead, c, k) == Some(i),
    decreases k,
{
    if k - 1 > i {
        assert(dead[k - 1] || heads[k - 1] != c);
        lemma_last_mover_is(heads, dead, c, i, k - 1);
    }
}

/// Where snake `i` moves alive onto `c`, some snake among the first `k` is the last to
/// move there.
pub proof fn lemma_last_mover_some(heads: Seq<CellIndex>, dead: Seq<bool>, c: int, i: int, k: int)
    requires
        0 <= i < k,
        !dead[i],
        heads[i] == c,
    ensures
        last_mover(heads, dead, c, k) matches Some(j) && 0 <= j < k,
    decreases k,
{
    if k - 1 > i && (dead[k - 1] || heads[k - 1] != c) {
        lemma_last_mover_some(heads, dead, c, i, k - 1);
    }
}

/// The snakes among the first `count` of board `b` that have a body lie on the first
/// `cells` cells, each on distinct cells that hold its id, and no two share a cell.
pub open spec fn bodies_sound(b: Board, count: int, cells: int) -> bool {
    &&& forall|k: int, a: int|
        0 <= k < count && 0 <= a < b.lens[k] ==> 0 <= #[trigger] b.bodies[k][a] < cells
            && b.occupancy[b.bodies[k][a] as int] == b.ids[k] as i16
    &&& forall|k: int, a: int, c: int|
        0 <= k < count && 0 <= a < b.lens[k] && 0 <= c < b.lens[k] && a != c ==> #[trigger] b.bodies[k][a]
            != #[trigger] b.bodies[k][c]
    &&& forall|k: int, j: int, a: int, c: int|
        0 <= k < count && 0 <= j < count && k != j && 0 <= a < b.lens[k] && 0 <= c < b.lens[j]
            ==> #[trigger] b.bodies[k][a] != #[trigger] b.bodies[j][c]
}

/// No snake among the first `k` moves alive onto `c`: the cell keeps what it held.
pub proof fn lemma_last_mover_none(heads: Seq<CellIndex>, dead: Seq<bool>, c: int, k: int)
    requires
        forall|j: int| 0 <= j < k ==> dead[j] || #[trigger] heads[j] != c,
    ensures
        last_mover(heads, dead, c, k) is None,
    decreases k,
{
    if k > 0 {
        assert(dead[k - 1] || heads[k - 1] != c);
        lemma_last_mover_none(heads, dead, c, k - 1);
    }
}

/// A body of `len` cells that moves its head onto `head`: every cell takes the place of
/// the one before it, and the last cell leaves. Slots past the body keep their value.
pub open spec fn shifted_body(body: Seq<CellIndex>, len: int, head: CellIndex) -> Seq<CellIndex> {
    Seq::new(
        body.len(),
        |j: int| if j == 0 { head } else if j < len { body[j - 1] } else { body[j] },
    )
}

/// The board once each of the first `count` snakes has died (`dead`) or moved its head
/// onto `heads[i]`; a cell that a head moves onto holds the id of the last snake that
/// moved there.
pub open spec fn move_snakes(b: Board, count: int, heads: Seq<CellIndex>, dead: Seq<bool>) -> Board {
    Board {
        occupancy: Seq::new(
            b.occupancy.len(),
            |c: int|
                match last_mover(heads, dead, c, count) {
                    Some(i) => b.ids[i] as i16,
                    None => b.occupancy[c],
                },
        ),
        ids: b.ids,
        lens: Seq::new(b.lens.len(), |i: int| if i < count && dead[i] { 0 } else { b.lens[i] }),
        bodies: Seq::new(
            b.bodies.len(),
            |i: int|
                if i < count && !dead[i] {
                    shifted_body(b.bodies[i], b.lens[i], heads[i])
                } else {
                    b.bodies[i]
                },
        ),
    }
}

/// Snake `i`, one of the first `count`, has a body and its head is on a power source.
pub open spec fn feeds(b: Board, count: int, i: int) -> bool {
    0 <= i < count && b.lens[i] > 0 && b.occupancy[b.bodies[i][0] as int] == OCC_POWER
}

/// The last of the first `k` snakes that feeds with its head on `c`.
pub open spec fn last_feeder(b: Board, count: int, c: int, k: int) -> Option<int>
    decreases k,
{
    if k <= 0 {
        None
    } else if feeds(b, count, k - 1) && b.bodies[k - 1][0] == c {
        Some(k - 1)
    } else {
        last_feeder(b, count, c, k - 1)
    }
}

/// The board once every snake that feeds has grown by one cell, a copy of its last
/// cell, and holds the cell of the power source it ate.
pub open spec fn feed_snakes(b: Board, count: int) -> Board {
    Board {
        occupancy: Seq::new(
            b.occupancy.len(),
            |c: int|
                match last_feeder(b, count, c, count) {
                    Some(i) => b.ids[i] as i16,
                    None => b.occupancy[c],
                },
        ),
        ids: b.ids,
        lens: Seq::new(b.lens.len(), |i: int| if feeds(b, count, i) { b.lens[i] + 1 } else { b.lens[i] }),
        bodies: Seq::new(
            b.bodies.len(),
            |i: int|
                if feeds(b, count, i) {
                    b.bodies[i].update(b.lens[i], b.bodies[i][b.lens[i] - 1])
                } else {
                    b.bodies[i]
                },
        ),
    }
}

impl FastWorld {
    /// The part of the world that a simulation step reads and changes.
    pub open spec fn board(&self) -> Board {
        Board {
            occupancy: self.occupancy@,
            ids: Seq::new(self.snakes@.len(), |i: int| self.snakes@[i].id),
            lens: Seq::new(self.snakes@.len(), |i: int| self.snakes@[i].len as int),
            bodies: Seq::new(self.snakes@.len(), |i: int| self.snakes@[i].body@),
        }
    }

    /// Where the head of snake `i` goes with the moves `moves`; zero for a snake
    /// without a body.
    pub open spec fn new_head(&self, moves: [u8; MAX_SNAKES], i: int) -> CellIndex {
        if self.snakes@[i].len == 0 {
            0
        } else {
            self.neighbors@[self.snakes@[i].body@[0] as int][moves@[i] as int]
        }
    }

    /// The cell that snake `i` moves onto holds a snake or a power source.
    pub open spec fn blocked(&self, moves: [u8; MAX_SNAKES], i: int) -> bool {
        let o = self.occupancy@[self.new_head(moves, i) as int];
        o >= 0 || o == OCC_POWER
    }

    /// Snake `i` has a body and moves onto a free cell.
    pub open spec fn contends(&self, moves: [u8; MAX_SNAKES], i: int) -> bool {
        self.snakes@[i].len > 0 && !self.blocked(moves, i)
    }

    /// How many of the first `k` snakes contend for cell `c`.
    pub open spec fn contenders(&self, moves: [u8; MAX_SNAKES], c: int, k: int) -> nat
        decreases k,
    {
        if k <= 0 {
            0
        } else {
            self.contenders(moves, c, k - 1) + if self.contends(moves, k - 1) && self.new_head(
                moves,
                k - 1,
            ) == c {
                1nat
            } else {
                0nat
            }
        }
    }

    /// Snake `i` dies: it moves onto a snake or a power source, or another snake
    /// contends for the same cell.
    pub open spec fn dies(&self, moves: [u8; MAX_SNAKES], i: int) -> bool {
        self.blocked(moves, i) || (self.contends(moves, i) && self.contenders(
            moves,
            self.new_head(moves, i) as int,
            self.snake_count as int,
        ) > 1)
    }

    /// The new head of each snake slot; zero past the snakes.
    pub open spec fn heads(&self, moves: [u8; MAX_SNAKES]) -> Seq<CellIndex> {
        Seq::new(
            MAX_SNAKES as nat,
            |i: int| if i < self.snake_count { self.new_head(moves, i) } else { 0 },
        )
    }

    /// Which snake slots die.
    pub open spec fn deaths(&self, moves: [u8; MAX_SNAKES]) -> Seq<bool> {
        Seq::new(MAX_SNAKES as nat, |i: int| i < self.snake_count && self.dies(moves, i))
    }

    /// The board after the tails have moved and the snakes have moved or died.
    pub open spec fn moved(&self, moves: [u8; MAX_SNAKES]) -> Board {
        move_snakes(
            free_tails(self.board(), self.snake_count as int),
            self.snake_count as int,
            self.heads(moves),
            self.deaths(moves),
        )
    }

    /// The board after a whole simulation step with the moves `moves`.
    pub open spec fn stepped(&self, moves: [u8; MAX_SNAKES]) -> Board {
        feed_snakes(self.moved(moves), self.snake_count as int)
    }

    /// Every snake with a body is given a direction.
    pub open spec fn moves_valid(&self, moves: [u8; MAX_SNAKES]) -> bool {
        forall|i: int|
            0 <= i < self.snake_count && (#[trigger] self.snakes@[i]).len > 0 ==> moves@[i]
                < DIR_COUNT
    }

    fn compute_heads(&self, moves: &[u8; MAX_SNAKES]) -> (r: Vec<CellIndex>)
        requires
            self.wf(),
            self.moves_valid(*moves),
        ensures
            r@ == self.heads(*moves),
            forall|i: int| 0 <= i < MAX_SNAKES ==> #[trigger] r@[i] < MAX_CELLS,
    {
        let mut r: Vec<CellIndex> = Vec::new();
        let mut i: usize = 0;
        while i < MAX_SNAKES
            invariant
                self.wf(),
                self.moves_valid(*moves),
                i <= MAX_SNAKES,
                r@ =~= self.heads(*moves).take(i as int),
                forall|k: int| 0 <= k < i ==> #[trigger] r@[k] < MAX_CELLS,
            decreases MAX_SNAKES - i,
        {
            if i < self.snake_count && self.snakes[i].len > 0 {
                assert(self.snakes@[i as int].len > 0);
                let head = self.snakes[i].body[0];
                let dir = moves[i] as usize;
                let next = self.neighbors[head as usize][dir];
                r.push(next);
            } else {
                r.push(0);
            }
            i = i + 1;
        }
        r
    }

    fn compute_deaths(&self, moves: &[u8; MAX_SNAKES], heads: &Vec<CellIndex>) -> (r: Vec<bool>)
        requires
            self.wf(),
            heads@ == self.heads(*moves),
            forall|i: int| 0 <= i < MAX_SNAKES ==> #[trigger] heads@[i] < MAX_CELLS,
        ensures
            r@ == self.deaths(*moves),
    {
        let count = self.snake_count;
        // moving onto a snake or a power source
        let mut dead: Vec<bool> = Vec::new();
        let mut i: usize = 0;
        while i < MAX_SNAKES
            invariant
                self.wf(),
                count == self.snake_count,
                heads@ == self.heads(*moves),
                forall|k: int| 0 <= k < MAX_SNAKES ==> #[trigger] heads@[k] < MAX_CELLS,
                i <= MAX_SNAKES,
                dead@.len() == i,
                forall|k: int|
                    0 <= k < i ==> #[trigger] dead@[k] == (k < count && self.blocked(*moves, k)),
            decreases MAX_SNAKES - i,
        {
            if i < count {
                let o = self.occupancy[heads[i] as usize];
                dead.push(o >= 0 || o == OCC_POWER);
            } else {
                dead.push(false);
            }
            i = i + 1;
        }
        // head to head
        let mut head_count: Vec<u8> = Vec::new();
        let mut c: usize = 0;
        while c < MAX_CELLS
            invariant
                c <= MAX_CELLS,
                head_count@.len() == c,
                forall|cc: int| 0 <= cc < c ==> #[trigger] head_count@[cc] == 0,
            decreases MAX_CELLS - c,
        {
            head_count.push(0);
            c = c + 1;
        }
        let mut i: usize = 0;
        while i < count
            invariant
                self.wf(),
                count == self.snake_count,
                heads@ == self.heads(*moves),
                forall|k: int| 0 <= k < MAX_SNAKES ==> #[trigger] heads@[k] < MAX_CELLS,
                i <= count,
                dead@.len() == MAX_SNAKES,
                forall|k: int|
                    0 <= k < MAX_SNAKES ==> #[trigger] dead@[k] == (k < count && self.blocked(
                        *moves,
                        k,
                    )),
                head_count@.len() == MAX_CELLS,
                forall|cc: int|
                    0 <= cc < MAX_CELLS ==> #[trigger] head_count@[cc] == self.contenders(
                        *moves,
                        cc,
                        i as int,
                    ),
            decreases count - i,
        {
            proof {
                assert forall|cc: int| 0 <= cc < MAX_CELLS implies self.contenders(
                    *moves,
                    cc,
                    i as int,
                ) <= i by {
                    self.lemma_contenders_bound(*moves, cc, i as int);
                }
            }
            if self.snakes[i].len == 0 || dead[i] {
            } else {
                let h = heads[i] as usize;
                head_count.set(h, head_count[h] + 1);
            }
            i = i + 1;
        }
        let mut i: usize = 0;
        while i < count
            invariant
                self.wf(),
                count == self.snake_count,
                heads@ == self.heads(*moves),
                forall|k: int| 0 <= k < MAX_SNAKES ==> #[trigger] heads@[k] < MAX_CELLS,
                i <= count,
                dead@.len() == MAX_SNAKES,
                forall|k: int|
                    0 <= k < MAX_SNAKES ==> #[trigger] dead@[k] == (if k < i {
                        k < count && self.dies(*moves, k)
                    } else {
                        k < count && self.blocked(*moves, k)
                    }),
                head_count@.len() == MAX_CELLS,
                forall|cc: int|
                    0 <= cc < MAX_CELLS ==> #[trigger] head_count@[cc] == self.contenders(
                        *moves,
                        cc,
                        count as int,
                    ),
            decreases count - i,
        {
            if self.snakes[i].len == 0 || dead[i] {
            } else if head_count[heads[i] as usize] > 1 {
                dead.set(i, true);
            }
            i = i + 1;
        }
        assert(dead@ =~= self.deaths(*moves));
        dead
    }

    proof fn lemma_contenders_bound(&self, moves: [u8; MAX_SNAKES], c: int, k: int)
        requires
            k >= 0,
        ensures
            self.contenders(moves, c, k) <= k,
        decreases k,
    {
        if k > 0 {
            self.lemma_contenders_bound(moves, c, k - 1);
        }
    }
}


impl FastWorld {
    /// The fields that a simulation step leaves as they are.
    pub open spec fn same_frame(&self, other: &FastWorld) -> bool {
        &&& self.width == other.width
        &&& self.height == other.height
        &&& self.size == other.size
        &&& self.terrain == other.terrain
        &&& self.my_snakebot_ids == other.my_snakebot_ids
        &&& self.my_snakebot_count == other.my_snakebot_count
        &&& self.opp_snakebot_ids == other.opp_snakebot_ids
        &&& self.opp_snakebot_count == other.opp_snakebot_count
        &&& self.snake_count == other.snake_count
        &&& self.power == other.power
        &&& self.power_count == other.power_count
        &&& self.neighbors == other.neighbors
    }

    fn free_tails(&mut self)
        requires
            old(self).wf(),
        ensures
            final(self).wf(),
            final(self).same_frame(old(self)),
            final(self).snakes == old(self).snakes,
            final(self).board() == free_tails(old(self).board(), old(self).snake_count as int),
    {
        let ghost b0 = self.board();
        let count = self.snake_count;
        let mut i: usize = 0;
        while i < count
            invariant
                self.wf(),
                self.same_frame(old(self)),
                self.snakes == old(self).snakes,
                b0 == old(self).board(),
                count == self.snake_count,
                i <= count,
                forall|c: int|
                    0 <= c < MAX_CELLS ==> #[trigger] self.occupancy@[c] == if tail_on(b0, i as int, c) {
                        OCC_EMPTY
                    } else {
                        b0.occupancy[c]
                    },
            decreases count - i,
        {
            let len = self.snakes[i].len;
            if len > 0 {
                let tail = self.snakes[i].body[len - 1];
                let ghost before = self.occupancy@;
                self.occupancy.set(tail as usize, OCC_EMPTY);
                proof {
                    assert forall|c: int| 0 <= c < MAX_CELLS implies #[trigger] self.occupancy@[c]
                        == if tail_on(b0, i + 1, c) {
                        OCC_EMPTY
                    } else {
                        b0.occupancy[c]
                    } by {
                        if c == tail {
                            assert(b0.bodies[i as int][b0.lens[i as int] - 1] == c);
                        }
                        if tail_on(b0, i + 1, c) && c != tail {
                            let k = choose|k: int|
                                0 <= k < i + 1 && b0.lens[k] > 0 && #[trigger] b0.bodies[k][b0.lens[k]
                                    - 1] == c;
                            assert(k < i);
                        }
                    }
                }
            } else {
                proof {
                    assert forall|c: int| 0 <= c < MAX_CELLS implies #[trigger] self.occupancy@[c]
                        == if tail_on(b0, i + 1, c) {
                        OCC_EMPTY
                    } else {
                        b0.occupancy[c]
                    } by {
                        if tail_on(b0, i + 1, c) {
                            let k = choose|k: int|
                                0 <= k < i + 1 && b0.lens[k] > 0 && #[trigger] b0.bodies[k][b0.lens[k]
                                    - 1] == c;
                            assert(k < i);
                        }
                    }
                }
            }
            i = i + 1;
        }
        assert(self.board() =~= free_tails(b0, count as int));
    }

    fn move_all(&mut self, heads: &Vec<CellIndex>, dead: &Vec<bool>)
        requires
            old(self).wf(),
            heads@.len() == MAX_SNAKES,
            dead@.len() == MAX_SNAKES,
            forall|i: int| 0 <= i < MAX_SNAKES ==> #[trigger] heads@[i] < MAX_CELLS,
        ensures
            final(self).wf(),
            final(self).same_frame(old(self)),
            final(self).board() == move_snakes(
                old(self).board(),
                old(self).snake_count as int,
                heads@,
                dead@,
            ),
    {
        let ghost b0 = self.board();
        let count = self.snake_count;
        let mut i: usize = 0;
        while i < count
            invariant
                self.wf(),
                self.same_frame(old(self)),
                b0 == old(self).board(),
                count == self.snake_count,
                heads@.len() == MAX_SNAKES,
                dead@.len() == MAX_SNAKES,
                forall|k: int| 0 <= k < MAX_SNAKES ==> #[trigger] heads@[k] < MAX_CELLS,
                i <= count,
                forall|k: int| 0 <= k < MAX_SNAKES ==> #[trigger] self.snakes@[k].id == b0.ids[k],
                forall|k: int|
                    0 <= k < MAX_SNAKES ==> #[trigger] self.snakes@[k].len == if k < i && dead@[k] {
                        0
                    } else {
                        b0.lens[k]
                    },
                forall|k: int|
                    0 <= k < MAX_SNAKES ==> #[trigger] self.snakes@[k].body@ == if k < i && !dead@[k] {
                        shifted_body(b0.bodies[k], b0.lens[k], heads@[k])
                    } else {
                        b0.bodies[k]
                    },
                forall|c: int|
                    0 <= c < MAX_CELLS ==> #[trigger] self.occupancy@[c] == match last_mover(
                        heads@,
                        dead@,
                        c,
                        i as int,
                    ) {
                        Some(k) => b0.ids[k] as i16,
                        None => b0.occupancy[c],
                    },
            decreases count - i,
        {
            let ghost snakes0 = self.snakes@;
            assert(forall|k: int|
                0 <= k < MAX_SNAKES ==> #[trigger] snakes0[k].body@.len() == MAX_SNAKE_LEN
                    && snakes0[k].len <= MAX_SNAKE_LEN);
            let mut s = self.snakes.remove(i);
            assert(s == snakes0[i as int]);
            if dead[i] {
                s.len = 0;
                self.snakes.insert(i, s);
                assert(self.snakes@ =~= snakes0.update(i as int, s));
                assert forall|ii: int, jj: int|
                    0 <= ii < MAX_SNAKES && 0 <= jj < MAX_SNAKE_LEN implies #[trigger] self.snakes@[ii].body@[jj]
                    < MAX_CELLS by {
                    assert(self.snakes@[ii].body@ == snakes0[ii].body@);
                }
                assert forall|k: int| 0 <= k < MAX_SNAKES implies #[trigger] self.snakes@[k].body@.len()
                    == MAX_SNAKE_LEN && self.snakes@[k].len <= MAX_SNAKE_LEN by {
                    if k != i {
                        assert(self.snakes@[k] == snakes0[k]);
                    }
                }
                proof {
                    assert forall|c: int| 0 <= c < MAX_CELLS implies #[trigger] self.occupancy@[c]
                        == match last_mover(heads@, dead@, c, i + 1) {
                        Some(k) => b0.ids[k] as i16,
                        None => b0.occupancy[c],
                    } by {}
                }
            } else {
                let nh = heads[i];
                let len = s.len;
                let ghost body0 = s.body@;
                let ghost id0 = s.id;
                let mut j = len;
                while j > 1
                    invariant
                        s.id == id0,
                        j <= len,
                        len <= MAX_SNAKE_LEN,
                        body0.len() == MAX_SNAKE_LEN,
                        s.body@.len() == MAX_SNAKE_LEN,
                        s.len == len,
                        forall|k: int|
                            0 <= k < MAX_SNAKE_LEN ==> #[trigger] s.body@[k] == if j <= k < len && k
                                >= 1 {
                                body0[k - 1]
                            } else {
                                body0[k]
                            },
                    decreases j,
                {
                    j = j - 1;
                    let prev = s.body[j - 1];
                    s.body.set(j, prev);
                }
                s.body.set(0, nh);
                assert(s.body@ =~= shifted_body(body0, len as int, nh));
                let id = s.id;
                self.snakes.insert(i, s);
                assert(self.snakes@ =~= snakes0.update(i as int, s));
                assert forall|k: int| 0 <= k < MAX_SNAKES implies #[trigger] self.snakes@[k].body@.len()
                    == MAX_SNAKE_LEN && self.snakes@[k].len <= MAX_SNAKE_LEN by {
                    if k != i {
                        assert(self.snakes@[k] == snakes0[k]);
                    }
                }
                let ghost before = self.occupancy@;
                self.occupancy.set(nh as usize, id as i16);
                proof {
                    assert forall|c: int| 0 <= c < MAX_CELLS implies #[trigger] self.occupancy@[c]
                        == match last_mover(heads@, dead@, c, i + 1) {
                        Some(k) => b0.ids[k] as i16,
                        None => b0.occupancy[c],
                    } by {
                        if c != nh {
                            assert(self.occupancy@[c] == before[c]);
                        }
                    }
                    assert forall|ii: int, jj: int|
                        0 <= ii < MAX_SNAKES && 0 <= jj < MAX_SNAKE_LEN implies #[trigger] self.snakes@[ii].body@[jj]
                        < MAX_CELLS by {
                        if ii != i {
                            assert(self.snakes@[ii] == snakes0[ii]);
                        } else {
                            if jj >= 1 && jj < len {
                                assert(snakes0[ii].body@[jj - 1] < MAX_CELLS);
                            }
                        }
                    }
                }
            }
            i = i + 1;
        }
        proof {
            let target = move_snakes(b0, count as int, heads@, dead@);
            assert(self.board().lens =~= target.lens);
            assert(self.board().bodies =~= target.bodies);
            assert(self.board().ids =~= target.ids);
            assert(self.board().occupancy =~= target.occupancy);
        }
    }

    proof fn lemma_last_feeder(b: Board, count: int, c: int, k: int)
        ensures
            last_feeder(b, count, c, k) matches Some(j) ==> 0 <= j < k && feeds(b, count, j)
                && b.bodies[j][0] == c,
            last_feeder(b, count, c, k) is None ==> forall|j: int|
                0 <= j < k && feeds(b, count, j) ==> b.bodies[j][0] != c,
        decreases k,
    {
        if k > 0 {
            Self::lemma_last_feeder(b, count, c, k - 1);
        }
    }

    fn feed_all(&mut self)
        requires
            old(self).wf(),
            forall|i: int, j: int|
                0 <= i < old(self).snake_count && 0 <= j < old(self).snake_count && i != j
                    && old(self).snakes@[i].len > 0 && old(self).snakes@[j].len > 0
                    ==> #[trigger] old(self).snakes@[i].body@[0] != #[trigger] old(self).snakes@[j].body@[0],
            forall|i: int|
                feeds(old(self).board(), old(self).snake_count as int, i) ==> #[trigger] old(
                    self,
                ).snakes@[i].len < MAX_SNAKE_LEN,
        ensures
            final(self).wf(),
            final(self).same_frame(old(self)),
            final(self).board() == feed_snakes(old(self).board(), old(self).snake_count as int),
    {
        let ghost b0 = self.board();
        let count = self.snake_count;
        let mut i: usize = 0;
        while i < count
            invariant
                self.wf(),
                self.same_frame(old(self)),
                b0 == old(self).board(),
                count == self.snake_count,
                i <= count,
                forall|k: int, j: int|
                    0 <= k < count && 0 <= j < count && k != j && b0.lens[k] > 0 && b0.lens[j] > 0
                        ==> #[trigger] b0.bodies[k][0] != #[trigger] b0.bodies[j][0],
                forall|k: int| feeds(b0, count as int, k) ==> #[trigger] b0.lens[k] < MAX_SNAKE_LEN,
                forall|k: int| 0 <= k < MAX_SNAKES ==> #[trigger] self.snakes@[k].id == b0.ids[k],
                forall|k: int|
                    0 <= k < MAX_SNAKES ==> #[trigger] self.snakes@[k].len == if k < i && feeds(
                        b0,
                        count as int,
                        k,
                    ) {
                        b0.lens[k] + 1
                    } else {
                        b0.lens[k]
                    },
                forall|k: int|
                    0 <= k < MAX_SNAKES ==> #[trigger] self.snakes@[k].body@ == if k < i && feeds(
                        b0,
                        count as int,
                        k,
                    ) {
                        b0.bodies[k].update(b0.lens[k], b0.bodies[k][b0.lens[k] - 1])
                    } else {
                        b0.bodies[k]
                    },
                forall|c: int|
                    0 <= c < MAX_CELLS ==> #[trigger] self.occupancy@[c] == match last_feeder(
                        b0,
                        count as int,
                        c,
                        i as int,
                    ) {
                        Some(k) => b0.ids[k] as i16,
                        None => b0.occupancy[c],
                    },
            decreases count - i,
        {
            let len = self.snakes[i].len;
            if len == 0 {
                proof {
                    assert(!feeds(b0, count as int, i as int));
                    assert forall|c: int| 0 <= c < MAX_CELLS implies #[trigger] self.occupancy@[c]
                        == match last_feeder(b0, count as int, c, i + 1) {
                        Some(k) => b0.ids[k] as i16,
                        None => b0.occupancy[c],
                    } by {}
                }
            } else {
                let head = self.snakes[i].body[0];
                proof {
                    Self::lemma_last_feeder(b0, count as int, head as int, i as int);
                    assert(b0.bodies[i as int][0] == head);
                }
                if self.occupancy[head as usize] == OCC_POWER {
                    assert(feeds(b0, count as int, i as int));
                    let ghost snakes0 = self.snakes@;
                    assert(forall|k: int|
                        0 <= k < MAX_SNAKES ==> #[trigger] snakes0[k].body@.len() == MAX_SNAKE_LEN
                            && snakes0[k].len <= MAX_SNAKE_LEN);
                    let mut s = self.snakes.remove(i);
                    assert(s == snakes0[i as int]);
                    let last = s.body[len - 1];
                    s.body.set(len, last);
                    s.len = len + 1;
                    let id = s.id;
                    self.snakes.insert(i, s);
                    assert(self.snakes@ =~= snakes0.update(i as int, s));
                    assert forall|k: int| 0 <= k < MAX_SNAKES implies #[trigger] self.snakes@[k].body@.len()
                        == MAX_SNAKE_LEN && self.snakes@[k].len <= MAX_SNAKE_LEN by {
                        if k != i {
                            assert(self.snakes@[k] == snakes0[k]);
                        }
                    }
                    let ghost before = self.occupancy@;
                    self.occupancy.set(head as usize, id as i16);
                    proof {
                        assert forall|c: int| 0 <= c < MAX_CELLS implies #[trigger] self.occupancy@[c]
                            == match last_feeder(b0, count as int, c, i + 1) {
                            Some(k) => b0.ids[k] as i16,
                            None => b0.occupancy[c],
                        } by {
                            if c != head {
                                assert(self.occupancy@[c] == before[c]);
                            }
                        }
                        assert forall|ii: int, jj: int|
                            0 <= ii < MAX_SNAKES && 0 <= jj < MAX_SNAKE_LEN implies #[trigger] self.snakes@[ii].body@[jj]
                            < MAX_CELLS by {
                            if ii != i {
                                assert(self.snakes@[ii] == snakes0[ii]);
                            } else {
                                assert(snakes0[ii].body@[len - 1] < MAX_CELLS);
                                assert(snakes0[ii].body@[jj] < MAX_CELLS);
                            }
                        }
                        assert(s.body@ =~= b0.bodies[i as int].update(
                            b0.lens[i as int],
                            b0.bodies[i as int][b0.lens[i as int] - 1],
                        ));
                    }
                } else {
                    proof {
                        assert(!feeds(b0, count as int, i as int));
                        assert forall|c: int| 0 <= c < MAX_CELLS implies #[trigger] self.occupancy@[c]
                            == match last_feeder(b0, count as int, c, i + 1) {
                            Some(k) => b0.ids[k] as i16,
                            None => b0.occupancy[c],
                        } by {}
                    }
                }
            }
            i = i + 1;
        }
        proof {
            let target = feed_snakes(b0, count as int);
            assert(self.board().lens =~= target.lens);
            assert(self.board().bodies =~= target.bodies);
            assert(self.board().ids =~= target.ids);
            assert(self.board().occupancy =~= target.occupancy);
        }
    }
}


impl FastWorld {
    proof fn lemma_contenders_monotone(&self, moves: [u8; MAX_SNAKES], c: int, a: int, b: int)
        requires
            0 <= a <= b,
        ensures
            self.contenders(moves, c, a) <= self.contenders(moves, c, b),
        decreases b - a,
    {
        if a < b {
            self.lemma_contenders_monotone(moves, c, a, b - 1);
        }
    }

    /// Two snakes that contend for the same cell both die.
    proof fn lemma_same_head_dies(&self, moves: [u8; MAX_SNAKES], i: int, j: int)
        requires
            0 <= i < j < self.snake_count,
            self.contends(moves, i),
            self.contends(moves, j),
            self.new_head(moves, i) == self.new_head(moves, j),
        ensures
            self.dies(moves, i),
            self.dies(moves, j),
    {
        let c = self.new_head(moves, i) as int;
        self.lemma_contenders_monotone(moves, c, i + 1, j);
        self.lemma_contenders_monotone(moves, c, j + 1, self.snake_count as int);
    }

    /// After the move, the heads of the snakes that still have a body are on distinct cells.
    proof fn lemma_moved_heads_distinct(&self, moves: [u8; MAX_SNAKES], i: int, j: int)
        requires
            self.wf(),
            0 <= i < self.snake_count,
            0 <= j < self.snake_count,
            i != j,
            self.moved(moves).lens[i] > 0,
            self.moved(moves).lens[j] > 0,
        ensures
            self.moved(moves).bodies[i][0] != self.moved(moves).bodies[j][0],
    {
        let m = self.moved(moves);
        assert(!self.dies(moves, i));
        assert(!self.dies(moves, j));
        assert(m.bodies[i][0] == self.new_head(moves, i));
        assert(m.bodies[j][0] == self.new_head(moves, j));
        if self.new_head(moves, i) == self.new_head(moves, j) {
            if i < j {
                self.lemma_same_head_dies(moves, i, j);
            } else {
                self.lemma_same_head_dies(moves, j, i);
            }
        }
    }

    /// One turn of the game with the moves `moves`: tails leave their cells; a snake
    /// that moves onto a snake or a power source, or onto the same cell as another
    /// snake, dies and loses its body; the others move their heads; a snake whose head
    /// is then on a power source grows by one cell.
    pub fn simulate_turn(&mut self, moves: &[u8; MAX_SNAKES])
        requires
            old(self).wf(),
            old(self).moves_valid(*moves),
            forall|i: int|
                feeds(old(self).moved(*moves), old(self).snake_count as int, i) ==> #[trigger] old(
                    self,
                ).snakes@[i].len < MAX_SNAKE_LEN,
        ensures
            final(self).wf(),
            final(self).same_frame(old(self)),
            final(self).board() == old(self).stepped(*moves),
    {
        let heads = self.compute_heads(moves);
        let dead = self.compute_deaths(moves, &heads);
        self.free_tails();
        self.move_all(&heads, &dead);
        proof {
            let m = old(self).moved(*moves);
            assert(self.board() == m);
            assert forall|i: int, j: int|
                0 <= i < self.snake_count && 0 <= j < self.snake_count && i != j
                    && self.snakes@[i].len > 0 && self.snakes@[j].len > 0 implies #[trigger] self.snakes@[i].body@[0]
                != #[trigger] self.snakes@[j].body@[0] by {
                assert(self.board().lens[i] == self.snakes@[i].len);
                assert(self.board().lens[j] == self.snakes@[j].len);
                assert(self.board().bodies[i] == self.snakes@[i].body@);
                assert(self.board().bodies[j] == self.snakes@[j].body@);
                old(self).lemma_moved_heads_distinct(*moves, i, j);
            }
            assert forall|i: int| feeds(self.board(), self.snake_count as int, i) implies #[trigger] self.snakes@[i].len
                < MAX_SNAKE_LEN by {
                assert(self.board().lens[i] == self.snakes@[i].len);
                assert(old(self).snakes@[i].len < MAX_SNAKE_LEN);
            }
        }
        self.feed_all();
    }
}


// ---------------------------------------------------------------------------
// Reading cells, and breadth-first search
// ---------------------------------------------------------------------------

impl FastWorld {
    /// Cell `c` holds nothing or a power source.
    pub open spec fn free_cell(&self, c: int) -> bool {
        self.occupancy@[c] == OCC_EMPTY || self.occupancy@[c] == OCC_POWER
    }

    /// Empties every cell of the occupancy table.
    pub fn clear_occupancy(&mut self)
        requires
            old(self).occupancy@.len() == MAX_CELLS,
        ensures
            final(self).wf() == old(self).wf(),
            final(self).same_frame(old(self)),
            final(self).snakes == old(self).snakes,
            final(self).occupancy@ == empty_occupancy(),
    {
        clear_table(&mut self.occupancy);
    }

    /// Cell `cell` holds nothing or a power source.
    pub fn is_free(&self, cell: CellIndex) -> (r: bool)
        requires
            self.terrain@.len() == MAX_CELLS,
            self.occupancy@.len() == MAX_CELLS,
            cell < MAX_CELLS,
        ensures
            r == self.free_cell(cell as int),
    {
        let v = self.occupancy[cell as usize];
        v == OCC_EMPTY || v == OCC_POWER
    }

    /// Cell `cell` is a wall.
    pub fn is_wall(&self, cell: CellIndex) -> (r: bool)
        requires
            self.terrain@.len() == MAX_CELLS,
            cell < MAX_CELLS,
        ensures
            r == (self.terrain@[cell as int] == Terrain::Wall),
    {
        self.terrain[cell as usize] == Terrain::Wall
    }

    /// Cell `cell` holds a snake.
    pub fn is_snake(&self, cell: CellIndex) -> (r: bool)
        requires
            self.occupancy@.len() == MAX_CELLS,
            cell < MAX_CELLS,
        ensures
            r == (self.occupancy@[cell as int] >= 0),
    {
        self.occupancy[cell as usize] >= 0
    }

    /// One move leads from cell `u` to the different cell `v`.
    pub open spec fn step(&self, u: int, v: int) -> bool {
        &&& 0 <= u < MAX_CELLS
        &&& u != v
        &&& exists|d: int| 0 <= d < DIR_COUNT && #[trigger] self.neighbors@[u][d] as int == v
    }

    /// A search from `s` with the distance table `init` may enter cell `v`: it is the
    /// start, or it holds no snake and `init` marks it unvisited.
    pub open spec fn enterable(&self, init: Seq<i16>, s: int, v: int) -> bool {
        v == s || (init[v] == -1 && self.occupancy@[v] < 0)
    }

    /// `p` is a path of moves from `s` whose cells after the first are enterable.
    pub open spec fn is_path(&self, init: Seq<i16>, s: int, p: Seq<int>) -> bool {
        &&& p.len() >= 1
        &&& p[0] == s
        &&& forall|i: int|
            1 <= i < p.len() ==> self.enterable(init, s, #[trigger] p[i]) && self.step(p[i - 1], p[i])
    }

    /// A path of at most `n` moves leads from `s` to `v` through enterable cells.
    pub open spec fn reach(&self, init: Seq<i16>, s: int, v: int, n: int) -> bool {
        exists|p: Seq<int>| #[trigger] self.is_path(init, s, p) && p.len() <= n + 1 && p.last() == v
    }

    proof fn lemma_reach_start(&self, init: Seq<i16>, s: int)
        ensures
            self.reach(init, s, s, 0),
    {
        let p = seq![s];
        assert(self.is_path(init, s, p));
    }

    proof fn lemma_reach_monotone(&self, init: Seq<i16>, s: int, v: int, a: int, b: int)
        requires
            a <= b,
            self.reach(init, s, v, a),
        ensures
            self.reach(init, s, v, b),
    {
        let p = choose|p: Seq<int>| #[trigger] self.is_path(init, s, p) && p.len() <= a + 1 && p.last() == v;
        assert(self.is_path(init, s, p));
    }

    proof fn lemma_reach_extend(&self, init: Seq<i16>, s: int, u: int, v: int, n: int)
        requires
            self.reach(init, s, u, n),
            self.step(u, v),
            self.enterable(init, s, v),
        ensures
            self.reach(init, s, v, n + 1),
    {
        let p = choose|p: Seq<int>| #[trigger] self.is_path(init, s, p) && p.len() <= n + 1 && p.last() == u;
        let p2 = p.push(v);
        assert forall|i: int| 1 <= i < p2.len() implies self.enterable(init, s, #[trigger] p2[i])
            && self.step(p2[i - 1], p2[i]) by {
            if i < p.len() {
                assert(p2[i] == p[i] && p2[i - 1] == p[i - 1]);
            }
        }
        assert(self.is_path(init, s, p2));
    }

    /// The cell before the last on a path that reaches `v != s`.
    proof fn lemma_reach_back(&self, init: Seq<i16>, s: int, v: int, n: int) -> (u: int)
        requires
            self.reach(init, s, v, n),
            v != s,
        ensures
            0 <= u < MAX_CELLS,
            self.reach(init, s, u, n - 1),
            self.step(u, v),
            self.enterable(init, s, v),
    {
        let p = choose|p: Seq<int>| #[trigger] self.is_path(init, s, p) && p.len() <= n + 1 && p.last() == v;
        assert(p.len() >= 2);
        let k = p.len() - 1;
        assert(self.enterable(init, s, p[k]) && self.step(p[k - 1], p[k]));
        let p1 = p.drop_last();
        assert forall|i: int| 1 <= i < p1.len() implies self.enterable(init, s, #[trigger] p1[i])
            && self.step(p1[i - 1], p1[i]) by {
            assert(p1[i] == p[i] && p1[i - 1] == p[i - 1]);
        }
        assert(self.is_path(init, s, p1));
        p[k - 1]
    }

    /// The state of a breadth-first search from `s` over the distance table `init`:
    /// `q[0..tail]` lists the visited cells by distance, `q[0..head]` of them have had
    /// their neighbors visited.
    pub open spec fn bfs_state(
        &self,
        init: Seq<i16>,
        s: int,
        q: Seq<CellIndex>,
        dist: Seq<i16>,
        head: int,
        tail: int,
    ) -> bool {
        &&& init.len() == MAX_CELLS
        &&& dist.len() == MAX_CELLS
        &&& q.len() == MAX_CELLS
        &&& 0 <= s < MAX_CELLS
        &&& 0 <= head <= tail <= MAX_CELLS
        &&& 1 <= tail
        &&& q[0] == s
        &&& forall|k: int|
            0 <= k < tail ==> {
                &&& #[trigger] q[k] < MAX_CELLS
                &&& self.enterable(init, s, q[k] as int)
                &&& 0 <= dist[q[k] as int] <= k
                &&& self.reach(init, s, q[k] as int, dist[q[k] as int] as int)
                &&& (dist[q[k] as int] == 0 || !self.reach(
                    init,
                    s,
                    q[k] as int,
                    dist[q[k] as int] - 1,
                ))
            }
        &&& forall|k1: int, k2: int| 0 <= k1 < k2 < tail ==> #[trigger] q[k1] != #[trigger] q[k2]
        &&& forall|k1: int, k2: int|
            0 <= k1 <= k2 < tail ==> dist[#[trigger] q[k1] as int] <= dist[#[trigger] q[k2] as int]
        &&& forall|v: int|
            0 <= v < MAX_CELLS && self.enterable(init, s, v) && #[trigger] dist[v] != -1 ==> exists|
                k: int,
            | 0 <= k < tail && #[trigger] q[k] as int == v
        &&& forall|v: int|
            0 <= v < MAX_CELLS && !self.enterable(init, s, v) ==> #[trigger] dist[v] == init[v]
        &&& forall|k: int, d: int|
            0 <= k < head && 0 <= d < DIR_COUNT && self.step(q[k] as int, self.neighbors@[q[k] as int][d] as int)
                && self.enterable(init, s, self.neighbors@[q[k] as int][d] as int) ==> #[trigger] dist[#[trigger] self.neighbors@[q[k] as int][d] as int]
                != -1
    }

    /// Every cell that a path of fewer than `m` moves reaches is among `q[0..head]`.
    pub open spec fn bfs_layers_done(
        &self,
        init: Seq<i16>,
        s: int,
        q: Seq<CellIndex>,
        head: int,
        m: int,
    ) -> bool {
        forall|u: int, n: int|
            0 <= u < MAX_CELLS && n < m && #[trigger] self.reach(init, s, u, n) ==> exists|k: int|
                0 <= k < head && #[trigger] q[k] as int == u
    }
}


impl FastWorld {
    /// Some path of moves leads from `s` to `v` through enterable cells.
    pub open spec fn reachable(&self, init: Seq<i16>, s: int, v: int) -> bool {
        exists|n: int| #[trigger] self.reach(init, s, v, n)
    }

    /// `dist` is what a breadth-first search from `s` leaves in the distance table
    /// `init`: each enterable cell holds the number of moves of a shortest path from
    /// `s` to it, or -1 where no path leads; every other cell keeps its value.
    pub open spec fn bfs_result(&self, init: Seq<i16>, s: int, dist: Seq<i16>) -> bool {
        &&& dist.len() == MAX_CELLS
        &&& forall|v: int|
            0 <= v < MAX_CELLS && !self.enterable(init, s, v) ==> #[trigger] dist[v] == init[v]
        &&& forall|v: int|
            0 <= v < MAX_CELLS && self.enterable(init, s, v) ==> (#[trigger] dist[v] == -1
                <==> !self.reachable(init, s, v))
        &&& forall|v: int|
            0 <= v < MAX_CELLS && self.enterable(init, s, v) && #[trigger] dist[v] != -1 ==> {
                &&& 0 <= dist[v]
                &&& self.reach(init, s, v, dist[v] as int)
                &&& (dist[v] == 0 || !self.reach(init, s, v, dist[v] - 1))
            }
    }

    proof fn lemma_reach_enterable(&self, init: Seq<i16>, s: int, v: int, n: int)
        requires
            self.reach(init, s, v, n),
        ensures
            self.enterable(init, s, v),
    {
        if v != s {
            self.lemma_reach_back(init, s, v, n);
        }
    }

    proof fn lemma_fresh_not_closer(
        &self,
        init: Seq<i16>,
        s: int,
        q: Seq<CellIndex>,
        dist: Seq<i16>,
        h0: int,
        tail: int,
        next: int,
    )
        requires
            self.bfs_state(init, s, q, dist, h0, tail),
            h0 < tail,
            self.bfs_layers_done(init, s, q, h0, dist[q[h0] as int] as int),
            0 <= next < MAX_CELLS,
            dist[next] == -1,
        ensures
            !self.reach(init, s, next, dist[q[h0] as int] as int),
    {
        let dc = dist[q[h0] as int] as int;
        assert(q[h0] < MAX_CELLS);
        assert(q[0] < MAX_CELLS);
        if self.reach(init, s, next, dc) {
            if next == s {
                assert(dist[q[0] as int] >= 0);
            } else {
                let p = self.lemma_reach_back(init, s, next, dc);
                if dc == 0 {
                    // a path of no move ends at the start
                    assert(false);
                }
                let k = choose|k: int| 0 <= k < h0 && #[trigger] q[k] as int == p;
                let d = choose|d: int| 0 <= d < DIR_COUNT && #[trigger] self.neighbors@[p][d] as int == next;
                assert(q[k] < MAX_CELLS);
                assert(dist[self.neighbors@[q[k] as int][d] as int] != -1);
            }
        }
    }

    proof fn lemma_layers_advance(
        &self,
        init: Seq<i16>,
        s: int,
        q: Seq<CellIndex>,
        dist: Seq<i16>,
        h0: int,
        tail: int,
    )
        requires
            self.bfs_state(init, s, q, dist, h0 + 1, tail),
            0 <= h0,
            h0 + 1 < tail,
            self.bfs_layers_done(init, s, q, h0, dist[q[h0] as int] as int),
            forall|k: int| 0 <= k < tail ==> dist[#[trigger] q[k] as int] <= dist[q[h0] as int] + 1,
        ensures
            self.bfs_layers_done(init, s, q, h0 + 1, dist[q[h0 + 1] as int] as int),
    {
        let dc = dist[q[h0] as int] as int;
        let dn = dist[q[h0 + 1] as int] as int;
        assert(q[h0] < MAX_CELLS && q[h0 + 1] < MAX_CELLS);
        assert(q[0] < MAX_CELLS);
        assert(dc <= dn);
        assert(dn <= dc + 1);
        assert forall|u: int, n: int|
            0 <= u < MAX_CELLS && n < dn && #[trigger] self.reach(init, s, u, n) implies exists|k: int|
            0 <= k < h0 + 1 && #[trigger] q[k] as int == u by {
            if n < dc {
                let k = choose|k: int| 0 <= k < h0 && #[trigger] q[k] as int == u;
                assert(q[k] as int == u);
            } else if u == s {
                assert(q[0] as int == u);
            } else {
                let p = self.lemma_reach_back(init, s, u, n);
                let kp = choose|k: int| 0 <= k < h0 && #[trigger] q[k] as int == p;
                let d = choose|d: int| 0 <= d < DIR_COUNT && #[trigger] self.neighbors@[p][d] as int == u;
                assert(q[kp] < MAX_CELLS);
                assert(dist[self.neighbors@[q[kp] as int][d] as int] != -1);
                let k = choose|k: int| 0 <= k < tail && #[trigger] q[k] as int == u;
                assert(q[k] < MAX_CELLS);
                let e = dist[u] as int;
                if e > n {
                    self.lemma_reach_monotone(init, s, u, n, e - 1);
                }
                if k >= h0 + 1 {
                    assert(dist[q[h0 + 1] as int] <= dist[q[k] as int]);
                }
                assert(q[k] as int == u);
            }
        }
    }

    proof fn lemma_bfs_complete(
        &self,
        init: Seq<i16>,
        s: int,
        q: Seq<CellIndex>,
        dist: Seq<i16>,
        tail: int,
        v: int,
        n: int,
    )
        requires
            self.bfs_state(init, s, q, dist, tail, tail),
            0 <= v < MAX_CELLS,
            self.reach(init, s, v, n),
        ensures
            dist[v] != -1,
        decreases n,
    {
        assert(q[0] < MAX_CELLS);
        if v == s {
        } else {
            let p = self.lemma_reach_back(init, s, v, n);
            if n <= 0 {
                assert(false);
            }
            self.lemma_bfs_complete(init, s, q, dist, tail, p, n - 1);
            self.lemma_reach_enterable(init, s, p, n - 1);
            let k = choose|k: int| 0 <= k < tail && #[trigger] q[k] as int == p;
            let d = choose|d: int| 0 <= d < DIR_COUNT && #[trigger] self.neighbors@[p][d] as int == v;
            assert(q[k] < MAX_CELLS);
            assert(dist[self.neighbors@[q[k] as int][d] as int] != -1);
        }
    }

    /// Breadth-first search from `start` over the cells that hold no snake, on a
    /// distance table in which -1 marks a cell as unvisited; see `bfs_result`.
    pub fn bfs(&self, start: CellIndex, dist: &mut Vec<i16>)
        requires
            self.grid_wf(),
            start < MAX_CELLS,
            old(dist)@.len() == MAX_CELLS,
        ensures
            self.bfs_result(old(dist)@, start as int, final(dist)@),
    {
        let ghost init = dist@;
        let ghost s = start as int;
        let mut queue: Vec<CellIndex> = Vec::new();
        let mut i: usize = 0;
        while i < MAX_CELLS
            invariant
                i <= MAX_CELLS,
                queue@.len() == i,
            decreases MAX_CELLS - i,
        {
            queue.push(0);
            i = i + 1;
        }
        let mut head: usize = 0;
        let mut tail: usize = 0;
        queue.set(tail, start);
        tail = tail + 1;
        dist.set(start as usize, 0);
        let ghost mut seen: Set<int> = Set::empty().insert(s);
        proof {
            self.lemma_reach_start(init, s);
            assert forall|v: int|
                0 <= v < MAX_CELLS && self.enterable(init, s, v) && #[trigger] dist@[v] != -1 implies exists|
                k: int,
            | 0 <= k < tail && #[trigger] queue@[k] as int == v by {
                if v != s {
                    assert(dist@[v] == init[v]);
                }
                assert(queue@[0] as int == v);
            }
        }
        while head < tail
            invariant
                self.grid_wf(),
                self.bfs_state(init, s, queue@, dist@, head as int, tail as int),
                head < tail ==> self.bfs_layers_done(
                    init,
                    s,
                    queue@,
                    head as int,
                    dist@[queue@[head as int] as int] as int,
                ),
                head < tail ==> forall|k: int|
                    0 <= k < tail ==> dist@[#[trigger] queue@[k] as int] <= dist@[queue@[head as int] as int]
                        + 1,
                seen.finite(),
                seen.len() == tail,
                forall|x: int| #[trigger] seen.contains(x) <==> exists|k: int| 0 <= k < tail && #[trigger] queue@[k] as int == x,
            decreases MAX_CELLS - head,
        {
            let cur = queue[head];
            let ghost h0 = head as int;
            let ghost tail0 = tail as int;
            let ghost dc = dist@[cur as int] as int;
            assert(queue@[h0] < MAX_CELLS);
            head = head + 1;
            let d = dist[cur as usize] + 1;
            let mut dir: usize = 0;
            while dir < DIR_COUNT
                invariant
                    self.grid_wf(),
                    self.bfs_state(init, s, queue@, dist@, h0, tail as int),
                    0 <= h0 < tail,
                    head == h0 + 1,
                    cur == queue@[h0],
                    cur < MAX_CELLS,
                    dc == dist@[cur as int],
                    d == dc + 1,
                    dc <= h0,
                    self.bfs_layers_done(init, s, queue@, h0, dc),
                    forall|k: int| 0 <= k < tail ==> dist@[#[trigger] queue@[k] as int] <= dc + 1,
                    dir <= DIR_COUNT,
                    forall|dd: int|
                        0 <= dd < dir && self.step(cur as int, self.neighbors@[cur as int][dd] as int)
                            && self.enterable(init, s, self.neighbors@[cur as int][dd] as int)
                            ==> #[trigger] dist@[self.neighbors@[cur as int][dd] as int] != -1,
                    seen.finite(),
                    seen.len() == tail,
                    forall|x: int| #[trigger] seen.contains(x) <==> exists|k: int| 0 <= k < tail && #[trigger] queue@[k] as int == x,
                decreases DIR_COUNT - dir,
            {
                let next = self.neighbors[cur as usize][dir];
                assert(next < MAX_CELLS);
                if next == cur {
                } else if dist[next as usize] != -1 {
                } else if self.occupancy[next as usize] >= 0 {
                } else {
                    let ghost q0 = queue@;
                    let ghost dist0 = dist@;
                    proof {
                        // `next` is fresh: enterable, and not yet in the queue
                        assert(self.enterable(init, s, next as int)) by {
                            if next as int == s {
                                assert(q0[0] < MAX_CELLS);
                            }
                            if !self.enterable(init, s, next as int) {
                                assert(dist0[next as int] == init[next as int]);
                            }
                        }
                        assert(!seen.contains(next as int)) by {
                            if seen.contains(next as int) {
                                let k = choose|k: int| 0 <= k < tail && #[trigger] q0[k] as int == next as int;
                                assert(q0[k] < MAX_CELLS);
                            }
                        }
                        vstd::set_lib::lemma_int_range(0, MAX_CELLS as int);
                        assert(seen.insert(next as int).subset_of(vstd::set_lib::set_int_range(0, MAX_CELLS as int))) by {
                            assert forall|x: int| #[trigger] seen.insert(next as int).contains(x) implies 0 <= x < MAX_CELLS by {
                                if x != next as int {
                                    let k = choose|k: int| 0 <= k < tail && #[trigger] q0[k] as int == x;
                                    assert(q0[k] < MAX_CELLS);
                                }
                            }
                        }
                        vstd::set_lib::lemma_len_subset(seen.insert(next as int), vstd::set_lib::set_int_range(0, MAX_CELLS as int));
                        assert(self.step(cur as int, next as int));
                        self.lemma_reach_extend(init, s, cur as int, next as int, dc);
                        self.lemma_fresh_not_closer(init, s, q0, dist0, h0, tail as int, next as int);
                    }
                    dist.set(next as usize, d);
                    queue.set(tail, next);
                    proof {
                        seen = seen.insert(next as int);
                        let t = tail as int;
                        assert forall|k: int| 0 <= k < t + 1 implies #[trigger] queue@[k] as int != next as int || k == t by {
                            if k < t && queue@[k] as int == next as int {
                                assert(q0[k] < MAX_CELLS);
                            }
                        }
                        assert forall|x: int| #[trigger] seen.contains(x) <==> exists|k: int| 0 <= k < t + 1 && #[trigger] queue@[k] as int == x by {
                            if x == next as int {
                                assert(queue@[t] as int == x);
                            } else if seen.contains(x) {
                                let k = choose|k: int| 0 <= k < t && #[trigger] q0[k] as int == x;
                                assert(queue@[k] as int == x);
                            }
                        }
                        assert forall|v: int|
                            0 <= v < MAX_CELLS && self.enterable(init, s, v) && #[trigger] dist@[v] != -1 implies exists|
                            k: int,
                        | 0 <= k < t + 1 && #[trigger] queue@[k] as int == v by {
                            if v == next as int {
                                assert(queue@[t] as int == v);
                            } else {
                                assert(dist0[v] != -1);
                                let k = choose|k: int| 0 <= k < t && #[trigger] q0[k] as int == v;
                                assert(queue@[k] as int == v);
                            }
                        }
                        assert forall|k: int|
                            0 <= k < t + 1 implies {
                                &&& #[trigger] queue@[k] < MAX_CELLS
                                &&& self.enterable(init, s, queue@[k] as int)
                                &&& 0 <= dist@[queue@[k] as int] <= k
                                &&& self.reach(init, s, queue@[k] as int, dist@[queue@[k] as int] as int)
                                &&& (dist@[queue@[k] as int] == 0 || !self.reach(
                                    init,
                                    s,
                                    queue@[k] as int,
                                    dist@[queue@[k] as int] - 1,
                                ))
                            } by {
                            if k < t {
                                assert(q0[k] < MAX_CELLS);
                                assert(queue@[k] == q0[k]);
                            }
                        }
                        assert forall|k1: int, k2: int|
                            0 <= k1 <= k2 < t + 1 implies dist@[#[trigger] queue@[k1] as int] <= dist@[#[trigger] queue@[k2] as int] by {
                            if k2 < t {
                                assert(q0[k1] < MAX_CELLS);
                                assert(q0[k2] < MAX_CELLS);
                                assert(dist0[q0[k1] as int] <= dist0[q0[k2] as int]);
                            } else if k1 < t {
                                assert(q0[k1] < MAX_CELLS);
                                assert(dist0[q0[k1] as int] <= dc + 1);
                            }
                        }
                        assert forall|k: int, dd: int|
                            0 <= k < h0 && 0 <= dd < DIR_COUNT && self.step(queue@[k] as int, self.neighbors@[queue@[k] as int][dd] as int)
                                && self.enterable(init, s, self.neighbors@[queue@[k] as int][dd] as int) implies #[trigger] dist@[#[trigger] self.neighbors@[queue@[k] as int][dd] as int]
                            != -1 by {
                            assert(queue@[k] == q0[k]);
                            assert(dist0[self.neighbors@[q0[k] as int][dd] as int] != -1);
                        }
                        assert forall|k: int| 0 <= k < t + 1 implies dist@[#[trigger] queue@[k] as int] <= dc + 1 by {
                            if k < t {
                                assert(q0[k] < MAX_CELLS);
                                assert(queue@[k] == q0[k]);
                            }
                        }
                        assert forall|dd: int|
                            0 <= dd < dir + 1 && self.step(cur as int, self.neighbors@[cur as int][dd] as int)
                                && self.enterable(init, s, self.neighbors@[cur as int][dd] as int)
                                implies #[trigger] dist@[self.neighbors@[cur as int][dd] as int] != -1 by {
                            if dd < dir {
                                assert(dist0[self.neighbors@[cur as int][dd] as int] != -1);
                            }
                        }
                        assert forall|u: int, n: int|
                            0 <= u < MAX_CELLS && n < dc && #[trigger] self.reach(init, s, u, n) implies exists|k: int|
                            0 <= k < h0 && #[trigger] queue@[k] as int == u by {
                            let k = choose|k: int| 0 <= k < h0 && #[trigger] q0[k] as int == u;
                            assert(queue@[k] as int == u);
                        }
                    }
                    tail = tail + 1;
                }
                dir = dir + 1;
            }
            proof {
                if head < tail {
                    self.lemma_layers_advance(init, s, queue@, dist@, h0, tail as int);
                    assert(queue@[head as int] < MAX_CELLS);
                    assert(queue@[h0] < MAX_CELLS);
                    assert(dist@[queue@[h0] as int] <= dist@[queue@[head as int] as int]);
                }
            }
        }
        proof {
            let q = queue@;
            let t = tail as int;
            assert forall|v: int|
                0 <= v < MAX_CELLS && self.enterable(init, s, v) implies (#[trigger] dist@[v] == -1
                <==> !self.reachable(init, s, v)) by {
                if dist@[v] != -1 {
                    let k = choose|k: int| 0 <= k < t && #[trigger] q[k] as int == v;
                    assert(q[k] < MAX_CELLS);
                    assert(self.reach(init, s, v, dist@[v] as int));
                }
                if self.reachable(init, s, v) {
                    let n = choose|n: int| #[trigger] self.reach(init, s, v, n);
                    self.lemma_bfs_complete(init, s, q, dist@, t, v, n);
                }
            }
            assert forall|v: int|
                0 <= v < MAX_CELLS && self.enterable(init, s, v) && #[trigger] dist@[v] != -1 implies {
                    &&& 0 <= dist@[v]
                    &&& self.reach(init, s, v, dist@[v] as int)
                    &&& (dist@[v] == 0 || !self.reach(init, s, v, dist@[v] - 1))
                } by {
                let k = choose|k: int| 0 <= k < t && #[trigger] q[k] as int == v;
                assert(q[k] < MAX_CELLS);
            }
        }
    }
}


// ---------------------------------------------------------------------------
// Choosing a move
// ---------------------------------------------------------------------------

/// A distance table in which every cell is unvisited.
pub open spec fn unvisited() -> Seq<i16> {
    Seq::new(MAX_CELLS as nat, |c: int| -1i16)
}

impl FastWorld {
    /// How many of the cells below `k` a search from `s` over an unvisited table reaches.
    pub open spec fn reach_count(&self, s: int, k: int) -> nat
        decreases k,
    {
        if k <= 0 {
            0
        } else {
            self.reach_count(s, k - 1) + if self.reachable(unvisited(), s, k - 1) {
                1nat
            } else {
                0nat
            }
        }
    }

    /// How many cells a search from `s` reaches: the room a snake has from there.
    pub open spec fn area(&self, s: int) -> int {
        self.reach_count(s, MAX_CELLS as int) as int
    }

    /// The direction that the move choice settles on, looking at directions `d` and
    /// on from the snake's head `head`, with the best direction and room seen so far.
    pub open spec fn pick_dir(&self, head: int, d: int, best_dir: int, best_score: int) -> int
        decreases DIR_COUNT - d,
    {
        if d >= DIR_COUNT {
            best_dir
        } else {
            let next = self.neighbors@[head][d] as int;
            if !self.free_cell(next) {
                self.pick_dir(head, d + 1, best_dir, best_score)
            } else if self.occupancy@[next] == OCC_POWER {
                d
            } else if self.area(next) > best_score {
                self.pick_dir(head, d + 1, d, self.area(next))
            } else {
                self.pick_dir(head, d + 1, best_dir, best_score)
            }
        }
    }

    /// The move chosen for the snake in slot `idx`: the first direction whose cell holds
    /// a power source; otherwise the direction onto a free cell from which the most
    /// cells can be reached, the first of them on a tie; `DIR_UP` if no neighbor is free.
    pub open spec fn chosen_dir(&self, idx: int) -> int {
        self.pick_dir(self.snakes@[idx].body@[0] as int, 0, 0, -1)
    }

    proof fn lemma_reach_count_bound(&self, s: int, k: int)
        requires
            k >= 0,
        ensures
            self.reach_count(s, k) <= k,
        decreases k,
    {
        if k > 0 {
            self.lemma_reach_count_bound(s, k - 1);
        }
    }

    /// The number of cells that a search from `s` reached.
    fn count_reached(&self, s: CellIndex, dist: &Vec<i16>) -> (r: i32)
        requires
            self.wf(),
            s < MAX_CELLS,
            self.bfs_result(unvisited(), s as int, dist@),
        ensures
            r == self.area(s as int),
    {
        let mut area: i32 = 0;
        let mut c: usize = 0;
        while c < MAX_CELLS
            invariant
                self.wf(),
                s < MAX_CELLS,
                self.bfs_result(unvisited(), s as int, dist@),
                c <= MAX_CELLS,
                area == self.reach_count(s as int, c as int),
            decreases MAX_CELLS - c,
        {
            proof {
                self.lemma_reach_count_bound(s as int, c as int);
                let v = c as int;
                if self.reachable(unvisited(), s as int, v) {
                    let n = choose|n: int| #[trigger] self.reach(unvisited(), s as int, v, n);
                    self.lemma_reach_enterable(unvisited(), s as int, v, n);
                }
                if !self.enterable(unvisited(), s as int, v) {
                    assert(dist@[v] == unvisited()[v]);
                }
                assert((dist@[v] >= 0) == self.reachable(unvisited(), s as int, v));
            }
            if dist[c] >= 0 {
                area = area + 1;
            }
            c = c + 1;
        }
        area
    }

    /// The move for the snake in slot `idx`; see `chosen_dir`.
    pub fn choose_move(&self, idx: usize) -> (r: u8)
        requires
            self.wf(),
            idx < MAX_SNAKES,
        ensures
            r == self.chosen_dir(idx as int),
            r < DIR_COUNT,
    {
        let head = self.snakes[idx].body[0];
        let ghost h = head as int;
        let mut best_dir: usize = 0;
        let mut best_score: i32 = -1;
        let mut dir: usize = 0;
        while dir < DIR_COUNT
            invariant
                self.wf(),
                idx < MAX_SNAKES,
                h == self.snakes@[idx as int].body@[0],
                h == head as int,
                h < MAX_CELLS,
                dir <= DIR_COUNT,
                best_dir < DIR_COUNT,
                self.chosen_dir(idx as int) == self.pick_dir(h, dir as int, best_dir as int, best_score as int),
            decreases DIR_COUNT - dir,
        {
            let next = self.neighbors[head as usize][dir];
            assert(next < MAX_CELLS);
            if !self.is_free(next) {
                dir = dir + 1;
                continue;
            }
            if self.occupancy[next as usize] == OCC_POWER {
                return dir as u8;
            }
            let mut dist: Vec<i16> = Vec::new();
            let mut c: usize = 0;
            while c < MAX_CELLS
                invariant
                    c <= MAX_CELLS,
                    dist@ =~= unvisited().take(c as int),
                decreases MAX_CELLS - c,
            {
                dist.push(-1);
                c = c + 1;
            }
            assert(dist@ =~= unvisited());
            self.bfs(next, &mut dist);
            let area = self.count_reached(next, &dist);
            if area > best_score {
                best_score = area;
                best_dir = dir;
            }
            dir = dir + 1;
        }
        best_dir as u8
    }
}


// ---------------------------------------------------------------------------
// The commands
// ---------------------------------------------------------------------------

/// The word that names direction `d` in a command.
pub open spec fn dir_name(d: int) -> Seq<char> {
    if d == DIR_UP {
        seq!['U', 'P']
    } else if d == DIR_RIGHT {
        seq!['R', 'I', 'G', 'H', 'T']
    } else if d == DIR_DOWN {
        seq!['D', 'O', 'W', 'N']
    } else if d == DIR_LEFT {
        seq!['L', 'E', 'F', 'T']
    } else {
        seq!['W', 'A', 'I', 'T']
    }
}

/// The direction that a command word names, as the referee reads it: `UP`, `RIGHT`,
/// `DOWN` or `LEFT`, letter by letter; `None` for any other word.
pub open spec fn word_dir(w: Seq<char>) -> Option<int> {
    if w.len() == 2 && w[0] == 'U' && w[1] == 'P' {
        Some(DIR_UP as int)
    } else if w.len() == 5 && w[0] == 'R' && w[1] == 'I' && w[2] == 'G' && w[3] == 'H' && w[4] == 'T' {
        Some(DIR_RIGHT as int)
    } else if w.len() == 4 && w[0] == 'D' && w[1] == 'O' && w[2] == 'W' && w[3] == 'N' {
        Some(DIR_DOWN as int)
    } else if w.len() == 4 && w[0] == 'L' && w[1] == 'E' && w[2] == 'F' && w[3] == 'T' {
        Some(DIR_LEFT as int)
    } else {
        None
    }
}

/// The word written for a direction reads back as that direction.
pub proof fn law_dir_name_read_back(d: int)
    requires
        0 <= d < DIR_COUNT,
    ensures
        word_dir(dir_name(d)) == Some(d),
{
}

fn push_dir_name(out: &mut String, dir: u8)
    ensures
        final(out)@ == old(out)@ + dir_name(dir as int),
{
    match dir as usize {
        DIR_UP => {
            out.push('U');
            out.push('P');
        },
        DIR_RIGHT => {
            out.push('R');
            out.push('I');
            out.push('G');
            out.push('H');
            out.push('T');
        },
        DIR_DOWN => {
            out.push('D');
            out.push('O');
            out.push('W');
            out.push('N');
        },
        DIR_LEFT => {
            out.push('L');
            out.push('E');
            out.push('F');
            out.push('T');
        },
        _ => {
            out.push('W');
            out.push('A');
            out.push('I');
            out.push('T');
        },
    }
    assert(final(out)@ =~= old(out)@ + dir_name(dir as int));
}

impl FastWorld {
    /// The command for the snake in slot `id`: its id, a space, and the name of its move.
    pub open spec fn command(&self, id: int) -> Seq<char> {
        decimal(self.snakes@[id].id as int) + seq![' '] + dir_name(self.chosen_dir(id))
    }

    /// The commands for my snakes listed in the first `k` id slots that still have a
    /// body, separated by `;`.
    pub open spec fn commands(&self, k: int) -> Seq<char>
        decreases k,
    {
        if k <= 0 {
            Seq::empty()
        } else {
            let prev = self.commands(k - 1);
            let id = self.my_snakebot_ids@[k - 1] as int;
            if self.snakes@[id].len == 0 {
                prev
            } else if prev.len() == 0 {
                self.command(id)
            } else {
                prev + seq![';'] + self.command(id)
            }
        }
    }

    /// The id slots of my snakes name snake slots.
    pub open spec fn my_ids_in_range(&self) -> bool {
        forall|i: int|
            0 <= i < self.my_snakebot_count ==> #[trigger] self.my_snakebot_ids@[i] < MAX_SNAKES
    }

    /// Whether the id slots of my snakes name snake slots: what `moves_to_text` asks.
    pub fn ids_in_range(&self) -> (r: bool)
        requires
            self.wf(),
        ensures
            r == self.my_ids_in_range(),
    {
        let n = self.my_snakebot_count;
        let mut i: u8 = 0;
        while i < n
            invariant
                self.wf(),
                n == self.my_snakebot_count,
                i <= n,
                forall|k: int| 0 <= k < i ==> #[trigger] self.my_snakebot_ids@[k] < MAX_SNAKES,
            decreases n - i,
        {
            if self.my_snakebot_ids[i as usize] as usize >= MAX_SNAKES {
                return false;
            }
            i = i + 1;
        }
        true
    }

    /// The line of commands for my snakes that have a body; see `commands`.
    pub fn moves_to_text(&self) -> (out: String)
        requires
            self.wf(),
            self.my_ids_in_range(),
        ensures
            out@ == self.commands(self.my_snakebot_count as int),
    {
        let mut out = String::new();
        let n = self.my_snakebot_count;
        let mut i: u8 = 0;
        while i < n
            invariant
                self.wf(),
                self.my_ids_in_range(),
                n == self.my_snakebot_count,
                i <= n,
                out@ == self.commands(i as int),
            decreases n - i,
        {
            let id = self.my_snakebot_ids[i as usize] as usize;
            assert(id < MAX_SNAKES);
            if self.snakes[id].len == 0 {
                i = i + 1;
                continue;
            }
            let dir = self.choose_move(id);
            if !out.as_str().is_empty() {
                out.push(';');
            }
            push_decimal(&mut out, self.snakes[id].id);
            out.push(' ');
            push_dir_name(&mut out, dir);
            proof {
                assert(out@ =~= self.commands(i + 1));
            }
            i = i + 1;
        }
        out
    }
}


// ---------------------------------------------------------------------------
// Laws
// ---------------------------------------------------------------------------

/// The direction opposite to `d`.
pub open spec fn opposite(d: int) -> int {
    (d + 2) % 4
}

/// The grid position one step from `(x, y)` in direction `d`; `(x, y)` itself where the
/// step would leave a grid of `width` by `height`.
pub open spec fn step_xy(width: int, height: int, x: int, y: int, d: int) -> (int, int) {
    if d == DIR_UP {
        if y > 0 {
            (x, y - 1)
        } else {
            (x, y)
        }
    } else if d == DIR_RIGHT {
        if x + 1 < width {
            (x + 1, y)
        } else {
            (x, y)
        }
    } else if d == DIR_DOWN {
        if y + 1 < height {
            (x, y + 1)
        } else {
            (x, y)
        }
    } else {
        if x > 0 {
            (x - 1, y)
        } else {
            (x, y)
        }
    }
}

/// A move that leaves its cell can be undone by the move in the opposite direction:
/// in a neighbor table of a grid, the neighbor of a cell's neighbor in the opposite
/// direction is the cell itself.
pub proof fn law_step_back(
    nb: Seq<[CellIndex; DIR_COUNT]>,
    width: int,
    height: int,
    x: int,
    y: int,
    d: int,
)
    requires
        neighbors_of_grid(nb, width, height),
        0 <= x < width,
        0 <= y < height,
        0 <= d < DIR_COUNT,
        nb[flat(x, y, width)][d] as int != flat(x, y, width),
    ensures
        0 <= nb[flat(x, y, width)][d] < width * height,
        nb[nb[flat(x, y, width)][d] as int][opposite(d)] as int == flat(x, y, width),
{
    let (nx, ny) = step_xy(width, height, x, y, d);
    assert(nb[flat(x, y, width)][d] as int == neighbor_cell(width, height, x, y, d));
    assert(neighbor_cell(width, height, x, y, d) == flat(nx, ny, width));
    lemma_flat_in_grid(nx, ny, width, height);
    assert(nb[flat(nx, ny, width)][opposite(d)] as int == neighbor_cell(
        width,
        height,
        nx,
        ny,
        opposite(d),
    ));
    if d == DIR_UP {
        lemma_next_row(ny, width);
    } else if d == DIR_DOWN {
        lemma_next_row(y, width);
    }
}

impl FastWorld {
    /// A search starts at distance 0, and one move onto an enterable cell adds at most
    /// one to the distance: the distances a search leaves are those of shortest paths.
    pub proof fn law_bfs_distances(&self, init: Seq<i16>, s: int, dist: Seq<i16>, u: int, v: int)
        requires
            self.bfs_result(init, s, dist),
            0 <= s < MAX_CELLS,
            0 <= u < MAX_CELLS,
            0 <= v < MAX_CELLS,
            self.enterable(init, s, u),
            dist[u] >= 0,
            self.step(u, v),
            self.enterable(init, s, v),
        ensures
            dist[s] == 0,
            0 <= dist[v] <= dist[u] + 1,
    {
        self.lemma_reach_start(init, s);
        assert(self.reachable(init, s, s));
        if dist[s] > 0 {
            self.lemma_reach_monotone(init, s, s, 0, dist[s] - 1);
        }
        assert(self.reach(init, s, u, dist[u] as int));
        self.lemma_reach_extend(init, s, u, v, dist[u] as int);
        assert(self.reachable(init, s, v));
        if dist[v] > dist[u] + 1 {
            self.lemma_reach_monotone(init, s, v, dist[u] + 1, dist[v] - 1);
        }
    }

    proof fn lemma_pick_dir(&self, head: int, d: int, best_dir: int, best_score: int)
        requires
            self.wf(),
            0 <= head < MAX_CELLS,
            0 <= d <= DIR_COUNT,
            0 <= best_dir < DIR_COUNT,
            best_score >= 0 ==> self.free_cell(self.neighbors@[head][best_dir] as int),
        ensures
            0 <= self.pick_dir(head, d, best_dir, best_score) < DIR_COUNT,
            (best_score >= 0 || exists|e: int|
                d <= e < DIR_COUNT && self.free_cell(#[trigger] self.neighbors@[head][e] as int))
                ==> self.free_cell(
                self.neighbors@[head][self.pick_dir(head, d, best_dir, best_score)] as int,
            ),
            forall|e: int|
                d <= e < DIR_COUNT && self.free_cell(self.neighbors@[head][e] as int)
                    && self.occupancy@[#[trigger] self.neighbors@[head][e] as int] == OCC_POWER
                    && (forall|f: int|
                    d <= f < e ==> !(self.free_cell(self.neighbors@[head][f] as int)
                        && self.occupancy@[#[trigger] self.neighbors@[head][f] as int] == OCC_POWER))
                    ==> self.pick_dir(head, d, best_dir, best_score) == e,
        decreases DIR_COUNT - d,
    {
        if d < DIR_COUNT {
            let next = self.neighbors@[head][d] as int;
            assert(next < MAX_CELLS);
            if !self.free_cell(next) {
                self.lemma_pick_dir(head, d + 1, best_dir, best_score);
            } else if self.occupancy@[next] == OCC_POWER {
            } else if self.area(next) > best_score {
                self.lemma_pick_dir(head, d + 1, d, self.area(next));
            } else {
                self.lemma_pick_dir(head, d + 1, best_dir, best_score);
            }
        }
    }

    /// The chosen move is one of the four directions; it leads onto a free cell where
    /// the head has a free neighbor; and it is the first direction that leads onto a
    /// power source, where one does.
    pub proof fn law_choose_move_safe(&self, idx: int)
        requires
            self.wf(),
            0 <= idx < MAX_SNAKES,
        ensures
            0 <= self.chosen_dir(idx) < DIR_COUNT,
            (exists|e: int|
                0 <= e < DIR_COUNT && self.free_cell(
                    #[trigger] self.neighbors@[self.snakes@[idx].body@[0] as int][e] as int,
                )) ==> self.free_cell(
                self.neighbors@[self.snakes@[idx].body@[0] as int][self.chosen_dir(idx)] as int,
            ),
            forall|e: int|
                0 <= e < DIR_COUNT && self.free_cell(
                    self.neighbors@[self.snakes@[idx].body@[0] as int][e] as int,
                ) && self.occupancy@[#[trigger] self.neighbors@[self.snakes@[idx].body@[0] as int][e] as int]
                    == OCC_POWER && (forall|f: int|
                    0 <= f < e ==> !(self.free_cell(
                        self.neighbors@[self.snakes@[idx].body@[0] as int][f] as int,
                    ) && self.occupancy@[#[trigger] self.neighbors@[self.snakes@[idx].body@[0] as int][f] as int]
                        == OCC_POWER)) ==> self.chosen_dir(idx) == e,
    {
        let head = self.snakes@[idx].body@[0] as int;
        assert(head < MAX_CELLS);
        self.lemma_pick_dir(head, 0, 0, -1);
    }

    /// The word of the command for the snake in slot `idx`, the text after its id and a
    /// space, reads back as the move chosen for it.
    pub proof fn law_command_names_move(&self, idx: int)
        requires
            self.wf(),
            0 <= idx < MAX_SNAKES,
        ensures
            word_dir(self.command(idx).skip(decimal(self.snakes@[idx].id as int).len() as int + 1)) == Some(
                self.chosen_dir(idx),
            ),
    {
        self.law_choose_move_safe(idx);
        let d = decimal(self.snakes@[idx].id as int);
        assert(self.command(idx).skip(d.len() as int + 1) =~= dir_name(self.chosen_dir(idx)));
        law_dir_name_read_back(self.chosen_dir(idx));
    }

    /// The cells below `k` that a search from `s` over an unvisited table reaches.
    pub open spec fn room_below(&self, s: int, k: int) -> Set<int> {
        Set::new(|v: int| 0 <= v < k && self.reachable(unvisited(), s, v))
    }

    proof fn lemma_reach_count_room(&self, s: int, k: int)
        requires
            k >= 0,
        ensures
            self.room_below(s, k).finite(),
            self.reach_count(s, k) == self.room_below(s, k).len(),
        decreases k,
    {
        if k == 0 {
            assert(self.room_below(s, 0) =~= Set::<int>::empty());
        } else {
            self.lemma_reach_count_room(s, k - 1);
            let prev = self.room_below(s, k - 1);
            if self.reachable(unvisited(), s, k - 1) {
                assert(self.room_below(s, k) =~= prev.insert(k - 1));
                assert(!prev.contains(k - 1));
            } else {
                assert(self.room_below(s, k) =~= prev);
            }
        }
    }

    /// The room from a cell counts every cell that a search from it reaches, once.
    pub proof fn law_area_is_room(&self, s: int)
        ensures
            self.room_below(s, MAX_CELLS as int).finite(),
            self.area(s) == self.room_below(s, MAX_CELLS as int).len(),
    {
        self.lemma_reach_count_room(s, MAX_CELLS as int);
    }

    proof fn lemma_pick_dir_best(&self, head: int, d: int, best_dir: int, best_score: int)
        requires
            self.wf(),
            0 <= head < MAX_CELLS,
            0 <= d <= DIR_COUNT,
            0 <= best_dir < DIR_COUNT,
            best_score >= 0 ==> self.area(self.neighbors@[head][best_dir] as int) == best_score,
            forall|e: int|
                0 <= e < DIR_COUNT && self.free_cell(#[trigger] self.neighbors@[head][e] as int)
                    ==> self.occupancy@[self.neighbors@[head][e] as int] != OCC_POWER,
        ensures
            best_score >= 0 ==> self.area(
                self.neighbors@[head][self.pick_dir(head, d, best_dir, best_score)] as int,
            ) >= best_score,
            forall|e: int|
                d <= e < DIR_COUNT && self.free_cell(#[trigger] self.neighbors@[head][e] as int) ==> self.area(
                    self.neighbors@[head][self.pick_dir(head, d, best_dir, best_score)] as int,
                ) >= self.area(self.neighbors@[head][e] as int),
        decreases DIR_COUNT - d,
    {
        if d < DIR_COUNT {
            let next = self.neighbors@[head][d] as int;
            if !self.free_cell(next) {
                self.lemma_pick_dir_best(head, d + 1, best_dir, best_score);
            } else if self.area(next) > best_score {
                self.lemma_pick_dir_best(head, d + 1, d, self.area(next));
            } else {
                self.lemma_reach_count_bound(next, MAX_CELLS as int);
                self.lemma_pick_dir_best(head, d + 1, best_dir, best_score);
            }
        }
    }

    /// Where no free neighbor of the head holds a power source, the chosen move leads onto
    /// the free neighbor with the most room: from no other free neighbor does a search
    /// reach more cells.
    pub proof fn law_choose_move_most_room(&self, idx: int)
        requires
            self.wf(),
            0 <= idx < MAX_SNAKES,
            forall|e: int|
                0 <= e < DIR_COUNT && self.free_cell(
                    #[trigger] self.neighbors@[self.snakes@[idx].body@[0] as int][e] as int,
                ) ==> self.occupancy@[self.neighbors@[self.snakes@[idx].body@[0] as int][e] as int]
                    != OCC_POWER,
        ensures
            forall|e: int|
                0 <= e < DIR_COUNT && self.free_cell(
                    #[trigger] self.neighbors@[self.snakes@[idx].body@[0] as int][e] as int,
                ) ==> self.room_below(
                    self.neighbors@[self.snakes@[idx].body@[0] as int][self.chosen_dir(idx)] as int,
                    MAX_CELLS as int,
                ).len() >= self.room_below(
                    self.neighbors@[self.snakes@[idx].body@[0] as int][e] as int,
                    MAX_CELLS as int,
                ).len(),
    {
        let head = self.snakes@[idx].body@[0] as int;
        assert(head < MAX_CELLS);
        self.lemma_pick_dir_best(head, 0, 0, -1);
        assert forall|e: int|
            0 <= e < DIR_COUNT && self.free_cell(#[trigger] self.neighbors@[head][e] as int) implies self.room_below(
            self.neighbors@[head][self.chosen_dir(idx)] as int,
            MAX_CELLS as int,
        ).len() >= self.room_below(self.neighbors@[head][e] as int, MAX_CELLS as int).len() by {
            self.law_area_is_room(self.neighbors@[head][self.chosen_dir(idx)] as int);
            self.law_area_is_room(self.neighbors@[head][e] as int);
        }
    }

    /// A search spreads through every cell that holds no snake, power sources included:
    /// from the start, or from a cell it found, one move onto a cell that holds no snake
    /// and that the table marks unvisited finds that cell, at most one move further.
    pub proof fn law_bfs_enters_free_cells(
        &self,
        init: Seq<i16>,
        s: int,
        dist: Seq<i16>,
        u: int,
        v: int,
    )
        requires
            self.bfs_result(init, s, dist),
            0 <= s < MAX_CELLS,
            0 <= u < MAX_CELLS,
            0 <= v < MAX_CELLS,
            u == s || (init[u] == -1 && self.occupancy@[u] < 0 && dist[u] >= 0),
            self.step(u, v),
            init[v] == -1,
            self.occupancy@[v] < 0,
        ensures
            dist[s] == 0,
            0 <= dist[v] <= dist[u] + 1,
    {
        self.lemma_reach_start(init, s);
        assert(self.reachable(init, s, s));
        assert(dist[s] != -1);
        self.law_bfs_distances(init, s, dist, u, v);
    }

    /// A search never enters a cell that holds a snake, the start aside: such a cell
    /// keeps the value the table gave it.
    pub proof fn law_bfs_skips_snakes(&self, init: Seq<i16>, s: int, dist: Seq<i16>, v: int)
        requires
            self.bfs_result(init, s, dist),
            0 <= v < MAX_CELLS,
            v != s,
            self.occupancy@[v] >= 0,
        ensures
            dist[v] == init[v],
    {
    }

    /// After a step, the snakes that still have a body have their heads on distinct
    /// cells.
    pub proof fn law_step_heads_distinct(&self, moves: [u8; MAX_SNAKES], i: int, j: int)
        requires
            self.wf(),
            self.moves_valid(moves),
            forall|k: int|
                feeds(self.moved(moves), self.snake_count as int, k) ==> #[trigger] self.snakes@[k].len
                    < MAX_SNAKE_LEN,
            0 <= i < self.snake_count,
            0 <= j < self.snake_count,
            i != j,
            self.stepped(moves).lens[i] > 0,
            self.stepped(moves).lens[j] > 0,
        ensures
            self.stepped(moves).bodies[i][0] != self.stepped(moves).bodies[j][0],
    {
        let m = self.moved(moves);
        assert(m.lens.len() == MAX_SNAKES && m.bodies.len() == MAX_SNAKES);
        assert(m.lens[i] > 0);
        assert(m.lens[j] > 0);
        self.lemma_moved_heads_distinct(moves, i, j);
        assert(m.bodies[i].len() == MAX_SNAKE_LEN && m.bodies[j].len() == MAX_SNAKE_LEN);
        assert(self.stepped(moves).bodies[i][0] == m.bodies[i][0]);
        assert(self.stepped(moves).bodies[j][0] == m.bodies[j][0]);
    }

    /// The bodies of different snakes share no cell, and each cell of a body holds a
    /// snake's id in the occupancy table.
    pub open spec fn bodies_apart(&self) -> bool {
        &&& forall|i: int, j: int, a: int, b: int|
            0 <= i < self.snake_count && 0 <= j < self.snake_count && i != j && 0 <= a
                < self.snakes@[i].len && 0 <= b < self.snakes@[j].len ==> #[trigger] self.snakes@[i].body@[a]
                != #[trigger] self.snakes@[j].body@[b]
        &&& forall|i: int, a: int|
            0 <= i < self.snake_count && 0 <= a < self.snakes@[i].len ==> self.occupancy@[#[trigger] self.snakes@[i].body@[a] as int]
                >= 0
    }

    /// A cell of a body after a step: the new head, or a cell the body held before.
    proof fn lemma_stepped_cell(&self, moves: [u8; MAX_SNAKES], i: int, a: int) -> (a2: int)
        requires
            self.wf(),
            self.moves_valid(moves),
            forall|k: int|
                feeds(self.moved(moves), self.snake_count as int, k) ==> #[trigger] self.snakes@[k].len
                    < MAX_SNAKE_LEN,
            0 <= i < self.snake_count,
            0 <= a < self.stepped(moves).lens[i],
        ensures
            0 <= a2 < self.snakes@[i].len,
            !self.dies(moves, i),
            a2 == 0 ==> self.stepped(moves).bodies[i][a] == self.new_head(moves, i),
            a2 > 0 ==> self.stepped(moves).bodies[i][a] == self.snakes@[i].body@[a2 - 1],
            !feeds(self.moved(moves), self.snake_count as int, i) ==> a2 == a,
    {
        let m = self.moved(moves);
        assert(m.lens.len() == MAX_SNAKES && m.bodies.len() == MAX_SNAKES);
        assert(m.lens[i] > 0);
        assert(!self.deaths(moves)[i]);
        assert(m.lens[i] == self.snakes@[i].len);
        assert(m.bodies[i] == shifted_body(self.board().bodies[i], self.board().lens[i], self.heads(moves)[i]));
        assert(m.bodies[i].len() == MAX_SNAKE_LEN);
        let a2 = if a < m.lens[i] { a } else { m.lens[i] - 1 };
        if feeds(m, self.snake_count as int, i) {
            assert(self.stepped(moves).bodies[i] == m.bodies[i].update(m.lens[i], m.bodies[i][m.lens[i] - 1]));
        }
        assert(self.stepped(moves).bodies[i][a] == m.bodies[i][a2]);
        a2
    }

    /// Where every snake id of the board holds a snake's id, no snake eats: the head of
    /// a snake that moved holds a snake's id, never a power source.
    proof fn lemma_no_meal(&self, moves: [u8; MAX_SNAKES], i: int)
        requires
            self.wf(),
            self.moves_valid(moves),
            forall|k: int| 0 <= k < self.snake_count ==> #[trigger] self.snakes@[k].id as i16 >= 0,
        ensures
            !feeds(self.moved(moves), self.snake_count as int, i),
    {
        let m = self.moved(moves);
        let count = self.snake_count as int;
        if feeds(m, count, i) {
            let heads = self.heads(moves);
            let dead = self.deaths(moves);
            assert(m.lens.len() == MAX_SNAKES && m.bodies.len() == MAX_SNAKES);
            assert(!dead[i]);
            assert(self.snakes@[i].len > 0);
            assert(m.bodies[i][0] == heads[i]);
            assert(moves@[i] < DIR_COUNT);
            assert(self.snakes@[i].body@[0] < MAX_CELLS);
            assert(heads[i] < MAX_CELLS);
            lemma_last_mover_some(heads, dead, heads[i] as int, i, count);
            let k = last_mover(heads, dead, heads[i] as int, count)->0;
            assert(self.snakes@[k].id as i16 >= 0);
            assert(m.occupancy[heads[i] as int] == self.board().ids[k] as i16);
        }
    }

    /// A step keeps the bodies sound: where every snake slot holds a snake with a body and
    /// an id of at least zero, and the bodies lie on the grid, each on distinct cells of
    /// its own that hold its id, the bodies that remain after the step are so too.
    pub proof fn law_step_keeps_bodies(&self, moves: [u8; MAX_SNAKES])
        requires
            self.wf(),
            self.moves_valid(moves),
            self.width * self.height <= MAX_CELLS,
            neighbors_of_grid(self.neighbors@, self.width as int, self.height as int),
            forall|k: int|
                0 <= k < self.snake_count ==> (#[trigger] self.snakes@[k]).len > 0 && self.snakes@[k].id
                    as i16 >= 0,
            bodies_sound(self.board(), self.snake_count as int, self.width * self.height),
        ensures
            bodies_sound(self.stepped(moves), self.snake_count as int, self.width * self.height),
    {
        let count = self.snake_count as int;
        let cells = self.width * self.height;
        let b = self.board();
        let st = self.stepped(moves);
        assert forall|k: int| 0 <= k < count implies #[trigger] self.snakes@[k].id as i16 >= 0 by {
            assert(self.snakes@[k].len > 0);
        }
        assert forall|k: int| #![trigger self.snakes@[k]]
            feeds(self.moved(moves), count, k) ==> self.snakes@[k].len < MAX_SNAKE_LEN by {
            self.lemma_no_meal(moves, k);
        }
        assert forall|k: int| 0 <= k < count implies !feeds(self.moved(moves), count, k) by {
            self.lemma_no_meal(moves, k);
        }
        assert(self.bodies_apart()) by {
            assert forall|i: int, a: int|
                0 <= i < count && 0 <= a < self.snakes@[i].len implies self.occupancy@[#[trigger] self.snakes@[i].body@[a] as int]
                >= 0 by {
                assert(b.bodies[i][a] == self.snakes@[i].body@[a]);
            }
            assert forall|i: int, j: int, a: int, c: int|
                0 <= i < count && 0 <= j < count && i != j && 0 <= a < self.snakes@[i].len && 0 <= c
                    < self.snakes@[j].len implies #[trigger] self.snakes@[i].body@[a]
                != #[trigger] self.snakes@[j].body@[c] by {
                assert(b.bodies[i][a] != b.bodies[j][c]);
            }
        }
        assert(self.bodies_marked()) by {
            assert forall|i: int, a: int|
                0 <= i < count && 0 <= a < self.snakes@[i].len implies self.occupancy@[#[trigger] self.snakes@[i].body@[a] as int]
                == self.snakes@[i].id as i16 by {
                assert(b.bodies[i][a] == self.snakes@[i].body@[a]);
            }
        }
        assert(self.tails_unrepeated()) by {
            assert forall|i: int, a: int|
                0 <= i < count && 0 <= a < self.snakes@[i].len - 1 implies #[trigger] self.snakes@[i].body@[a]
                != self.snakes@[i].body@[self.snakes@[i].len - 1] by {
                assert(b.bodies[i][a] != b.bodies[i][self.snakes@[i].len - 1]);
            }
        }
        // every cell of a remaining body: on the grid and holding the snake's id
        assert forall|k: int, a: int| 0 <= k < count && 0 <= a < st.lens[k] implies 0 <= #[trigger] st.bodies[k][a]
            < cells && st.occupancy[st.bodies[k][a] as int] == st.ids[k] as i16 by {
            let a2 = self.lemma_stepped_cell(moves, k, a);
            self.law_step_bodies_marked(moves, k, a);
            self.law_step_lengths(moves, k);
            if a2 == 0 {
                self.lemma_head_in_grid(moves, k);
            } else {
                assert(b.bodies[k][a2 - 1] < cells);
            }
        }
        // distinct cells within a body
        assert forall|k: int, a: int, c: int|
            0 <= k < count && 0 <= a < st.lens[k] && 0 <= c < st.lens[k] && a != c implies #[trigger] st.bodies[k][a]
            != #[trigger] st.bodies[k][c] by {
            let a2 = self.lemma_stepped_cell(moves, k, a);
            let c2 = self.lemma_stepped_cell(moves, k, c);
            if a2 > 0 && c2 > 0 {
                assert(b.bodies[k][a2 - 1] != b.bodies[k][c2 - 1]);
            } else if a2 > 0 {
                assert(self.occupancy@[b.bodies[k][a2 - 1] as int] >= 0);
                assert(!self.blocked(moves, k));
            } else {
                assert(self.occupancy@[b.bodies[k][c2 - 1] as int] >= 0);
                assert(!self.blocked(moves, k));
            }
        }
        // bodies of different snakes apart
        assert forall|k: int, j: int, a: int, c: int|
            0 <= k < count && 0 <= j < count && k != j && 0 <= a < st.lens[k] && 0 <= c < st.lens[j] implies #[trigger] st.bodies[k][a]
            != #[trigger] st.bodies[j][c] by {
            self.law_step_bodies_apart(moves, k, j, a, c);
        }
    }

    /// The new head of a snake with a body on the grid is on the grid.
    proof fn lemma_head_in_grid(&self, moves: [u8; MAX_SNAKES], k: int)
        requires
            self.wf(),
            self.moves_valid(moves),
            self.width * self.height <= MAX_CELLS,
            neighbors_of_grid(self.neighbors@, self.width as int, self.height as int),
            0 <= k < self.snake_count,
            self.snakes@[k].len > 0,
            self.snakes@[k].body@[0] < self.width * self.height,
        ensures
            0 <= self.new_head(moves, k) < self.width * self.height,
    {
        let w = self.width as int;
        let h = self.height as int;
        let c = self.snakes@[k].body@[0] as int;
        lemma_cell_in_grid(c, w, h);
        let x = c % w;
        let y = c / w;
        assert(moves@[k] < DIR_COUNT);
        assert(self.neighbors@[flat(x, y, w)][moves@[k] as int] as int == neighbor_cell(w, h, x, y, moves@[k] as int));
        lemma_neighbor_in_grid(w, h, x, y, moves@[k] as int);
    }

    /// A step keeps the bodies of the snakes that still have one apart: where no two
    /// bodies shared a cell and every body cell held a snake's id before the step, no
    /// two bodies share a cell after it.
    pub proof fn law_step_bodies_apart(&self, moves: [u8; MAX_SNAKES], i: int, j: int, a: int, b: int)
        requires
            self.wf(),
            self.moves_valid(moves),
            forall|k: int|
                feeds(self.moved(moves), self.snake_count as int, k) ==> #[trigger] self.snakes@[k].len
                    < MAX_SNAKE_LEN,
            self.bodies_apart(),
            0 <= i < self.snake_count,
            0 <= j < self.snake_count,
            i != j,
            0 <= a < self.stepped(moves).lens[i],
            0 <= b < self.stepped(moves).lens[j],
        ensures
            self.stepped(moves).bodies[i][a] != self.stepped(moves).bodies[j][b],
    {
        let st = self.stepped(moves);
        let ai = self.lemma_stepped_cell(moves, i, a);
        let bj = self.lemma_stepped_cell(moves, j, b);
        if ai == 0 && bj == 0 {
            self.law_step_heads_distinct(moves, i, j);
            assert(st.bodies[i][0] == self.new_head(moves, i)) by {
                self.lemma_stepped_cell(moves, i, 0);
            }
            assert(st.bodies[j][0] == self.new_head(moves, j)) by {
                self.lemma_stepped_cell(moves, j, 0);
            }
        } else if ai == 0 {
            let c = self.snakes@[j].body@[bj - 1];
            assert(self.occupancy@[c as int] >= 0);
            assert(!self.blocked(moves, i));
        } else if bj == 0 {
            let c = self.snakes@[i].body@[ai - 1];
            assert(self.occupancy@[c as int] >= 0);
            assert(!self.blocked(moves, j));
        } else {
            assert(self.snakes@[i].body@[ai - 1] != self.snakes@[j].body@[bj - 1]);
        }
    }

    /// Each cell of the body of a snake holds that snake's id in the occupancy table.
    pub open spec fn bodies_marked(&self) -> bool {
        forall|i: int, a: int|
            0 <= i < self.snake_count && 0 <= a < self.snakes@[i].len ==> self.occupancy@[#[trigger] self.snakes@[i].body@[a] as int]
                == self.snakes@[i].id as i16
    }

    /// No snake's tail cell occurs earlier in its body, as it does right after the
    /// snake has grown.
    pub open spec fn tails_unrepeated(&self) -> bool {
        forall|i: int, a: int|
            0 <= i < self.snake_count && 0 <= a < self.snakes@[i].len - 1 ==> #[trigger] self.snakes@[i].body@[a]
                != self.snakes@[i].body@[self.snakes@[i].len - 1]
    }

    /// A cell that holds a snake's id before a step holds it after: no tail, head or
    /// meal touches it.
    proof fn lemma_marked_cell_kept(&self, moves: [u8; MAX_SNAKES], i: int, a: int)
        requires
            self.wf(),
            self.moves_valid(moves),
            self.bodies_apart(),
            self.bodies_marked(),
            self.tails_unrepeated(),
            0 <= i < self.snake_count,
            0 <= a < self.snakes@[i].len - 1,
        ensures
            self.stepped(moves).occupancy[self.snakes@[i].body@[a] as int] == self.snakes@[i].id as i16,
    {
        let count = self.snake_count as int;
        let b0 = self.board();
        let c = self.snakes@[i].body@[a] as int;
        assert(0 <= c < MAX_CELLS);
        assert(self.occupancy@[c] >= 0);
        let f = free_tails(b0, count);
        assert(!tail_on(b0, count, c)) by {
            if tail_on(b0, count, c) {
                let k = choose|k: int| 0 <= k < count && b0.lens[k] > 0 && #[trigger] b0.bodies[k][b0.lens[k] - 1] == c;
                if k != i {
                    assert(self.snakes@[k].body@[self.snakes@[k].len - 1] != self.snakes@[i].body@[a]);
                }
            }
        }
        assert(f.occupancy[c] == self.occupancy@[c]);
        let heads = self.heads(moves);
        let dead = self.deaths(moves);
        assert forall|k: int| 0 <= k < count implies dead[k] || #[trigger] heads[k] != c by {
            if !dead[k] && heads[k] == c {
                assert(!self.blocked(moves, k));
            }
        }
        lemma_last_mover_none(heads, dead, c, count);
        let m = self.moved(moves);
        assert(m.occupancy[c] == self.occupancy@[c]);
        Self::lemma_last_feeder(m, count, c, count);
        match last_feeder(m, count, c, count) {
            Some(k) => {
                assert(m.lens[k] > 0);
                assert(!dead[k]);
                assert(m.bodies[k][0] == heads[k]);
                assert(!self.blocked(moves, k));
            },
            None => {},
        }
    }

    /// A step keeps the bodies of the snakes that still have one marked: where before
    /// the step the bodies were apart, each cell of a body held its snake's id, and no
    /// tail cell repeated, each cell of such a body holds its snake's id after it. The
    /// head needs what `law_step_head_marked` asks.
    pub proof fn law_step_bodies_marked(&self, moves: [u8; MAX_SNAKES], i: int, a: int)
        requires
            self.wf(),
            self.moves_valid(moves),
            forall|k: int|
                feeds(self.moved(moves), self.snake_count as int, k) ==> #[trigger] self.snakes@[k].len
                    < MAX_SNAKE_LEN,
            self.bodies_apart(),
            self.bodies_marked(),
            self.tails_unrepeated(),
            0 <= i < self.snake_count,
            0 <= a < self.stepped(moves).lens[i],
            self.new_head(moves, i) != 0 || forall|k: int|
                i < k < self.snake_count ==> #[trigger] self.snakes@[k].len > 0,
        ensures
            self.stepped(moves).occupancy[self.stepped(moves).bodies[i][a] as int] == self.board().ids[i]
                as i16,
    {
        let a2 = self.lemma_stepped_cell(moves, i, a);
        if a2 == 0 {
            self.law_step_head_marked(moves, i);
            self.lemma_stepped_cell(moves, i, 0);
        } else {
            self.lemma_marked_cell_kept(moves, i, a2 - 1);
        }
    }

    /// After a step, the cell of the head of a snake that still has a body holds the
    /// snake's id, as the occupancy table stores it. Where the head moved onto cell 0, this needs that no later snake
    /// slot is without a body: the step sends such a slot's head to cell 0 too, and it
    /// writes its own id there.
    pub proof fn law_step_head_marked(&self, moves: [u8; MAX_SNAKES], i: int)
        requires
            self.wf(),
            self.moves_valid(moves),
            forall|k: int|
                feeds(self.moved(moves), self.snake_count as int, k) ==> #[trigger] self.snakes@[k].len
                    < MAX_SNAKE_LEN,
            0 <= i < self.snake_count,
            self.stepped(moves).lens[i] > 0,
            self.new_head(moves, i) != 0 || forall|k: int|
                i < k < self.snake_count ==> #[trigger] self.snakes@[k].len > 0,
        ensures
            self.stepped(moves).occupancy[self.stepped(moves).bodies[i][0] as int] == self.board().ids[i]
                as i16,
    {
        let m = self.moved(moves);
        let count = self.snake_count as int;
        let heads = self.heads(moves);
        let dead = self.deaths(moves);
        let h = heads[i];
        assert(m.lens.len() == MAX_SNAKES && m.bodies.len() == MAX_SNAKES);
        assert(m.occupancy.len() == MAX_CELLS);
        assert(m.lens[i] > 0);
        assert(!dead[i]);
        assert(m.bodies[i][0] == h);
        assert forall|k: int| i < k < count implies dead[k] || #[trigger] heads[k] != h by {
            if !dead[k] && heads[k] == h {
                if self.snakes@[k].len > 0 {
                    assert(m.lens[k] > 0);
                    self.lemma_moved_heads_distinct(moves, i, k);
                } else {
                    assert(heads[k] == 0);
                    assert(self.snakes@[k].len > 0);
                }
            }
        }
        lemma_last_mover_is(heads, dead, h as int, i, count);
        assert(self.snakes@[i].len > 0 ==> moves@[i] < DIR_COUNT);
        assert(self.snakes@[i].body@[0] < MAX_CELLS);
        assert(h < MAX_CELLS);
        assert(m.occupancy[h as int] == self.board().ids[i] as i16);
        Self::lemma_last_feeder(m, count, h as int, count);
        match last_feeder(m, count, h as int, count) {
            Some(k) => {
                if k != i {
                    self.lemma_moved_heads_distinct(moves, i, k);
                }
            },
            None => {},
        }
        assert(self.stepped(moves).bodies[i][0] == h);
    }

    /// In a simulation step a snake without a body stays without one, a snake that dies
    /// loses its body, no snake grows by more than one cell, and every snake keeps its id.
    pub proof fn law_step_lengths(&self, moves: [u8; MAX_SNAKES], i: int)
        requires
            self.wf(),
            0 <= i < MAX_SNAKES,
        ensures
            self.snakes@[i].len == 0 ==> self.stepped(moves).lens[i] == 0,
            0 <= i < self.snake_count && self.dies(moves, i) ==> self.stepped(moves).lens[i] == 0,
            self.stepped(moves).lens[i] <= self.snakes@[i].len + 1,
            self.stepped(moves).ids == self.board().ids,
    {
    }
}

impl WorldState {
    /// The picture has `height` lines of `width` characters, separated by line breaks.
    pub proof fn law_render_size(&self, k: nat)
        requires
            k >= 1,
        ensures
            self.rows_text(k).len() == k * self.width + k - 1,
        decreases k,
    {
        let w = self.width as int;
        if k > 1 {
            self.law_render_size((k - 1) as nat);
            assert(k * w == (k - 1) * w + w) by (nonlinear_arith);
        } else {
            assert(k * w == w) by (nonlinear_arith)
                requires
                    k == 1,
            ;
        }
    }
}


// ---------------------------------------------------------------------------
// Replays
// ---------------------------------------------------------------------------

fn copy_occupancy(v: &Vec<i16>) -> (r: Vec<i16>)
    ensures
        r@ == v@,
{
    let n = v.len();
    let mut r: Vec<i16> = Vec::new();
    let mut i: usize = 0;
    while i < n
        invariant
            i <= n,
            n == v@.len(),
            r@ =~= v@.take(i as int),
        decreases n - i,
    {
        r.push(v[i]);
        i = i + 1;
    }
    assert(v@.take(n as int) =~= v@);
    r
}

impl WorldState {
    /// The same world, in tables of its own.
    pub fn copy(&self) -> (w: WorldState)
        ensures
            w.same_as(self),
    {
        WorldState {
            my_id: self.my_id,
            width: self.width,
            height: self.height,
            terrain: copy_terrain(&self.terrain),
            occupancy: copy_occupancy(&self.occupancy),
            my_snakebot_ids: copy_bytes(&self.my_snakebot_ids),
            my_snakebot_count: self.my_snakebot_count,
            opp_snakebot_ids: copy_bytes(&self.opp_snakebot_ids),
            opp_snakebot_count: self.opp_snakebot_count,
        }
    }

    /// Both worlds hold the same values.
    pub open spec fn same_as(&self, other: &WorldState) -> bool {
        &&& self.same_grid_as(other)
        &&& self.occupancy@ == other.occupancy@
    }

    /// Both worlds hold the same values, the occupancy table aside.
    pub open spec fn same_grid_as(&self, other: &WorldState) -> bool {
        &&& self.my_id == other.my_id
        &&& self.width == other.width
        &&& self.height == other.height
        &&& self.terrain@ == other.terrain@
        &&& self.my_snakebot_ids@ == other.my_snakebot_ids@
        &&& self.my_snakebot_count == other.my_snakebot_count
        &&& self.opp_snakebot_ids@ == other.opp_snakebot_ids@
        &&& self.opp_snakebot_count == other.opp_snakebot_count
    }
}

/// The turn of a replay that is shown at position `idx`: the last turn where `idx`
/// is past the end.
pub open spec fn shown_turn(n: int, idx: int) -> int {
    if idx < n - 1 {
        idx
    } else {
        n - 1
    }
}

/// The world of a replay at turn `idx`: `base` with the turns up to `idx` applied, one
/// after the other; `base` itself where there is no turn.
pub fn rebuild_world(base: &WorldState, turns: &[TurnState], idx: usize) -> (world: WorldState)
    requires
        base.wf(),
        forall|k: int|
            0 <= k < turns@.len() && k <= idx ==> turn_fits(#[trigger] turns@[k], base.width as int),
    ensures
        world.wf(),
        world.same_grid_as(base),
        turns@.len() == 0 ==> world.occupancy@ == base.occupancy@,
        turns@.len() > 0 ==> world.occupancy@ == turn_occupancy(
            turns@[shown_turn(turns@.len() as int, idx as int)],
            base.width as int,
        ),
{
    let mut world = base.copy();
    let n = turns.len();
    if n == 0 {
        return world;
    }
    let last = if idx < n - 1 {
        idx
    } else {
        n - 1
    };
    let mut k: usize = 0;
    while k <= last
        invariant
            n == turns@.len(),
            n > 0,
            last == shown_turn(n as int, idx as int),
            k <= last + 1,
            base.wf(),
            world.wf(),
            world.same_grid_as(base),
            forall|j: int|
                0 <= j < turns@.len() && j <= idx ==> turn_fits(#[trigger] turns@[j], base.width as int),
            k > 0 ==> world.occupancy@ == turn_occupancy(turns@[k - 1], base.width as int),
        decreases last + 1 - k,
    {
        world.apply_turn(&turns[k]);
        k = k + 1;
    }
    world
}

} // verus!
