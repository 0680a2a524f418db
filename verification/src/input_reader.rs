use vstd::prelude::*;
use vstd::string::StrSliceExecFns;
use crate::game::{Cell, InitialModel, InitialState, PowerSource, SnakeBot, SnakeModel, Terrain, TurnModel, TurnState};
use crate::text::{
    find_char, find_in_range, is_ws, is_whitespace, lemma_find_char, lemma_trim_idempotent, parse_i32_text, parse_u8_text,
    text_to_i32, text_to_u8, trim, trim_range, trim_start,
};

verus! {

// ---------------------------------------------------------------------------
// The format of one line
// ---------------------------------------------------------------------------

/// The number of characters before the first white space of `t`.
pub open spec fn token_len(t: Seq<char>) -> nat
    decreases t.len(),
{
    if t.len() > 0 && !is_ws(t[0]) {
        1 + token_len(t.drop_first())
    } else {
        0
    }
}

/// The first white-space separated word of `s`; empty where `s` has none.
pub open spec fn first_token(s: Seq<char>) -> Seq<char> {
    trim_start(s).take(token_len(trim_start(s)) as int)
}

/// What follows the first white-space separated word of `s`.
pub open spec fn after_first_token(s: Seq<char>) -> Seq<char> {
    trim_start(s).skip(token_len(trim_start(s)) as int)
}

/// A power source line: its first two white-space separated words are the column and
/// the row, each a `u8`; further words are ignored.
pub open spec fn power_line(l: Seq<char>) -> Option<Cell> {
    match (parse_u8_text(first_token(l)), parse_u8_text(first_token(after_first_token(l)))) {
        (Some(x), Some(y)) => Some(Cell { x, y }),
        _ => None,
    }
}

/// A body cell `x,y`: two `i32` around the first comma, each cut to a byte.
pub open spec fn cell_token(t: Seq<char>) -> Option<Cell> {
    match find_char(t, ',') {
        None => None,
        Some(i) => match (parse_i32_text(t.take(i)), parse_i32_text(t.skip(i + 1))) {
            (Some(x), Some(y)) => Some(Cell { x: x as u8, y: y as u8 }),
            _ => None,
        },
    }
}

/// A body: body cells separated by `:`.
pub open spec fn body_cells(raw: Seq<char>) -> Option<Seq<Cell>>
    decreases raw.len(),
{
    match find_char(raw, ':') {
        None => match cell_token(raw) {
            Some(c) => Some(seq![c]),
            None => None,
        },
        Some(i) => if 0 <= i < raw.len() {
            match (cell_token(raw.take(i)), body_cells(raw.skip(i + 1))) {
                (Some(c), Some(rest)) => Some(seq![c] + rest),
                _ => None,
            }
        } else {
            None
        },
    }
}

/// A snake line: the snake's id, then, after the first space, its body if there is
/// anything after that space.
pub open spec fn snake_line(row: Seq<char>) -> Option<SnakeModel> {
    let first = match find_char(row, ' ') {
        None => row,
        Some(i) => row.take(i),
    };
    let rest = match find_char(row, ' ') {
        None => Seq::empty(),
        Some(i) => row.skip(i + 1),
    };
    match parse_i32_text(trim(first)) {
        None => None,
        Some(id) => if rest.len() == 0 {
            Some(SnakeModel { snakebot_id: id, body: Seq::empty() })
        } else {
            match body_cells(rest) {
                Some(b) => Some(SnakeModel { snakebot_id: id, body: b }),
                None => None,
            }
        },
    }
}

/// A row of terrain: `#` is a wall, any other character an empty cell.
pub open spec fn terrain_row(row: Seq<char>) -> Seq<Terrain> {
    Seq::new(row.len(), |i: int| if row[i] == '#' { Terrain::Wall } else { Terrain::Empty })
}

// ---------------------------------------------------------------------------
// The format of a message: a sequence of lines
// ---------------------------------------------------------------------------

/// A line as a line source gives it: its characters, or `None` at the end of the input.
pub type RawLine = Option<Seq<char>>;

/// The number on a line.
pub open spec fn int_item(l: RawLine) -> Option<i32> {
    match l {
        Some(r) => parse_i32_text(trim(r)),
        None => None,
    }
}

/// The terrain of a line.
pub open spec fn row_item(l: RawLine) -> Option<Seq<Terrain>> {
    match l {
        Some(r) => Some(terrain_row(trim(r))),
        None => None,
    }
}

/// The power source of a line.
pub open spec fn power_item(l: RawLine) -> Option<Cell> {
    match l {
        Some(r) => power_line(trim(r)),
        None => None,
    }
}

/// The snake of a line.
pub open spec fn snake_item(l: RawLine) -> Option<SnakeModel> {
    match l {
        Some(r) => snake_line(trim(r)),
        None => None,
    }
}

pub open spec fn int_reader() -> spec_fn(RawLine) -> Option<i32> {
    |l: RawLine| int_item(l)
}

pub open spec fn row_reader() -> spec_fn(RawLine) -> Option<Seq<Terrain>> {
    |l: RawLine| row_item(l)
}

pub open spec fn power_reader() -> spec_fn(RawLine) -> Option<Cell> {
    |l: RawLine| power_item(l)
}

pub open spec fn snake_reader() -> spec_fn(RawLine) -> Option<SnakeModel> {
    |l: RawLine| snake_item(l)
}

/// Line `k` of `ls`; the end of the input past the last.
pub open spec fn line_at(ls: Seq<RawLine>, k: int) -> RawLine {
    if 0 <= k < ls.len() {
        ls[k]
    } else {
        None
    }
}

/// Reads `n` items, one per line, from line `at` on: the items, or `None` at the first
/// line that is not one; and the position after the last line read.
pub open spec fn read_items<T>(
    ls: Seq<RawLine>,
    at: int,
    n: nat,
    item: spec_fn(RawLine) -> Option<T>,
) -> (Option<Seq<T>>, int)
    decreases n,
{
    if n == 0 {
        (Some(Seq::empty()), at)
    } else {
        let prev = read_items(ls, at, (n - 1) as nat, item);
        match prev.0 {
            None => prev,
            Some(items) => match item(line_at(ls, prev.1)) {
                None => (None, prev.1 + 1),
                Some(x) => (Some(items.push(x)), prev.1 + 1),
            },
        }
    }
}

/// The rows of the grid, one after the other.
pub open spec fn joined(rows: Seq<Seq<Terrain>>) -> Seq<Terrain>
    decreases rows.len(),
{
    if rows.len() == 0 {
        Seq::empty()
    } else {
        joined(rows.drop_last()) + rows.last()
    }
}

/// The opening message read from the lines `ls`: my id, the width, the height, one
/// terrain line per row, the number of snakes per player, then that many ids of my
/// snakes and that many ids of the opponent's snakes, one per line. Gives the message,
/// or `None` at the first line that does not fit; and the number of lines read.
pub open spec fn read_initial(ls: Seq<RawLine>) -> (Option<InitialModel>, int) {
    match int_item(line_at(ls, 0)) {
        None => (None, 1),
        Some(my_id) => match int_item(line_at(ls, 1)) {
            None => (None, 2),
            Some(w) => match int_item(line_at(ls, 2)) {
                None => (None, 3),
                Some(h) => {
                    let rows = read_items(ls, 3, h as usize as nat, row_reader());
                    match rows.0 {
                        None => (None, rows.1),
                        Some(rs) => match int_item(line_at(ls, rows.1)) {
                            None => (None, rows.1 + 1),
                            Some(n) => {
                                let mine = read_items(ls, rows.1 + 1, n as usize as nat, int_reader());
                                match mine.0 {
                                    None => (None, mine.1),
                                    Some(my_ids) => {
                                        let theirs = read_items(ls, mine.1, n as usize as nat, int_reader());
                                        match theirs.0 {
                                            None => (None, theirs.1),
                                            Some(opp_ids) => (
                                                Some(
                                                    InitialModel {
                                                        my_id,
                                                        width: w as usize,
                                                        height: h as usize,
                                                        terrain: joined(rs),
                                                        my_snakebot_ids: my_ids,
                                                        opp_snakebot_ids: opp_ids,
                                                    },
                                                ),
                                                theirs.1,
                                            ),
                                        }
                                    },
                                }
                            },
                        },
                    }
                },
            },
        },
    }
}

/// A turn message read from the lines `ls`: the number of power sources, one power
/// source per line, the number of snakes, one snake per line. Gives the message, or
/// `None` at the first line that does not fit; and the number of lines read.
pub open spec fn read_turn(ls: Seq<RawLine>) -> (Option<TurnModel>, int) {
    match int_item(line_at(ls, 0)) {
        None => (None, 1),
        Some(pc) => {
            let powers = read_items(ls, 1, pc as usize as nat, power_reader());
            match powers.0 {
                None => (None, powers.1),
                Some(ps) => match int_item(line_at(ls, powers.1)) {
                    None => (None, powers.1 + 1),
                    Some(sc) => {
                        let snakes = read_items(ls, powers.1 + 1, sc as usize as nat, snake_reader());
                        match snakes.0 {
                            None => (None, snakes.1),
                            Some(ss) => (Some(TurnModel { power_sources: ps, snakebots: ss }), snakes.1),
                        }
                    },
                },
            }
        },
    }
}

pub proof fn lemma_read_items_pos<T>(ls: Seq<RawLine>, at: int, n: nat, item: spec_fn(RawLine) -> Option<T>)
    ensures
        at <= read_items(ls, at, n, item).1 <= at + n,
        read_items(ls, at, n, item).0 matches Some(items) ==> read_items(ls, at, n, item).1 == at + n
            && items.len() == n,
    decreases n,
{
    if n > 0 {
        lemma_read_items_pos(ls, at, (n - 1) as nat, item);
    }
}

/// Once a section has failed, reading further items changes nothing.
pub proof fn lemma_read_items_stuck<T>(
    ls: Seq<RawLine>,
    at: int,
    m: nat,
    n: nat,
    item: spec_fn(RawLine) -> Option<T>,
)
    requires
        m <= n,
        read_items(ls, at, m, item).0 is None,
    ensures
        read_items(ls, at, n, item) == read_items(ls, at, m, item),
    decreases n - m,
{
    if m < n {
        lemma_read_items_stuck(ls, at, m, (n - 1) as nat, item);
    }
}

/// Reading items depends only on the lines that it reads.
pub proof fn lemma_read_items_frame<T>(
    ls1: Seq<RawLine>,
    ls2: Seq<RawLine>,
    at: int,
    n: nat,
    item: spec_fn(RawLine) -> Option<T>,
)
    requires
        0 <= at,
        ls1.len() <= ls2.len(),
        ls2.take(ls1.len() as int) == ls1,
        read_items(ls1, at, n, item).1 <= ls1.len(),
    ensures
        read_items(ls2, at, n, item) == read_items(ls1, at, n, item),
    decreases n,
{
    if n > 0 {
        let prev = read_items(ls1, at, (n - 1) as nat, item);
        lemma_read_items_pos(ls1, at, (n - 1) as nat, item);
        lemma_read_items_frame(ls1, ls2, at, (n - 1) as nat, item);
        if prev.0 is Some {
            assert(prev.1 < ls1.len());
            assert(line_at(ls2, prev.1) == line_at(ls1, prev.1)) by {
                assert(ls2.take(ls1.len() as int)[prev.1] == ls2[prev.1]);
            }
        }
    }
}


// ---------------------------------------------------------------------------
// Reading one line
// ---------------------------------------------------------------------------

/// The first white-space separated word of the characters of `v` from `lo` to `hi`,
/// as a range `(a, b)` of `v`; what follows it is `v[b..hi]`.
fn token_range(v: &Vec<char>, lo: usize, hi: usize) -> (r: (usize, usize))
    requires
        lo <= hi <= v@.len(),
    ensures
        lo <= r.0 <= r.1 <= hi,
        v@.subrange(r.0 as int, r.1 as int) == first_token(v@.subrange(lo as int, hi as int)),
        v@.subrange(r.1 as int, hi as int) == after_first_token(v@.subrange(lo as int, hi as int)),
{
    let ghost s = v@.subrange(lo as int, hi as int);
    let mut a = lo;
    while a < hi && is_whitespace(v[a])
        invariant
            lo <= a <= hi <= v@.len(),
            s == v@.subrange(lo as int, hi as int),
            trim_start(s) == trim_start(v@.subrange(a as int, hi as int)),
        decreases hi - a,
    {
        assert(v@.subrange(a as int, hi as int).drop_first() =~= v@.subrange(a + 1, hi as int));
        a = a + 1;
    }
    let ghost t = v@.subrange(a as int, hi as int);
    assert(trim_start(t) == t);
    let mut b = a;
    while b < hi && !is_whitespace(v[b])
        invariant
            lo <= a <= b <= hi <= v@.len(),
            t == v@.subrange(a as int, hi as int),
            token_len(t) == (b - a) + token_len(v@.subrange(b as int, hi as int)),
        decreases hi - b,
    {
        assert(v@.subrange(b as int, hi as int).drop_first() =~= v@.subrange(b + 1, hi as int));
        b = b + 1;
    }
    assert(token_len(v@.subrange(b as int, hi as int)) == 0);
    assert(v@.subrange(a as int, b as int) =~= t.take(b - a));
    assert(v@.subrange(b as int, hi as int) =~= t.skip(b - a));
    (a, b)
}

/// The power source of the line `v`; see `power_line`.
fn parse_power_line(v: &Vec<char>) -> (r: Option<Cell>)
    ensures
        r == power_line(v@),
{
    assert(v@.subrange(0, v@.len() as int) =~= v@);
    let (a, b) = token_range(v, 0, v.len());
    let (c, d) = token_range(v, b, v.len());
    let x = text_to_u8(v, a, b);
    let y = text_to_u8(v, c, d);
    match (x, y) {
        (Some(x), Some(y)) => Some(Cell { x, y }),
        _ => None,
    }
}

/// The body cell written in the characters of `v` from `lo` to `hi`; see `cell_token`.
fn parse_cell(v: &Vec<char>, lo: usize, hi: usize) -> (r: Option<Cell>)
    requires
        lo <= hi <= v@.len(),
    ensures
        r == cell_token(v@.subrange(lo as int, hi as int)),
{
    let ghost t = v@.subrange(lo as int, hi as int);
    match find_in_range(v, lo, hi, ',') {
        None => None,
        Some(i) => {
            assert(v@.subrange(lo as int, i as int) =~= t.take(i - lo));
            assert(v@.subrange(i + 1, hi as int) =~= t.skip(i - lo + 1));
            let x = text_to_i32(v, lo, i);
            let y = text_to_i32(v, i + 1, hi);
            match (x, y) {
                (Some(x), Some(y)) => Some(Cell { x: x as u8, y: y as u8 }),
                _ => None,
            }
        },
    }
}

/// The body written in the characters of `v` from `lo` to `hi`; see `body_cells`.
fn parse_body(v: &Vec<char>, lo: usize, hi: usize) -> (r: Option<Vec<Cell>>)
    requires
        lo <= hi <= v@.len(),
    ensures
        match r {
            Some(b) => body_cells(v@.subrange(lo as int, hi as int)) == Some(b@),
            None => body_cells(v@.subrange(lo as int, hi as int)) is None,
        },
{
    let mut cells: Vec<Cell> = Vec::new();
    let mut start = lo;
    loop
        invariant
            lo <= start <= hi <= v@.len(),
            body_cells(v@.subrange(lo as int, hi as int)) == match body_cells(
                v@.subrange(start as int, hi as int),
            ) {
                Some(rest) => Some(cells@ + rest),
                None => None::<Seq<Cell>>,
            },
        decreases hi - start,
    {
        let ghost t = v@.subrange(start as int, hi as int);
        match find_in_range(v, start, hi, ':') {
            None => {
                let c = parse_cell(v, start, hi);
                match c {
                    None => {
                        return None;
                    },
                    Some(c) => {
                        cells.push(c);
                        assert(cells@ =~= cells@.drop_last() + seq![c]);
                        return Some(cells);
                    },
                }
            },
            Some(i) => {
                assert(v@.subrange(start as int, i as int) =~= t.take(i - start));
                assert(v@.subrange(i + 1, hi as int) =~= t.skip(i - start + 1));
                let c = parse_cell(v, start, i);
                match c {
                    None => {
                        return None;
                    },
                    Some(c) => {
                        let ghost before = cells@;
                        cells.push(c);
                        proof {
                            match body_cells(v@.subrange(i + 1, hi as int)) {
                                Some(rest) => {
                                    assert(before + (seq![c] + rest) =~= cells@ + rest);
                                },
                                None => {},
                            }
                        }
                        start = i + 1;
                    },
                }
            },
        }
    }
}

/// The snake of the line `v`; see `snake_line`.
fn parse_snake_line(v: &Vec<char>) -> (r: Option<SnakeBot>)
    ensures
        match r {
            Some(s) => snake_line(v@) == Some(s@),
            None => snake_line(v@) is None,
        },
{
    let n = v.len();
    assert(v@.subrange(0, n as int) =~= v@);
    let (first_end, rest_start) = match find_in_range(v, 0, n, ' ') {
        None => (n, n),
        Some(i) => (i, i + 1),
    };
    proof {
        match find_char(v@, ' ') {
            Some(i) => {
                assert(v@.subrange(0, first_end as int) =~= v@.take(i));
                assert(v@.subrange(rest_start as int, n as int) =~= v@.skip(i + 1));
            },
            None => {
                assert(v@.subrange(rest_start as int, n as int) =~= Seq::<char>::empty());
            },
        }
    }
    let (a, b) = trim_range(v, 0, first_end);
    let id = match text_to_i32(v, a, b) {
        None => {
            return None;
        },
        Some(id) => id,
    };
    if rest_start == n {
        return Some(SnakeBot { snakebot_id: id, body: Vec::new() });
    }
    match parse_body(v, rest_start, n) {
        None => None,
        Some(body) => Some(SnakeBot { snakebot_id: id, body }),
    }
}

/// The terrain of the row `v`; see `terrain_row`.
fn parse_terrain_row(v: &Vec<char>, terrain: &mut Vec<Terrain>)
    ensures
        final(terrain)@ == old(terrain)@ + terrain_row(v@),
{
    let n = v.len();
    let mut i: usize = 0;
    while i < n
        invariant
            i <= n,
            n == v@.len(),
            terrain@ == old(terrain)@ + terrain_row(v@).take(i as int),
        decreases n - i,
    {
        let t = if v[i] == '#' {
            Terrain::Wall
        } else {
            Terrain::Empty
        };
        terrain.push(t);
        assert(terrain_row(v@).take(i + 1) =~= terrain_row(v@).take(i as int).push(t));
        i = i + 1;
    }
    assert(terrain_row(v@).take(n as int) =~= terrain_row(v@));
}


/// Reading items from line `at` on is reading them from the lines from `at` on.
pub proof fn lemma_read_items_shift<T>(ls: Seq<RawLine>, at: int, n: nat, item: spec_fn(RawLine) -> Option<T>)
    requires
        0 <= at <= ls.len(),
    ensures
        read_items(ls, at, n, item).0 == read_items(ls.skip(at), 0, n, item).0,
        read_items(ls, at, n, item).1 == read_items(ls.skip(at), 0, n, item).1 + at,
    decreases n,
{
    if n > 0 {
        lemma_read_items_shift(ls, at, (n - 1) as nat, item);
        lemma_read_items_pos(ls.skip(at), 0, (n - 1) as nat, item);
        let p = read_items(ls.skip(at), 0, (n - 1) as nat, item).1;
        assert(line_at(ls, p + at) == line_at(ls.skip(at), p));
    }
}

/// `b` begins with `a`.
pub open spec fn extends(a: Seq<RawLine>, b: Seq<RawLine>) -> bool {
    a.len() <= b.len() && b.take(a.len() as int) == a
}

/// The lines read since the reader had read `before`.
pub open spec fn since(before: Seq<RawLine>, after: Seq<RawLine>) -> Seq<RawLine> {
    after.skip(before.len() as int)
}

/// The characters of a line without its leading and trailing white space.
pub open spec fn trimmed(l: RawLine) -> RawLine {
    match l {
        Some(r) => Some(trim(r)),
        None => None,
    }
}

pub open spec fn chars_of(r: Option<Vec<char>>) -> RawLine {
    match r {
        Some(v) => Some(v@),
        None => None,
    }
}

/// The opening message as a value, where there is one.
pub open spec fn initial_value(r: Option<InitialState>) -> Option<InitialModel> {
    match r {
        Some(s) => Some(s@),
        None => None,
    }
}

/// The turn message as a value, where there is one.
pub open spec fn turn_value(r: Option<TurnState>) -> Option<TurnModel> {
    match r {
        Some(s) => Some(s@),
        None => None,
    }
}

/// A source of input lines.
pub trait LineSource {
    /// Every line given so far, in order: its characters, or `None` where the source
    /// had none to give. A source that keeps no record leaves it empty, and then cannot
    /// meet the contract of `next_line`.
    closed spec fn given(&self) -> Seq<RawLine> {
        Seq::empty()
    }

    /// The lines that the source gives, by position: what its call number `k`, counted
    /// from zero, gives. Reading a line does not change it.
    closed spec fn script(&self) -> spec_fn(int) -> RawLine {
        |k: int| None
    }

    /// The next line of the input without its line break, or `None` once the input is
    /// exhausted or cannot be read.
    fn next_line(&mut self) -> (r: Option<Vec<char>>)
        ensures
            final(self).given() == old(self).given().push(chars_of(r)),
            final(self).script() == old(self).script(),
            chars_of(r) == (old(self).script())(old(self).given().len() as int),
    ;
}

/// The lines of `ls` from position `from` on are those that `f` gives at their
/// positions.
pub open spec fn follows(ls: Seq<RawLine>, from: int, f: spec_fn(int) -> RawLine) -> bool {
    forall|k: int| from <= k < ls.len() ==> #[trigger] ls[k] == f(k)
}

/// The `n` lines that `f` gives from position `at` on.
pub open spec fn lines_ahead(f: spec_fn(int) -> RawLine, at: int, n: nat) -> Seq<RawLine> {
    Seq::new(n, |i: int| f(at + i))
}

/// The turn message that the lines of `f` from position `at` on begin with, and the
/// number of lines it takes (see `law_turn_extent`: there is one such number at most).
pub open spec fn turn_at(f: spec_fn(int) -> RawLine, at: int) -> (Option<TurnModel>, int) {
    let n = choose|n: nat| read_turn(lines_ahead(f, at, n)).1 == n;
    read_turn(lines_ahead(f, at, n))
}

/// The opening message that the lines of `f` from position `at` on begin with, and the
/// number of lines it takes (see `law_initial_extent`).
pub open spec fn initial_at(f: spec_fn(int) -> RawLine, at: int) -> (Option<InitialModel>, int) {
    let n = choose|n: nat| read_initial(lines_ahead(f, at, n)).1 == n;
    read_initial(lines_ahead(f, at, n))
}

/// Reads the referee's messages from a source of lines.
pub struct InputReader<R: LineSource> {
    reader: R,
}

impl<R: LineSource> InputReader<R> {
    /// The source of lines, as it stands now.
    pub closed spec fn source(&self) -> R {
        self.reader
    }

    /// Every line that the source has given, in order.
    pub open spec fn lines_read(&self) -> Seq<RawLine> {
        self.source().given()
    }

    /// The lines that the source gives, by position.
    pub open spec fn script(&self) -> spec_fn(int) -> RawLine {
        self.source().script()
    }

    pub fn new(reader: R) -> (r: Self)
        ensures
            r.source() == reader,
    {
        Self { reader }
    }

    /// The next line, trimmed.
    fn read_line(&mut self) -> (r: Option<Vec<char>>)
        ensures
            final(self).lines_read() == old(self).lines_read().push(
                (old(self).script())(old(self).lines_read().len() as int),
            ),
            final(self).script() == old(self).script(),
            chars_of(r) == trimmed(final(self).lines_read().last()),
    {
        let line = self.reader.next_line();
        match line {
            None => None,
            Some(v) => {
                let (a, b) = trim_range(&v, 0, v.len());
                assert(v@.subrange(0, v@.len() as int) =~= v@);
                Some(sub_chars(&v, a, b))
            },
        }
    }

    /// The number on the next line.
    fn read_i32_line(&mut self) -> (r: Option<i32>)
        ensures
            final(self).lines_read() == old(self).lines_read().push(
                (old(self).script())(old(self).lines_read().len() as int),
            ),
            final(self).script() == old(self).script(),
            r == int_item(final(self).lines_read().last()),
    {
        let s = match self.read_line() {
            None => {
                return None;
            },
            Some(s) => s,
        };
        proof {
            match self.lines_read().last() {
                Some(raw) => lemma_trim_idempotent(raw),
                None => {},
            }
        }
        parse_i32(&s)
    }
}

/// The characters of `v` from `a` to `b`.
fn sub_chars(v: &Vec<char>, a: usize, b: usize) -> (r: Vec<char>)
    requires
        a <= b <= v@.len(),
    ensures
        r@ == v@.subrange(a as int, b as int),
{
    let mut r: Vec<char> = Vec::new();
    let mut i = a;
    while i < b
        invariant
            a <= i <= b <= v@.len(),
            r@ =~= v@.subrange(a as int, i as int),
        decreases b - i,
    {
        r.push(v[i]);
        i = i + 1;
    }
    r
}

/// The number that `s` writes, white space around it aside.
fn parse(s: &Vec<char>) -> (r: Option<i32>)
    ensures
        r == parse_i32_text(trim(s@)),
{
    let (a, b) = trim_range(s, 0, s.len());
    assert(s@.subrange(0, s@.len() as int) =~= s@);
    text_to_i32(s, a, b)
}

fn parse_i32(s: &Vec<char>) -> (r: Option<i32>)
    ensures
        r == parse_i32_text(trim(s@)),
{
    parse(s)
}


pub proof fn lemma_since(base: Seq<RawLine>, mid: Seq<RawLine>, last: Seq<RawLine>)
    requires
        extends(base, mid),
        extends(mid, last),
    ensures
        extends(base, last),
        extends(since(base, mid), since(base, last)),
        since(mid, last) == since(base, last).skip(since(base, mid).len() as int),
        since(base, mid).len() == mid.len() - base.len(),
{
    assert(last.take(base.len() as int) =~= mid.take(base.len() as int));
    assert(since(base, last).take(since(base, mid).len() as int) =~= since(base, mid));
    assert(since(mid, last) =~= since(base, last).skip(since(base, mid).len() as int));
}

pub proof fn lemma_extends_refl(a: Seq<RawLine>)
    ensures
        extends(a, a),
{
    assert(a.take(a.len() as int) =~= a);
}

pub proof fn lemma_extends_trans(a: Seq<RawLine>, b: Seq<RawLine>, c: Seq<RawLine>)
    requires
        extends(a, b),
        extends(b, c),
    ensures
        extends(a, c),
{
    assert(c.take(a.len() as int) =~= b.take(a.len() as int));
}

pub proof fn lemma_extends_push(a: Seq<RawLine>, b: Seq<RawLine>, x: RawLine)
    requires
        extends(a, b),
    ensures
        extends(a, b.push(x)),
        extends(b, b.push(x)),
        since(a, b.push(x)) == since(a, b).push(x),
{
    assert(b.push(x).take(a.len() as int) =~= b.take(a.len() as int));
    assert(b.push(x).take(b.len() as int) =~= b);
    assert(since(a, b.push(x)) =~= since(a, b).push(x));
}

/// What a section of `n` items, read on its own, says about the whole message:
/// `f_before` are the lines read before it, `f_after` those read up to its end.
pub proof fn lemma_section<T>(
    f_before: Seq<RawLine>,
    f_after: Seq<RawLine>,
    f_final: Seq<RawLine>,
    n: nat,
    item: spec_fn(RawLine) -> Option<T>,
)
    requires
        extends(f_before, f_after),
        extends(f_after, f_final),
        read_items(f_after.skip(f_before.len() as int), 0, n, item).1 == f_after.len()
            - f_before.len(),
    ensures
        read_items(f_final, f_before.len() as int, n, item).0 == read_items(
            f_after.skip(f_before.len() as int),
            0,
            n,
            item,
        ).0,
        read_items(f_final, f_before.len() as int, n, item).1 == f_after.len(),
{
    lemma_read_items_shift(f_after, f_before.len() as int, n, item);
    lemma_read_items_frame(f_after, f_final, f_before.len() as int, n, item);
}

pub proof fn lemma_follows_trans(a: Seq<RawLine>, b: Seq<RawLine>, from: int, f: spec_fn(int) -> RawLine)
    requires
        extends(a, b),
        0 <= from <= a.len(),
        follows(a, from, f),
        follows(b, a.len() as int, f),
    ensures
        follows(b, from, f),
{
    assert forall|k: int| from <= k < b.len() implies #[trigger] b[k] == f(k) by {
        if k < a.len() {
            assert(b.take(a.len() as int)[k] == b[k]);
        }
    }
}

pub proof fn lemma_line_kept(a: Seq<RawLine>, b: Seq<RawLine>, k: int)
    requires
        extends(a, b),
        0 <= k < a.len(),
    ensures
        line_at(b, k) == line_at(a, k),
{
    assert(b.take(a.len() as int)[k] == b[k]);
}

impl<R: LineSource> InputReader<R> {
    fn read_rows(&mut self, n: usize) -> (r: Option<Vec<Terrain>>)
        ensures
            extends(old(self).lines_read(), final(self).lines_read()),
            final(self).script() == old(self).script(),
            follows(final(self).lines_read(), old(self).lines_read().len() as int, old(self).script()),
            read_items(since(old(self).lines_read(), final(self).lines_read()), 0, n as nat, row_reader()).1
                == since(old(self).lines_read(), final(self).lines_read()).len(),
            match r {
                Some(t) => read_items(
                    since(old(self).lines_read(), final(self).lines_read()),
                    0,
                    n as nat,
                    row_reader(),
                ).0 matches Some(rs) && t@ == joined(rs),
                None => read_items(
                    since(old(self).lines_read(), final(self).lines_read()),
                    0,
                    n as nat,
                    row_reader(),
                ).0 is None,
            },
    {
        let ghost base = self.lines_read();
        let mut terrain: Vec<Terrain> = Vec::new();
        let ghost mut rows: Seq<Seq<Terrain>> = Seq::empty();
        let mut k: usize = 0;
        proof {
            assert(self.lines_read().take(base.len() as int) =~= base);
            assert(since(base, self.lines_read()) =~= Seq::<RawLine>::empty());
        }
        while k < n
            invariant
                base == old(self).lines_read(),
                self.script() == old(self).script(),
                follows(self.lines_read(), base.len() as int, old(self).script()),
                extends(base, self.lines_read()),
                k <= n,
                since(base, self.lines_read()).len() == k,
                read_items(since(base, self.lines_read()), 0, k as nat, row_reader()) == (
                    Some(rows),
                    k as int,
                ),
                terrain@ == joined(rows),
            decreases n - k,
        {
            let ghost lines0 = self.lines_read();
            let ghost s0 = since(base, lines0);
            let line = self.read_line();
            let ghost s1 = since(base, self.lines_read());
            proof {
                assert(self.lines_read() == lines0.push(self.lines_read().last()));
                lemma_extends_push(base, lines0, self.lines_read().last());
                assert(s1 == s0.push(self.lines_read().last()));
                assert(s1.take(s0.len() as int) =~= s0);
                lemma_read_items_frame(s0, s1, 0, k as nat, row_reader());
                assert(line_at(s1, k as int) == self.lines_read().last());
            }
            match line {
                None => {
                    proof {
                        lemma_read_items_stuck(s1, 0, (k + 1) as nat, n as nat, row_reader());
                    }
                    return None;
                },
                Some(row) => {
                    parse_terrain_row(&row, &mut terrain);
                    proof {
                        let r = terrain_row(row@);
                        assert(joined(rows.push(r)) =~= joined(rows) + r) by {
                            assert(rows.push(r).drop_last() =~= rows);
                        }
                        rows = rows.push(r);
                    }
                },
            }
            k = k + 1;
        }
        Some(terrain)
    }

    fn read_ints(&mut self, n: usize) -> (r: Option<Vec<i32>>)
        ensures
            extends(old(self).lines_read(), final(self).lines_read()),
            final(self).script() == old(self).script(),
            follows(final(self).lines_read(), old(self).lines_read().len() as int, old(self).script()),
            read_items(since(old(self).lines_read(), final(self).lines_read()), 0, n as nat, int_reader()).1
                == since(old(self).lines_read(), final(self).lines_read()).len(),
            match r {
                Some(v) => read_items(
                    since(old(self).lines_read(), final(self).lines_read()),
                    0,
                    n as nat,
                    int_reader(),
                ).0 == Some(v@),
                None => read_items(
                    since(old(self).lines_read(), final(self).lines_read()),
                    0,
                    n as nat,
                    int_reader(),
                ).0 is None,
            },
    {
        let ghost base = self.lines_read();
        let mut ids: Vec<i32> = Vec::new();
        let mut k: usize = 0;
        proof {
            assert(self.lines_read().take(base.len() as int) =~= base);
            assert(since(base, self.lines_read()) =~= Seq::<RawLine>::empty());
        }
        while k < n
            invariant
                base == old(self).lines_read(),
                self.script() == old(self).script(),
                follows(self.lines_read(), base.len() as int, old(self).script()),
                extends(base, self.lines_read()),
                k <= n,
                since(base, self.lines_read()).len() == k,
                read_items(since(base, self.lines_read()), 0, k as nat, int_reader()) == (
                    Some(ids@),
                    k as int,
                ),
            decreases n - k,
        {
            let ghost lines0 = self.lines_read();
            let ghost s0 = since(base, lines0);
            let x = self.read_i32_line();
            let ghost s1 = since(base, self.lines_read());
            proof {
                assert(self.lines_read() == lines0.push(self.lines_read().last()));
                lemma_extends_push(base, lines0, self.lines_read().last());
                assert(s1 == s0.push(self.lines_read().last()));
                assert(s1.take(s0.len() as int) =~= s0);
                lemma_read_items_frame(s0, s1, 0, k as nat, int_reader());
                assert(line_at(s1, k as int) == self.lines_read().last());
            }
            match x {
                None => {
                    proof {
                        lemma_read_items_stuck(s1, 0, (k + 1) as nat, n as nat, int_reader());
                    }
                    return None;
                },
                Some(x) => {
                    ids.push(x);
                },
            }
            k = k + 1;
        }
        Some(ids)
    }

    fn read_powers(&mut self, n: usize) -> (r: Option<Vec<PowerSource>>)
        ensures
            extends(old(self).lines_read(), final(self).lines_read()),
            final(self).script() == old(self).script(),
            follows(final(self).lines_read(), old(self).lines_read().len() as int, old(self).script()),
            read_items(since(old(self).lines_read(), final(self).lines_read()), 0, n as nat, power_reader()).1
                == since(old(self).lines_read(), final(self).lines_read()).len(),
            match r {
                Some(v) => read_items(
                    since(old(self).lines_read(), final(self).lines_read()),
                    0,
                    n as nat,
                    power_reader(),
                ).0 == Some(v@.map_values(|p: PowerSource| p.pos)),
                None => read_items(
                    since(old(self).lines_read(), final(self).lines_read()),
                    0,
                    n as nat,
                    power_reader(),
                ).0 is None,
            },
    {
        let ghost base = self.lines_read();
        let mut powers: Vec<PowerSource> = Vec::new();
        let mut k: usize = 0;
        proof {
            assert(self.lines_read().take(base.len() as int) =~= base);
            assert(since(base, self.lines_read()) =~= Seq::<RawLine>::empty());
            assert(powers@.map_values(|p: PowerSource| p.pos) =~= Seq::<Cell>::empty());
        }
        while k < n
            invariant
                base == old(self).lines_read(),
                self.script() == old(self).script(),
                follows(self.lines_read(), base.len() as int, old(self).script()),
                extends(base, self.lines_read()),
                k <= n,
                since(base, self.lines_read()).len() == k,
                read_items(since(base, self.lines_read()), 0, k as nat, power_reader()) == (
                    Some(powers@.map_values(|p: PowerSource| p.pos)),
                    k as int,
                ),
            decreases n - k,
        {
            let ghost lines0 = self.lines_read();
            let ghost s0 = since(base, lines0);
            let line = self.read_line();
            let ghost s1 = since(base, self.lines_read());
            proof {
                assert(self.lines_read() == lines0.push(self.lines_read().last()));
                lemma_extends_push(base, lines0, self.lines_read().last());
                assert(s1 == s0.push(self.lines_read().last()));
                assert(s1.take(s0.len() as int) =~= s0);
                lemma_read_items_frame(s0, s1, 0, k as nat, power_reader());
                assert(line_at(s1, k as int) == self.lines_read().last());
            }
            match line {
                None => {
                    proof {
                        lemma_read_items_stuck(s1, 0, (k + 1) as nat, n as nat, power_reader());
                    }
                    return None;
                },
                Some(l) => {
                    match parse_power_line(&l) {
                        None => {
                            proof {
                                lemma_read_items_stuck(s1, 0, (k + 1) as nat, n as nat, power_reader());
                            }
                            return None;
                        },
                        Some(pos) => {
                            let ghost before = powers@;
                            powers.push(PowerSource { pos });
                            assert(powers@.map_values(|p: PowerSource| p.pos) =~= before.map_values(
                                |p: PowerSource| p.pos,
                            ).push(pos));
                        },
                    }
                },
            }
            k = k + 1;
        }
        Some(powers)
    }

    fn read_snakes(&mut self, n: usize) -> (r: Option<Vec<SnakeBot>>)
        ensures
            extends(old(self).lines_read(), final(self).lines_read()),
            final(self).script() == old(self).script(),
            follows(final(self).lines_read(), old(self).lines_read().len() as int, old(self).script()),
            read_items(since(old(self).lines_read(), final(self).lines_read()), 0, n as nat, snake_reader()).1
                == since(old(self).lines_read(), final(self).lines_read()).len(),
            match r {
                Some(v) => read_items(
                    since(old(self).lines_read(), final(self).lines_read()),
                    0,
                    n as nat,
                    snake_reader(),
                ).0 == Some(v@.map_values(|s: SnakeBot| s@)),
                None => read_items(
                    since(old(self).lines_read(), final(self).lines_read()),
                    0,
                    n as nat,
                    snake_reader(),
                ).0 is None,
            },
    {
        let ghost base = self.lines_read();
        let mut snakes: Vec<SnakeBot> = Vec::new();
        let mut k: usize = 0;
        proof {
            assert(self.lines_read().take(base.len() as int) =~= base);
            assert(since(base, self.lines_read()) =~= Seq::<RawLine>::empty());
            assert(snakes@.map_values(|s: SnakeBot| s@) =~= Seq::<SnakeModel>::empty());
        }
        while k < n
            invariant
                base == old(self).lines_read(),
                self.script() == old(self).script(),
                follows(self.lines_read(), base.len() as int, old(self).script()),
                extends(base, self.lines_read()),
                k <= n,
                since(base, self.lines_read()).len() == k,
                read_items(since(base, self.lines_read()), 0, k as nat, snake_reader()) == (
                    Some(snakes@.map_values(|s: SnakeBot| s@)),
                    k as int,
                ),
            decreases n - k,
        {
            let ghost lines0 = self.lines_read();
            let ghost s0 = since(base, lines0);
            let line = self.read_line();
            let ghost s1 = since(base, self.lines_read());
            proof {
                assert(self.lines_read() == lines0.push(self.lines_read().last()));
                lemma_extends_push(base, lines0, self.lines_read().last());
                assert(s1 == s0.push(self.lines_read().last()));
                assert(s1.take(s0.len() as int) =~= s0);
                lemma_read_items_frame(s0, s1, 0, k as nat, snake_reader());
                assert(line_at(s1, k as int) == self.lines_read().last());
            }
            match line {
                None => {
                    proof {
                        lemma_read_items_stuck(s1, 0, (k + 1) as nat, n as nat, snake_reader());
                    }
                    return None;
                },
                Some(l) => {
                    match parse_snake_line(&l) {
                        None => {
                            proof {
                                lemma_read_items_stuck(s1, 0, (k + 1) as nat, n as nat, snake_reader());
                            }
                            return None;
                        },
                        Some(snake) => {
                            let ghost before = snakes@;
                            let ghost sv = snake@;
                            snakes.push(snake);
                            assert(snakes@.map_values(|s: SnakeBot| s@) =~= before.map_values(
                                |s: SnakeBot| s@,
                            ).push(sv));
                        },
                    }
                },
            }
            k = k + 1;
        }
        Some(snakes)
    }
}


impl<R: LineSource> InputReader<R> {
    /// Reads the next line, with what holds of the lines read since `base`.
    fn read_i32_since(&mut self, Ghost(base): Ghost<Seq<RawLine>>) -> (r: Option<i32>)
        requires
            extends(base, old(self).lines_read()),
        ensures
            extends(base, final(self).lines_read()),
            extends(old(self).lines_read(), final(self).lines_read()),
            final(self).script() == old(self).script(),
            follows(final(self).lines_read(), old(self).lines_read().len() as int, old(self).script()),
            since(base, final(self).lines_read()) == since(base, old(self).lines_read()).push(
                final(self).lines_read().last(),
            ),
            r == int_item(final(self).lines_read().last()),
    {
        let ghost lines0 = self.lines_read();
        let r = self.read_i32_line();
        proof {
            assert(self.lines_read() == lines0.push(self.lines_read().last()));
            lemma_extends_push(base, lines0, self.lines_read().last());
        }
        r
    }

    /// The next turn message; see `read_turn`. `None` where the lines read do not make
    /// up a turn message, the end of the input among them.
    #[verifier::rlimit(40)]
    fn read_turn_message(&mut self) -> (res: Option<TurnState>)
        ensures
            extends(old(self).lines_read(), final(self).lines_read()),
            final(self).script() == old(self).script(),
            follows(final(self).lines_read(), old(self).lines_read().len() as int, old(self).script()),
            read_turn(since(old(self).lines_read(), final(self).lines_read())).0 == turn_value(res),
            read_turn(since(old(self).lines_read(), final(self).lines_read())).1 == since(
                old(self).lines_read(),
                final(self).lines_read(),
            ).len(),
    {
        let ghost base = self.lines_read();
        proof {
            assert(base.take(base.len() as int) =~= base);
            assert(since(base, base) =~= Seq::<RawLine>::empty());
        }
        let pc = self.read_i32_since(Ghost(base));
        let ghost l1 = self.lines_read();
        let ghost f1 = since(base, l1);
        assert(line_at(f1, 0) == l1.last());
        let pc = match pc {
            None => {
                return None;
            },
            Some(v) => v,
        };
        let powers = self.read_powers(pc as usize);
        let ghost l2 = self.lines_read();
        let ghost f2 = since(base, l2);
        proof {
            lemma_follows_trans(l1, l2, base.len() as int, self.script());
            lemma_since(base, l1, l2);
            lemma_extends_refl(f2);
            lemma_section(f1, f2, f2, pc as usize as nat, power_reader());
            lemma_line_kept(f1, f2, 0);
        }
        let powers = match powers {
            None => {
                return None;
            },
            Some(p) => p,
        };
        let sc = self.read_i32_since(Ghost(base));
        let ghost l3 = self.lines_read();
        let ghost f3 = since(base, l3);
        proof {
            lemma_follows_trans(l2, l3, base.len() as int, self.script());
            lemma_since(base, l2, l3);
            lemma_extends_trans(f1, f2, f3);
            lemma_section(f1, f2, f3, pc as usize as nat, power_reader());
            lemma_line_kept(f1, f3, 0);
            assert(line_at(f3, f2.len() as int) == l3.last());
        }
        let sc = match sc {
            None => {
                return None;
            },
            Some(v) => v,
        };
        let snakes = self.read_snakes(sc as usize);
        let ghost l4 = self.lines_read();
        let ghost f4 = since(base, l4);
        proof {
            lemma_follows_trans(l3, l4, base.len() as int, self.script());
            lemma_since(base, l3, l4);
            lemma_extends_trans(l2, l3, l4);
            lemma_since(base, l2, l4);
            lemma_extends_refl(f4);
            lemma_extends_trans(f1, f2, f4);
            lemma_extends_trans(f3, f4, f4);
            lemma_section(f3, f4, f4, sc as usize as nat, snake_reader());
            lemma_section(f1, f2, f4, pc as usize as nat, power_reader());
            lemma_line_kept(f1, f4, 0);
            lemma_line_kept(f3, f4, f2.len() as int);
        }
        match snakes {
            None => None,
            Some(snakes) => Some(TurnState { power_sources: powers, snakebots: snakes }),
        }
    }
}


impl<R: LineSource> InputReader<R> {
    /// The opening message; see `read_initial`. `None` where the lines read do not make
    /// up an opening message, the end of the input among them.
    #[verifier::rlimit(60)]
    fn read_initial_message(&mut self) -> (res: Option<InitialState>)
        ensures
            extends(old(self).lines_read(), final(self).lines_read()),
            final(self).script() == old(self).script(),
            follows(final(self).lines_read(), old(self).lines_read().len() as int, old(self).script()),
            read_initial(since(old(self).lines_read(), final(self).lines_read())).0 == initial_value(
                res,
            ),
            read_initial(since(old(self).lines_read(), final(self).lines_read())).1 == since(
                old(self).lines_read(),
                final(self).lines_read(),
            ).len(),
    {
        let ghost base = self.lines_read();
        proof {
            lemma_extends_refl(base);
            assert(since(base, base) =~= Seq::<RawLine>::empty());
        }
        // my id
        let my_id = self.read_i32_since(Ghost(base));
        let ghost l1 = self.lines_read();
        let ghost f1 = since(base, l1);
        assert(line_at(f1, 0) == l1.last());
        let my_id = match my_id {
            None => {
                return None;
            },
            Some(v) => v,
        };
        // width
        let width = self.read_i32_since(Ghost(base));
        let ghost l2 = self.lines_read();
        let ghost f2 = since(base, l2);
        proof {
            lemma_follows_trans(l1, l2, base.len() as int, self.script());
            lemma_since(base, l1, l2);
            lemma_line_kept(f1, f2, 0);
            assert(line_at(f2, 1) == l2.last());
        }
        let width = match width {
            None => {
                return None;
            },
            Some(v) => v,
        };
        // height
        let height = self.read_i32_since(Ghost(base));
        let ghost l3 = self.lines_read();
        let ghost f3 = since(base, l3);
        proof {
            lemma_follows_trans(l2, l3, base.len() as int, self.script());
            lemma_since(base, l2, l3);
            lemma_extends_trans(f1, f2, f3);
            lemma_line_kept(f1, f3, 0);
            lemma_line_kept(f2, f3, 1);
            assert(line_at(f3, 2) == l3.last());
        }
        let height = match height {
            None => {
                return None;
            },
            Some(v) => v,
        };
        #[verifier::truncate]
        let h = height as usize;
        // terrain rows
        let rows = self.read_rows(h);
        let ghost l4 = self.lines_read();
        let ghost f4 = since(base, l4);
        proof {
            lemma_follows_trans(l3, l4, base.len() as int, self.script());
            lemma_since(base, l3, l4);
            lemma_extends_refl(f4);
            lemma_extends_trans(f1, f3, f4);
            lemma_extends_trans(f2, f3, f4);
            lemma_line_kept(f1, f4, 0);
            lemma_line_kept(f2, f4, 1);
            lemma_line_kept(f3, f4, 2);
            lemma_section(f3, f4, f4, h as nat, row_reader());
        }
        let terrain = match rows {
            None => {
                return None;
            },
            Some(t) => t,
        };
        // snakes per player
        let count = self.read_i32_since(Ghost(base));
        let ghost l5 = self.lines_read();
        let ghost f5 = since(base, l5);
        proof {
            lemma_follows_trans(l4, l5, base.len() as int, self.script());
            lemma_since(base, l4, l5);
            lemma_extends_trans(f1, f4, f5);
            lemma_extends_trans(f2, f4, f5);
            lemma_extends_trans(f3, f4, f5);
            lemma_line_kept(f1, f5, 0);
            lemma_line_kept(f2, f5, 1);
            lemma_line_kept(f3, f5, 2);
            lemma_section(f3, f4, f5, h as nat, row_reader());
            assert(line_at(f5, f4.len() as int) == l5.last());
        }
        let count = match count {
            None => {
                return None;
            },
            Some(v) => v,
        };
        #[verifier::truncate]
        let n = count as usize;
        // my snakes
        let mine = self.read_ints(n);
        let ghost l6 = self.lines_read();
        let ghost f6 = since(base, l6);
        proof {
            lemma_follows_trans(l5, l6, base.len() as int, self.script());
            lemma_since(base, l5, l6);
            lemma_extends_refl(f6);
            lemma_extends_trans(f1, f5, f6);
            lemma_extends_trans(f2, f5, f6);
            lemma_extends_trans(f3, f5, f6);
            lemma_extends_trans(f4, f5, f6);
            lemma_line_kept(f1, f6, 0);
            lemma_line_kept(f2, f6, 1);
            lemma_line_kept(f3, f6, 2);
            lemma_line_kept(f5, f6, f4.len() as int);
            lemma_section(f3, f4, f6, h as nat, row_reader());
            lemma_section(f5, f6, f6, n as nat, int_reader());
        }
        let my_ids = match mine {
            None => {
                return None;
            },
            Some(v) => v,
        };
        // the opponent's snakes
        let theirs = self.read_ints(n);
        let ghost l7 = self.lines_read();
        let ghost f7 = since(base, l7);
        proof {
            lemma_follows_trans(l6, l7, base.len() as int, self.script());
            lemma_since(base, l6, l7);
            lemma_extends_refl(f7);
            lemma_extends_trans(l5, l6, l7);
            lemma_extends_trans(l4, l5, l7);
            lemma_since(base, l5, l7);
            lemma_since(base, l4, l7);
            lemma_extends_trans(f1, f6, f7);
            lemma_extends_trans(f2, f6, f7);
            lemma_extends_trans(f3, f6, f7);
            lemma_line_kept(f1, f7, 0);
            lemma_line_kept(f2, f7, 1);
            lemma_line_kept(f3, f7, 2);
            lemma_line_kept(f5, f7, f4.len() as int);
            lemma_section(f3, f4, f7, h as nat, row_reader());
            lemma_section(f5, f6, f7, n as nat, int_reader());
            lemma_section(f6, f7, f7, n as nat, int_reader());
        }
        match theirs {
            None => None,
            Some(opp_ids) => {
                #[verifier::truncate]
                let w = width as usize;
                Some(
                    InitialState {
                        my_id,
                        width: w,
                        height: h,
                        terrain,
                        my_snakebot_ids: my_ids,
                        opp_snakebot_ids: opp_ids,
                    },
                )
            },
        }
    }
}


/// A turn message is read from its own lines alone: lines that follow it change
/// nothing of what is read, so a reader can answer a turn before the next one arrives.
pub proof fn law_read_turn_own_lines(ls: Seq<RawLine>, more: Seq<RawLine>)
    requires
        read_turn(ls).1 <= ls.len(),
    ensures
        read_turn(ls + more) == read_turn(ls),
{
    let all = ls + more;
    assert(all.take(ls.len() as int) =~= ls);
    assert(line_at(all, 0) == line_at(ls, 0));
    if let Some(pc) = int_item(line_at(ls, 0)) {
        let n = pc as usize as nat;
        lemma_read_items_pos(ls, 1, n, power_reader());
        lemma_read_items_frame(ls, all, 1, n, power_reader());
        let p = read_items(ls, 1, n, power_reader());
        if p.0 is Some {
            assert(line_at(all, p.1) == line_at(ls, p.1));
            if let Some(sc) = int_item(line_at(ls, p.1)) {
                let m = sc as usize as nat;
                lemma_read_items_pos(ls, p.1 + 1, m, snake_reader());
                lemma_read_items_frame(ls, all, p.1 + 1, m, snake_reader());
            }
        }
    }
}

/// An opening message is read from its own lines alone: lines that follow it change
/// nothing of what is read.
pub proof fn law_read_initial_own_lines(ls: Seq<RawLine>, more: Seq<RawLine>)
    requires
        read_initial(ls).1 <= ls.len(),
    ensures
        read_initial(ls + more) == read_initial(ls),
{
    let all = ls + more;
    assert(all.take(ls.len() as int) =~= ls);
    assert(line_at(all, 0) == line_at(ls, 0));
    if int_item(line_at(ls, 0)) is Some {
        assert(line_at(all, 1) == line_at(ls, 1));
        if int_item(line_at(ls, 1)) is Some {
            assert(line_at(all, 2) == line_at(ls, 2));
            if let Some(hh) = int_item(line_at(ls, 2)) {
                let h = hh as usize as nat;
                lemma_read_items_pos(ls, 3, h, row_reader());
                lemma_read_items_frame(ls, all, 3, h, row_reader());
                let r = read_items(ls, 3, h, row_reader());
                if r.0 is Some {
                    assert(line_at(all, r.1) == line_at(ls, r.1));
                    if let Some(cnt) = int_item(line_at(ls, r.1)) {
                        let n = cnt as usize as nat;
                        lemma_read_items_pos(ls, r.1 + 1, n, int_reader());
                        lemma_read_items_frame(ls, all, r.1 + 1, n, int_reader());
                        let mine = read_items(ls, r.1 + 1, n, int_reader());
                        if mine.0 is Some {
                            lemma_read_items_pos(ls, mine.1, n, int_reader());
                            lemma_read_items_frame(ls, all, mine.1, n, int_reader());
                        }
                    }
                }
            }
        }
    }
}

/// The lines of a source fix how many of them one turn message takes: of all the
/// windows of the lines from position `at` on, one at most is read whole as a turn
/// message.
pub proof fn law_turn_extent(f: spec_fn(int) -> RawLine, at: int, n: nat, m: nat)
    requires
        read_turn(lines_ahead(f, at, n)).1 == n,
        read_turn(lines_ahead(f, at, m)).1 == m,
    ensures
        n == m,
{
    if n < m {
        let more = lines_ahead(f, at + n, (m - n) as nat);
        assert(lines_ahead(f, at, n) + more =~= lines_ahead(f, at, m));
        law_read_turn_own_lines(lines_ahead(f, at, n), more);
    } else if m < n {
        let more = lines_ahead(f, at + m, (n - m) as nat);
        assert(lines_ahead(f, at, m) + more =~= lines_ahead(f, at, n));
        law_read_turn_own_lines(lines_ahead(f, at, m), more);
    }
}

/// The lines of a source fix how many of them one opening message takes.
pub proof fn law_initial_extent(f: spec_fn(int) -> RawLine, at: int, n: nat, m: nat)
    requires
        read_initial(lines_ahead(f, at, n)).1 == n,
        read_initial(lines_ahead(f, at, m)).1 == m,
    ensures
        n == m,
{
    if n < m {
        let more = lines_ahead(f, at + n, (m - n) as nat);
        assert(lines_ahead(f, at, n) + more =~= lines_ahead(f, at, m));
        law_read_initial_own_lines(lines_ahead(f, at, n), more);
    } else if m < n {
        let more = lines_ahead(f, at + m, (n - m) as nat);
        assert(lines_ahead(f, at, m) + more =~= lines_ahead(f, at, n));
        law_read_initial_own_lines(lines_ahead(f, at, m), more);
    }
}

pub proof fn lemma_turn_at(f: spec_fn(int) -> RawLine, at: int, n: nat)
    requires
        read_turn(lines_ahead(f, at, n)).1 == n,
    ensures
        turn_at(f, at) == read_turn(lines_ahead(f, at, n)),
{
    let c = choose|k: nat| read_turn(lines_ahead(f, at, k)).1 == k;
    law_turn_extent(f, at, c, n);
}

pub proof fn lemma_initial_at(f: spec_fn(int) -> RawLine, at: int, n: nat)
    requires
        read_initial(lines_ahead(f, at, n)).1 == n,
    ensures
        initial_at(f, at) == read_initial(lines_ahead(f, at, n)),
{
    let c = choose|k: nat| read_initial(lines_ahead(f, at, k)).1 == k;
    law_initial_extent(f, at, c, n);
}

/// The lines read since `before`, where they follow `f`, are the lines that `f` gives.
pub proof fn lemma_lines_ahead(before: Seq<RawLine>, after: Seq<RawLine>, f: spec_fn(int) -> RawLine)
    requires
        extends(before, after),
        follows(after, before.len() as int, f),
    ensures
        since(before, after) == lines_ahead(f, before.len() as int, since(before, after).len()),
{
    assert(since(before, after) =~= lines_ahead(f, before.len() as int, since(before, after).len()));
}

impl<R: LineSource> InputReader<R> {
    /// The next turn message: the one that the source's lines hold from here on (see
    /// `read_turn`). `None` where those lines do not make up a turn message, the end of
    /// the input among them. Reads exactly the lines of the message.
    pub fn read_turn_state(&mut self) -> (res: Option<TurnState>)
        ensures
            final(self).script() == old(self).script(),
            extends(old(self).lines_read(), final(self).lines_read()),
            follows(final(self).lines_read(), old(self).lines_read().len() as int, old(self).script()),
            turn_at(old(self).script(), old(self).lines_read().len() as int) == (
                turn_value(res),
                since(old(self).lines_read(), final(self).lines_read()).len() as int,
            ),
            read_turn(since(old(self).lines_read(), final(self).lines_read())) == (
                turn_value(res),
                since(old(self).lines_read(), final(self).lines_read()).len() as int,
            ),
    {
        let res = self.read_turn_message();
        proof {
            lemma_lines_ahead(old(self).lines_read(), self.lines_read(), self.script());
            lemma_turn_at(
                self.script(),
                old(self).lines_read().len() as int,
                since(old(self).lines_read(), self.lines_read()).len(),
            );
        }
        res
    }

    /// The opening message: the one that the source's lines hold from here on (see
    /// `read_initial`). `None` where those lines do not make up an opening message, the
    /// end of the input among them. Reads exactly the lines of the message.
    pub fn read_initial_state(&mut self) -> (res: Option<InitialState>)
        ensures
            final(self).script() == old(self).script(),
            extends(old(self).lines_read(), final(self).lines_read()),
            follows(final(self).lines_read(), old(self).lines_read().len() as int, old(self).script()),
            initial_at(old(self).script(), old(self).lines_read().len() as int) == (
                initial_value(res),
                since(old(self).lines_read(), final(self).lines_read()).len() as int,
            ),
            read_initial(since(old(self).lines_read(), final(self).lines_read())) == (
                initial_value(res),
                since(old(self).lines_read(), final(self).lines_read()).len() as int,
            ),
    {
        let res = self.read_initial_message();
        proof {
            lemma_lines_ahead(old(self).lines_read(), self.lines_read(), self.script());
            lemma_initial_at(
                self.script(),
                old(self).lines_read().len() as int,
                since(old(self).lines_read(), self.lines_read()).len(),
            );
        }
        res
    }
}

/// The first line of `t` and what follows its line break.
pub open spec fn split_line(t: Seq<char>) -> (Seq<char>, Seq<char>) {
    match find_char(t, '\n') {
        None => (t, Seq::empty()),
        Some(i) => (t.take(i), t.skip(i + 1)),
    }
}

/// The line that text `t` holds at position `k`, counted from zero; `None` past its last
/// line.
pub open spec fn script_at(t: Seq<char>, k: int) -> RawLine
    decreases t.len(),
{
    if t.len() == 0 {
        None
    } else if k <= 0 {
        Some(split_line(t).0)
    } else {
        proof {
            lemma_find_char(t, '\n');
        }
        script_at(split_line(t).1, k - 1)
    }
}

/// The lines of text `t`, by position.
pub open spec fn text_script(t: Seq<char>) -> spec_fn(int) -> RawLine {
    |k: int| if k < 0 { None } else { script_at(t, k) }
}

/// Lines held in memory, read one after the other.
pub struct TextCursor {
    text: Vec<char>,
    pos: usize,
    lines: Ghost<Seq<RawLine>>,
}

impl TextCursor {
    /// What is left to read.
    pub closed spec fn remaining(&self) -> Seq<char> {
        if self.pos <= self.text@.len() {
            self.text@.skip(self.pos as int)
        } else {
            Seq::empty()
        }
    }

    pub fn new(text: &str) -> (r: Self)
        ensures
            r.remaining() == text@,
            r.given() == Seq::<RawLine>::empty(),
            r.script() == text_script(text@),
    {
        let n = text.unicode_len();
        let mut chars: Vec<char> = Vec::new();
        let mut i: usize = 0;
        while i < n
            invariant
                i <= n,
                n == text@.len(),
                chars@ =~= text@.take(i as int),
            decreases n - i,
        {
            chars.push(text.get_char(i));
            i = i + 1;
        }
        assert(chars@.skip(0) =~= text@);
        let r = TextCursor { text: chars, pos: 0, lines: Ghost(Seq::empty()) };
        assert(r.script() =~= text_script(text@));
        r
    }
}

impl LineSource for TextCursor {
    closed spec fn given(&self) -> Seq<RawLine> {
        self.lines@
    }

    closed spec fn script(&self) -> spec_fn(int) -> RawLine {
        |k: int|
            if k < 0 {
                None
            } else if k < self.lines@.len() {
                self.lines@[k]
            } else {
                script_at(self.remaining(), k - self.lines@.len())
            }
    }

    /// The text up to the next line break, or `None` once the text is used up.
    fn next_line(&mut self) -> (r: Option<Vec<char>>)
        ensures
            old(self).remaining().len() == 0 ==> r is None && final(self).remaining() == old(
                self,
            ).remaining(),
            old(self).remaining().len() > 0 ==> chars_of(r) == Some(split_line(old(self).remaining()).0)
                && final(self).remaining() == split_line(old(self).remaining()).1,
    {
        let n = self.text.len();
        let ghost rem0 = self.remaining();
        let ghost script0 = self.script();
        if self.pos >= n {
            self.lines = Ghost(self.lines@.push(None));
            proof {
                assert(self.script() =~= script0);
            }
            return None;
        }
        let start = self.pos;
        let ghost rest = self.text@.skip(start as int);
        assert(self.text@.subrange(start as int, n as int) =~= rest);
        let r = match find_in_range(&self.text, start, n, '\n') {
            None => {
                let line = sub_chars(&self.text, start, n);
                self.pos = n;
                assert(self.text@.skip(n as int) =~= Seq::<char>::empty());
                line
            },
            Some(i) => {
                let line = sub_chars(&self.text, start, i);
                self.pos = i + 1;
                assert(line@ =~= rest.take(i - start));
                assert(self.text@.skip(i + 1) =~= rest.skip(i - start + 1));
                line
            },
        };
        self.lines = Ghost(self.lines@.push(Some(r@)));
        proof {
            assert(self.script() =~= script0);
        }
        Some(r)
    }
}

} // verus!
