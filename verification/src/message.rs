use vstd::prelude::*;
use crate::game::{Cell, InitialModel, SnakeModel, Terrain, TurnModel};
use crate::input_reader::{
    after_first_token, body_cells, cell_token, first_token, int_item, power_item, read_items,
    read_turn, snake_item, token_len, line_at, RawLine, power_reader, snake_reader, read_initial,
    row_item, terrain_row, joined, row_reader, int_reader,
};
use crate::text::{
    decimal, digits, find_char, is_digit, is_ws, lemma_digits, lemma_find_char,
    law_decimal_round_trip, parse_u8_text, trim, trim_end, trim_start,
};

verus! {

// ---------------------------------------------------------------------------
// A turn message as the referee writes it
// ---------------------------------------------------------------------------

/// A power source line: its column and its row.
pub open spec fn power_text(c: Cell) -> Seq<char> {
    decimal(c.x as int) + seq![' '] + decimal(c.y as int)
}

/// A body cell: its column, a comma, its row.
pub open spec fn cell_text(c: Cell) -> Seq<char> {
    decimal(c.x as int) + seq![','] + decimal(c.y as int)
}

/// A body: its cells, separated by colons.
pub open spec fn body_text(b: Seq<Cell>) -> Seq<char>
    decreases b.len(),
{
    if b.len() == 0 {
        Seq::empty()
    } else if b.len() == 1 {
        cell_text(b[0])
    } else {
        cell_text(b[0]) + seq![':'] + body_text(b.drop_first())
    }
}

/// A snake line: the snake's id, then, where it has a body, a space and its body.
pub open spec fn snake_text(s: SnakeModel) -> Seq<char> {
    if s.body.len() == 0 {
        decimal(s.snakebot_id as int)
    } else {
        decimal(s.snakebot_id as int) + seq![' '] + body_text(s.body)
    }
}

/// The lines of a turn message: the number of power sources, one line per power
/// source, the number of snakes, one line per snake.
pub open spec fn turn_lines(t: TurnModel) -> Seq<RawLine> {
    seq![Some(decimal(t.power_sources.len() as int))] + t.power_sources.map_values(
        |c: Cell| Some(power_text(c)),
    ) + seq![Some(decimal(t.snakebots.len() as int))] + t.snakebots.map_values(
        |s: SnakeModel| Some(snake_text(s)),
    )
}

// ---------------------------------------------------------------------------
// Characters
// ---------------------------------------------------------------------------

/// A number written in decimal is made of digits and perhaps a minus sign.
pub proof fn lemma_decimal_chars(n: int)
    ensures
        decimal(n).len() >= 1,
        forall|k: int| 0 <= k < decimal(n).len() ==> is_digit(#[trigger] decimal(n)[k]) || decimal(n)[k] == '-',
{
    if n < 0 {
        lemma_digits((-n) as nat);
        let d = digits((-n) as nat);
        assert forall|k: int| 0 <= k < decimal(n).len() implies is_digit(#[trigger] decimal(n)[k]) || decimal(n)[k]
            == '-' by {
            if k > 0 {
                assert(decimal(n)[k] == d[k - 1]);
            }
        }
    } else {
        lemma_digits(n as nat);
    }
}

/// Characters that are digits or a minus sign are none of white space, a space, a
/// comma or a colon.
pub open spec fn plain(s: Seq<char>) -> bool {
    forall|k: int| 0 <= k < s.len() ==> !is_ws(#[trigger] s[k]) && s[k] != ',' && s[k] != ':'
}

pub proof fn lemma_decimal_plain(n: int)
    ensures
        decimal(n).len() >= 1,
        plain(decimal(n)),
{
    lemma_decimal_chars(n);
    assert forall|k: int| 0 <= k < decimal(n).len() implies !is_ws(#[trigger] decimal(n)[k]) && decimal(n)[k]
        != ',' && decimal(n)[k] != ':' by {
        let ch = decimal(n)[k];
        assert(is_digit(ch) || ch == '-');
        assert(('-' as u32) == 45);
        assert((',' as u32) == 44);
        assert((':' as u32) == 58);
    }
}

pub proof fn lemma_trim_plain(s: Seq<char>)
    requires
        s.len() >= 1,
        !is_ws(s[0]),
        !is_ws(s.last()),
    ensures
        trim(s) == s,
{
    assert(trim_start(s) == s);
    assert(trim_end(s) == s);
}

/// The first word of `a` followed by `b` is `a` and the first word of `b`, where `a`
/// holds no white space.
pub proof fn lemma_token_len(a: Seq<char>, b: Seq<char>)
    requires
        forall|k: int| 0 <= k < a.len() ==> !is_ws(#[trigger] a[k]),
    ensures
        token_len(a + b) == a.len() + token_len(b),
    decreases a.len(),
{
    if a.len() > 0 {
        assert((a + b).drop_first() =~= a.drop_first() + b);
        assert forall|k: int| 0 <= k < a.drop_first().len() implies !is_ws(#[trigger] a.drop_first()[k]) by {
            assert(a.drop_first()[k] == a[k + 1]);
        }
        lemma_token_len(a.drop_first(), b);
    } else {
        assert(a + b =~= b);
    }
}

/// The first `c` of `a`, `c`, `b` is the one after `a`, where `a` holds none.
pub proof fn lemma_find_first(a: Seq<char>, c: char, b: Seq<char>)
    requires
        forall|k: int| 0 <= k < a.len() ==> #[trigger] a[k] != c,
    ensures
        find_char(a + seq![c] + b, c) == Some(a.len() as int),
{
    let s = a + seq![c] + b;
    lemma_find_char(s, c);
    assert(s[a.len() as int] == c);
    assert forall|k: int| 0 <= k < a.len() implies #[trigger] s[k] != c by {
        assert(s[k] == a[k]);
    }
}

/// A text without `c` has none to find.
pub proof fn lemma_find_none(s: Seq<char>, c: char)
    requires
        forall|k: int| 0 <= k < s.len() ==> #[trigger] s[k] != c,
    ensures
        find_char(s, c) is None,
{
    lemma_find_char(s, c);
}


// ---------------------------------------------------------------------------
// Each line reads back as what it writes
// ---------------------------------------------------------------------------

pub proof fn lemma_int_line(n: i32)
    ensures
        int_item(Some(decimal(n as int))) == Some(n),
{
    lemma_decimal_plain(n as int);
    let d = decimal(n as int);
    assert(!is_ws(d[0]) && !is_ws(d[d.len() - 1]));
    lemma_trim_plain(d);
    law_decimal_round_trip(n);
}

pub proof fn lemma_u8_text(x: u8)
    ensures
        parse_u8_text(decimal(x as int)) == Some(x),
{
    lemma_digits(x as nat);
    let d = decimal(x as int);
    assert(d == digits(x as nat));
    assert(is_digit(d[0]));
    assert(('+' as u32) == 43);
    assert(d[0] != '+');
}

pub proof fn lemma_power_line(c: Cell)
    ensures
        power_item(Some(power_text(c))) == Some(c),
{
    let dx = decimal(c.x as int);
    let dy = decimal(c.y as int);
    lemma_decimal_plain(c.x as int);
    lemma_decimal_plain(c.y as int);
    let s = power_text(c);
    let tail = seq![' '] + dy;
    assert(s =~= dx + tail);
    assert(s[0] == dx[0]);
    assert(s[s.len() - 1] == dy[dy.len() - 1]);
    assert(!is_ws(dx[0]) && !is_ws(dy[dy.len() - 1]));
    lemma_trim_plain(s);
    assert(trim_start(s) == s);
    assert(is_ws(' '));
    assert(token_len(tail) == 0);
    lemma_token_len(dx, tail);
    assert(first_token(s) =~= dx);
    assert(after_first_token(s) =~= tail);
    assert(tail.drop_first() =~= dy);
    assert(!is_ws(dy[0]));
    assert(trim_start(dy) == dy);
    assert(trim_start(tail) == dy);
    lemma_token_len(dy, Seq::empty());
    assert(dy + Seq::<char>::empty() =~= dy);
    assert(first_token(tail) =~= dy);
    lemma_u8_text(c.x);
    lemma_u8_text(c.y);
}

pub proof fn lemma_cell_text(c: Cell)
    ensures
        cell_token(cell_text(c)) == Some(c),
        plain_but_comma(cell_text(c)),
        cell_text(c).len() >= 1,
{
    let dx = decimal(c.x as int);
    let dy = decimal(c.y as int);
    lemma_decimal_plain(c.x as int);
    lemma_decimal_plain(c.y as int);
    let t = cell_text(c);
    lemma_find_first(dx, ',', dy);
    assert(t.take(dx.len() as int) =~= dx);
    assert(t.skip(dx.len() as int + 1) =~= dy);
    law_decimal_round_trip(c.x as i32);
    law_decimal_round_trip(c.y as i32);
    assert forall|k: int| 0 <= k < t.len() implies !is_ws(#[trigger] t[k]) && t[k] != ':' by {
        if k < dx.len() {
            assert(t[k] == dx[k]);
        } else if k > dx.len() {
            assert(t[k] == dy[k - dx.len() - 1]);
        } else {
            assert((',' as u32) == 44);
        }
    }
}

/// No white space and no colon.
pub open spec fn plain_but_comma(s: Seq<char>) -> bool {
    forall|k: int| 0 <= k < s.len() ==> !is_ws(#[trigger] s[k]) && s[k] != ':'
}

pub proof fn lemma_body_text(b: Seq<Cell>)
    requires
        b.len() >= 1,
    ensures
        body_cells(body_text(b)) == Some(b),
        body_text(b).len() >= 1,
        !is_ws(body_text(b)[0]),
        !is_ws(body_text(b).last()),
        forall|k: int| 0 <= k < body_text(b).len() ==> !is_ws(#[trigger] body_text(b)[k]),
    decreases b.len(),
{
    let t = body_text(b);
    lemma_cell_text(b[0]);
    let head = cell_text(b[0]);
    if b.len() == 1 {
        lemma_find_none(head, ':');
        assert(seq![b[0]] =~= b);
    } else {
        let rest = b.drop_first();
        lemma_body_text(rest);
        let rt = body_text(rest);
        lemma_find_first(head, ':', rt);
        assert(t.take(head.len() as int) =~= head);
        assert(t.skip(head.len() as int + 1) =~= rt);
        assert(seq![b[0]] + rest =~= b);
        assert(t[0] == head[0]);
        assert(t.last() == rt.last());
        assert forall|k: int| 0 <= k < t.len() implies !is_ws(#[trigger] t[k]) by {
            if k < head.len() {
                assert(t[k] == head[k]);
            } else if k > head.len() {
                assert(t[k] == rt[k - head.len() - 1]);
            } else {
                assert((':' as u32) == 58);
            }
        }
    }
}

pub proof fn lemma_snake_line(s: SnakeModel)
    ensures
        snake_item(Some(snake_text(s))) == Some(s),
{
    let d = decimal(s.snakebot_id as int);
    lemma_decimal_plain(s.snakebot_id as int);
    law_decimal_round_trip(s.snakebot_id);
    assert(!is_ws(d[0]) && !is_ws(d[d.len() - 1]));
    lemma_trim_plain(d);
    assert(is_ws(' '));
    assert forall|k: int| 0 <= k < d.len() implies #[trigger] d[k] != ' ' by {
        assert(!is_ws(d[k]));
    }
    let row = snake_text(s);
    if s.body.len() == 0 {
        lemma_find_none(d, ' ');
        assert(s.body =~= Seq::<Cell>::empty());
    } else {
        lemma_body_text(s.body);
        let bt = body_text(s.body);
        lemma_find_first(d, ' ', bt);
        assert(row[0] == d[0]);
        assert(row.last() == bt.last());
        lemma_trim_plain(row);
        assert(row.take(d.len() as int) =~= d);
        assert(row.skip(d.len() as int + 1) =~= bt);
    }
}


// ---------------------------------------------------------------------------
// A message reads back as what it writes
// ---------------------------------------------------------------------------

/// `n` lines that each read as their item read as those items, one line each.
pub proof fn lemma_read_items_back<T>(
    ls: Seq<RawLine>,
    at: int,
    n: nat,
    item: spec_fn(RawLine) -> Option<T>,
    xs: Seq<T>,
)
    requires
        0 <= at,
        at + n <= ls.len(),
        xs.len() == n,
        forall|k: int| 0 <= k < n ==> item(#[trigger] ls[at + k]) == Some(xs[k]),
    ensures
        read_items(ls, at, n, item) == (Some(xs), at + n),
    decreases n,
{
    if n > 0 {
        let prev = xs.take(n - 1);
        assert forall|k: int| 0 <= k < n - 1 implies item(#[trigger] ls[at + k]) == Some(prev[k]) by {
            assert(item(ls[at + k]) == Some(xs[k]));
        }
        lemma_read_items_back(ls, at, (n - 1) as nat, item, prev);
        assert(line_at(ls, at + n - 1) == ls[at + n - 1]);
        assert(item(ls[at + (n - 1)]) == Some(xs[n - 1]));
        assert(prev.push(xs[n - 1]) =~= xs);
    }
}

/// A turn message that the referee writes reads back as the same turn, from its own
/// lines alone and whatever lines follow: the power sources and snakes in their order,
/// in exactly its `2 + P + S` lines, for `P` power sources and `S` snakes (each count
/// in the range of `i32`).
pub proof fn law_turn_round_trip(t: TurnModel, rest: Seq<RawLine>)
    requires
        t.power_sources.len() <= i32::MAX,
        t.snakebots.len() <= i32::MAX,
    ensures
        read_turn(turn_lines(t) + rest) == (Some(t), turn_lines(t).len() as int),
        turn_lines(t).len() == 2 + t.power_sources.len() + t.snakebots.len(),
{
    let np = t.power_sources.len();
    let ns = t.snakebots.len();
    let ls = turn_lines(t) + rest;
    let powers = t.power_sources.map_values(|c: Cell| Some(power_text(c)));
    let snakes = t.snakebots.map_values(|s: SnakeModel| Some(snake_text(s)));
    assert(ls[0] == Some(decimal(np as int)));
    lemma_int_line(np as i32);
    assert(line_at(ls, 0) == Some(decimal(np as int)));
    let pc = np as i32;
    assert(pc as usize as nat == np);
    assert forall|k: int| 0 <= k < np implies power_reader()(#[trigger] ls[1 + k]) == Some(t.power_sources[k]) by {
        assert(ls[1 + k] == powers[k]);
        lemma_power_line(t.power_sources[k]);
    }
    lemma_read_items_back(ls, 1, np, power_reader(), t.power_sources);
    assert(ls[1 + np as int] == Some(decimal(ns as int)));
    lemma_int_line(ns as i32);
    assert(line_at(ls, 1 + np as int) == Some(decimal(ns as int)));
    let sc = ns as i32;
    assert(sc as usize as nat == ns);
    assert forall|k: int| 0 <= k < ns implies snake_reader()(#[trigger] ls[2 + np + k]) == Some(t.snakebots[k]) by {
        assert(ls[2 + np + k] == snakes[k]);
        lemma_snake_line(t.snakebots[k]);
    }
    lemma_read_items_back(ls, 2 + np as int, ns, snake_reader(), t.snakebots);
}


// ---------------------------------------------------------------------------
// The opening message
// ---------------------------------------------------------------------------

/// A row of terrain: `#` for a wall, `.` for an empty cell.
pub open spec fn terrain_text(row: Seq<Terrain>) -> Seq<char> {
    Seq::new(row.len(), |i: int| if row[i] == Terrain::Wall { '#' } else { '.' })
}

/// Row `k` of a grid `width` cells wide.
pub open spec fn grid_row(terrain: Seq<Terrain>, width: int, k: int) -> Seq<Terrain> {
    terrain.subrange(k * width, (k + 1) * width)
}

/// The rows of a grid `width` cells wide and `height` rows high.
pub open spec fn grid_rows(terrain: Seq<Terrain>, width: int, height: nat) -> Seq<Seq<Terrain>> {
    Seq::new(height, |k: int| grid_row(terrain, width, k))
}

/// The lines of an opening message: my id, the width, the height, one terrain line per
/// row, the number of snakes per player, then the ids of my snakes and those of the
/// opponent's, one per line.
pub open spec fn initial_lines(m: InitialModel) -> Seq<RawLine> {
    seq![Some(decimal(m.my_id as int)), Some(decimal(m.width as int)), Some(decimal(m.height as int))]
        + grid_rows(m.terrain, m.width as int, m.height as nat).map_values(
        |r: Seq<Terrain>| Some(terrain_text(r)),
    ) + seq![Some(decimal(m.my_snakebot_ids.len() as int))] + m.my_snakebot_ids.map_values(
        |id: i32| Some(decimal(id as int)),
    ) + m.opp_snakebot_ids.map_values(|id: i32| Some(decimal(id as int)))
}

pub proof fn lemma_row_line(r: Seq<Terrain>)
    ensures
        row_item(Some(terrain_text(r))) == Some(r),
{
    let t = terrain_text(r);
    if r.len() > 0 {
        assert(('#' as u32) == 35);
        assert(('.' as u32) == 46);
        assert(!is_ws(t[0]) && !is_ws(t[t.len() - 1]));
        lemma_trim_plain(t);
    } else {
        assert(t =~= Seq::<char>::empty());
        assert(trim_start(t) == t);
        assert(trim_end(t) == t);
    }
    assert(terrain_row(t) =~= r);
}

/// The rows of a grid, one after the other, are the grid.
pub proof fn lemma_joined_rows(terrain: Seq<Terrain>, width: nat, m: nat)
    requires
        m * width <= terrain.len(),
    ensures
        joined(grid_rows(terrain, width as int, m)) == terrain.take((m * width) as int),
    decreases m,
{
    let rows = grid_rows(terrain, width as int, m);
    if m == 0 {
        assert(m * width == 0) by (nonlinear_arith)
            requires
                m == 0,
        ;
        assert(rows =~= Seq::<Seq<Terrain>>::empty());
        assert(terrain.take(0) =~= Seq::<Terrain>::empty());
    } else {
        assert((m - 1) * width + width == m * width) by (nonlinear_arith)
            requires
                m >= 1,
        ;
        assert((m - 1) * width <= m * width) by (nonlinear_arith)
            requires
                m >= 1,
        ;
        lemma_joined_rows(terrain, width, (m - 1) as nat);
        assert(rows.drop_last() =~= grid_rows(terrain, width as int, (m - 1) as nat));
        assert(rows.last() == grid_row(terrain, width as int, m - 1));
        assert(((m - 1) + 1) * width == m * width);
        assert(rows.last() =~= terrain.subrange((m - 1) * width, (m * width) as int));
        assert(joined(rows) == joined(rows.drop_last()) + rows.last());
        assert(terrain.take((m - 1) * width) + terrain.subrange((m - 1) * width, (m * width) as int)
            =~= terrain.take((m * width) as int));
    }
}

/// An opening message that the referee writes reads back as the same message, from its
/// own lines alone and whatever lines follow. It holds one count of snakes for both
/// players, so both lists of ids have that length; the grid has `width` times
/// `height` cells; and each number is in the range of `i32`.
pub proof fn law_initial_round_trip(m: InitialModel, rest: Seq<RawLine>)
    requires
        m.width <= i32::MAX,
        m.height <= i32::MAX,
        m.terrain.len() == m.width * m.height,
        m.my_snakebot_ids.len() == m.opp_snakebot_ids.len(),
        m.my_snakebot_ids.len() <= i32::MAX,
    ensures
        read_initial(initial_lines(m) + rest) == (Some(m), initial_lines(m).len() as int),
        initial_lines(m).len() == 4 + m.height + 2 * m.my_snakebot_ids.len(),
{
    let w = m.width as nat;
    let h = m.height as nat;
    let n = m.my_snakebot_ids.len();
    let ls = initial_lines(m) + rest;
    let rows = grid_rows(m.terrain, w as int, h);
    let row_lines = rows.map_values(|r: Seq<Terrain>| Some(terrain_text(r)));
    let mine = m.my_snakebot_ids.map_values(|id: i32| Some(decimal(id as int)));
    let theirs = m.opp_snakebot_ids.map_values(|id: i32| Some(decimal(id as int)));
    lemma_int_line(m.my_id);
    lemma_int_line(m.width as i32);
    lemma_int_line(m.height as i32);
    assert(line_at(ls, 0) == Some(decimal(m.my_id as int)));
    assert(line_at(ls, 1) == Some(decimal(m.width as int)));
    assert(line_at(ls, 2) == Some(decimal(m.height as int)));
    assert((m.height as i32) as usize as nat == h);
    assert((m.width as i32) as usize == m.width);
    assert forall|k: int| 0 <= k < h implies row_reader()(#[trigger] ls[3 + k]) == Some(rows[k]) by {
        assert(ls[3 + k] == row_lines[k]);
        lemma_row_line(rows[k]);
    }
    lemma_read_items_back(ls, 3, h, row_reader(), rows);
    assert(h * w == m.terrain.len()) by (nonlinear_arith)
        requires
            m.terrain.len() == m.width * m.height,
            w == m.width,
            h == m.height,
    ;
    lemma_joined_rows(m.terrain, w, h);
    assert(m.terrain.take((h * w) as int) =~= m.terrain);
    assert(line_at(ls, 3 + h as int) == Some(decimal(n as int)));
    lemma_int_line(n as i32);
    assert((n as i32) as usize as nat == n);
    assert forall|k: int| 0 <= k < n implies int_reader()(#[trigger] ls[4 + h + k]) == Some(
        m.my_snakebot_ids[k],
    ) by {
        assert(ls[4 + h + k] == mine[k]);
        lemma_int_line(m.my_snakebot_ids[k]);
    }
    lemma_read_items_back(ls, 4 + h as int, n, int_reader(), m.my_snakebot_ids);
    assert forall|k: int| 0 <= k < n implies int_reader()(#[trigger] ls[4 + h + n + k]) == Some(
        m.opp_snakebot_ids[k],
    ) by {
        assert(ls[4 + h + n + k] == theirs[k]);
        lemma_int_line(m.opp_snakebot_ids[k]);
    }
    lemma_read_items_back(ls, 4 + h + n as int, n, int_reader(), m.opp_snakebot_ids);
}

} // verus!
