//! The engine schematic: the input laid out in a square grid of bytes, and
//! the numbers read around each digit of it.
//!
//! The grid has rows and columns 0 to `EDGE`; input line `j` goes to row
//! `j + 1`, and every other cell holds `.`. Each digit cell, taken in row
//! order, is probed: the probe walks the grid with the coordinates of the
//! cell swapped, reads the digits around it and parses them.
use vstd::prelude::*;
use crate::grid::{
    Grid, byte_rows, filled_bytes, byte_at, set_byte, reshape_dropped, row_slice,
};
use crate::text::{is_digit, is_digit_byte, is_continuation, u32_text, parse_u32};

verus! {

/// The last row and column of the grid.
pub const EDGE: usize = 80;

/// The input has at most `EDGE` lines of at most `EDGE` bytes each.
pub open spec fn fits(lines: Seq<Seq<u8>>) -> bool {
    lines.len() <= EDGE && forall|j: int| 0 <= j < lines.len() ==> #[trigger] lines[j].len() <= EDGE
}

/// The cell at row `r`, column `c`, of the grid laid out from `lines`: the
/// first byte of the character that starts there, else `.`.
pub open spec fn cell_of(lines: Seq<Seq<u8>>, r: int, c: int) -> u8 {
    if 1 <= r <= lines.len() && 0 <= c < lines[r - 1].len() && !is_continuation(lines[r - 1][c]) {
        lines[r - 1][c]
    } else {
        '.' as u8
    }
}

/// The grid laid out from `lines`, as its rows.
pub open spec fn schematic(lines: Seq<Seq<u8>>) -> Seq<Seq<u8>> {
    Seq::new((EDGE + 1) as nat, |r: int| Seq::new((EDGE + 1) as nat, |c: int| cell_of(lines, r, c)))
}

/// A square grid of side `EDGE + 1`.
pub open spec fn square(rows: Seq<Seq<u8>>) -> bool {
    rows.len() == EDGE + 1 && forall|r: int| 0 <= r <= EDGE ==> #[trigger] rows[r].len() == EDGE + 1
}

/// The grid with the first `j` lines in place and the first `i` bytes of
/// line `j`.
spec fn partly(lines: Seq<Seq<u8>>, j: int, i: int) -> Seq<Seq<u8>> {
    Seq::new(
        (EDGE + 1) as nat,
        |r: int|
            Seq::new(
                (EDGE + 1) as nat,
                |c: int|
                    if r <= j || (r == j + 1 && c < i) {
                        cell_of(lines, r, c)
                    } else {
                        '.' as u8
                    },
            ),
    )
}

/// The input has at most `EDGE` lines of at most `EDGE` bytes each.
pub fn lines_fit(lines: &Vec<Vec<u8>>) -> (r: bool)
    ensures
        r == fits(lines.deep_view()),
{
    let ghost ls = lines.deep_view();
    if lines.len() > EDGE {
        return false;
    }
    let mut j: usize = 0;
    while j < lines.len()
        invariant
            ls == lines.deep_view(),
            j <= lines.len() <= EDGE,
            forall|t: int| 0 <= t < j ==> #[trigger] ls[t].len() <= EDGE,
        decreases lines.len() - j,
    {
        assert(ls[j as int].len() == lines[j as int].len());
        if lines[j].len() > EDGE {
            return false;
        }
        j += 1;
    }
    true
}

/// Lays the lines out in the grid, line `j` in row `j + 1` from column 0,
/// each character at its first byte; the other bytes of a character leave
/// their cell `.`.
pub fn build_grid(lines: &Vec<Vec<u8>>) -> (g: Grid<u8>)
    requires
        fits(lines.deep_view()),
    ensures
        byte_rows(g) == schematic(lines.deep_view()),
{
    let ghost ls = lines.deep_view();
    let mut g = filled_bytes(EDGE + 1, EDGE + 1, '.' as u8);
    assert(byte_rows(g) =~~= partly(ls, 0, 0));
    let mut j: usize = 0;
    while j < lines.len()
        invariant
            ls == lines.deep_view(),
            fits(ls),
            j <= lines.len(),
            byte_rows(g) == partly(ls, j as int, 0),
        decreases lines.len() - j,
    {
        reshape_dropped(&g, EDGE + 1, EDGE + 1);
        let line = &lines[j];
        assert(line@ == ls[j as int]);
        let mut i: usize = 0;
        while i < line.len()
            invariant
                ls == lines.deep_view(),
                fits(ls),
                j < lines.len(),
                line@ == ls[j as int],
                i <= line.len(),
                byte_rows(g) == partly(ls, j as int, i as int),
            decreases line.len() - i,
        {
            assert(line.len() <= EDGE);
            if !(0x80 <= line[i] && line[i] < 0xc0) {
                set_byte(&mut g, j + 1, i, line[i]);
            }
            assert(byte_rows(g) =~~= partly(ls, j as int, i + 1));
            i += 1;
        }
        assert(partly(ls, j as int, i as int) =~~= partly(ls, j + 1, 0));
        j += 1;
    }
    assert(partly(ls, j as int, 0) =~~= schematic(ls));
    g
}

/// The cells of a square grid, row by row.
pub fn read_rows(g: &Grid<u8>) -> (v: Vec<Vec<u8>>)
    requires
        square(byte_rows(*g)),
    ensures
        v.deep_view() == byte_rows(*g),
{
    let ghost rows = byte_rows(*g);
    let mut v: Vec<Vec<u8>> = Vec::new();
    let mut r: usize = 0;
    while r <= EDGE
        invariant
            rows == byte_rows(*g),
            square(rows),
            r <= EDGE + 1,
            v.len() == r,
            forall|t: int| 0 <= t < r ==> (#[trigger] v@[t])@ == rows[t],
        decreases EDGE + 1 - r,
    {
        let mut row: Vec<u8> = Vec::new();
        let mut c: usize = 0;
        while c <= EDGE
            invariant
                rows == byte_rows(*g),
                square(rows),
                r <= EDGE,
                c <= EDGE + 1,
                row@ == rows[r as int].take(c as int),
            decreases EDGE + 1 - c,
        {
            row.push(byte_at(g, r, c));
            assert(row@ =~= rows[r as int].take(c + 1));
            c += 1;
        }
        assert(row@ =~= rows[r as int]);
        v.push(row);
        r += 1;
    }
    assert forall|t: int| 0 <= t < v.len() implies v.deep_view()[t] == rows[t] by {
        assert(v.deep_view()[t] == v@[t]@);
    }
    assert(v.deep_view() =~= rows);
    v
}

/// Where the backward walk along `row` from column `x` puts the start of a
/// number: just after the last column in `1..=x` that holds no digit, or at
/// 0 when every one of them holds a digit.
pub open spec fn start_ok(row: Seq<u8>, x: int, s: int) -> bool {
    ||| s == 0 && forall|q: int| 0 < q <= x ==> is_digit(#[trigger] row[q])
    ||| 2 <= s <= x + 1 && !is_digit(row[s - 1]) && forall|q: int|
        s <= q <= x ==> is_digit(#[trigger] row[q])
}

/// Where the forward walk along `row` from column `x` puts the end of a
/// number: at the first column from `x` on that holds no digit, or just past
/// the grid.
pub open spec fn end_ok(row: Seq<u8>, x: int, e: int) -> bool {
    &&& x <= e <= EDGE + 1
    &&& e == EDGE + 1 || !is_digit(row[e])
    &&& forall|q: int| x <= q < e ==> is_digit(#[trigger] row[q])
}

/// The cells of `row` from `s` up to `e`, none when `e < s`.
pub open spec fn cells_between(row: Seq<u8>, s: int, e: int) -> Seq<u8> {
    if e < s {
        Seq::empty()
    } else {
        row.subrange(s, e)
    }
}

/// What the probe of one digit cell found.
#[derive(Debug)]
pub struct Probe {
    /// The row of the digit cell.
    pub row: usize,
    /// The column of the digit cell.
    pub col: usize,
    pub x_start: usize,
    pub x_end: usize,
    /// The cells from `x_start` up to `x_end` of row `col`.
    pub text: Vec<u8>,
    /// `text` read as a number.
    pub num: Option<u32>,
}

/// `p` is the probe of the cell at `p.row`, `p.col` of a grid with these
/// rows: that cell holds a digit, and the walks go along row `p.col` from
/// column `p.row`.
pub open spec fn probe_ok(rows: Seq<Seq<u8>>, p: Probe) -> bool {
    &&& p.row <= EDGE
    &&& p.col <= EDGE
    &&& is_digit(rows[p.row as int][p.col as int])
    &&& start_ok(rows[p.col as int], p.row as int, p.x_start as int)
    &&& end_ok(rows[p.col as int], p.row as int, p.x_end as int)
    &&& p.text@ == cells_between(rows[p.col as int], p.x_start as int, p.x_end as int)
    &&& p.num == u32_text(p.text@)
}

/// The cell at `r1`, `c1` comes before the one at `r2`, `c2` in row order.
pub open spec fn before(r1: int, c1: int, r2: int, c2: int) -> bool {
    r1 < r2 || (r1 == r2 && c1 < c2)
}

/// Some probe in `ps` is that of the cell at `r`, `c`.
pub open spec fn probed(ps: Seq<Probe>, r: int, c: int) -> bool {
    exists|i: int| 0 <= i < ps.len() && ps[i].row == r && #[trigger] ps[i].col == c
}

/// `ps` holds one probe for each digit cell of the grid, in row order.
pub open spec fn probes_of(rows: Seq<Seq<u8>>, ps: Seq<Probe>) -> bool {
    &&& forall|i: int| 0 <= i < ps.len() ==> probe_ok(rows, #[trigger] ps[i])
    &&& forall|i: int, k: int|
        0 <= i < k < ps.len() ==> before(
            #[trigger] ps[i].row as int,
            ps[i].col as int,
            #[trigger] ps[k].row as int,
            ps[k].col as int,
        )
    &&& forall|r: int, c: int|
        0 <= r <= EDGE && 0 <= c <= EDGE && is_digit(#[trigger] rows[r][c]) ==> probed(ps, r, c)
}

fn walk_back(g: &Grid<u8>, y: usize, x: usize) -> (s: usize)
    requires
        square(byte_rows(*g)),
        y <= EDGE,
        x <= EDGE,
    ensures
        start_ok(byte_rows(*g)[y as int], x as int, s as int),
{
    let ghost row = byte_rows(*g)[y as int];
    let mut p = x;
    while p > 0 && is_digit_byte(byte_at(g, y, p))
        invariant
            square(byte_rows(*g)),
            row == byte_rows(*g)[y as int],
            y <= EDGE,
            p <= x <= EDGE,
            forall|q: int| p < q <= x ==> is_digit(#[trigger] row[q]),
        decreases p,
    {
        p -= 1;
    }
    if p > 0 {
        p + 1
    } else {
        0
    }
}

fn walk_forward(g: &Grid<u8>, y: usize, x: usize) -> (e: usize)
    requires
        square(byte_rows(*g)),
        y <= EDGE,
        x <= EDGE,
    ensures
        end_ok(byte_rows(*g)[y as int], x as int, e as int),
{
    let ghost row = byte_rows(*g)[y as int];
    let mut e = x;
    while e <= EDGE && is_digit_byte(byte_at(g, y, e))
        invariant
            square(byte_rows(*g)),
            row == byte_rows(*g)[y as int],
            y <= EDGE,
            x <= e <= EDGE + 1,
            forall|q: int| x <= q < e ==> is_digit(#[trigger] row[q]),
        decreases EDGE + 1 - e,
    {
        e += 1;
    }
    e
}

/// Probes the digit cell at row `xx`, column `yy`.
pub fn probe(g: &Grid<u8>, xx: usize, yy: usize) -> (p: Probe)
    requires
        square(byte_rows(*g)),
        xx <= EDGE,
        yy <= EDGE,
        is_digit(byte_rows(*g)[xx as int][yy as int]),
    ensures
        p.row == xx,
        p.col == yy,
        probe_ok(byte_rows(*g), p),
{
    let y = yy;
    let x_start = walk_back(g, y, xx);
    let x_end = walk_forward(g, y, xx);
    let text = row_slice(g, y, x_start, x_end);
    let num = parse_u32(text.as_slice());
    Probe { row: xx, col: yy, x_start, x_end, text, num }
}

/// Probes every digit cell of the grid, in row order.
pub fn survey(g: &Grid<u8>) -> (ps: Vec<Probe>)
    requires
        square(byte_rows(*g)),
    ensures
        probes_of(byte_rows(*g), ps@),
{
    let ghost rows = byte_rows(*g);
    let mut ps: Vec<Probe> = Vec::new();
    let mut xx: usize = 0;
    while xx <= EDGE
        invariant
            rows == byte_rows(*g),
            square(rows),
            xx <= EDGE + 1,
            forall|i: int| 0 <= i < ps.len() ==> probe_ok(rows, #[trigger] ps@[i]),
            forall|i: int, k: int|
                0 <= i < k < ps.len() ==> before(
                    #[trigger] ps@[i].row as int,
                    ps@[i].col as int,
                    #[trigger] ps@[k].row as int,
                    ps@[k].col as int,
                ),
            forall|i: int| 0 <= i < ps.len() ==> #[trigger] ps@[i].row < xx,
            forall|r: int, c: int|
                0 <= r < xx && 0 <= c <= EDGE && is_digit(#[trigger] rows[r][c]) ==> probed(
                    ps@,
                    r,
                    c,
                ),
        decreases EDGE + 1 - xx,
    {
        let mut yy: usize = 0;
        while yy <= EDGE
            invariant
                rows == byte_rows(*g),
                square(rows),
                xx <= EDGE,
                yy <= EDGE + 1,
                forall|i: int| 0 <= i < ps.len() ==> probe_ok(rows, #[trigger] ps@[i]),
                forall|i: int, k: int|
                    0 <= i < k < ps.len() ==> before(
                        #[trigger] ps@[i].row as int,
                        ps@[i].col as int,
                        #[trigger] ps@[k].row as int,
                        ps@[k].col as int,
                    ),
                forall|i: int|
                    0 <= i < ps.len() ==> before(
                        #[trigger] ps@[i].row as int,
                        ps@[i].col as int,
                        xx as int,
                        yy as int,
                    ),
                forall|r: int, c: int|
                    0 <= r < xx && 0 <= c <= EDGE && is_digit(#[trigger] rows[r][c]) ==> probed(
                        ps@,
                        r,
                        c,
                    ),
                forall|c: int|
                    0 <= c < yy && is_digit(#[trigger] rows[xx as int][c]) ==> probed(
                        ps@,
                        xx as int,
                        c,
                    ),
            decreases EDGE + 1 - yy,
        {
            if is_digit_byte(byte_at(g, xx, yy)) {
                let p = probe(g, xx, yy);
                let ghost old_ps = ps@;
                ps.push(p);
                assert forall|r: int, c: int| probed(old_ps, r, c) implies probed(ps@, r, c) by {
                    let i = choose|i: int|
                        0 <= i < old_ps.len() && old_ps[i].row == r && #[trigger] old_ps[i].col == c;
                    assert(ps@[i] == old_ps[i]);
                }
                assert(ps@[old_ps.len() as int].col == yy);
            }
            yy += 1;
        }
        xx += 1;
    }
    ps
}

/// A number found in the grid, with where it was read: along row `y`, from
/// column `x_start` up to `x_end`.
#[derive(Clone, Copy, Debug, PartialEq, Eq, Hash, Structural)]
pub struct Booger {
    pub num: u32,
    pub x_start: usize,
    pub x_end: usize,
    pub y: usize,
}

/// `b` is what some probe of `ps` read as a number.
pub open spec fn found_in(ps: Seq<Probe>, b: Booger) -> bool {
    exists|i: int|
        0 <= i < ps.len() && #[trigger] ps[i].num == Some(b.num) && ps[i].x_start == b.x_start
            && ps[i].x_end == b.x_end && ps[i].col == b.y
}

fn holds_booger(bs: &Vec<Booger>, b: Booger) -> (r: bool)
    ensures
        r == bs@.contains(b),
{
    let mut k: usize = 0;
    while k < bs.len()
        invariant
            k <= bs.len(),
            forall|t: int| 0 <= t < k ==> bs@[t] != b,
        decreases bs.len() - k,
    {
        if bs[k] == b {
            return true;
        }
        k += 1;
    }
    false
}

/// The distinct numbers that the probes read, each once.
pub fn collect_boogers(ps: &Vec<Probe>) -> (bs: Vec<Booger>)
    ensures
        bs@.no_duplicates(),
        forall|b: Booger| bs@.contains(b) <==> found_in(ps@, b),
{
    let mut bs: Vec<Booger> = Vec::new();
    let mut k: usize = 0;
    while k < ps.len()
        invariant
            k <= ps.len(),
            bs@.no_duplicates(),
            forall|b: Booger| bs@.contains(b) <==> found_in(ps@.take(k as int), b),
        decreases ps.len() - k,
    {
        let ghost before_k = ps@.take(k as int);
        let ghost after_k = ps@.take(k + 1);
        assert forall|b: Booger| found_in(before_k, b) implies found_in(after_k, b) by {
            let i = choose|i: int|
                0 <= i < before_k.len() && #[trigger] before_k[i].num == Some(b.num)
                    && before_k[i].x_start == b.x_start && before_k[i].x_end == b.x_end
                    && before_k[i].col == b.y;
            assert(after_k[i] == before_k[i]);
        }
        match ps[k].num {
            Some(n) => {
                let b = Booger { num: n, x_start: ps[k].x_start, x_end: ps[k].x_end, y: ps[k].col };
                assert(after_k[k as int] == ps@[k as int]);
                assert(found_in(after_k, b));
                let ghost old_bs = bs@;
                if !holds_booger(&bs, b) {
                    bs.push(b);
                }
                assert(forall|c: Booger| #[trigger] bs@.contains(c) <==> (old_bs.contains(c) || c == b))
                    by {
                    broadcast use vstd::seq_lib::lemma_seq_contains_after_push;

                };
                assert forall|c: Booger| found_in(after_k, c) implies bs@.contains(c) by {
                    let i = choose|i: int|
                        0 <= i < after_k.len() && #[trigger] after_k[i].num == Some(c.num)
                            && after_k[i].x_start == c.x_start && after_k[i].x_end == c.x_end
                            && after_k[i].col == c.y;
                    if i < k {
                        assert(before_k[i] == after_k[i]);
                        assert(found_in(before_k, c));
                    } else {
                        assert(c == b);
                    }
                }
            },
            None => {
                assert forall|c: Booger| found_in(after_k, c) implies found_in(before_k, c) by {
                    let i = choose|i: int|
                        0 <= i < after_k.len() && #[trigger] after_k[i].num == Some(c.num)
                            && after_k[i].x_start == c.x_start && after_k[i].x_end == c.x_end
                            && after_k[i].col == c.y;
                    assert(i < k);
                    assert(before_k[i] == after_k[i]);
                }
            },
        }
        k += 1;
    }
    assert(ps@.take(k as int) =~= ps@);
    bs
}

/// Lays the input out, probes every digit cell in row order and gathers the
/// numbers read. The total stays 0: nothing is added up.
pub fn a(lines: &Vec<Vec<u8>>) -> (r: (u32, Vec<Probe>, Vec<Booger>))
    requires
        fits(lines.deep_view()),
    ensures
        r.0 == 0,
        probes_of(schematic(lines.deep_view()), r.1@),
        r.2@.no_duplicates(),
        forall|b: Booger| r.2@.contains(b) <==> found_in(r.1@, b),
{
    let g = build_grid(lines);
    assert(square(byte_rows(g)));
    let ps = survey(&g);
    let bs = collect_boogers(&ps);
    (0, ps, bs)
}

} // verus!
