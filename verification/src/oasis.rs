//! The OASIS report: lines of numbers, each the history of one value,
//! gathered into a grid with one history per row, and the interpolating
//! polynomial of a history.
//!
//! A number is read as the exact integer that its text spells; the report's
//! readers take the nearest floating-point value of it.
use vstd::prelude::*;
use polynomial::Polynomial;
use crate::grid::{
    Grid, number_rows, filled, filled_numbers, number_at, set_number, number_dims,
};
use crate::text::{
    Fail, at, decimal, decimal_exec, is_digit, is_digit_byte, lemma_decimal_bound,
    lemma_pow10_mono, lemma_prepend_empty, lemma_prepend_push, pow10, prepend,
};

verus! {

/// A byte that the number reader takes: a digit or a minus sign.
pub open spec fn is_number_byte(b: u8) -> bool {
    is_digit(b) || b == '-' as u8
}

/// The number of consecutive digits and minus signs from `pos` on.
pub open spec fn number_run(s: Seq<u8>, pos: int) -> int
    decreases s.len() - pos,
{
    if pos < 0 || pos >= s.len() || !is_number_byte(s[pos]) {
        0
    } else {
        1 + number_run(s, pos + 1)
    }
}

proof fn lemma_number_run(s: Seq<u8>, pos: int)
    requires
        0 <= pos <= s.len(),
    ensures
        0 <= number_run(s, pos) <= s.len() - pos,
        forall|k: int| pos <= k < pos + number_run(s, pos) ==> is_number_byte(#[trigger] s[k]),
    decreases s.len() - pos,
{
    if pos < s.len() && is_number_byte(s[pos]) {
        lemma_number_run(s, pos + 1);
    }
}

/// The value of `s[p..e]` when it is one optional minus sign and then one or
/// more digits, the only such texts that read as a number.
pub open spec fn signed_value(s: Seq<u8>, p: int, e: int) -> Option<int> {
    let d = if p < e && s[p] == '-' as u8 {
        p + 1
    } else {
        p
    };
    if d < e && forall|k: int| d <= k < e ==> is_digit(#[trigger] s[k]) {
        Some(
            if d > p {
                -decimal(s, d, e)
            } else {
                decimal(s, d, e) as int
            },
        )
    } else {
        None
    }
}

/// One number at `pos`, after at most one space: up to twenty digits and
/// minus signs, which must spell a number.
pub open spec fn numberspace_at(s: Seq<u8>, pos: int) -> Result<(int, i128), Fail> {
    let p = if pos < s.len() && s[pos] == ' ' as u8 {
        pos + 1
    } else {
        pos
    };
    let r = number_run(s, p);
    if r < 1 {
        Err(Fail::Error)
    } else {
        let e = p + if r <= 20 {
            r
        } else {
            20
        };
        match signed_value(s, p, e) {
            None => Err(Fail::Error),
            Some(v) => Ok((e, v as i128)),
        }
    }
}

/// Further numbers of a history, as many as read.
pub open spec fn more_entries(s: Seq<u8>, pos: int) -> Result<(int, Seq<i128>), Fail>
    decreases s.len() - pos,
{
    match numberspace_at(s, pos) {
        Err(Fail::Error) => Ok((pos, seq![])),
        Err(f) => Err(f),
        Ok((p, v)) => if p <= pos || p > s.len() {
            Err(Fail::Error)
        } else {
            prepend(seq![v], more_entries(s, p))
        },
    }
}

/// One history: one or more numbers, then a line feed.
pub open spec fn history_at(s: Seq<u8>, pos: int) -> Result<(int, Seq<i128>), Fail> {
    match numberspace_at(s, pos) {
        Err(f) => Err(f),
        Ok((p, v)) => match prepend(seq![v], more_entries(s, p)) {
            Err(f) => Err(f),
            Ok((q, vs)) => if q < s.len() && s[q] == '\n' as u8 {
                Ok((q + 1, vs))
            } else {
                Err(Fail::Error)
            },
        },
    }
}

/// Further histories, as many as read.
pub open spec fn more_histories(s: Seq<u8>, pos: int) -> Result<(int, Seq<Seq<i128>>), Fail>
    decreases s.len() - pos,
{
    match history_at(s, pos) {
        Err(Fail::Error) => Ok((pos, seq![])),
        Err(f) => Err(f),
        Ok((p, v)) => if p <= pos || p > s.len() {
            Err(Fail::Error)
        } else {
            prepend(seq![v], more_histories(s, p))
        },
    }
}

/// The report: one or more histories; where it ends, and the histories.
pub open spec fn histories_at(s: Seq<u8>) -> Result<(int, Seq<Seq<i128>>), Fail> {
    match history_at(s, 0) {
        Err(f) => Err(f),
        Ok((p, v)) => prepend(seq![v], more_histories(s, p)),
    }
}

/// The value of `s[p..e]` when it spells a number.
fn signed_number(s: &[u8], p: usize, e: usize) -> (v: Option<i128>)
    requires
        p < e <= s.len(),
        e - p <= 20,
    ensures
        match v {
            Some(x) => signed_value(s@, p as int, e as int) == Some(x as int),
            None => signed_value(s@, p as int, e as int) is None,
        },
{
    let neg = s[p] == '-' as u8;
    let d = if neg {
        p + 1
    } else {
        p
    };
    if d >= e {
        return None;
    }
    let mut t = d;
    let mut ok = true;
    while t < e
        invariant
            d <= t <= e <= s.len(),
            ok == (forall|q: int| d <= q < t ==> is_digit(#[trigger] s@[q])),
        decreases e - t,
    {
        if !is_digit_byte(s[t]) {
            ok = false;
        }
        t += 1;
    }
    if !ok {
        return None;
    }
    proof {
        lemma_decimal_bound(s@, d as int, e as int);
        lemma_pow10_mono((e - d) as nat, 20);
        reveal_with_fuel(pow10, 21);
    }
    let v = decimal_exec(s, d, e) as i128;
    if neg {
        Some(-v)
    } else {
        Some(v)
    }
}

/// Reads one number at `pos`, after at most one space.
pub fn numberspace(s: &[u8], pos: usize) -> (r: Result<(usize, i128), Fail>)
    requires
        pos <= s.len(),
    ensures
        at(r) == numberspace_at(s@, pos as int),
        r matches Ok((p, v)) ==> pos < p <= s.len(),
{
    let p = if pos < s.len() && s[pos] == ' ' as u8 {
        pos + 1
    } else {
        pos
    };
    let mut k = p;
    while k < s.len() && (is_digit_byte(s[k]) || s[k] == '-' as u8)
        invariant
            p <= k <= s.len(),
            number_run(s@, p as int) == (k - p) + number_run(s@, k as int),
        decreases s.len() - k,
    {
        k += 1;
    }
    proof {
        lemma_number_run(s@, p as int);
    }
    let r = k - p;
    if r < 1 {
        return Err(Fail::Error);
    }
    let e = p + if r <= 20 {
        r
    } else {
        20
    };
    match signed_number(s, p, e) {
        Some(v) => Ok((e, v)),
        None => Err(Fail::Error),
    }
}

/// Reads one history at `pos`: one or more numbers and a line feed.
pub fn history(s: &[u8], pos: usize) -> (r: Result<(usize, Vec<i128>), Fail>)
    requires
        pos <= s.len(),
    ensures
        match r {
            Ok((p, v)) => history_at(s@, pos as int) == Ok::<(int, Seq<i128>), Fail>(
                (p as int, v@),
            ) && pos < p <= s.len(),
            Err(f) => history_at(s@, pos as int) == Err::<(int, Seq<i128>), Fail>(f),
        },
{
    let (p0, v0) = match numberspace(s, pos) {
        Ok(x) => x,
        Err(f) => return Err(f),
    };
    let mut out: Vec<i128> = Vec::new();
    out.push(v0);
    let mut p = p0;
    let mut done = false;
    while !done
        invariant
            pos < p <= s.len(),
            !done ==> prepend(out@, more_entries(s@, p as int)) == prepend(
                seq![v0],
                more_entries(s@, p0 as int),
            ),
            done ==> prepend(seq![v0], more_entries(s@, p0 as int)) == Ok::<
                (int, Seq<i128>),
                Fail,
            >((p as int, out@)),
        decreases s.len() - p + if done {
            0int
        } else {
            1int
        },
    {
        match numberspace(s, p) {
            Ok((p2, v)) => {
                proof {
                    lemma_prepend_push(out@, v, more_entries(s@, p2 as int));
                }
                out.push(v);
                p = p2;
            },
            Err(Fail::Error) => {
                proof {
                    lemma_prepend_empty(out@, p as int);
                }
                done = true;
            },
            Err(f) => {
                return Err(f);
            },
        }
    }
    if p < s.len() && s[p] == '\n' as u8 {
        Ok((p + 1, out))
    } else {
        Err(Fail::Error)
    }
}

/// Reads the report: one or more histories.
pub fn histories(s: &[u8]) -> (r: Result<(usize, Vec<Vec<i128>>), Fail>)
    ensures
        match r {
            Ok((p, v)) => histories_at(s@) == Ok::<(int, Seq<Seq<i128>>), Fail>(
                (p as int, v.deep_view()),
            ) && p <= s.len(),
            Err(f) => histories_at(s@) == Err::<(int, Seq<Seq<i128>>), Fail>(f),
        },
{
    let (p0, v0) = match history(s, 0) {
        Ok(x) => x,
        Err(f) => return Err(f),
    };
    let ghost first = v0@;
    let mut out: Vec<Vec<i128>> = Vec::new();
    out.push(v0);
    assert(out.deep_view()[0] == out@[0]@);
    assert(out.deep_view() =~= seq![first]);
    let mut p = p0;
    loop
        invariant
            p <= s.len(),
            prepend(out.deep_view(), more_histories(s@, p as int)) == histories_at(s@),
        decreases s.len() - p,
    {
        match history(s, p) {
            Ok((p2, v)) => {
                let ghost old_rows = out.deep_view();
                let ghost row = v@;
                proof {
                    lemma_prepend_push(old_rows, row, more_histories(s@, p2 as int));
                }
                out.push(v);
                assert forall|t: int| 0 <= t < out.len() implies out.deep_view()[t] == old_rows.push(
                    row,
                )[t] by {
                    assert(out.deep_view()[t] == out@[t]@);
                }
                assert(out.deep_view() =~= old_rows.push(row));
                p = p2;
            },
            Err(Fail::Error) => {
                proof {
                    lemma_prepend_empty(out.deep_view(), p as int);
                }
                return Ok((p, out));
            },
            Err(f) => {
                return Err(f);
            },
        }
    }
}

/// The histories fit one grid: there is at least one, none is longer than
/// the first, and the grid's rows and cells can be counted in an `isize`.
pub open spec fn fits_grid(rows: Seq<Seq<i128>>) -> bool {
    &&& rows.len() >= 1
    &&& forall|i: int| 0 <= i < rows.len() ==> #[trigger] rows[i].len() <= rows[0].len()
    &&& rows.len() <= isize::MAX
    &&& rows.len() * rows[0].len() <= isize::MAX
}

/// The histories as the rows of a grid as wide as the first one, shorter
/// rows padded with zeros.
pub open spec fn padded(rows: Seq<Seq<i128>>) -> Seq<Seq<i128>> {
    Seq::new(
        rows.len(),
        |i: int|
            Seq::new(
                rows[0].len(),
                |j: int|
                    if j < rows[i].len() {
                        rows[i][j]
                    } else {
                        0
                    },
            ),
    )
}

/// `padded` with only the first `i` rows and the first `j` cells of row `i`
/// filled in.
spec fn padded_upto(rows: Seq<Seq<i128>>, i: int, j: int) -> Seq<Seq<i128>> {
    Seq::new(
        rows.len(),
        |r: int|
            Seq::new(
                rows[0].len(),
                |c: int|
                    if (r < i || (r == i && c < j)) && c < rows[r].len() {
                        rows[r][c]
                    } else {
                        0
                    },
            ),
    )
}

/// Lays the histories out in a grid, one per row.
pub fn tabulate(rows: &Vec<Vec<i128>>) -> (g: Grid<i128>)
    requires
        fits_grid(rows.deep_view()),
    ensures
        number_rows(g) == padded(rows.deep_view()),
{
    let ghost rs = rows.deep_view();
    assert(rs[0].len() == rows[0].len());
    let width = rows[0].len();
    assert(width <= isize::MAX) by (nonlinear_arith)
        requires
            rows.len() >= 1,
            rows.len() * width <= isize::MAX,
    ;
    let mut g = filled_numbers(rows.len(), width, 0);
    assert(number_rows(g) =~~= padded_upto(rs, 0, 0));
    let mut i: usize = 0;
    while i < rows.len()
        invariant
            rs == rows.deep_view(),
            fits_grid(rs),
            width == rs[0].len(),
            i <= rows.len(),
            number_rows(g) == padded_upto(rs, i as int, 0),
        decreases rows.len() - i,
    {
        let row = &rows[i];
        assert(row@ == rs[i as int]);
        let mut j: usize = 0;
        while j < row.len()
            invariant
                rs == rows.deep_view(),
                fits_grid(rs),
                width == rs[0].len(),
                i < rows.len(),
                row@ == rs[i as int],
                j <= row.len(),
                number_rows(g) == padded_upto(rs, i as int, j as int),
            decreases row.len() - j,
        {
            set_number(&mut g, i, j, row[j]);
            assert(number_rows(g) =~~= padded_upto(rs, i as int, j + 1));
            j += 1;
        }
        assert(padded_upto(rs, i as int, j as int) =~~= padded_upto(rs, i + 1, 0));
        i += 1;
    }
    assert(padded_upto(rs, i as int, 0) =~~= padded(rs));
    g
}

/// The histories fit one grid.
pub fn grid_fits(rows: &Vec<Vec<i128>>) -> (r: bool)
    ensures
        r == fits_grid(rows.deep_view()),
{
    let ghost rs = rows.deep_view();
    if rows.len() == 0 {
        return false;
    }
    assert(rs[0].len() == rows[0].len());
    let width = rows[0].len();
    let mut i: usize = 0;
    while i < rows.len()
        invariant
            rs == rows.deep_view(),
            rows.len() >= 1,
            width == rs[0].len(),
            i <= rows.len(),
            forall|t: int| 0 <= t < i ==> #[trigger] rs[t].len() <= width,
        decreases rows.len() - i,
    {
        assert(rs[i as int].len() == rows[i as int].len());
        if rows[i].len() > width {
            return false;
        }
        i += 1;
    }
    let h = rows.len() as u128;
    let w = width as u128;
    assert(h * w <= 0xffff_ffff_ffff_fffe_0000_0000_0000_0001u128) by (nonlinear_arith)
        requires
            h <= 0xffff_ffff_ffff_ffffu128,
            w <= 0xffff_ffff_ffff_ffffu128,
    ;
    h <= isize::MAX as u128 && h * w <= isize::MAX as u128
}

/// The histories fit one grid, or the report does not read.
pub open spec fn report_fits(s: Seq<u8>) -> bool {
    histories_at(s) matches Ok((_, rows)) ==> fits_grid(rows)
}

/// Reads the report into a grid with one history per row.
pub fn numberwang(s: &[u8]) -> (r: Result<(usize, Grid<i128>), Fail>)
    requires
        report_fits(s@),
    ensures
        match r {
            Ok((p, g)) => histories_at(s@) matches Ok((q, rows)) && q == p && number_rows(g)
                == padded(rows),
            Err(f) => histories_at(s@) == Err::<(int, Seq<Seq<i128>>), Fail>(f),
        },
{
    match histories(s) {
        Ok((p, rows)) => Ok((p, tabulate(&rows))),
        Err(f) => Err(f),
    }
}

/// Every cell of the row is 0.
pub open spec fn all_zero(row: Seq<i128>) -> bool {
    forall|k: int| 0 <= k < row.len() ==> row[k] == 0
}

/// The number of histories in the grid and the length of each.
pub fn grid_dims(g: &Grid<i128>) -> (d: (usize, usize))
    ensures
        d.0 == number_rows(*g).len(),
        forall|r: int| 0 <= r < d.0 ==> #[trigger] number_rows(*g)[r].len() == d.1,
{
    number_dims(g)
}

/// The history in row `r` of the grid.
pub fn history_row(g: &Grid<i128>, r: usize) -> (v: Vec<i128>)
    requires
        r < number_rows(*g).len(),
    ensures
        v@ == number_rows(*g)[r as int],
{
    let (_, width) = number_dims(g);
    let ghost row = number_rows(*g)[r as int];
    let mut v: Vec<i128> = Vec::new();
    let mut c: usize = 0;
    while c < width
        invariant
            r < number_rows(*g).len(),
            row == number_rows(*g)[r as int],
            row.len() == width,
            c <= width,
            v@ == row.take(c as int),
        decreases width - c,
    {
        v.push(number_at(g, r, c));
        assert(v@ =~= row.take(c + 1));
        c += 1;
    }
    assert(v@ =~= row);
    v
}

/// The history in row `r` of the grid is all zeros.
pub fn row_is_zero(g: &Grid<i128>, r: usize) -> (b: bool)
    requires
        r < number_rows(*g).len(),
    ensures
        b == all_zero(number_rows(*g)[r as int]),
{
    let (_, width) = number_dims(g);
    let ghost row = number_rows(*g)[r as int];
    let mut c: usize = 0;
    while c < width
        invariant
            r < number_rows(*g).len(),
            row == number_rows(*g)[r as int],
            row.len() == width,
            c <= width,
            forall|k: int| 0 <= k < c ==> row[k] == 0,
        decreases width - c,
    {
        if number_at(g, r, c) != 0 {
            return false;
        }
        c += 1;
    }
    true
}

/// The largest size of a value that `interpolate` takes.
pub const SAMPLE_BOUND: i64 = 1_000_000_000_000;

/// The largest number of values that `interpolate` takes.
pub const SAMPLE_COUNT: usize = 20;

/// The coefficients, lowest degree first, of what
/// `Polynomial::lagrange(xs, ys)` returns, when it returns one.
pub uninterp spec fn lagrange_of(xs: Seq<i64>, ys: Seq<i64>) -> Option<Seq<i64>>;

/// `Polynomial::lagrange(xs, ys)` on `i64`, as its coefficients (`data()`),
/// lowest degree first. The crate computes with plain `i64` arithmetic,
/// its divisions truncate, and it returns `None` only when two
/// x-coordinates are equal. On the x-coordinates `0, 1, ..` no product,
/// sum or quotient leaves `i64` for at most `SAMPLE_COUNT` points with
/// values of size at most `SAMPLE_BOUND`, which `requires` asks for; from 21
/// points on the product for the first point overflows whatever the values.
/// Which polynomial comes out is left to the name.
#[verifier::external_body]
fn lagrange_coefficients(xs: &Vec<i64>, ys: &Vec<i64>) -> (r: Option<Vec<i64>>)
    requires
        xs.len() == ys.len(),
        ys.len() <= SAMPLE_COUNT,
        forall|k: int| 0 <= k < xs.len() ==> #[trigger] xs@[k] == k,
        forall|k: int| 0 <= k < ys.len() ==> -SAMPLE_BOUND <= #[trigger] ys@[k] <= SAMPLE_BOUND,
    ensures
        r.deep_view() == lagrange_of(xs@, ys@),
        r is Some,
{
    match Polynomial::lagrange(xs.as_slice(), ys.as_slice()) {
        Some(p) => Some(p.data().to_vec()),
        None => None,
    }
}

/// The x-coordinates `0, 1, .., n - 1`.
pub open spec fn abscissae(n: nat) -> Seq<i64> {
    Seq::new(n, |k: int| k as i64)
}

/// The coefficients, lowest degree first, of the Lagrange polynomial through
/// the points `(k, ys[k])`.
pub fn interpolate(ys: &Vec<i64>) -> (c: Vec<i64>)
    requires
        ys.len() <= SAMPLE_COUNT,
        forall|k: int| 0 <= k < ys.len() ==> -SAMPLE_BOUND <= #[trigger] ys@[k] <= SAMPLE_BOUND,
    ensures
        lagrange_of(abscissae(ys.len() as nat), ys@) == Some(c@),
{
    let mut xs: Vec<i64> = Vec::new();
    let mut k: usize = 0;
    while k < ys.len()
        invariant
            k <= ys.len() <= SAMPLE_COUNT,
            xs@ == abscissae(k as nat),
        decreases ys.len() - k,
    {
        xs.push(k as i64);
        assert(xs@ =~= abscissae((k + 1) as nat));
        k += 1;
    }
    match lagrange_coefficients(&xs, ys) {
        Some(c) => c,
        None => Vec::new(),
    }
}

} // verus!
