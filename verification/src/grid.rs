//! Two-dimensional grids kept in ndarray's `ArcArray2`, seen as their rows.
use vstd::prelude::*;
use ndarray::{ArcArray2, Axis, Slice};

verus! {

/// A grid of cells in an `ArcArray2`.
#[verifier::external_body]
#[verifier::reject_recursive_types(T)]
pub struct Grid<T> {
    cells: ArcArray2<T>,
}

/// The rows of a grid of bytes, top to bottom.
pub uninterp spec fn byte_rows(g: Grid<u8>) -> Seq<Seq<u8>>;

/// The rows of a grid of numbers, top to bottom.
pub uninterp spec fn number_rows(g: Grid<i128>) -> Seq<Seq<i128>>;

/// `rows` rows of `cols` copies of `v`.
pub open spec fn filled<T>(rows: nat, cols: nat, v: T) -> Seq<Seq<T>> {
    Seq::new(rows, |_r: int| Seq::new(cols, |_c: int| v))
}

/// The rows with the cell at (`r`, `c`) replaced by `v`.
pub open spec fn with_cell<T>(rows: Seq<Seq<T>>, r: int, c: int, v: T) -> Seq<Seq<T>> {
    rows.update(r, rows[r].update(c, v))
}

/// `ArcArray2::from_elem((rows, cols), v)`: a grid of copies of `v`; it
/// panics when the product of the nonzero sides overflows `isize`, which
/// `requires` leaves out.
#[verifier::external_body]
pub(crate) fn filled_bytes(rows: usize, cols: usize, v: u8) -> (g: Grid<u8>)
    requires
        rows <= isize::MAX,
        cols <= isize::MAX,
        rows * cols <= isize::MAX,
    ensures
        byte_rows(g) == filled(rows as nat, cols as nat, v),
{
    Grid { cells: ArcArray2::from_elem((rows, cols), v) }
}

/// `ArcArray2::from_elem((rows, cols), v)` for numbers.
#[verifier::external_body]
pub(crate) fn filled_numbers(rows: usize, cols: usize, v: i128) -> (g: Grid<i128>)
    requires
        rows <= isize::MAX,
        cols <= isize::MAX,
        rows * cols <= isize::MAX,
    ensures
        number_rows(g) == filled(rows as nat, cols as nat, v),
{
    Grid { cells: ArcArray2::from_elem((rows, cols), v) }
}

/// `grid[[r, c]]`: the cell in row `r` and column `c`.
#[verifier::external_body]
pub(crate) fn byte_at(g: &Grid<u8>, r: usize, c: usize) -> (v: u8)
    requires
        r < byte_rows(*g).len(),
        c < byte_rows(*g)[r as int].len(),
    ensures
        v == byte_rows(*g)[r as int][c as int],
{
    g.cells[[r, c]]
}

/// `grid[[r, c]]` for numbers.
#[verifier::external_body]
pub(crate) fn number_at(g: &Grid<i128>, r: usize, c: usize) -> (v: i128)
    requires
        r < number_rows(*g).len(),
        c < number_rows(*g)[r as int].len(),
    ensures
        v == number_rows(*g)[r as int][c as int],
{
    g.cells[[r, c]]
}

/// `grid.dim()`: the number of rows and the length of each row.
#[verifier::external_body]
pub(crate) fn number_dims(g: &Grid<i128>) -> (d: (usize, usize))
    ensures
        d.0 == number_rows(*g).len(),
        forall|r: int| 0 <= r < d.0 ==> #[trigger] number_rows(*g)[r].len() == d.1,
{
    g.cells.dim()
}

/// `grid[[r, c]] = v`.
#[verifier::external_body]
pub(crate) fn set_byte(g: &mut Grid<u8>, r: usize, c: usize, v: u8)
    requires
        r < byte_rows(*old(g)).len(),
        c < byte_rows(*old(g))[r as int].len(),
    ensures
        byte_rows(*final(g)) == with_cell(byte_rows(*old(g)), r as int, c as int, v),
{
    g.cells[[r, c]] = v;
}

/// `grid[[r, c]] = v` for numbers.
#[verifier::external_body]
pub(crate) fn set_number(g: &mut Grid<i128>, r: usize, c: usize, v: i128)
    requires
        r < number_rows(*old(g)).len(),
        c < number_rows(*old(g))[r as int].len(),
    ensures
        number_rows(*final(g)) == with_cell(number_rows(*old(g)), r as int, c as int, v),
{
    g.cells[[r, c]] = v;
}

/// `grid.reshape((rows, cols))` with its result dropped: it leaves the grid
/// as it was, and panics unless the new shape has as many cells, which
/// `requires` leaves out.
#[verifier::external_body]
pub(crate) fn reshape_dropped(g: &Grid<u8>, rows: usize, cols: usize)
    requires
        rows <= isize::MAX,
        cols <= isize::MAX,
        rows * cols == byte_rows(*g).len() * byte_rows(*g)[0].len(),
        byte_rows(*g).len() > 0,
{
    #[allow(deprecated)]
    let _ = g.cells.reshape((rows, cols));
}

/// `grid.index_axis(Axis(0), r)` sliced from `lo` to `hi` and collected: the cells of
/// row `r` from column `lo` up to column `hi` (none when `hi < lo`).
#[verifier::external_body]
pub(crate) fn row_slice(g: &Grid<u8>, r: usize, lo: usize, hi: usize) -> (v: Vec<u8>)
    requires
        r < byte_rows(*g).len(),
        lo <= byte_rows(*g)[r as int].len(),
        hi <= byte_rows(*g)[r as int].len(),
    ensures
        v@ == if hi < lo {
            Seq::<u8>::empty()
        } else {
            byte_rows(*g)[r as int].subrange(lo as int, hi as int)
        },
{
    g.cells.index_axis(Axis(0), r).slice_axis(Axis(0), Slice::from(lo..hi)).iter().cloned().collect()
}

} // verus!
