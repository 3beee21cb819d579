//! The dense two-dimensional grid that carries elevations, and what is
//! taken on trust about the array behind it.

use ndarray::Array2;
use ndarray_stats::errors::MinMaxError;
use ndarray_stats::QuantileExt;
use crate::surface::{is_ceiling, shape_fits, Surface, FALLBACK_CEILING};
use vstd::prelude::*;

verus! {

#[verifier::external_type_specification]
#[verifier::external_body]
pub struct ExMinMaxError(MinMaxError);

/// A dense matrix of integer elevations, kept in an `ndarray::Array2`.
///
/// The array type is generic over a storage trait that cannot be described
/// to the verifier, so the whole struct is opaque to it: what a grid holds
/// is known through `grid_cells` and `grid_shape` alone, and through the
/// functions below that call the array.
#[verifier::external_body]
#[derive(Debug)]
pub struct Grid {
    cells: Array2<i64>,
}

/// The value stored at each index pair `(row, column)` of a grid.
pub uninterp spec fn grid_cells(g: Grid) -> Map<(int, int), i64>;

/// The lengths of the two axes of a grid: rows, then columns.
pub uninterp spec fn grid_shape(g: Grid) -> (nat, nat);

/// Calls `ArrayBase::dim`. The pair returned holds the two axis lengths.
/// The product of the non-zero ones fits `isize`: `ndarray` keeps that of
/// every array, and `from_elem`, which makes every grid here, panics
/// rather than make another.
#[verifier::external_body]
pub(crate) fn grid_dim(g: &Grid) -> (d: (usize, usize))
    ensures
        d.0 == grid_shape(*g).0,
        d.1 == grid_shape(*g).1,
        shape_fits(d.0 as int, d.1 as int),
{
    g.cells.dim()
}

/// Calls `Index::index` of `ArrayBase` with a two-element index, which
/// panics out of bounds: within bounds it hands out the element stored there.
#[verifier::external_body]
pub(crate) fn grid_get(g: &Grid, row: usize, col: usize) -> (v: i64)
    requires
        row < grid_shape(*g).0,
        col < grid_shape(*g).1,
    ensures
        v == grid_cells(*g)[(row as int, col as int)],
{
    g.cells[[row, col]]
}

/// Calls `IndexMut::index_mut` of `ArrayBase` with a two-element index and
/// writes through the reference: that one element changes, nothing else does.
#[verifier::external_body]
pub(crate) fn grid_set(g: &mut Grid, row: usize, col: usize, v: i64)
    requires
        row < grid_shape(*old(g)).0,
        col < grid_shape(*old(g)).1,
    ensures
        grid_shape(*final(g)) == grid_shape(*old(g)),
        grid_cells(*final(g)) == grid_cells(*old(g)).insert((row as int, col as int), v),
{
    g.cells[[row, col]] = v;
}

/// Calls `ArrayBase::from_elem`, which panics when the product of the
/// non-zero axis lengths overflows `isize`: otherwise the array has the
/// shape asked for and holds `v` at every index.
#[verifier::external_body]
pub(crate) fn grid_from_elem(rows: usize, cols: usize, v: i64) -> (g: Grid)
    requires
        shape_fits(rows as int, cols as int),
    ensures
        grid_shape(g) == (rows as nat, cols as nat),
        forall|r: int, c: int|
            0 <= r < rows && 0 <= c < cols ==> #[trigger] grid_cells(g)[(r, c)] == v,
{
    Grid { cells: Array2::from_elem((rows, cols), v) }
}

/// Calls `QuantileExt::max`. An array without elements gives an error. Any
/// other array of integers gives one of its elements, and no element is
/// greater.
#[verifier::external_body]
pub(crate) fn grid_max(g: &Grid) -> (m: Result<i64, MinMaxError>)
    ensures
        grid_shape(*g).0 == 0 || grid_shape(*g).1 == 0 ==> m is Err,
        grid_shape(*g).0 > 0 && grid_shape(*g).1 > 0 ==> m is Ok,
        m is Ok ==> forall|r: int, c: int|
            0 <= r < grid_shape(*g).0 && 0 <= c < grid_shape(*g).1
                ==> #[trigger] grid_cells(*g)[(r, c)] <= m->Ok_0,
        m is Ok ==> exists|r: int, c: int|
            0 <= r < grid_shape(*g).0 && 0 <= c < grid_shape(*g).1
                && #[trigger] grid_cells(*g)[(r, c)] == m->Ok_0,
{
    g.cells.max().copied()
}

impl View for Grid {
    type V = Surface;

    open spec fn view(&self) -> Surface {
        Surface {
            rows: grid_shape(*self).0,
            cols: grid_shape(*self).1,
            levels: Map::new(
                |k: (int, int)| 0 <= k.0 < grid_shape(*self).0 && 0 <= k.1 < grid_shape(*self).1,
                |k: (int, int)| grid_cells(*self)[k],
            ),
        }
    }
}

impl Grid {
    /// A grid of the given shape with every cell at `level`, or `None` where
    /// no array can have that shape.
    pub fn from_elem(rows: usize, cols: usize, level: i64) -> (g: Option<Grid>)
        ensures
            g is Some <==> shape_fits(rows as int, cols as int),
            g is Some ==> g->Some_0@ == Surface::constant(rows as nat, cols as nat, level),
    {
        let fits = if rows != 0 && cols != 0 {
            assert(rows * cols <= 0xffff_ffff_ffff_ffff * 0xffff_ffff_ffff_ffff) by (nonlinear_arith)
                requires
                    0 <= rows <= 0xffff_ffff_ffff_ffff,
                    0 <= cols <= 0xffff_ffff_ffff_ffff,
            ;
            (rows as u128) * (cols as u128) <= isize::MAX as u128
        } else {
            rows <= isize::MAX as usize && cols <= isize::MAX as usize
        };
        if fits {
            let g = grid_from_elem(rows, cols, level);
            assert(g@.levels =~= Surface::constant(rows as nat, cols as nat, level).levels);
            Some(g)
        } else {
            None
        }
    }

    /// The number of rows.
    pub fn rows(&self) -> (n: usize)
        ensures
            n == self@.rows,
    {
        grid_dim(self).0
    }

    /// The number of columns.
    pub fn cols(&self) -> (n: usize)
        ensures
            n == self@.cols,
    {
        grid_dim(self).1
    }

    /// The level of one cell.
    pub fn get(&self, row: usize, col: usize) -> (level: i64)
        requires
            self@.contains(row as int, col as int),
        ensures
            level == self@.at(row as int, col as int),
    {
        grid_get(self, row, col)
    }

    /// Moves one cell to `level` and leaves the others as they are.
    pub fn set(&mut self, row: usize, col: usize, level: i64)
        requires
            old(self)@.contains(row as int, col as int),
        ensures
            final(self)@ == old(self)@.with(row as int, col as int, level),
    {
        grid_set(self, row, col, level);
        assert(self@.levels =~= old(self)@.with(row as int, col as int, level).levels);
    }

    /// The ceiling of the flood over this grid: its highest level, or the
    /// fallback where it has no cell.
    pub fn ceiling(&self) -> (m: i64)
        ensures
            is_ceiling(self@, m as int),
    {
        match grid_max(self) {
            Ok(m) => {
                proof {
                    let (r, c) = choose|r: int, c: int|
                        0 <= r < grid_shape(*self).0 && 0 <= c < grid_shape(*self).1
                            && #[trigger] grid_cells(*self)[(r, c)] == m;
                    assert(self@.contains(r, c) && self@.at(r, c) == m);
                }
                m
            },
            Err(_) => FALLBACK_CEILING,
        }
    }
}

/// Every grid's view records levels for its own cells only.
pub proof fn lemma_view_wf(g: Grid)
    ensures
        g@.wf(),
{
}

} // verus!
