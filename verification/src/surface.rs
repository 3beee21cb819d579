//! The mathematical content of an elevation grid, and what it means for one
//! surface to be the depression-free filling of another.

use vstd::prelude::*;

verus! {

/// The level that stands in for the highest elevation of a grid without cells.
pub const FALLBACK_CEILING: i64 = 3000;

/// A rectangle of levels, one for each pair `(row, column)` inside it.
#[verifier::ext_equal]
pub struct Surface {
    pub rows: nat,
    pub cols: nat,
    pub levels: Map<(int, int), i64>,
}

impl Surface {
    /// Whether `(r, c)` names a cell of the rectangle.
    pub open spec fn contains(self, r: int, c: int) -> bool {
        0 <= r < self.rows && 0 <= c < self.cols
    }

    /// The level of cell `(r, c)`.
    pub open spec fn at(self, r: int, c: int) -> int {
        self.levels[(r, c)] as int
    }

    /// Whether `(r, c)` lies on the outer ring: first or last row or column.
    pub open spec fn on_ring(self, r: int, c: int) -> bool {
        self.contains(r, c) && (r == 0 || c == 0 || r == self.rows - 1 || c == self.cols - 1)
    }

    /// Whether `(r, c)` is a cell off the outer ring.
    pub open spec fn interior(self, r: int, c: int) -> bool {
        0 < r < self.rows - 1 && 0 < c < self.cols - 1
    }

    /// Whether the rectangle has no cell at all.
    pub open spec fn is_empty(self) -> bool {
        self.rows == 0 || self.cols == 0
    }

    /// Levels are recorded for the cells of the rectangle and for nothing else.
    pub open spec fn wf(self) -> bool {
        forall|k: (int, int)| #[trigger] self.levels.dom().contains(k) <==> self.contains(k.0, k.1)
    }

    /// Whether two surfaces cover the same rectangle.
    pub open spec fn same_shape(self, other: Surface) -> bool {
        self.rows == other.rows && self.cols == other.cols
    }

    /// The surface with cell `(r, c)` moved to `level`.
    pub open spec fn with(self, r: int, c: int, level: i64) -> Surface {
        Surface { levels: self.levels.insert((r, c), level), ..self }
    }

    /// The surface of the given shape that is `level` everywhere.
    pub open spec fn constant(rows: nat, cols: nat, level: i64) -> Surface {
        Surface {
            rows,
            cols,
            levels: Map::new(|k: (int, int)| 0 <= k.0 < rows && 0 <= k.1 < cols, |k: (int, int)| level),
        }
    }
}

/// Whether the product of the non-zero axis lengths stays within `isize`:
/// the shapes that a dense array can have.
pub open spec fn shape_fits(rows: int, cols: int) -> bool {
    if rows != 0 && cols != 0 {
        rows * cols <= isize::MAX
    } else {
        rows <= isize::MAX && cols <= isize::MAX
    }
}

/// In a shape that fits, every index of a cell fits `isize` too.
pub proof fn lemma_shape_fits(rows: nat, cols: nat)
    requires
        shape_fits(rows as int, cols as int),
    ensures
        rows <= isize::MAX,
        cols <= isize::MAX,
{
    if rows != 0 && cols != 0 {
        assert(rows <= rows * cols && cols <= rows * cols) by (nonlinear_arith)
            requires
                rows >= 1,
                cols >= 1,
        ;
    }
}

/// Whether two distinct cells touch, by an edge or by a corner.
pub open spec fn adjacent(r: int, c: int, nr: int, nc: int) -> bool {
    -1 <= nr - r <= 1 && -1 <= nc - c <= 1 && !(nr == r && nc == c)
}

/// Whether `m` is the ceiling of the flood over `z`: the highest level of
/// `z`, or the fallback where `z` has no cell.
pub open spec fn is_ceiling(z: Surface, m: int) -> bool {
    if z.is_empty() {
        m == FALLBACK_CEILING
    } else {
        &&& forall|r: int, c: int| z.contains(r, c) ==> #[trigger] z.at(r, c) <= m
        &&& exists|r: int, c: int| z.contains(r, c) && #[trigger] z.at(r, c) == m
    }
}

/// A surface has one ceiling only.
pub proof fn lemma_ceiling_unique(z: Surface, m1: int, m2: int)
    requires
        is_ceiling(z, m1),
        is_ceiling(z, m2),
    ensures
        m1 == m2,
{
}

} // verus!
