//! How far one surface stands above another, summed over all cells: the
//! measure that the flood uses up.

use crate::surface::Surface;
use vstd::prelude::*;

verus! {

/// The sum of `w - z` over the first `n` cells of row `r`.
pub open spec fn row_excess(z: Surface, w: Surface, r: int, n: nat) -> int
    decreases n,
{
    if n == 0 {
        0
    } else {
        row_excess(z, w, r, (n - 1) as nat) + (w.at(r, n - 1) - z.at(r, n - 1))
    }
}

/// The sum of `w - z` over the first `m` rows.
pub open spec fn excess_upto(z: Surface, w: Surface, m: nat) -> int
    decreases m,
{
    if m == 0 {
        0
    } else {
        excess_upto(z, w, (m - 1) as nat) + row_excess(z, w, m - 1, z.cols)
    }
}

/// The sum of `w - z` over all cells of `z`.
pub open spec fn excess(z: Surface, w: Surface) -> int {
    excess_upto(z, w, z.rows)
}

/// Moving one cell moves the sum over a row by as much, where the row
/// holds the cell.
proof fn lemma_row_excess_with(z: Surface, w: Surface, r0: int, c0: int, v: i64, r: int, n: nat)
    ensures
        row_excess(z, w.with(r0, c0, v), r, n) == row_excess(z, w, r, n) - (if r == r0 && 0 <= c0
            < n {
            w.at(r0, c0) - v
        } else {
            0
        }),
    decreases n,
{
    if n > 0 {
        lemma_row_excess_with(z, w, r0, c0, v, r, (n - 1) as nat);
    }
}

/// Moving one cell moves the sum over the first rows by as much, where
/// they hold the cell.
proof fn lemma_excess_upto_with(z: Surface, w: Surface, r0: int, c0: int, v: i64, m: nat)
    ensures
        excess_upto(z, w.with(r0, c0, v), m) == excess_upto(z, w, m) - (if 0 <= r0 < m && 0 <= c0
            < z.cols {
            w.at(r0, c0) - v
        } else {
            0
        }),
    decreases m,
{
    if m > 0 {
        lemma_excess_upto_with(z, w, r0, c0, v, (m - 1) as nat);
        lemma_row_excess_with(z, w, r0, c0, v, m - 1, z.cols);
    }
}

/// Moving one cell of `w` moves the excess by the same amount.
pub proof fn lemma_excess_with(z: Surface, w: Surface, r: int, c: int, v: i64)
    requires
        z.contains(r, c),
    ensures
        excess(z, w.with(r, c, v)) == excess(z, w) - (w.at(r, c) - v),
{
    lemma_excess_upto_with(z, w, r, c, v, z.rows);
}

/// The bounds of the excess, for part of a row.
proof fn lemma_row_excess_bounds(z: Surface, w: Surface, r: int, n: nat)
    requires
        0 <= r < z.rows,
        n <= z.cols,
        forall|r: int, c: int| z.contains(r, c) ==> z.at(r, c) <= #[trigger] w.at(r, c),
    ensures
        0 <= row_excess(z, w, r, n) <= n * 0xffff_ffff_ffff_ffff,
    decreases n,
{
    if n > 0 {
        lemma_row_excess_bounds(z, w, r, (n - 1) as nat);
        assert(z.contains(r, n - 1));
        assert(z.at(r, n - 1) <= w.at(r, n - 1));
    }
}

/// The bounds of the excess, for the first rows.
proof fn lemma_excess_upto_bounds(z: Surface, w: Surface, m: nat)
    requires
        m <= z.rows,
        forall|r: int, c: int| z.contains(r, c) ==> z.at(r, c) <= #[trigger] w.at(r, c),
    ensures
        0 <= excess_upto(z, w, m) <= m * z.cols * 0xffff_ffff_ffff_ffff,
    decreases m,
{
    if m > 0 {
        lemma_excess_upto_bounds(z, w, (m - 1) as nat);
        lemma_row_excess_bounds(z, w, m - 1, z.cols);
        assert((m - 1) * z.cols * 0xffff_ffff_ffff_ffff + z.cols * 0xffff_ffff_ffff_ffff == m
            * z.cols * 0xffff_ffff_ffff_ffff) by (nonlinear_arith);
    }
}

/// Where `w` is nowhere below `z`, the excess is not negative, and each
/// cell adds less than the span of levels to it.
pub proof fn lemma_excess_bounds(z: Surface, w: Surface)
    requires
        forall|r: int, c: int| z.contains(r, c) ==> z.at(r, c) <= #[trigger] w.at(r, c),
    ensures
        0 <= excess(z, w) <= z.rows * z.cols * 0xffff_ffff_ffff_ffff,
{
    lemma_excess_upto_bounds(z, w, z.rows);
}

/// No excess between surfaces that agree, for part of a row.
proof fn lemma_row_excess_same(z: Surface, w: Surface, r: int, n: nat)
    requires
        0 <= r < z.rows,
        n <= z.cols,
        forall|r: int, c: int| z.contains(r, c) ==> z.at(r, c) == #[trigger] w.at(r, c),
    ensures
        row_excess(z, w, r, n) == 0,
    decreases n,
{
    if n > 0 {
        lemma_row_excess_same(z, w, r, (n - 1) as nat);
        assert(z.contains(r, n - 1));
        assert(z.at(r, n - 1) == w.at(r, n - 1));
    }
}

/// No excess between surfaces that agree, for the first rows.
proof fn lemma_excess_upto_same(z: Surface, w: Surface, m: nat)
    requires
        m <= z.rows,
        forall|r: int, c: int| z.contains(r, c) ==> z.at(r, c) == #[trigger] w.at(r, c),
    ensures
        excess_upto(z, w, m) == 0,
    decreases m,
{
    if m > 0 {
        lemma_excess_upto_same(z, w, (m - 1) as nat);
        lemma_row_excess_same(z, w, m - 1, z.cols);
    }
}

/// Two surfaces that agree on every cell have no excess between them.
pub proof fn lemma_excess_same(z: Surface, w: Surface)
    requires
        forall|r: int, c: int| z.contains(r, c) ==> z.at(r, c) == #[trigger] w.at(r, c),
    ensures
        excess(z, w) == 0,
{
    lemma_excess_upto_same(z, w, z.rows);
}

} // verus!
