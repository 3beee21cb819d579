//! What holds of every state that the flood reaches, and why each pass
//! keeps it.

use crate::excess::{excess, lemma_excess_bounds, lemma_excess_with};
use crate::model::{
    offset, ring_in_row, ring_size, ring_upto, seeded, seeded_surface, target, FloodState,
};
use crate::surface::{adjacent, lemma_shape_fits, shape_fits, Surface};
use vstd::prelude::*;

verus! {

/// A visit to `(r, c)` would leave `(nr, nc)` as it is: the neighbour is
/// at its true elevation, or no more than `eps` above the cell.
pub open spec fn cleared(z: Surface, w: Surface, eps: int, r: int, c: int, nr: int, nc: int) -> bool {
    w.at(nr, nc) <= z.at(nr, nc) || w.at(nr, nc) <= w.at(r, c) + eps
}

/// A visit to `(r, c)` would change nothing.
pub open spec fn stable(z: Surface, w: Surface, eps: int, r: int, c: int) -> bool {
    forall|nr: int, nc: int|
        z.contains(nr, nc) && adjacent(r, c, nr, nc) ==> #[trigger] cleared(z, w, eps, r, c, nr, nc)
}

/// Cell `(r, c)` stands at least `eps` above `(nr, nc)`.
pub open spec fn supported(w: Surface, eps: int, r: int, c: int, nr: int, nc: int) -> bool {
    w.at(r, c) >= w.at(nr, nc) + eps
}

/// Cell `(r, c)` is no lower than the flood can account for: it is at the
/// ceiling, or at least `eps` above one of its neighbours.
pub open spec fn justified(w: Surface, eps: int, ceiling: int, r: int, c: int) -> bool {
    w.at(r, c) == ceiling || exists|nr: int, nc: int|
        adjacent(r, c, nr, nc) && #[trigger] supported(w, eps, r, c, nr, nc)
}

/// Whether cell `(r, c)` has an entry in the queue.
pub open spec fn queued(q: Seq<(usize, usize)>, r: int, c: int) -> bool {
    exists|i: int| 0 <= i < q.len() && #[trigger] q[i] == (r as usize, c as usize)
}

/// Whether a queue entry names a cell of the surface.
pub open spec fn holds(z: Surface, p: (usize, usize)) -> bool {
    z.contains(p.0 as int, p.1 as int)
}

/// The level of `(r, c)` lies between the terrain and the ceiling, a ring
/// cell is at its true elevation, and an interior cell is justified.
pub open spec fn sound(z: Surface, w: Surface, eps: int, ceiling: int, r: int, c: int) -> bool {
    &&& z.at(r, c) <= w.at(r, c) <= ceiling
    &&& z.on_ring(r, c) ==> w.at(r, c) == z.at(r, c)
    &&& z.interior(r, c) ==> justified(w, eps, ceiling, r, c)
}

/// Whatever a visit to `(r, c)` would still change is provided for: the
/// cell waits in a queue, and not as an entry that would be dropped.
pub open spec fn served(s: FloodState, r: int, c: int) -> bool {
    ||| stable(s.elevation, s.filled, s.epsilon, r, c)
    ||| queued(s.confirmed, r, c)
    ||| (queued(s.tentative, r, c) && s.filled.at(r, c) != s.elevation.at(r, c))
}

/// The room for relaxations over `z`: how far the seeded surface stands
/// above the terrain, summed over all cells.
pub open spec fn slack(z: Surface, ceiling: int) -> int {
    excess(z, seeded_surface(z, ceiling as i64))
}

/// The part of the invariant that speaks of no single cell.
pub open spec fn framed(s: FloodState) -> bool {
    &&& s.epsilon > 0
    &&& i64::MIN <= s.ceiling <= i64::MAX
    &&& s.elevation.wf()
    &&& s.filled.wf()
    &&& s.filled.same_shape(s.elevation)
    &&& shape_fits(s.elevation.rows as int, s.elevation.cols as int)
    &&& forall|i: int| 0 <= i < s.confirmed.len() ==> holds(s.elevation, #[trigger] s.confirmed[i])
    &&& forall|i: int| 0 <= i < s.tentative.len() ==> holds(s.elevation, #[trigger] s.tentative[i])
    &&& forall|r: int, c: int|
        s.elevation.contains(r, c) ==> #[trigger] sound(
            s.elevation,
            s.filled,
            s.epsilon,
            s.ceiling,
            r,
            c,
        )
    &&& s.relaxations() + excess(s.elevation, s.filled) <= slack(s.elevation, s.ceiling)
    &&& s.discards + s.tentative.len() <= s.lowerings
}

/// The invariant of the flood between passes.
pub open spec fn inv(s: FloodState) -> bool {
    &&& framed(s)
    &&& forall|r: int, c: int| s.elevation.contains(r, c) ==> #[trigger] served(s, r, c)
    &&& s.iterations + s.discards + s.queue_len() == ring_size(s.elevation.rows, s.elevation.cols)
        + s.relaxations()
}

/// The surface `w` is what the flood over `z` ends in: every level is
/// sound, and a visit to any cell would change nothing.
pub open spec fn drained(z: Surface, w: Surface, eps: int, ceiling: int) -> bool {
    &&& w.wf()
    &&& w.same_shape(z)
    &&& forall|r: int, c: int| z.contains(r, c) ==> #[trigger] sound(z, w, eps, ceiling, r, c)
    &&& forall|r: int, c: int| z.contains(r, c) ==> #[trigger] stable(z, w, eps, r, c)
}

/// Offset `j` of a visit to `(r, c)` has nothing left to do.
pub open spec fn target_cleared(s: FloodState, r: int, c: int, j: int) -> bool {
    match target(s.elevation.rows, s.elevation.cols, r, c, j) {
        Some(n) => cleared(s.elevation, s.filled, s.epsilon, r, c, n.0, n.1),
        None => true,
    }
}

/// The invariant in the middle of a visit to `(r, c)`, which was taken
/// off its queue at level `w` and has gone through its first `k` offsets.
pub open spec fn visiting(s: FloodState, r: int, c: int, w: int, k: int) -> bool {
    &&& framed(s)
    &&& s.elevation.contains(r, c)
    &&& s.filled.at(r, c) == w
    &&& forall|r2: int, c2: int|
        s.elevation.contains(r2, c2) && !(r2 == r && c2 == c) ==> #[trigger] served(s, r2, c2)
    &&& forall|j: int| 0 <= j < k ==> #[trigger] target_cleared(s, r, c, j)
    &&& s.iterations + s.discards + s.queue_len() + 1 == ring_size(
        s.elevation.rows,
        s.elevation.cols,
    ) + s.relaxations()
}

/// The place of an offset in the order of a visit.
pub open spec fn offset_index(dr: int, dc: int) -> int {
    if dr == -1 {
        dc + 1
    } else if dr == 0 {
        if dc == 1 {
            3
        } else {
            7
        }
    } else {
        5 - dc
    }
}

/// The eight offsets reach every adjacent cell.
pub proof fn lemma_offsets_cover(r: int, c: int, nr: int, nc: int)
    requires
        adjacent(r, c, nr, nc),
    ensures
        0 <= offset_index(nr - r, nc - c) < 8,
        offset(offset_index(nr - r, nc - c)) == (nr - r, nc - c),
{
}

/// Every offset leads to an adjacent cell.
pub proof fn lemma_offsets_adjacent(r: int, c: int, i: int)
    requires
        0 <= i < 8,
    ensures
        adjacent(r, c, r + offset(i).0, c + offset(i).1),
{
}

/// Lowering the neighbour that offset `k` of a visit reaches, and putting
/// it on a queue, keeps the invariant of the visit.
proof fn lemma_lower_cell(
    s: FloodState,
    t: FloodState,
    r: int,
    c: int,
    w: int,
    k: int,
    nr: int,
    nc: int,
    v: i64,
    p: (usize, usize),
)
    requires
        visiting(s, r, c, w, k),
        p == (nr as usize, nc as usize),
        0 <= k < 8,
        target(s.elevation.rows, s.elevation.cols, r, c, k) == Some((nr, nc)),
        s.elevation.at(nr, nc) <= v < s.filled.at(nr, nc),
        v >= w + s.epsilon,
        v == s.elevation.at(nr, nc) || v == w + s.epsilon,
        t.elevation == s.elevation,
        t.filled == s.filled.with(nr, nc, v),
        t.epsilon == s.epsilon,
        t.ceiling == s.ceiling,
        t.iterations == s.iterations,
        t.discards == s.discards,
        ({
            &&& t.confirmed == s.confirmed.push(p)
            &&& t.tentative == s.tentative
            &&& t.confirmations == s.confirmations + 1
            &&& t.lowerings == s.lowerings
        }) || ({
            &&& t.confirmed == s.confirmed
            &&& t.tentative == s.tentative.push(p)
            &&& t.confirmations == s.confirmations
            &&& t.lowerings == s.lowerings + 1
            &&& v != s.elevation.at(nr, nc)
        }),
    ensures
        visiting(t, r, c, w, k + 1),
{
    let z = s.elevation;
    let eps = s.epsilon;
    lemma_offsets_adjacent(r, c, k);
    assert(z.contains(nr, nc));
    assert(adjacent(r, c, nr, nc));
    assert(adjacent(nr, nc, r, c));
    assert(sound(z, s.filled, eps, s.ceiling, nr, nc));
    assert(!z.on_ring(nr, nc));
    lemma_excess_with(z, s.filled, nr, nc, v);
    assert forall|a: int, b: int| z.contains(a, b) implies t.filled.at(a, b) <= s.filled.at(a, b)
        && (!(a == nr && b == nc) ==> t.filled.at(a, b) == s.filled.at(a, b)) by {}
    assert forall|i: int| 0 <= i < t.confirmed.len() implies holds(z, #[trigger] t.confirmed[i]) by {
        if i < s.confirmed.len() {
            assert(holds(z, s.confirmed[i]));
        }
    }
    assert forall|i: int| 0 <= i < t.tentative.len() implies holds(z, #[trigger] t.tentative[i]) by {
        if i < s.tentative.len() {
            assert(holds(z, s.tentative[i]));
        }
    }
    assert forall|r2: int, c2: int| z.contains(r2, c2) implies #[trigger] sound(
        z,
        t.filled,
        eps,
        t.ceiling,
        r2,
        c2,
    ) by {
        assert(sound(z, s.filled, eps, s.ceiling, r2, c2));
        if r2 == nr && c2 == nc {
            assert(supported(t.filled, eps, nr, nc, r, c));
        } else if z.interior(r2, c2) && s.filled.at(r2, c2) != s.ceiling {
            let (yr, yc) = choose|yr: int, yc: int|
                adjacent(r2, c2, yr, yc) && #[trigger] supported(s.filled, eps, r2, c2, yr, yc);
            assert(z.contains(yr, yc));
            assert(supported(t.filled, eps, r2, c2, yr, yc));
        }
    }
    assert forall|r2: int, c2: int|
        z.contains(r2, c2) && !(r2 == r && c2 == c) implies #[trigger] served(t, r2, c2) by {
        if r2 == nr && c2 == nc {
            if t.confirmed == s.confirmed.push(p) {
                assert(t.confirmed[s.confirmed.len() as int] == (nr as usize, nc as usize));
                assert(queued(t.confirmed, nr, nc));
            } else {
                assert(t.tentative[s.tentative.len() as int] == (nr as usize, nc as usize));
                assert(queued(t.tentative, nr, nc));
            }
        } else {
            assert(served(s, r2, c2));
            lemma_served_kept(s, t, r2, c2);
        }
    }
    assert forall|j: int| 0 <= j < k + 1 implies #[trigger] target_cleared(t, r, c, j) by {
        if j < k {
            assert(target_cleared(s, r, c, j));
        }
    }
}

/// A cell that keeps its level stays served while other levels only fall
/// and the queues only grow.
proof fn lemma_served_kept(s: FloodState, t: FloodState, r: int, c: int)
    requires
        served(s, r, c),
        t.elevation == s.elevation,
        t.epsilon == s.epsilon,
        s.filled.same_shape(s.elevation),
        t.filled.at(r, c) == s.filled.at(r, c),
        forall|a: int, b: int|
            s.elevation.contains(a, b) ==> #[trigger] t.filled.at(a, b) <= s.filled.at(a, b),
        forall|a: int, b: int|
            s.elevation.contains(a, b) && t.filled.at(a, b) != s.filled.at(a, b)
                ==> s.elevation.at(a, b) < #[trigger] s.filled.at(a, b),
        s.confirmed.len() <= t.confirmed.len(),
        forall|i: int| 0 <= i < s.confirmed.len() ==> t.confirmed[i] == #[trigger] s.confirmed[i],
        s.tentative.len() <= t.tentative.len(),
        forall|i: int| 0 <= i < s.tentative.len() ==> t.tentative[i] == #[trigger] s.tentative[i],
    ensures
        served(t, r, c),
{
    let z = s.elevation;
    if stable(z, s.filled, s.epsilon, r, c) {
        assert forall|mr: int, mc: int| z.contains(mr, mc) && adjacent(r, c, mr, mc) implies #[trigger] cleared(
            z,
            t.filled,
            t.epsilon,
            r,
            c,
            mr,
            mc,
        ) by {
            assert(cleared(z, s.filled, s.epsilon, r, c, mr, mc));
        }
    } else if queued(s.confirmed, r, c) {
        let i = choose|i: int| 0 <= i < s.confirmed.len() && #[trigger] s.confirmed[i] == (r as usize, c as usize);
        assert(t.confirmed[i] == (r as usize, c as usize));
    } else {
        let i = choose|i: int| 0 <= i < s.tentative.len() && #[trigger] s.tentative[i] == (r as usize, c as usize);
        assert(t.tentative[i] == (r as usize, c as usize));
    }
}

/// One offset of a visit keeps the invariant of the visit.
pub proof fn lemma_relax_next(s: FloodState, r: int, c: int, w: int, k: int)
    requires
        visiting(s, r, c, w, k),
        0 <= k < 8,
    ensures
        visiting(s.relax_next(r, c, w, k), r, c, w, k + 1),
{
    let z = s.elevation;
    match target(z.rows, z.cols, r, c, k) {
        Some(n) => {
            let ground = z.levels[(n.0, n.1)];
            let water = s.filled.levels[(n.0, n.1)];
            let p = (n.0 as usize, n.1 as usize);
            assert(z.contains(n.0, n.1));
            assert(sound(z, s.filled, s.epsilon, s.ceiling, n.0, n.1));
            if ground >= water {
                assert(target_cleared(s, r, c, k));
                lemma_visiting_next(s, r, c, w, k);
            } else if ground >= w + s.epsilon {
                lemma_lower_cell(s, s.relax_one(w, n.0, n.1), r, c, w, k, n.0, n.1, ground, p);
            } else if water > w + s.epsilon {
                lemma_lower_cell(
                    s,
                    s.relax_one(w, n.0, n.1),
                    r,
                    c,
                    w,
                    k,
                    n.0,
                    n.1,
                    (w + s.epsilon) as i64,
                    p,
                );
            } else {
                assert(target_cleared(s, r, c, k));
                lemma_visiting_next(s, r, c, w, k);
            }
        },
        None => {
            assert(target_cleared(s, r, c, k));
            lemma_visiting_next(s, r, c, w, k);
        },
    }
}

/// An offset that has nothing to do is done.
proof fn lemma_visiting_next(s: FloodState, r: int, c: int, w: int, k: int)
    requires
        visiting(s, r, c, w, k),
        target_cleared(s, r, c, k),
    ensures
        visiting(s, r, c, w, k + 1),
{
    assert forall|j: int| 0 <= j < k + 1 implies #[trigger] target_cleared(s, r, c, j) by {}
}

/// The first `k` offsets of a visit keep the invariant of a visit.
pub proof fn lemma_relax(s: FloodState, r: int, c: int, w: int, k: nat)
    requires
        visiting(s, r, c, w, 0),
        k <= 8,
    ensures
        visiting(s.relax(r, c, w, k), r, c, w, k as int),
    decreases k,
{
    if k > 0 {
        lemma_relax(s, r, c, w, (k - 1) as nat);
        lemma_relax_next(s.relax(r, c, w, (k - 1) as nat), r, c, w, k - 1);
    }
}

/// A finished visit restores the invariant between passes.
pub proof fn lemma_visit(s: FloodState, r: int, c: int)
    requires
        visiting(s, r, c, s.filled.at(r, c), 0),
    ensures
        inv(s.visit(r, c)),
{
    let w = s.filled.at(r, c);
    let u = s.relax(r, c, w, 8);
    let t = s.visit(r, c);
    let z = u.elevation;
    lemma_relax(s, r, c, w, 8);
    assert forall|mr: int, mc: int| z.contains(mr, mc) && adjacent(r, c, mr, mc) implies #[trigger] cleared(
        z,
        u.filled,
        u.epsilon,
        r,
        c,
        mr,
        mc,
    ) by {
        if mr < z.rows - 1 && mc < z.cols - 1 {
            lemma_offsets_cover(r, c, mr, mc);
            let j = offset_index(mr - r, mc - c);
            assert(target(z.rows, z.cols, r, c, j) == Some((mr, mc)));
            assert(target_cleared(u, r, c, j));
        } else {
            assert(z.on_ring(mr, mc));
            assert(sound(z, u.filled, u.epsilon, u.ceiling, mr, mc));
        }
    }
    assert(stable(z, t.filled, t.epsilon, r, c));
    assert forall|r2: int, c2: int| t.elevation.contains(r2, c2) implies #[trigger] served(
        t,
        r2,
        c2,
    ) by {
        if !(r2 == r && c2 == c) {
            assert(served(u, r2, c2));
        }
    }
}

/// Taking the oldest entry off a queue keeps every other cell's entries.
proof fn lemma_tail_queued(q: Seq<(usize, usize)>, r: int, c: int)
    requires
        queued(q, r, c),
        q.len() > 0,
        q[0] != (r as usize, c as usize),
    ensures
        queued(q.subrange(1, q.len() as int), r, c),
{
    let i = choose|i: int| 0 <= i < q.len() && #[trigger] q[i] == (r as usize, c as usize);
    assert(q.subrange(1, q.len() as int)[i - 1] == q[i]);
}

/// The state with the oldest confirmed entry taken off.
pub open spec fn take_confirmed(s: FloodState) -> FloodState {
    FloodState { confirmed: s.confirmed.subrange(1, s.confirmed.len() as int), ..s }
}

/// The state with the oldest tentative entry taken off.
pub open spec fn take_tentative(s: FloodState) -> FloodState {
    FloodState { tentative: s.tentative.subrange(1, s.tentative.len() as int), ..s }
}

/// The oldest confirmed entry names a cell, and with the entry taken off
/// the state is ready for the visit to that cell.
pub proof fn lemma_take_confirmed(s: FloodState)
    requires
        inv(s),
        s.confirmed.len() > 0,
    ensures
        holds(s.elevation, s.confirmed[0]),
        visiting(
            take_confirmed(s),
            s.confirmed[0].0 as int,
            s.confirmed[0].1 as int,
            s.filled.at(s.confirmed[0].0 as int, s.confirmed[0].1 as int),
            0,
        ),
{
    let z = s.elevation;
    lemma_shape_fits(z.rows, z.cols);
    let p = s.confirmed[0];
    let t = take_confirmed(s);
    assert(holds(z, p));
    assert forall|i: int| 0 <= i < t.confirmed.len() implies holds(z, #[trigger] t.confirmed[i]) by {
        assert(holds(z, s.confirmed[i + 1]));
    }
    assert forall|r2: int, c2: int|
        z.contains(r2, c2) && !(r2 == p.0 && c2 == p.1) implies #[trigger] served(t, r2, c2) by {
        assert(served(s, r2, c2));
        if queued(s.confirmed, r2, c2) {
            lemma_tail_queued(s.confirmed, r2, c2);
        }
    }
}

/// The oldest tentative entry names a cell. With the entry taken off, the
/// state is ready for the visit to that cell, or, where the cell has
/// reached its true elevation, the invariant holds without a visit.
pub proof fn lemma_take_tentative(s: FloodState)
    requires
        inv(s),
        s.tentative.len() > 0,
    ensures
        holds(s.elevation, s.tentative[0]),
        ({
            let p = s.tentative[0];
            let t = take_tentative(s);
            if t.filled.at(p.0 as int, p.1 as int) == t.elevation.at(p.0 as int, p.1 as int) {
                inv(FloodState { discards: t.discards + 1, ..t })
            } else {
                visiting(t, p.0 as int, p.1 as int, t.filled.at(p.0 as int, p.1 as int), 0)
            }
        }),
{
    let z = s.elevation;
    lemma_shape_fits(z.rows, z.cols);
    let p = s.tentative[0];
    let t = take_tentative(s);
    assert(holds(z, p));
    assert forall|i: int| 0 <= i < t.tentative.len() implies holds(z, #[trigger] t.tentative[i]) by {
        assert(holds(z, s.tentative[i + 1]));
    }
    assert forall|r2: int, c2: int|
        z.contains(r2, c2) && !(r2 == p.0 && c2 == p.1) implies #[trigger] served(t, r2, c2) by {
        assert(served(s, r2, c2));
        if queued(s.tentative, r2, c2) {
            lemma_tail_queued(s.tentative, r2, c2);
        }
    }
    if t.filled.at(p.0 as int, p.1 as int) == t.elevation.at(p.0 as int, p.1 as int) {
        let d = FloodState { discards: t.discards + 1, ..t };
        assert forall|r2: int, c2: int| z.contains(r2, c2) implies #[trigger] served(d, r2, c2) by {
            if r2 == p.0 && c2 == p.1 {
                assert(served(s, r2, c2));
            } else {
                assert(served(t, r2, c2));
            }
        }
    }
}

/// Each pass keeps the invariant.
pub proof fn lemma_step(s: FloodState)
    requires
        inv(s),
    ensures
        inv(s.step()),
{
    if s.confirmed.len() > 0 {
        let p = s.confirmed[0];
        lemma_take_confirmed(s);
        lemma_visit(take_confirmed(s), p.0 as int, p.1 as int);
    } else if s.tentative.len() > 0 {
        let p = s.tentative[0];
        let t = take_tentative(s);
        lemma_take_tentative(s);
        if t.filled.at(p.0 as int, p.1 as int) != t.elevation.at(p.0 as int, p.1 as int) {
            lemma_visit(t, p.0 as int, p.1 as int);
        }
    }
}

/// Any number of passes keeps the invariant.
pub proof fn lemma_steps(s: FloodState, k: nat)
    requires
        inv(s),
    ensures
        inv(s.steps(k)),
    decreases k,
{
    if k > 0 {
        lemma_steps(s, (k - 1) as nat);
        lemma_step(s.steps((k - 1) as nat));
    }
}

/// With both queues empty the flood has ended in a drained surface.
pub proof fn lemma_done_drained(s: FloodState)
    requires
        inv(s),
        s.done(),
    ensures
        drained(s.elevation, s.filled, s.epsilon, s.ceiling),
{
    assert forall|r: int, c: int| s.elevation.contains(r, c) implies #[trigger] stable(
        s.elevation,
        s.filled,
        s.epsilon,
        r,
        c,
    ) by {
        assert(served(s, r, c));
    }
}

/// The number of ring cells of row `r` among its first `n` columns.
pub open spec fn ring_count_in_row(rows: nat, cols: nat, r: int, n: nat) -> nat {
    if n == 0 {
        0
    } else if r == 0 || r == rows - 1 {
        n
    } else if n == cols && cols >= 2 {
        2
    } else {
        1
    }
}

/// The number of ring cells in the first `m` rows.
pub open spec fn ring_count_upto(rows: nat, cols: nat, m: nat) -> nat {
    if m == 0 || cols == 0 {
        0
    } else if cols == 1 {
        m
    } else if m == rows && rows >= 2 {
        (2 * cols + 2 * (rows - 2)) as nat
    } else {
        (cols + 2 * (m - 1)) as nat
    }
}

/// The ring cells of part of a row: how many, which, and that none is
/// missing.
proof fn lemma_ring_in_row(z: Surface, r: int, n: nat)
    requires
        0 <= r < z.rows,
        n <= z.cols,
        z.rows <= usize::MAX,
        z.cols <= usize::MAX,
    ensures
        ring_in_row(z.rows, z.cols, r, n).len() == ring_count_in_row(z.rows, z.cols, r, n),
        forall|i: int|
            0 <= i < ring_in_row(z.rows, z.cols, r, n).len() ==> {
                let e = #[trigger] ring_in_row(z.rows, z.cols, r, n)[i];
                e.0 == r && e.1 < n && z.on_ring(e.0 as int, e.1 as int)
            },
        forall|c: int|
            0 <= c < n && #[trigger] z.on_ring(r, c) ==> queued(
                ring_in_row(z.rows, z.cols, r, n),
                r,
                c,
            ),
    decreases n,
{
    if n > 0 {
        let before = ring_in_row(z.rows, z.cols, r, (n - 1) as nat);
        let now = ring_in_row(z.rows, z.cols, r, n);
        lemma_ring_in_row(z, r, (n - 1) as nat);
        assert forall|c: int| 0 <= c < n && #[trigger] z.on_ring(r, c) implies queued(now, r, c) by {
            if c < n - 1 {
                let i = choose|i: int|
                    0 <= i < before.len() && #[trigger] before[i] == (r as usize, c as usize);
                assert(now[i] == before[i]);
            } else {
                assert(now[before.len() as int] == (r as usize, c as usize));
            }
        }
    }
}

/// The ring cells of the first rows: how many, which, and that none is
/// missing.
proof fn lemma_ring_upto(z: Surface, m: nat)
    requires
        m <= z.rows,
        z.rows <= usize::MAX,
        z.cols <= usize::MAX,
    ensures
        ring_upto(z.rows, z.cols, m).len() == ring_count_upto(z.rows, z.cols, m),
        forall|i: int|
            0 <= i < ring_upto(z.rows, z.cols, m).len() ==> {
                let e = #[trigger] ring_upto(z.rows, z.cols, m)[i];
                e.0 < m && z.on_ring(e.0 as int, e.1 as int)
            },
        forall|r: int, c: int|
            0 <= r < m && #[trigger] z.on_ring(r, c) ==> queued(ring_upto(z.rows, z.cols, m), r, c),
    decreases m,
{
    if m > 0 {
        let before = ring_upto(z.rows, z.cols, (m - 1) as nat);
        let row = ring_in_row(z.rows, z.cols, m - 1, z.cols);
        let now = ring_upto(z.rows, z.cols, m);
        lemma_ring_upto(z, (m - 1) as nat);
        lemma_ring_in_row(z, m - 1, z.cols);
        assert(now == before + row);
        assert forall|i: int| 0 <= i < now.len() implies ({
            let e = #[trigger] now[i];
            e.0 < m && z.on_ring(e.0 as int, e.1 as int)
        }) by {
            if i < before.len() {
                assert(now[i] == before[i]);
            } else {
                assert(now[i] == row[i - before.len()]);
            }
        }
        assert forall|r: int, c: int| 0 <= r < m && #[trigger] z.on_ring(r, c) implies queued(
            now,
            r,
            c,
        ) by {
            if r < m - 1 {
                let i = choose|i: int|
                    0 <= i < before.len() && #[trigger] before[i] == (r as usize, c as usize);
                assert(now[i] == before[i]);
            } else {
                let i = choose|i: int|
                    0 <= i < row.len() && #[trigger] row[i] == (r as usize, c as usize);
                assert(now[before.len() + i] == row[i]);
            }
        }
    }
}

/// The seeded queue holds the ring cells, each of them, and nothing else.
pub proof fn lemma_ring(z: Surface)
    requires
        shape_fits(z.rows as int, z.cols as int),
    ensures
        ring_upto(z.rows, z.cols, z.rows).len() == ring_size(z.rows, z.cols),
        forall|i: int|
            0 <= i < ring_upto(z.rows, z.cols, z.rows).len() ==> {
                let e = #[trigger] ring_upto(z.rows, z.cols, z.rows)[i];
                z.on_ring(e.0 as int, e.1 as int)
            },
        forall|r: int, c: int| #[trigger]
            z.on_ring(r, c) ==> queued(ring_upto(z.rows, z.cols, z.rows), r, c),
{
    lemma_shape_fits(z.rows, z.cols);
    lemma_ring_upto(z, z.rows);
}

/// The seeded state satisfies the invariant.
pub proof fn lemma_seeded(z: Surface, eps: int, ceiling: i64)
    requires
        eps > 0,
        z.wf(),
        shape_fits(z.rows as int, z.cols as int),
        forall|r: int, c: int| z.contains(r, c) ==> #[trigger] z.at(r, c) <= ceiling,
    ensures
        inv(seeded(z, eps, ceiling)),
{
    let s = seeded(z, eps, ceiling);
    let w = s.filled;
    lemma_ring(z);
    assert forall|i: int| 0 <= i < s.confirmed.len() implies holds(z, #[trigger] s.confirmed[i]) by {
        let e = s.confirmed[i];
        assert(z.on_ring(e.0 as int, e.1 as int));
    }
    assert forall|r: int, c: int| z.contains(r, c) implies #[trigger] sound(
        z,
        w,
        eps,
        ceiling as int,
        r,
        c,
    ) by {
        assert(z.at(r, c) <= ceiling);
    }
    assert forall|r: int, c: int| z.contains(r, c) implies #[trigger] served(s, r, c) by {
        if z.on_ring(r, c) {
            assert(queued(s.confirmed, r, c));
        } else {
            assert forall|nr: int, nc: int|
                z.contains(nr, nc) && adjacent(r, c, nr, nc) implies #[trigger] cleared(
                z,
                w,
                eps,
                r,
                c,
                nr,
                nc,
            ) by {
                assert(sound(z, w, eps, ceiling as int, nr, nc));
            }
        }
    }
}

/// The passes that the flood has left at most: each pass uses up one.
pub open spec fn fuel(s: FloodState) -> int {
    ring_size(s.elevation.rows, s.elevation.cols) + slack(s.elevation, s.ceiling) - s.iterations
        - s.discards
}

/// The counters stay far below the range of 128 bits, and the passes made
/// stay within the ring plus the slack.
pub proof fn lemma_counters(s: FloodState)
    requires
        framed(s),
    ensures
        0 <= excess(s.elevation, s.filled),
        s.relaxations() <= slack(s.elevation, s.ceiling),
        slack(s.elevation, s.ceiling) <= 0x7fff_ffff_ffff_ffff * 0xffff_ffff_ffff_ffff,
        ring_size(s.elevation.rows, s.elevation.cols) <= 4 * 0x7fff_ffff_ffff_ffff,
{
    let z = s.elevation;
    let seed = seeded_surface(z, s.ceiling as i64);
    lemma_shape_fits(z.rows, z.cols);
    assert forall|r: int, c: int| z.contains(r, c) implies z.at(r, c) <= #[trigger] s.filled.at(
        r,
        c,
    ) by {
        assert(sound(z, s.filled, s.epsilon, s.ceiling, r, c));
    }
    assert forall|r: int, c: int| z.contains(r, c) implies z.at(r, c) <= #[trigger] seed.at(r, c) by {
        assert(sound(z, s.filled, s.epsilon, s.ceiling, r, c));
    }
    lemma_excess_bounds(z, s.filled);
    lemma_excess_bounds(z, seed);
    if z.rows != 0 && z.cols != 0 {
        assert(z.rows * z.cols * 0xffff_ffff_ffff_ffff <= 0x7fff_ffff_ffff_ffff
            * 0xffff_ffff_ffff_ffff) by (nonlinear_arith)
            requires
                0 <= z.rows * z.cols <= 0x7fff_ffff_ffff_ffff,
        ;
    } else {
        assert(z.rows * z.cols * 0xffff_ffff_ffff_ffff == 0) by (nonlinear_arith)
            requires
                z.rows == 0 || z.cols == 0,
        ;
    }
}

/// A pass over a state that is not done counts as one iteration or as
/// one discard.
pub proof fn lemma_step_counts(s: FloodState)
    requires
        !s.done(),
    ensures
        s.step().iterations + s.step().discards == s.iterations + s.discards + 1,
{
    if s.confirmed.len() > 0 {
        let p = s.confirmed[0];
        let t = take_confirmed(s);
        lemma_relax_frame(t, p.0 as int, p.1 as int, t.filled.at(p.0 as int, p.1 as int), 8);
    } else {
        let p = s.tentative[0];
        let t = take_tentative(s);
        lemma_relax_frame(t, p.0 as int, p.1 as int, t.filled.at(p.0 as int, p.1 as int), 8);
    }
}

/// The offsets of a visit change neither the terrain nor the constants
/// of the flood, and count neither iterations nor discards.
proof fn lemma_relax_frame(s: FloodState, r: int, c: int, w: int, k: nat)
    ensures
        s.relax(r, c, w, k).iterations == s.iterations,
        s.relax(r, c, w, k).discards == s.discards,
        s.relax(r, c, w, k).elevation == s.elevation,
        s.relax(r, c, w, k).epsilon == s.epsilon,
        s.relax(r, c, w, k).ceiling == s.ceiling,
    decreases k,
{
    if k > 0 {
        lemma_relax_frame(s, r, c, w, (k - 1) as nat);
    }
}

/// A pass changes neither the terrain nor `epsilon` nor the ceiling.
pub proof fn lemma_step_frame(s: FloodState)
    ensures
        s.step().elevation == s.elevation,
        s.step().epsilon == s.epsilon,
        s.step().ceiling == s.ceiling,
{
    if s.confirmed.len() > 0 {
        let p = s.confirmed[0];
        let t = take_confirmed(s);
        lemma_relax_frame(t, p.0 as int, p.1 as int, t.filled.at(p.0 as int, p.1 as int), 8);
    } else if s.tentative.len() > 0 {
        let p = s.tentative[0];
        let t = take_tentative(s);
        lemma_relax_frame(t, p.0 as int, p.1 as int, t.filled.at(p.0 as int, p.1 as int), 8);
    }
}

/// No number of passes changes the terrain, `epsilon` or the ceiling.
pub proof fn lemma_steps_frame(s: FloodState, k: nat)
    ensures
        s.steps(k).elevation == s.elevation,
        s.steps(k).epsilon == s.epsilon,
        s.steps(k).ceiling == s.ceiling,
    decreases k,
{
    if k > 0 {
        lemma_steps_frame(s, (k - 1) as nat);
        lemma_step_frame(s.steps((k - 1) as nat));
    }
}

} // verus!
