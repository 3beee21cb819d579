//! Laws of the flood: what follows for every terrain from the step of the
//! state machine and from the definition of a drained surface.

use crate::excess::lemma_excess_same;
use crate::model::{ring_size, seeded, seeded_surface, target, FloodState};
use crate::safety::{
    cleared, drained, fuel, inv, lemma_counters, lemma_done_drained, lemma_seeded, lemma_step,
    lemma_step_counts, lemma_step_frame, lemma_steps, lemma_steps_frame, slack, sound, stable,
    supported,
};
use crate::surface::{adjacent, is_ceiling, shape_fits, Surface};
use vstd::prelude::*;

verus! {

/// Of two drained surfaces of one terrain, neither is below the other
/// at any cell: a cell where one is lower would have a lower neighbour of
/// the same kind, and levels do not fall for ever.
proof fn lemma_not_below(z: Surface, w1: Surface, w2: Surface, eps: int, m: int, r: int, c: int)
    requires
        eps > 0,
        drained(z, w1, eps, m),
        drained(z, w2, eps, m),
        z.contains(r, c),
    ensures
        w1.at(r, c) >= w2.at(r, c),
    decreases w1.at(r, c) - i64::MIN,
{
    if w1.at(r, c) < w2.at(r, c) {
        assert(sound(z, w1, eps, m, r, c));
        assert(sound(z, w2, eps, m, r, c));
        assert(z.interior(r, c));
        let (nr, nc) = choose|nr: int, nc: int|
            adjacent(r, c, nr, nc) && #[trigger] supported(w1, eps, r, c, nr, nc);
        assert(z.contains(nr, nc));
        assert(stable(z, w2, eps, nr, nc));
        assert(adjacent(nr, nc, r, c));
        assert(cleared(z, w2, eps, nr, nc, r, c));
        lemma_not_below(z, w1, w2, eps, m, nr, nc);
    }
}

/// A terrain has one drained surface only: whatever meets the definition
/// is the result of the flood.
pub proof fn lemma_drained_unique(z: Surface, w1: Surface, w2: Surface, eps: int, m: int)
    requires
        eps > 0,
        drained(z, w1, eps, m),
        drained(z, w2, eps, m),
    ensures
        w1 == w2,
{
    assert forall|k: (int, int)| w1.levels.dom().contains(k) implies w1.levels[k] == w2.levels[k] by {
        assert(z.contains(k.0, k.1));
        lemma_not_below(z, w1, w2, eps, m, k.0, k.1);
        lemma_not_below(z, w2, w1, eps, m, k.0, k.1);
    }
    assert forall|k: (int, int)| w1.levels.dom().contains(k) == w2.levels.dom().contains(k) by {}
    assert(w1.levels =~= w2.levels);
}

/// Filling is idempotent: a drained surface, taken as the terrain, has the
/// same ceiling and is its own drained surface, and it has no other.
pub proof fn lemma_idempotent(z: Surface, w: Surface, eps: int, m: int, w2: Surface, m2: int)
    requires
        eps > 0,
        is_ceiling(z, m),
        drained(z, w, eps, m),
        is_ceiling(w, m2),
        drained(w, w2, eps, m2),
    ensures
        m2 == m,
        w2 == w,
        drained(w, w, eps, m),
{
    if !z.is_empty() {
        let (r, c) = choose|r: int, c: int| z.contains(r, c) && #[trigger] z.at(r, c) == m;
        assert(sound(z, w, eps, m, r, c));
        assert(w.contains(r, c) && w.at(r, c) == m);
        assert forall|r: int, c: int| w.contains(r, c) implies #[trigger] w.at(r, c) <= m by {
            assert(sound(z, w, eps, m, r, c));
        }
        assert(w.at(r, c) <= m2);
        let (r2, c2) = choose|r: int, c: int| w.contains(r, c) && #[trigger] w.at(r, c) == m2;
        assert(w.at(r2, c2) <= m);
    }
    assert forall|r: int, c: int| w.contains(r, c) implies #[trigger] sound(w, w, eps, m, r, c) by {
        assert(sound(z, w, eps, m, r, c));
    }
    assert forall|r: int, c: int| w.contains(r, c) implies #[trigger] stable(w, w, eps, r, c) by {
        assert forall|nr: int, nc: int|
            w.contains(nr, nc) && adjacent(r, c, nr, nc) implies #[trigger] cleared(
            w,
            w,
            eps,
            r,
            c,
            nr,
            nc,
        ) by {}
    }
    lemma_drained_unique(w, w, w2, eps, m);
}

/// Whether the first cell is exactly `eps` above the second.
pub open spec fn raised_by(w: Surface, eps: int, r: int, c: int, nr: int, nc: int) -> bool {
    w.at(r, c) == w.at(nr, nc) + eps
}

/// The gradient of a drained surface: a cell that was raised above its
/// true elevation, and stands below the ceiling, is exactly `eps` above
/// its lowest neighbour.
pub proof fn lemma_gradient(z: Surface, w: Surface, eps: int, m: int, r: int, c: int)
    requires
        drained(z, w, eps, m),
        z.interior(r, c),
        z.at(r, c) < w.at(r, c) < m,
    ensures
        exists|nr: int, nc: int| adjacent(r, c, nr, nc) && #[trigger] raised_by(w, eps, r, c, nr, nc),
        forall|nr: int, nc: int|
            adjacent(r, c, nr, nc) ==> w.at(r, c) <= #[trigger] w.at(nr, nc) + eps,
{
    assert(sound(z, w, eps, m, r, c));
    let (yr, yc) = choose|yr: int, yc: int|
        adjacent(r, c, yr, yc) && #[trigger] supported(w, eps, r, c, yr, yc);
    assert forall|nr: int, nc: int| adjacent(r, c, nr, nc) implies w.at(r, c) <= #[trigger] w.at(
        nr,
        nc,
    ) + eps by {
        assert(z.contains(nr, nc));
        assert(stable(z, w, eps, nr, nc));
        assert(adjacent(nr, nc, r, c));
        assert(cleared(z, w, eps, nr, nc, r, c));
    }
    assert(w.at(r, c) <= w.at(yr, yc) + eps);
    assert(raised_by(w, eps, r, c, yr, yc));
}

/// Whether each cell of the path is adjacent to the next and at least
/// `eps` above it.
pub open spec fn descends(w: Surface, eps: int, path: Seq<(int, int)>) -> bool {
    forall|i: int|
        0 <= i < path.len() - 1 ==> {
            &&& adjacent((#[trigger] path[i]).0, path[i].1, path[i + 1].0, path[i + 1].1)
            &&& supported(w, eps, path[i].0, path[i].1, path[i + 1].0, path[i + 1].1)
        }
}

/// A drained surface drains: from every cell below the ceiling a path
/// leads to the outer ring that falls by at least `eps` with each step.
pub proof fn lemma_drains(z: Surface, w: Surface, eps: int, m: int, r: int, c: int) -> (path: Seq<
    (int, int),
>)
    requires
        eps > 0,
        drained(z, w, eps, m),
        z.contains(r, c),
        w.at(r, c) < m,
    ensures
        path.len() > 0,
        path[0] == (r, c),
        z.on_ring(path.last().0, path.last().1),
        descends(w, eps, path),
    decreases w.at(r, c) - i64::MIN,
{
    if z.on_ring(r, c) {
        seq![(r, c)]
    } else {
        assert(sound(z, w, eps, m, r, c));
        assert(z.interior(r, c));
        let (nr, nc) = choose|nr: int, nc: int|
            adjacent(r, c, nr, nc) && #[trigger] supported(w, eps, r, c, nr, nc);
        assert(z.contains(nr, nc));
        let rest = lemma_drains(z, w, eps, m, nr, nc);
        let path = seq![(r, c)] + rest;
        assert forall|i: int| 0 <= i < path.len() - 1 implies ({
            &&& adjacent((#[trigger] path[i]).0, path[i].1, path[i + 1].0, path[i + 1].1)
            &&& supported(w, eps, path[i].0, path[i].1, path[i + 1].0, path[i + 1].1)
        }) by {
            assert(path[i + 1] == rest[i]);
            if i > 0 {
                assert(path[i] == rest[i - 1]);
            }
        }
        assert(path.last() == rest.last());
        path
    }
}

/// Whether `t` is `s` with some levels lowered, none of them a level that
/// had reached the true elevation.
pub open spec fn settles(s: FloodState, t: FloodState) -> bool {
    &&& t.elevation == s.elevation
    &&& forall|r: int, c: int| #[trigger] t.filled.at(r, c) <= s.filled.at(r, c)
    &&& forall|r: int, c: int|
        s.filled.at(r, c) <= s.elevation.at(r, c) ==> #[trigger] t.filled.at(r, c) == s.filled.at(
            r,
            c,
        )
}

/// The first `k` offsets of a visit only lower levels, and none that had
/// reached the true elevation.
proof fn lemma_relax_settles(s: FloodState, r: int, c: int, w: int, k: nat)
    ensures
        settles(s, s.relax(r, c, w, k)),
    decreases k,
{
    if k > 0 {
        let u = s.relax(r, c, w, (k - 1) as nat);
        lemma_relax_settles(s, r, c, w, (k - 1) as nat);
        let t = u.relax_next(r, c, w, k - 1);
        assert(settles(u, t));
    }
}

/// A level never rises, and a cell that has reached its true elevation is
/// never changed again.
pub proof fn lemma_step_settles(s: FloodState)
    ensures
        settles(s, s.step()),
{
    if s.confirmed.len() > 0 {
        let p = s.confirmed[0];
        let t = FloodState { confirmed: s.confirmed.subrange(1, s.confirmed.len() as int), ..s };
        lemma_relax_settles(t, p.0 as int, p.1 as int, t.filled.at(p.0 as int, p.1 as int), 8);
    } else if s.tentative.len() > 0 {
        let p = s.tentative[0];
        let t = FloodState { tentative: s.tentative.subrange(1, s.tentative.len() as int), ..s };
        lemma_relax_settles(t, p.0 as int, p.1 as int, t.filled.at(p.0 as int, p.1 as int), 8);
    }
}

/// What holds of one pass holds of any number of passes.
pub proof fn lemma_steps_settle(s: FloodState, k: nat)
    ensures
        settles(s, s.steps(k)),
    decreases k,
{
    if k > 0 {
        lemma_steps_settle(s, (k - 1) as nat);
        lemma_step_settles(s.steps((k - 1) as nat));
    }
}

/// Where no level stands above the terrain, a visit changes nothing.
proof fn lemma_relax_settled(s: FloodState, r: int, c: int, w: int, k: nat)
    requires
        forall|a: int, b: int|
            s.elevation.contains(a, b) ==> #[trigger] s.filled.at(a, b) <= s.elevation.at(a, b),
    ensures
        s.relax(r, c, w, k) == s,
    decreases k,
{
    if k > 0 {
        lemma_relax_settled(s, r, c, w, (k - 1) as nat);
        match target(s.elevation.rows, s.elevation.cols, r, c, k - 1) {
            Some(n) => {
                assert(s.elevation.contains(n.0, n.1));
                assert(s.filled.at(n.0, n.1) <= s.elevation.at(n.0, n.1));
            },
            None => {},
        }
    }
}

/// Where no level stands above the terrain, a pass changes no level and
/// puts nothing on a queue: it takes one entry off and counts it.
pub proof fn lemma_settled_step(s: FloodState)
    requires
        forall|a: int, b: int|
            s.elevation.contains(a, b) ==> #[trigger] s.filled.at(a, b) <= s.elevation.at(a, b),
        !s.done(),
    ensures
        s.step().filled == s.filled,
        s.step().confirmations == s.confirmations,
        s.step().lowerings == s.lowerings,
        s.step().queue_len() == s.queue_len() - 1,
        s.step().iterations + s.step().discards == s.iterations + s.discards + 1,
{
    if s.confirmed.len() > 0 {
        let p = s.confirmed[0];
        let t = FloodState { confirmed: s.confirmed.subrange(1, s.confirmed.len() as int), ..s };
        lemma_relax_settled(t, p.0 as int, p.1 as int, t.filled.at(p.0 as int, p.1 as int), 8);
    } else {
        let p = s.tentative[0];
        let t = FloodState { tentative: s.tentative.subrange(1, s.tentative.len() as int), ..s };
        lemma_relax_settled(t, p.0 as int, p.1 as int, t.filled.at(p.0 as int, p.1 as int), 8);
    }
}

/// A terrain whose interior is at the ceiling throughout leaves the flood
/// nothing to do: seeding returns the terrain, there is no room for a
/// relaxation, and the terrain is its own drained surface.
pub proof fn lemma_level_interior(z: Surface, w: Surface, eps: int, m: i64)
    requires
        z.wf(),
        forall|r: int, c: int| z.interior(r, c) ==> #[trigger] z.at(r, c) == m,
        drained(z, w, eps, m as int),
    ensures
        seeded_surface(z, m) == z,
        slack(z, m as int) == 0,
        w == z,
{
    let seed = seeded_surface(z, m);
    assert forall|k: (int, int)| z.levels.dom().contains(k) implies seed.levels[k] == z.levels[k] by {
        if !z.on_ring(k.0, k.1) {
            assert(z.interior(k.0, k.1));
            assert(z.at(k.0, k.1) == m);
        }
    }
    assert(seed.levels =~= z.levels);
    assert forall|r: int, c: int| z.contains(r, c) implies z.at(r, c) == #[trigger] seed.at(r, c) by {}
    lemma_excess_same(z, seed);
    assert forall|k: (int, int)| z.levels.dom().contains(k) implies w.levels[k] == z.levels[k] by {
        assert(sound(z, w, eps, m as int, k.0, k.1));
        if !z.on_ring(k.0, k.1) {
            assert(z.interior(k.0, k.1));
            assert(z.at(k.0, k.1) == m);
        }
    }
    assert(w.levels =~= z.levels);
}

/// The flood over a terrain whose interior is at the ceiling throughout
/// never changes a level: in every state it reaches the water surface is
/// the terrain, and no relaxation and no discard has been counted.
pub proof fn lemma_settled_run(z: Surface, eps: int, ceiling: i64, k: nat)
    requires
        eps > 0,
        z.wf(),
        shape_fits(z.rows as int, z.cols as int),
        is_ceiling(z, ceiling as int),
        forall|r: int, c: int| z.interior(r, c) ==> #[trigger] z.at(r, c) == ceiling,
    ensures
        seeded(z, eps, ceiling).steps(k).filled == z,
        seeded(z, eps, ceiling).steps(k).confirmations == 0,
        seeded(z, eps, ceiling).steps(k).lowerings == 0,
        seeded(z, eps, ceiling).steps(k).discards == 0,
{
    let s = seeded(z, eps, ceiling);
    let t = s.steps(k);
    lemma_seeded(z, eps, ceiling);
    lemma_steps(s, k);
    lemma_steps_frame(s, k);
    lemma_counters(t);
    let seed = seeded_surface(z, ceiling);
    assert forall|r: int, c: int| z.contains(r, c) implies z.at(r, c) == #[trigger] seed.at(r, c) by {
        if !z.on_ring(r, c) {
            assert(z.interior(r, c));
        }
    }
    lemma_excess_same(z, seed);
    assert forall|k: (int, int)| z.levels.dom().contains(k) implies t.filled.levels[k]
        == z.levels[k] by {
        assert(sound(z, t.filled, eps, ceiling as int, k.0, k.1));
        if !z.on_ring(k.0, k.1) {
            assert(z.interior(k.0, k.1));
            assert(z.at(k.0, k.1) == ceiling);
        }
    }
    assert(t.filled.levels =~= z.levels);
}

/// A visit leaves a ring cell alone. The cells that no visit may touch,
/// those of the last row and of the last column, are ring cells: the
/// flood loses nothing by passing them over.
pub proof fn lemma_ring_is_skipped(s: FloodState, r: int, c: int, w: int, nr: int, nc: int)
    requires
        inv(s),
        s.elevation.contains(r, c),
        s.elevation.contains(nr, nc),
        adjacent(r, c, nr, nc),
    ensures
        s.elevation.on_ring(nr, nc) ==> s.relax_one(w, nr, nc) == s,
        !(0 <= nr < s.elevation.rows - 1 && 0 <= nc < s.elevation.cols - 1)
            ==> s.elevation.on_ring(nr, nc),
{
    assert(sound(s.elevation, s.filled, s.epsilon, s.ceiling, nr, nc));
}

/// In every state that the flood reaches, no cell is below its true
/// elevation or above the ceiling, and every ring cell is at its true
/// elevation.
pub proof fn lemma_never_below(z: Surface, eps: int, ceiling: i64, k: nat, r: int, c: int)
    requires
        eps > 0,
        z.wf(),
        shape_fits(z.rows as int, z.cols as int),
        is_ceiling(z, ceiling as int),
        z.contains(r, c),
    ensures
        z.at(r, c) <= seeded(z, eps, ceiling).steps(k).filled.at(r, c) <= ceiling,
        z.on_ring(r, c) ==> seeded(z, eps, ceiling).steps(k).filled.at(r, c) == z.at(r, c),
{
    let s = seeded(z, eps, ceiling);
    lemma_seeded(z, eps, ceiling);
    lemma_steps(s, k);
    lemma_steps_frame(s, k);
    let t = s.steps(k);
    assert(sound(t.elevation, t.filled, t.epsilon, t.ceiling, r, c));
}

/// A pass first and `k` passes after it are `k + 1` passes.
proof fn lemma_steps_shift(s: FloodState, k: nat)
    ensures
        s.step().steps(k) == s.steps(k + 1),
    decreases k,
{
    if k > 0 {
        lemma_steps_shift(s, (k - 1) as nat);
    } else {
        assert(s.steps(1) == s.steps(0).step());
    }
}

/// The flood ends: from a state that satisfies the invariant, both queues
/// are empty after no more passes than the state has fuel.
pub proof fn lemma_ends(s: FloodState) -> (k: nat)
    requires
        inv(s),
    ensures
        s.steps(k).done(),
        k <= fuel(s),
    decreases fuel(s),
{
    lemma_counters(s);
    if s.done() {
        0
    } else {
        lemma_step(s);
        lemma_step_counts(s);
        lemma_step_frame(s);
        let k = lemma_ends(s.step());
        lemma_steps_shift(s, k);
        k + 1
    }
}

/// The flood over any terrain ends within as many passes as the terrain
/// has ring cells and slack, in a drained surface.
pub proof fn lemma_flood_ends(z: Surface, eps: int, ceiling: i64) -> (k: nat)
    requires
        eps > 0,
        z.wf(),
        shape_fits(z.rows as int, z.cols as int),
        is_ceiling(z, ceiling as int),
    ensures
        seeded(z, eps, ceiling).steps(k).done(),
        k <= ring_size(z.rows, z.cols) + slack(z, ceiling as int),
        drained(z, seeded(z, eps, ceiling).steps(k).filled, eps, ceiling as int),
{
    let s = seeded(z, eps, ceiling);
    lemma_seeded(z, eps, ceiling);
    let k = lemma_ends(s);
    lemma_steps(s, k);
    lemma_steps_frame(s, k);
    lemma_done_drained(s.steps(k));
    k
}

/// Once both queues are empty, further passes change nothing: the state
/// in which the flood ends does not depend on when one stops counting.
pub proof fn lemma_done_stays(s: FloodState, k1: nat, k2: nat)
    requires
        s.steps(k1).done(),
        k1 <= k2,
    ensures
        s.steps(k2) == s.steps(k1),
    decreases k2,
{
    if k1 < k2 {
        lemma_done_stays(s, k1, (k2 - 1) as nat);
    }
}

} // verus!
