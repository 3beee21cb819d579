//! The flood engine: the two queues and the water surface in one value
//! that a run owns.

use crate::excess::excess;
use crate::grid::{grid_dim, grid_from_elem, lemma_view_wf, Grid};
use crate::model::{ring_in_row, ring_size, ring_upto, seeded, seeded_upto, FloodState};
use crate::safety::{
    drained, fuel, inv, lemma_counters, lemma_done_drained, lemma_relax_next, lemma_seeded,
    lemma_step_counts, lemma_step_frame, lemma_steps_frame, lemma_take_confirmed, lemma_take_tentative, lemma_visit, slack,
    take_confirmed, take_tentative, visiting,
};
use crate::surface::{is_ceiling, Surface};
use crate::topology::{cell_topology, cells_of, neighbor, Cell};
use std::collections::VecDeque;
use vstd::prelude::*;

verus! {

/// The surface that a table of cells records for a grid of the given shape.
pub open spec fn terrain(cells: Seq<Vec<Cell>>, rows: nat, cols: nat) -> Surface {
    Surface {
        rows,
        cols,
        levels: Map::new(
            |k: (int, int)| 0 <= k.0 < rows && 0 <= k.1 < cols,
            |k: (int, int)| cells[k.0]@[k.1].elevation,
        ),
    }
}

/// A flood in progress: the cells of the terrain, the water surface, the
/// queue of confirmed cells and the queue of tentative ones.
pub struct PriorityFloodEngine {
    cells: Vec<Vec<Cell>>,
    filled: Grid,
    confirmed: VecDeque<(usize, usize)>,
    tentative: VecDeque<(usize, usize)>,
    epsilon: i64,
    ceiling: i64,
    iterations: u128,
    confirmations: u128,
    lowerings: u128,
    discards: u128,
}

/// What a finished flood hands back: the filled grid, the ceiling it
/// started from, and what it counted on the way.
pub struct FillReport {
    pub filled: Grid,
    pub ceiling: i64,
    pub iterations: u128,
    pub confirmations: u128,
    pub lowerings: u128,
    pub discards: u128,
}

impl FillReport {
    /// Whether the report is that of state `s`.
    pub open spec fn of(self, s: FloodState) -> bool {
        &&& self.filled@ == s.filled
        &&& self.ceiling == s.ceiling
        &&& self.iterations == s.iterations
        &&& self.confirmations == s.confirmations
        &&& self.lowerings == s.lowerings
        &&& self.discards == s.discards
    }
}

impl View for PriorityFloodEngine {
    type V = FloodState;

    closed spec fn view(&self) -> FloodState {
        FloodState {
            elevation: terrain(self.cells@, self.filled@.rows, self.filled@.cols),
            filled: self.filled@,
            confirmed: self.confirmed@,
            tentative: self.tentative@,
            epsilon: self.epsilon as int,
            ceiling: self.ceiling as int,
            iterations: self.iterations as nat,
            confirmations: self.confirmations as nat,
            lowerings: self.lowerings as nat,
            discards: self.discards as nat,
        }
    }
}

impl PriorityFloodEngine {
    /// The table of cells matches the terrain.
    spec fn shaped(&self) -> bool {
        cells_of(self.cells@, self@.elevation)
    }

    /// The engine is between passes: its table of cells matches the
    /// terrain and its state satisfies the invariant of the flood.
    pub closed spec fn wf(&self) -> bool {
        self.shaped() && inv(self@)
    }

    /// A well-formed engine is in a state that satisfies the invariant.
    pub proof fn lemma_wf(&self)
        requires
            self.wf(),
        ensures
            inv(self@),
    {
    }

    /// The engine over `dem`, seeded: the interior at the ceiling, the ring
    /// at its true elevation and waiting in the confirmed queue.
    pub fn new(dem: &Grid, epsilon: i64) -> (e: Self)
        requires
            epsilon > 0,
        ensures
            e.wf(),
            is_ceiling(dem@, e@.ceiling),
            e@ == seeded(dem@, epsilon as int, e@.ceiling as i64),
    {
        let cells = cell_topology(dem);
        let ceiling = dem.ceiling();
        let (rows, cols) = grid_dim(dem);
        let filled = grid_from_elem(rows, cols, ceiling);
        let mut e = PriorityFloodEngine {
            cells,
            filled,
            confirmed: VecDeque::new(),
            tentative: VecDeque::new(),
            epsilon,
            ceiling,
            iterations: 0,
            confirmations: 0,
            lowerings: 0,
            discards: 0,
        };
        assert(e.filled@ =~= seeded_upto(dem@, ceiling, 0, 0));
        let mut row: usize = 0;
        while row < rows
            invariant
                row <= rows,
                rows == dem@.rows,
                cols == dem@.cols,
                cells_of(e.cells@, dem@),
                e.filled@ == seeded_upto(dem@, ceiling, row as int, 0),
                e.confirmed@ == ring_upto(dem@.rows, dem@.cols, row as nat),
                e.tentative@ == Seq::<(usize, usize)>::empty(),
                e.epsilon == epsilon,
                e.ceiling == ceiling,
                e.iterations == 0,
                e.confirmations == 0,
                e.lowerings == 0,
                e.discards == 0,
            decreases rows - row,
        {
            let mut col: usize = 0;
            assert(e.confirmed@ =~= ring_upto(dem@.rows, dem@.cols, row as nat) + ring_in_row(
                dem@.rows,
                dem@.cols,
                row as int,
                0,
            ));
            while col < cols
                invariant
                    row < rows,
                    col <= cols,
                    rows == dem@.rows,
                    cols == dem@.cols,
                    cells_of(e.cells@, dem@),
                    e.filled@ == seeded_upto(dem@, ceiling, row as int, col as int),
                    e.confirmed@ == ring_upto(dem@.rows, dem@.cols, row as nat) + ring_in_row(
                        dem@.rows,
                        dem@.cols,
                        row as int,
                        col as nat,
                    ),
                    e.tentative@ == Seq::<(usize, usize)>::empty(),
                    e.epsilon == epsilon,
                    e.ceiling == ceiling,
                    e.iterations == 0,
                    e.confirmations == 0,
                    e.lowerings == 0,
                    e.discards == 0,
                decreases cols - col,
            {
                let cell = e.cells[row][col];
                assert(dem@.contains(row as int, col as int));
                if cell.is_boundary {
                    e.dry_cell(cell);
                }
                assert(e.filled@ =~= seeded_upto(dem@, ceiling, row as int, col + 1));
                assert(e.confirmed@ =~= ring_upto(dem@.rows, dem@.cols, row as nat) + ring_in_row(
                    dem@.rows,
                    dem@.cols,
                    row as int,
                    (col + 1) as nat,
                ));
                col += 1;
            }
            assert(e.filled@ =~= seeded_upto(dem@, ceiling, row + 1, 0));
            row += 1;
        }
        proof {
            lemma_view_wf(*dem);
            lemma_seeded(dem@, epsilon as int, ceiling);
            assert(e@.elevation =~= dem@);
            assert(e@.filled =~= seeded(dem@, epsilon as int, ceiling).filled);
            assert(e@ =~= seeded(dem@, epsilon as int, ceiling));
        }
        e
    }

    /// Sets a cell to its true elevation and puts it on the confirmed queue.
    fn dry_cell(&mut self, cell: Cell)
        requires
            cell.row < old(self).filled@.rows,
            cell.col < old(self).filled@.cols,
        ensures
            final(self).filled@ == old(self).filled@.with(
                cell.row as int,
                cell.col as int,
                cell.elevation,
            ),
            final(self).confirmed@ == old(self).confirmed@.push((cell.row, cell.col)),
            final(self).cells == old(self).cells,
            final(self).tentative == old(self).tentative,
            final(self).epsilon == old(self).epsilon,
            final(self).ceiling == old(self).ceiling,
            final(self).iterations == old(self).iterations,
            final(self).confirmations == old(self).confirmations,
            final(self).lowerings == old(self).lowerings,
            final(self).discards == old(self).discards,
    {
        self.filled.set(cell.row, cell.col, cell.elevation);
        self.confirmed.push_back((cell.row, cell.col));
    }

    /// Visits a cell that was taken off a queue: each of the eight
    /// neighbours that stands too high above it is confirmed at its true
    /// elevation, where that is high enough, or lowered to `epsilon` above
    /// the cell.
    fn visit(&mut self, row: usize, col: usize)
        requires
            old(self).shaped(),
            visiting(
                old(self)@,
                row as int,
                col as int,
                old(self)@.filled.at(row as int, col as int),
                0,
            ),
        ensures
            final(self).wf(),
            final(self)@ == old(self)@.visit(row as int, col as int),
    {
        let (rows, cols) = grid_dim(&self.filled);
        let water = self.filled.get(row, col);
        let ghost start = self@;
        let mut i: usize = 0;
        while i < 8
            invariant
                i <= 8,
                self.shaped(),
                rows == self@.elevation.rows,
                cols == self@.elevation.cols,
                self@ == start.relax(row as int, col as int, water as int, i as nat),
                visiting(self@, row as int, col as int, water as int, i as int),
            decreases 8 - i,
        {
            let ghost before = self@;
            proof {
                lemma_relax_next(before, row as int, col as int, water as int, i as int);
                lemma_counters(before);
            }
            match neighbor(rows, cols, row, col, i) {
                Some(n) => {
                    let cell = self.cells[n.0][n.1];
                    let level = self.filled.get(n.0, n.1);
                    if cell.elevation >= level {
                    } else if cell.elevation as i128 >= water as i128 + self.epsilon as i128 {
                        self.dry_cell(cell);
                        self.confirmations = self.confirmations + 1;
                    } else if level as i128 > water as i128 + self.epsilon as i128 {
                        self.filled.set(n.0, n.1, water + self.epsilon);
                        self.tentative.push_back(n);
                        self.lowerings = self.lowerings + 1;
                    }
                },
                None => {},
            }
            assert(self@ =~= before.relax_next(row as int, col as int, water as int, i as int));
            i += 1;
        }
        proof {
            lemma_visit(start, row as int, col as int);
            lemma_counters(self@);
        }
        self.iterations = self.iterations + 1;
        assert(self@ =~= start.visit(row as int, col as int));
    }

    /// Whether both queues are empty: the flood has come to its end.
    pub fn is_done(&self) -> (b: bool)
        ensures
            b == self@.done(),
    {
        self.confirmed.len() == 0 && self.tentative.len() == 0
    }

    /// One pass. The oldest confirmed cell is visited; where none waits,
    /// the oldest tentative cell is, unless it has reached its true
    /// elevation meanwhile: then its entry is dropped and counted. With
    /// both queues empty nothing happens.
    pub fn step(&mut self)
        requires
            old(self).wf(),
        ensures
            final(self).wf(),
            final(self)@ == old(self)@.step(),
    {
        if self.confirmed.len() > 0 {
            proof {
                lemma_take_confirmed(self@);
            }
            let p = self.confirmed.pop_front().unwrap();
            assert(self@ =~= take_confirmed(old(self)@));
            self.visit(p.0, p.1);
        } else if self.tentative.len() > 0 {
            proof {
                lemma_take_tentative(self@);
                lemma_counters(self@);
            }
            let p = self.tentative.pop_front().unwrap();
            assert(self@ =~= take_tentative(old(self)@));
            let ground = self.cells[p.0][p.1].elevation;
            let water = self.filled.get(p.0, p.1);
            if ground == water {
                self.discards = self.discards + 1;
                assert(self@ =~= old(self)@.step());
            } else {
                self.visit(p.0, p.1);
            }
        }
    }

    /// Passes until both queues are empty. The water surface is then the
    /// drained surface of the terrain.
    pub fn run(&mut self)
        requires
            old(self).wf(),
        ensures
            final(self).wf(),
            final(self)@.done(),
            exists|k: nat| final(self)@ == #[trigger] old(self)@.steps(k),
            drained(
                final(self)@.elevation,
                final(self)@.filled,
                final(self)@.epsilon,
                final(self)@.ceiling,
            ),
    {
        let ghost mut k: nat = 0;
        while !self.is_done()
            invariant
                self.wf(),
                self@ == old(self)@.steps(k),
            decreases fuel(self@),
        {
            proof {
                lemma_step_counts(self@);
                lemma_step_frame(self@);
                lemma_counters(self@);
            }
            self.step();
            proof {
                k = k + 1;
                lemma_counters(self@);
            }
        }
        proof {
            lemma_done_drained(self@);
        }
    }

    /// The number of cells visited so far.
    pub fn iterations(&self) -> (n: u128)
        ensures
            n == self@.iterations,
    {
        self.iterations
    }

    /// The number of entries waiting in the confirmed queue.
    pub fn confirmed_len(&self) -> (n: usize)
        ensures
            n == self@.confirmed.len(),
    {
        self.confirmed.len()
    }

    /// The number of entries waiting in the tentative queue.
    pub fn tentative_len(&self) -> (n: usize)
        ensures
            n == self@.tentative.len(),
    {
        self.tentative.len()
    }

    /// The water surface as it stands.
    pub fn filled(&self) -> (g: &Grid)
        ensures
            g@ == self@.filled,
    {
        &self.filled
    }

    /// Ends the flood where it stands and hands back surface and counts.
    pub fn finish(self) -> (out: FillReport)
        ensures
            out.of(self@),
    {
        FillReport {
            filled: self.filled,
            ceiling: self.ceiling,
            iterations: self.iterations,
            confirmations: self.confirmations,
            lowerings: self.lowerings,
            discards: self.discards,
        }
    }
}

/// Fills the depressions of `dem`: floods it from the outer ring inwards
/// until every cell below the ceiling has a way down to the ring that
/// falls by at least `epsilon` with each step, raising no cell further
/// than that takes.
pub fn planchon_darboux_alg(dem: &Grid, epsilon: i64) -> (out: FillReport)
    requires
        epsilon > 0,
    ensures
        is_ceiling(dem@, out.ceiling as int),
        drained(dem@, out.filled@, epsilon as int, out.ceiling as int),
        exists|k: nat|
            (#[trigger] seeded(dem@, epsilon as int, out.ceiling).steps(k)).done() && out.of(
                seeded(dem@, epsilon as int, out.ceiling).steps(k),
            ),
        out.iterations + out.discards == ring_size(dem@.rows, dem@.cols) + out.confirmations
            + out.lowerings,
        out.confirmations + out.lowerings + excess(dem@, out.filled@) <= slack(
            dem@,
            out.ceiling as int,
        ),
        out.discards <= out.lowerings,
        out.iterations + out.discards <= ring_size(dem@.rows, dem@.cols) + slack(
            dem@,
            out.ceiling as int,
        ),
{
    let mut engine = PriorityFloodEngine::new(dem, epsilon);
    let ghost start = engine@;
    engine.run();
    proof {
        engine.lemma_wf();
        lemma_counters(engine@);
        let k = choose|k: nat| engine@ == #[trigger] start.steps(k);
        lemma_steps_frame(start, k);
        assert(seeded(dem@, epsilon as int, engine@.ceiling as i64).steps(k) == engine@);
    }
    engine.finish()
}

} // verus!
