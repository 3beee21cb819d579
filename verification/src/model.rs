//! The flood as a state machine: two queues of cells over a pair of
//! surfaces, and the step that takes one cell off a queue.

use crate::surface::Surface;
use vstd::prelude::*;

verus! {

/// The eight neighbour offsets `(rows, columns)`, in the order of a visit.
pub open spec fn offset(i: int) -> (int, int) {
    if i == 0 {
        (-1, -1)
    } else if i == 1 {
        (-1, 0)
    } else if i == 2 {
        (-1, 1)
    } else if i == 3 {
        (0, 1)
    } else if i == 4 {
        (1, 1)
    } else if i == 5 {
        (1, 0)
    } else if i == 6 {
        (1, -1)
    } else {
        (0, -1)
    }
}

/// The cell that the `i`-th offset reaches from `(r, c)`, where a visit may
/// touch it: in both directions, from the first index up to the last but one.
pub open spec fn target(rows: nat, cols: nat, r: int, c: int, i: int) -> Option<(int, int)> {
    let nr = r + offset(i).0;
    let nc = c + offset(i).1;
    if 0 <= nr < rows - 1 && 0 <= nc < cols - 1 {
        Some((nr, nc))
    } else {
        None
    }
}

/// All that a flood in progress consists of.
#[verifier::ext_equal]
pub struct FloodState {
    /// The terrain as given.
    pub elevation: Surface,
    /// The water surface as it stands.
    pub filled: Surface,
    /// Cells whose level is their true elevation, oldest first.
    pub confirmed: Seq<(usize, usize)>,
    /// Cells whose level was lowered and may be lowered again, oldest first.
    pub tentative: Seq<(usize, usize)>,
    /// The least rise from a cell to a neighbour that drains through it.
    pub epsilon: int,
    /// The level at which the interior starts.
    pub ceiling: int,
    /// Cells taken off a queue and visited.
    pub iterations: nat,
    /// Neighbours set to their true elevation during visits.
    pub confirmations: nat,
    /// Neighbours lowered to a level above their true elevation.
    pub lowerings: nat,
    /// Entries of the tentative queue dropped as out of date.
    pub discards: nat,
}

impl FloodState {
    /// The number of entries waiting in both queues.
    pub open spec fn queue_len(self) -> nat {
        self.confirmed.len() + self.tentative.len()
    }

    /// The number of times a level was changed since seeding.
    pub open spec fn relaxations(self) -> nat {
        self.confirmations + self.lowerings
    }

    /// Whether both queues are empty.
    pub open spec fn done(self) -> bool {
        self.confirmed.len() == 0 && self.tentative.len() == 0
    }

    /// What a visited cell at level `w` does to its neighbour `(nr, nc)`.
    pub open spec fn relax_one(self, w: int, nr: int, nc: int) -> FloodState {
        let ground = self.elevation.levels[(nr, nc)];
        let water = self.filled.levels[(nr, nc)];
        if ground >= water {
            self
        } else if ground >= w + self.epsilon {
            FloodState {
                filled: self.filled.with(nr, nc, ground),
                confirmed: self.confirmed.push((nr as usize, nc as usize)),
                confirmations: self.confirmations + 1,
                ..self
            }
        } else if water > w + self.epsilon {
            FloodState {
                filled: self.filled.with(nr, nc, (w + self.epsilon) as i64),
                tentative: self.tentative.push((nr as usize, nc as usize)),
                lowerings: self.lowerings + 1,
                ..self
            }
        } else {
            self
        }
    }

    /// What a visited cell `(r, c)` at level `w` does through offset `i`.
    pub open spec fn relax_next(self, r: int, c: int, w: int, i: int) -> FloodState {
        match target(self.elevation.rows, self.elevation.cols, r, c, i) {
            Some(n) => self.relax_one(w, n.0, n.1),
            None => self,
        }
    }

    /// The state after the first `k` offsets of a visit to `(r, c)`.
    pub open spec fn relax(self, r: int, c: int, w: int, k: nat) -> FloodState
        decreases k,
    {
        if k == 0 {
            self
        } else {
            self.relax(r, c, w, (k - 1) as nat).relax_next(r, c, w, k - 1)
        }
    }

    /// A whole visit to `(r, c)`: all eight offsets at the cell's own level.
    pub open spec fn visit(self, r: int, c: int) -> FloodState {
        let s = self.relax(r, c, self.filled.at(r, c), 8);
        FloodState { iterations: s.iterations + 1, ..s }
    }

    /// One pass of the flood. The confirmed queue goes first. An entry of
    /// the tentative queue whose cell has reached its true elevation
    /// meanwhile is dropped unvisited.
    pub open spec fn step(self) -> FloodState {
        if self.confirmed.len() > 0 {
            let p = self.confirmed[0];
            let s = FloodState {
                confirmed: self.confirmed.subrange(1, self.confirmed.len() as int),
                ..self
            };
            s.visit(p.0 as int, p.1 as int)
        } else if self.tentative.len() > 0 {
            let p = self.tentative[0];
            let s = FloodState {
                tentative: self.tentative.subrange(1, self.tentative.len() as int),
                ..self
            };
            if s.filled.at(p.0 as int, p.1 as int) == s.elevation.at(p.0 as int, p.1 as int) {
                FloodState { discards: s.discards + 1, ..s }
            } else {
                s.visit(p.0 as int, p.1 as int)
            }
        } else {
            self
        }
    }

    /// The state after `k` passes.
    pub open spec fn steps(self, k: nat) -> FloodState
        decreases k,
    {
        if k == 0 {
            self
        } else {
            self.steps((k - 1) as nat).step()
        }
    }
}

/// The ring cells of row `r` among its first `n` columns, left to right.
pub open spec fn ring_in_row(rows: nat, cols: nat, r: int, n: nat) -> Seq<(usize, usize)>
    decreases n,
{
    if n == 0 {
        Seq::empty()
    } else if r == 0 || r == rows - 1 || n - 1 == 0 || n - 1 == cols - 1 {
        ring_in_row(rows, cols, r, (n - 1) as nat).push((r as usize, (n - 1) as usize))
    } else {
        ring_in_row(rows, cols, r, (n - 1) as nat)
    }
}

/// The ring cells of the first `m` rows, row by row.
pub open spec fn ring_upto(rows: nat, cols: nat, m: nat) -> Seq<(usize, usize)>
    decreases m,
{
    if m == 0 {
        Seq::empty()
    } else {
        ring_upto(rows, cols, (m - 1) as nat) + ring_in_row(rows, cols, m - 1, cols)
    }
}

/// The number of cells on the outer ring of a rectangle.
pub open spec fn ring_size(rows: nat, cols: nat) -> nat {
    if rows == 0 || cols == 0 {
        0
    } else if rows == 1 {
        cols
    } else if cols == 1 {
        rows
    } else {
        (2 * rows + 2 * cols - 4) as nat
    }
}

/// The water surface before the first pass: the ring at its true
/// elevation, the interior at the ceiling.
pub open spec fn seeded_surface(z: Surface, ceiling: i64) -> Surface {
    Surface {
        rows: z.rows,
        cols: z.cols,
        levels: Map::new(
            |k: (int, int)| z.contains(k.0, k.1),
            |k: (int, int)|
                if z.on_ring(k.0, k.1) {
                    z.levels[k]
                } else {
                    ceiling
                },
        ),
    }
}

/// The water surface while seeding has come as far as `(r, c)`, row by row.
pub open spec fn seeded_upto(z: Surface, ceiling: i64, r: int, c: int) -> Surface {
    Surface {
        rows: z.rows,
        cols: z.cols,
        levels: Map::new(
            |k: (int, int)| z.contains(k.0, k.1),
            |k: (int, int)|
                if z.on_ring(k.0, k.1) && (k.0 < r || (k.0 == r && k.1 < c)) {
                    z.levels[k]
                } else {
                    ceiling
                },
        ),
    }
}

/// The state before the first pass: the ring cells wait in the confirmed
/// queue, row by row, and nothing has been counted yet.
pub open spec fn seeded(z: Surface, epsilon: int, ceiling: i64) -> FloodState {
    FloodState {
        elevation: z,
        filled: seeded_surface(z, ceiling),
        confirmed: ring_upto(z.rows, z.cols, z.rows),
        tentative: Seq::empty(),
        epsilon,
        ceiling: ceiling as int,
        iterations: 0,
        confirmations: 0,
        lowerings: 0,
        discards: 0,
    }
}

} // verus!
