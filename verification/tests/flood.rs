use sink_fill::engine::{planchon_darboux_alg, FillReport};
use sink_fill::grid::Grid;

fn grid_from(rows: &[&[i64]]) -> Grid {
    let cols = if rows.is_empty() { 0 } else { rows[0].len() };
    let mut g = Grid::from_elem(rows.len(), cols, 0).unwrap();
    for (r, row) in rows.iter().enumerate() {
        assert_eq!(row.len(), cols);
        for (c, v) in row.iter().enumerate() {
            g.set(r, c, *v);
        }
    }
    g
}

fn levels(g: &Grid) -> Vec<Vec<i64>> {
    (0..g.rows()).map(|r| (0..g.cols()).map(|c| g.get(r, c)).collect()).collect()
}

fn on_ring(g: &Grid, r: usize, c: usize) -> bool {
    r == 0 || c == 0 || r + 1 == g.rows() || c + 1 == g.cols()
}

fn ring_size(rows: usize, cols: usize) -> u128 {
    let mut n = 0;
    for r in 0..rows {
        for c in 0..cols {
            if r == 0 || c == 0 || r + 1 == rows || c + 1 == cols {
                n += 1;
            }
        }
    }
    n
}

/// A terrain of the given shape with levels in `0..span`, the same for the
/// same seed.
fn scattered(rows: usize, cols: usize, span: u64, seed: u64) -> Grid {
    let mut g = Grid::from_elem(rows, cols, 0).unwrap();
    let mut x = seed;
    for r in 0..rows {
        for c in 0..cols {
            x = x.wrapping_mul(6364136223846793005).wrapping_add(1442695040888963407);
            g.set(r, c, ((x >> 33) % span) as i64);
        }
    }
    g
}

/// The drained surface by plain repetition: every interior cell is taken
/// down to the higher of its elevation and `epsilon` above its lowest
/// neighbour, until nothing moves.
fn drained_by_sweeps(dem: &Grid, epsilon: i64) -> Vec<Vec<i64>> {
    let rows = dem.rows();
    let cols = dem.cols();
    let ceiling = dem.ceiling();
    let mut w: Vec<Vec<i64>> = (0..rows)
        .map(|r| (0..cols).map(|c| if on_ring(dem, r, c) { dem.get(r, c) } else { ceiling }).collect())
        .collect();
    let mut moved = true;
    while moved {
        moved = false;
        for r in 1..rows.saturating_sub(1) {
            for c in 1..cols.saturating_sub(1) {
                let mut lowest = i64::MAX;
                for nr in r - 1..=r + 1 {
                    for nc in c - 1..=c + 1 {
                        if (nr, nc) != (r, c) {
                            lowest = lowest.min(w[nr][nc]);
                        }
                    }
                }
                let level = w[r][c].min(dem.get(r, c).max(lowest + epsilon));
                if level != w[r][c] {
                    w[r][c] = level;
                    moved = true;
                }
            }
        }
    }
    w
}

fn check_counts(dem: &Grid, out: &FillReport) {
    assert_eq!(
        out.iterations + out.discards,
        ring_size(dem.rows(), dem.cols()) + out.confirmations + out.lowerings
    );
    assert!(out.discards <= out.lowerings);
    let mut slack: i128 = 0;
    let mut excess: i128 = 0;
    for r in 0..dem.rows() {
        for c in 0..dem.cols() {
            if !on_ring(dem, r, c) {
                slack += (out.ceiling - dem.get(r, c)) as i128;
            }
            excess += (out.filled.get(r, c) - dem.get(r, c)) as i128;
        }
    }
    assert!((out.confirmations + out.lowerings) as i128 + excess <= slack);
}

#[test]
fn center_of_walled_pit_stays_at_the_ceiling() {
    // Ring at 10.0, centre at 2.0, epsilon 0.5, in tenths. No ring cell is
    // 0.5 below the ceiling, so nothing lowers the centre: it ends at
    // 10.0, not at 10.5.
    let dem = grid_from(&[&[100, 100, 100], &[100, 20, 100], &[100, 100, 100]]);
    let out = planchon_darboux_alg(&dem, 5);
    assert_eq!(levels(&out.filled), vec![vec![100, 100, 100], vec![100, 100, 100], vec![
        100, 100, 100
    ]]);
    assert_eq!(out.ceiling, 100);
    assert_eq!(out.iterations, 8);
    assert_eq!(out.confirmations, 0);
    assert_eq!(out.lowerings, 0);
    assert_eq!(out.discards, 0);
}

#[test]
fn flat_grid_is_returned_without_a_relaxation() {
    let dem = Grid::from_elem(5, 5, 7).unwrap();
    let out = planchon_darboux_alg(&dem, 3);
    assert_eq!(levels(&out.filled), levels(&dem));
    assert_eq!(out.confirmations, 0);
    assert_eq!(out.lowerings, 0);
    assert_eq!(out.discards, 0);
    assert_eq!(out.iterations, 16);
}

#[test]
fn basin_drains_through_its_outlet_with_the_gradient() {
    let dem = grid_from(&[
        &[10, 10, 0, 10, 10],
        &[10, 1, 1, 1, 10],
        &[10, 1, 1, 1, 10],
        &[10, 1, 1, 1, 10],
        &[10, 10, 10, 10, 10],
    ]);
    let out = planchon_darboux_alg(&dem, 1);
    assert_eq!(levels(&out.filled), vec![
        vec![10, 10, 0, 10, 10],
        vec![10, 1, 1, 1, 10],
        vec![10, 2, 2, 2, 10],
        vec![10, 3, 3, 3, 10],
        vec![10, 10, 10, 10, 10],
    ]);
    check_counts(&dem, &out);
}

#[test]
fn larger_epsilon_fills_higher() {
    let dem = grid_from(&[
        &[10, 10, 0, 10, 10],
        &[10, 1, 1, 1, 10],
        &[10, 1, 1, 1, 10],
        &[10, 1, 1, 1, 10],
        &[10, 10, 10, 10, 10],
    ]);
    let out = planchon_darboux_alg(&dem, 4);
    assert_eq!(levels(&out.filled), vec![
        vec![10, 10, 0, 10, 10],
        vec![10, 4, 4, 4, 10],
        vec![10, 8, 8, 8, 10],
        vec![10, 10, 10, 10, 10],
        vec![10, 10, 10, 10, 10],
    ]);
}

#[test]
fn terrain_that_already_drains_is_confirmed_unchanged() {
    let dem = grid_from(&[
        &[0, 0, 0, 0, 0],
        &[0, 2, 2, 2, 0],
        &[0, 2, 4, 2, 0],
        &[0, 2, 2, 2, 0],
        &[0, 0, 0, 0, 9],
    ]);
    let out = planchon_darboux_alg(&dem, 2);
    assert_eq!(levels(&out.filled), levels(&dem));
    assert_eq!(out.lowerings, 0);
    assert_eq!(out.confirmations, 9);
    assert_eq!(out.iterations, 16 + 9);
}

#[test]
fn last_interior_row_and_column_are_relaxed() {
    // Only the last row and the last column are never a target, and they
    // are ring cells. The interior next to them is lowered like the rest.
    let dem = grid_from(&[&[0, 9, 9, 9], &[9, 0, 0, 9], &[9, 0, 0, 9], &[9, 9, 9, 9]]);
    let out = planchon_darboux_alg(&dem, 1);
    assert_eq!(levels(&out.filled), vec![vec![0, 9, 9, 9], vec![9, 1, 2, 9], vec![9, 2, 2, 9], vec![
        9, 9, 9, 9
    ]]);
}

#[test]
fn outlet_in_last_row_drains_the_interior_too() {
    let dem = grid_from(&[&[9, 9, 9, 9], &[9, 0, 0, 9], &[9, 0, 0, 9], &[9, 9, 9, 0]]);
    let out = planchon_darboux_alg(&dem, 1);
    assert_eq!(levels(&out.filled), vec![vec![9, 9, 9, 9], vec![9, 2, 2, 9], vec![9, 2, 1, 9], vec![
        9, 9, 9, 0
    ]]);
}

#[test]
fn stale_tentative_entry_is_dropped() {
    // The centre is first lowered from (0, 0), then confirmed from (0, 1):
    // its tentative entry is out of date when its turn comes.
    let dem = grid_from(&[&[30, 10, 100], &[100, 20, 100], &[100, 100, 100]]);
    let out = planchon_darboux_alg(&dem, 5);
    assert_eq!(out.filled.get(1, 1), 20);
    assert_eq!(out.lowerings, 1);
    assert_eq!(out.confirmations, 1);
    assert_eq!(out.discards, 1);
    assert_eq!(out.iterations, 9);
    check_counts(&dem, &out);
}

#[test]
fn negative_elevations_are_filled_like_any_other() {
    let dem = grid_from(&[&[-5, -5, -5], &[-5, -50, -5], &[-5, -5, -20]]);
    let out = planchon_darboux_alg(&dem, 10);
    assert_eq!(out.ceiling, -5);
    assert_eq!(out.filled.get(1, 1), -10);
    assert_eq!(out.filled.get(2, 2), -20);
}

#[test]
fn extreme_levels_do_not_overflow() {
    let dem = grid_from(&[
        &[i64::MAX, i64::MAX, i64::MAX],
        &[i64::MAX, i64::MIN, i64::MAX],
        &[i64::MAX, i64::MAX, i64::MIN],
    ]);
    let out = planchon_darboux_alg(&dem, i64::MAX);
    assert_eq!(out.filled.get(1, 1), -1);
    let out = planchon_darboux_alg(&dem, 1);
    assert_eq!(out.filled.get(1, 1), i64::MIN + 1);
    let walled = grid_from(&[
        &[i64::MAX, i64::MAX, i64::MAX],
        &[i64::MAX, i64::MIN, i64::MAX],
        &[i64::MAX, i64::MAX, i64::MAX],
    ]);
    let out = planchon_darboux_alg(&walled, i64::MAX);
    assert_eq!(out.filled.get(1, 1), i64::MAX);
}

#[test]
fn grid_without_cells_gives_the_fallback_ceiling() {
    let dem = Grid::from_elem(0, 4, 1).unwrap();
    let out = planchon_darboux_alg(&dem, 1);
    assert_eq!(out.ceiling, 3000);
    assert_eq!(out.filled.rows(), 0);
    assert_eq!(out.filled.cols(), 4);
    assert_eq!(out.iterations, 0);
    let dem = Grid::from_elem(3, 0, 1).unwrap();
    let out = planchon_darboux_alg(&dem, 1);
    assert_eq!(out.ceiling, 3000);
    assert_eq!(out.filled.rows(), 3);
    assert_eq!(out.filled.cols(), 0);
    assert_eq!(out.iterations, 0);
}

#[test]
fn grids_that_are_all_ring_come_back_unchanged() {
    for (rows, cols) in [(1, 1), (1, 7), (7, 1), (2, 2), (2, 9), (9, 2)] {
        let dem = scattered(rows, cols, 100, 7);
        let out = planchon_darboux_alg(&dem, 3);
        assert_eq!(levels(&out.filled), levels(&dem));
        assert_eq!(out.iterations, (rows * cols) as u128);
        assert_eq!(out.confirmations + out.lowerings + out.discards, 0);
    }
}

#[test]
fn filled_is_never_below_the_terrain() {
    for seed in 0..20 {
        let dem = scattered(9, 13, 50, seed);
        let out = planchon_darboux_alg(&dem, 2);
        for r in 0..9 {
            for c in 0..13 {
                assert!(out.filled.get(r, c) >= dem.get(r, c));
                assert!(out.filled.get(r, c) <= out.ceiling);
            }
        }
    }
}

#[test]
fn ring_keeps_its_elevation() {
    for seed in 0..20 {
        let dem = scattered(8, 6, 1000, seed);
        let out = planchon_darboux_alg(&dem, 7);
        for r in 0..8 {
            for c in 0..6 {
                if on_ring(&dem, r, c) {
                    assert_eq!(out.filled.get(r, c), dem.get(r, c));
                }
            }
        }
    }
}

#[test]
fn raised_cell_is_epsilon_above_its_lowest_neighbor() {
    for seed in 0..20 {
        let dem = scattered(10, 10, 60, seed);
        let epsilon = 3;
        let out = planchon_darboux_alg(&dem, epsilon);
        let w = levels(&out.filled);
        for r in 1..9 {
            for c in 1..9 {
                let mut lowest = i64::MAX;
                for nr in r - 1..=r + 1 {
                    for nc in c - 1..=c + 1 {
                        if (nr, nc) != (r, c) {
                            lowest = lowest.min(w[nr][nc]);
                        }
                    }
                }
                if w[r][c] > dem.get(r, c) && w[r][c] < out.ceiling {
                    assert_eq!(w[r][c], lowest + epsilon);
                }
                if w[r][c] < out.ceiling {
                    assert!(w[r][c] >= lowest + epsilon);
                }
            }
        }
    }
}

#[test]
fn result_is_the_drained_surface() {
    for seed in 0..30 {
        let dem = scattered(7 + (seed as usize % 5), 6 + (seed as usize % 7), 40, seed);
        let epsilon = 1 + (seed as i64 % 4);
        let out = planchon_darboux_alg(&dem, epsilon);
        assert_eq!(levels(&out.filled), drained_by_sweeps(&dem, epsilon));
        assert_eq!(out.ceiling, dem.ceiling());
        check_counts(&dem, &out);
    }
}

#[test]
fn filling_twice_changes_nothing() {
    for seed in 0..20 {
        let dem = scattered(12, 9, 30, seed);
        let once = planchon_darboux_alg(&dem, 2);
        let twice = planchon_darboux_alg(&once.filled, 2);
        assert_eq!(levels(&twice.filled), levels(&once.filled));
        assert_eq!(twice.ceiling, once.ceiling);
    }
}

#[test]
fn filling_a_filled_grid_still_relaxes_cells_below_the_ceiling() {
    // The second run starts its interior at the ceiling again, so a cell
    // below the ceiling is brought down once more: here it is lowered
    // from (0, 0) and then confirmed from (0, 1).
    let dem = grid_from(&[&[3, 0, 10], &[10, 5, 10], &[10, 10, 10]]);
    let once = planchon_darboux_alg(&dem, 4);
    assert_eq!(once.filled.get(1, 1), 5);
    let twice = planchon_darboux_alg(&once.filled, 4);
    assert_eq!(levels(&twice.filled), levels(&once.filled));
    assert_eq!(twice.lowerings, 1);
    assert_eq!(twice.confirmations, 1);
    assert_eq!(twice.discards, 1);
}

#[test]
fn passes_stay_within_a_multiple_of_the_cell_count() {
    for (rows, cols) in [(10, 10), (40, 25), (100, 100)] {
        let dem = scattered(rows, cols, 1000, 42);
        let out = planchon_darboux_alg(&dem, 1);
        let passes = out.iterations + out.discards;
        assert!(
            passes <= 16 * (rows * cols) as u128,
            "{} passes for {} cells",
            passes,
            rows * cols
        );
        check_counts(&dem, &out);
    }
}
