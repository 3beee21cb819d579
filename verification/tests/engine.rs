use sink_fill::engine::PriorityFloodEngine;
use sink_fill::grid::Grid;

fn basin() -> Grid {
    let mut g = Grid::from_elem(4, 4, 9).unwrap();
    g.set(0, 0, 0);
    g.set(1, 1, 0);
    g.set(1, 2, 0);
    g.set(2, 1, 0);
    g.set(2, 2, 0);
    g
}

#[test]
fn new_engine_is_seeded() {
    let dem = basin();
    let e = PriorityFloodEngine::new(&dem, 1);
    assert_eq!(e.iterations(), 0);
    assert_eq!(e.confirmed_len(), 12);
    assert_eq!(e.tentative_len(), 0);
    assert!(!e.is_done());
    for r in 0..4 {
        for c in 0..4 {
            let ring = r == 0 || c == 0 || r == 3 || c == 3;
            assert_eq!(e.filled().get(r, c), if ring { dem.get(r, c) } else { 9 });
        }
    }
}

#[test]
fn engine_over_empty_grid_is_done_at_once() {
    let dem = Grid::from_elem(0, 0, 0).unwrap();
    let mut e = PriorityFloodEngine::new(&dem, 1);
    assert!(e.is_done());
    e.step();
    assert!(e.is_done());
    assert_eq!(e.iterations(), 0);
    let out = e.finish();
    assert_eq!(out.ceiling, 3000);
}

#[test]
fn first_step_visits_the_first_ring_cell() {
    let dem = basin();
    let mut e = PriorityFloodEngine::new(&dem, 1);
    e.step();
    // (0, 0) is at 0: its neighbour (1, 1) at 0 is below 0 + 1 and is
    // lowered to 1. The ring neighbours stay.
    assert_eq!(e.iterations(), 1);
    assert_eq!(e.confirmed_len(), 11);
    assert_eq!(e.tentative_len(), 1);
    assert_eq!(e.filled().get(1, 1), 1);
    assert_eq!(e.filled().get(1, 2), 9);
    assert_eq!(e.filled().get(0, 1), 9);
}

#[test]
fn confirmed_queue_goes_before_tentative_queue() {
    let dem = basin();
    let mut e = PriorityFloodEngine::new(&dem, 1);
    e.step();
    assert_eq!(e.tentative_len(), 1);
    // Eleven ring cells still wait: the tentative entry is not touched
    // before they are through.
    for left in (0..11).rev() {
        e.step();
        assert_eq!(e.confirmed_len(), left);
        assert_eq!(e.tentative_len(), 1);
    }
    e.step();
    assert_eq!(e.tentative_len(), 3);
    assert_eq!(e.filled().get(1, 2), 2);
    assert_eq!(e.filled().get(2, 1), 2);
    assert_eq!(e.filled().get(2, 2), 2);
}

#[test]
fn steps_never_raise_a_level_nor_move_a_settled_cell() {
    let dem = basin();
    let mut e = PriorityFloodEngine::new(&dem, 2);
    let mut guard = 0;
    while !e.is_done() {
        let before: Vec<i64> =
            (0..16).map(|k| e.filled().get(k / 4, k % 4)).collect();
        e.step();
        for k in 0..16 {
            let now = e.filled().get(k / 4, k % 4);
            assert!(now <= before[k]);
            assert!(now >= dem.get(k / 4, k % 4));
            if before[k] == dem.get(k / 4, k % 4) {
                assert_eq!(now, before[k]);
            }
        }
        guard += 1;
        assert!(guard < 1000);
    }
}

#[test]
fn run_ends_with_empty_queues() {
    let dem = basin();
    let mut e = PriorityFloodEngine::new(&dem, 1);
    e.run();
    assert!(e.is_done());
    assert_eq!(e.confirmed_len(), 0);
    assert_eq!(e.tentative_len(), 0);
    let passes = e.iterations();
    e.step();
    assert_eq!(e.iterations(), passes);
    let out = e.finish();
    assert_eq!(out.filled.get(1, 1), 1);
    assert_eq!(out.filled.get(1, 2), 2);
    assert_eq!(out.filled.get(2, 1), 2);
    assert_eq!(out.filled.get(2, 2), 2);
    assert_eq!(out.iterations, passes);
}

#[test]
fn settled_state_takes_entries_off_and_changes_nothing() {
    let dem = Grid::from_elem(4, 6, 5).unwrap();
    let mut e = PriorityFloodEngine::new(&dem, 1);
    let mut left = e.confirmed_len();
    assert_eq!(left, 16);
    while !e.is_done() {
        e.step();
        left -= 1;
        assert_eq!(e.confirmed_len(), left);
        assert_eq!(e.tentative_len(), 0);
    }
    let out = e.finish();
    assert_eq!(out.iterations, 16);
    assert_eq!(out.confirmations + out.lowerings, 0);
    for r in 0..4 {
        for c in 0..6 {
            assert_eq!(out.filled.get(r, c), 5);
        }
    }
}
