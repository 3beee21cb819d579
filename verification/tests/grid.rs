use sink_fill::grid::Grid;

#[test]
fn grid_from_elem_holds_level_everywhere() {
    let g = Grid::from_elem(2, 3, 7).unwrap();
    assert_eq!(g.rows(), 2);
    assert_eq!(g.cols(), 3);
    for r in 0..2 {
        for c in 0..3 {
            assert_eq!(g.get(r, c), 7);
        }
    }
}

#[test]
fn grid_set_changes_one_cell() {
    let mut g = Grid::from_elem(2, 2, 1).unwrap();
    g.set(1, 0, -5);
    assert_eq!(g.get(1, 0), -5);
    assert_eq!(g.get(0, 0), 1);
    assert_eq!(g.get(0, 1), 1);
    assert_eq!(g.get(1, 1), 1);
}

#[test]
fn grid_ceiling_is_highest_level_or_fallback() {
    let mut g = Grid::from_elem(2, 2, 1).unwrap();
    g.set(0, 1, 42);
    assert_eq!(g.ceiling(), 42);
    let e = Grid::from_elem(0, 4, 9).unwrap();
    assert_eq!(e.ceiling(), 3000);
}

#[test]
fn grid_from_elem_refuses_oversized_shape() {
    assert!(Grid::from_elem(usize::MAX, 2, 0).is_none());
    assert!(Grid::from_elem(0, usize::MAX, 0).is_none());
}
