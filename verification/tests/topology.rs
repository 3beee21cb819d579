use sink_fill::grid::Grid;
use sink_fill::topology::{cell_topology, is_boundary, neighbor, offset_of};

#[test]
fn boundary_is_first_or_last_row_or_column() {
    let rows = 4;
    let cols = 5;
    for r in 0..rows {
        for c in 0..cols {
            let expected = r == 0 || c == 0 || r == 3 || c == 4;
            assert_eq!(is_boundary(rows, cols, r, c), expected, "cell ({}, {})", r, c);
        }
    }
}

#[test]
fn boundary_of_single_row_and_single_column() {
    for c in 0..6 {
        assert!(is_boundary(1, 6, 0, c));
    }
    for r in 0..6 {
        assert!(is_boundary(6, 1, r, 0));
    }
    assert!(is_boundary(1, 1, 0, 0));
}

#[test]
fn cell_topology_records_place_elevation_and_ring() {
    let mut g = Grid::from_elem(3, 4, 0).unwrap();
    for r in 0..3 {
        for c in 0..4 {
            g.set(r, c, (10 * r + c) as i64);
        }
    }
    let cells = cell_topology(&g);
    assert_eq!(cells.len(), 3);
    for r in 0..3 {
        assert_eq!(cells[r].len(), 4);
        for c in 0..4 {
            let cell = cells[r][c];
            assert_eq!(cell.row, r);
            assert_eq!(cell.col, c);
            assert_eq!(cell.elevation, (10 * r + c) as i64);
            assert_eq!(cell.is_boundary, r == 0 || c == 0 || r == 2 || c == 3);
        }
    }
}

#[test]
fn cell_topology_of_grid_without_rows_is_empty() {
    let g = Grid::from_elem(0, 5, 1).unwrap();
    assert!(cell_topology(&g).is_empty());
}

#[test]
fn cell_topology_of_grid_without_columns_has_empty_rows() {
    let g = Grid::from_elem(3, 0, 1).unwrap();
    let cells = cell_topology(&g);
    assert_eq!(cells.len(), 3);
    assert!(cells.iter().all(|row| row.is_empty()));
}

#[test]
fn offsets_go_round_the_cell_in_visiting_order() {
    let expected: [(i8, i8); 8] =
        [(-1, -1), (-1, 0), (-1, 1), (0, 1), (1, 1), (1, 0), (1, -1), (0, -1)];
    for i in 0..8 {
        assert_eq!(offset_of(i), expected[i]);
    }
}

#[test]
fn neighbor_of_inner_cell_reaches_all_eight() {
    let expected = [(1, 1), (1, 2), (1, 3), (2, 3), (3, 3), (3, 2), (3, 1), (2, 1)];
    for i in 0..8 {
        assert_eq!(neighbor(6, 6, 2, 2, i), Some(expected[i]));
    }
}

#[test]
fn neighbor_never_reaches_last_row_or_last_column() {
    // From (3, 3) in a 5 x 5 grid the offsets that lead into row 4 or
    // column 4 are refused, the others are not.
    let expected = [Some((2, 2)), Some((2, 3)), None, None, None, None, None, Some((3, 2))];
    for i in 0..8 {
        assert_eq!(neighbor(5, 5, 3, 3, i), expected[i]);
    }
}

#[test]
fn neighbor_reaches_first_row_and_first_column() {
    let expected = [Some((0, 0)), Some((0, 1)), Some((0, 2)), Some((1, 2)), Some((2, 2)),
        Some((2, 1)), Some((2, 0)), Some((1, 0))];
    for i in 0..8 {
        assert_eq!(neighbor(5, 5, 1, 1, i), expected[i]);
    }
}

#[test]
fn neighbor_stays_inside_the_grid() {
    let expected = [None, None, None, Some((0, 1)), Some((1, 1)), Some((1, 0)), None, None];
    for i in 0..8 {
        assert_eq!(neighbor(4, 4, 0, 0, i), expected[i]);
    }
    for i in 0..8 {
        assert_eq!(neighbor(1, 1, 0, 0, i), None);
        assert_eq!(neighbor(2, 2, 1, 1, i), if i == 0 { Some((0, 0)) } else { None });
    }
}
