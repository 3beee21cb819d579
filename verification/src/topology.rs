//! The cells of a grid: where each lies, what it neighbours, and whether
//! it is on the outer ring.

use crate::grid::Grid;
use crate::model::{offset, target};
use crate::surface::Surface;
use vstd::prelude::*;

verus! {

/// One cell of the terrain: its place, its true elevation, and whether it
/// lies on the outer ring. Made once, never changed.
#[derive(Debug, Clone, Copy)]
pub struct Cell {
    pub row: usize,
    pub col: usize,
    pub elevation: i64,
    pub is_boundary: bool,
}

/// Whether the table lists the cells of `z` row by row, each with its
/// place, its elevation and its ring flag.
pub open spec fn cells_of(cells: Seq<Vec<Cell>>, z: Surface) -> bool {
    &&& cells.len() == z.rows
    &&& forall|r: int| 0 <= r < z.rows ==> (#[trigger] cells[r])@.len() == z.cols
    &&& forall|r: int, c: int|
        z.contains(r, c) ==> {
            let cell = #[trigger] cells[r]@[c];
            &&& cell.row == r
            &&& cell.col == c
            &&& cell.elevation == z.levels[(r, c)]
            &&& cell.is_boundary == z.on_ring(r, c)
        }
}

/// Whether `(row, col)` lies on the outer ring of a grid of the given
/// shape: in the first or last row, or in the first or last column.
pub fn is_boundary(rows: usize, cols: usize, row: usize, col: usize) -> (b: bool)
    requires
        row < rows,
        col < cols,
    ensures
        b == (row == 0 || col == 0 || row == rows - 1 || col == cols - 1),
{
    row == 0 || col == 0 || row == rows - 1 || col == cols - 1
}

/// The cells of a grid, row by row.
pub fn cell_topology(dem: &Grid) -> (cells: Vec<Vec<Cell>>)
    ensures
        cells_of(cells@, dem@),
{
    let rows = dem.rows();
    let cols = dem.cols();
    let mut cells: Vec<Vec<Cell>> = Vec::new();
    let mut row: usize = 0;
    while row < rows
        invariant
            row <= rows,
            rows == dem@.rows,
            cols == dem@.cols,
            cells@.len() == row,
            forall|r: int| 0 <= r < row ==> (#[trigger] cells@[r])@.len() == cols,
            forall|r: int, c: int|
                0 <= r < row && 0 <= c < cols ==> {
                    let cell = #[trigger] cells@[r]@[c];
                    &&& cell.row == r
                    &&& cell.col == c
                    &&& cell.elevation == dem@.levels[(r, c)]
                    &&& cell.is_boundary == dem@.on_ring(r, c)
                },
        decreases rows - row,
    {
        let mut cellrow: Vec<Cell> = Vec::new();
        let mut col: usize = 0;
        while col < cols
            invariant
                row < rows,
                col <= cols,
                rows == dem@.rows,
                cols == dem@.cols,
                cellrow@.len() == col,
                forall|c: int|
                    0 <= c < col ==> {
                        let cell = #[trigger] cellrow@[c];
                        &&& cell.row == row
                        &&& cell.col == c
                        &&& cell.elevation == dem@.levels[(row as int, c)]
                        &&& cell.is_boundary == dem@.on_ring(row as int, c)
                    },
            decreases cols - col,
        {
            let elevation = dem.get(row, col);
            let cell = Cell { row, col, elevation, is_boundary: is_boundary(rows, cols, row, col) };
            cellrow.push(cell);
            col += 1;
        }
        cells.push(cellrow);
        row += 1;
    }
    cells
}

/// The `i`-th of the eight neighbour offsets, in the order of a visit.
pub fn offset_of(i: usize) -> (d: (i8, i8))
    requires
        i < 8,
    ensures
        (d.0 as int, d.1 as int) == offset(i as int),
{
    if i == 0 {
        (-1, -1)
    } else if i == 1 {
        (-1, 0)
    } else if i == 2 {
        (-1, 1)
    } else if i == 3 {
        (0, 1)
    } else if i == 4 {
        (1, 1)
    } else if i == 5 {
        (1, 0)
    } else if i == 6 {
        (1, -1)
    } else {
        (0, -1)
    }
}

/// The place of a cell in exec terms for a place in spec terms.
pub open spec fn place(n: Option<(int, int)>) -> Option<(usize, usize)> {
    match n {
        Some(t) => Some((t.0 as usize, t.1 as usize)),
        None => None,
    }
}

/// The cell that the `i`-th offset reaches from `(row, col)`, where a
/// visit may touch it: both indices from the first up to the last but one.
pub fn neighbor(rows: usize, cols: usize, row: usize, col: usize, i: usize) -> (n: Option<
    (usize, usize),
>)
    requires
        i < 8,
    ensures
        n == place(target(rows as nat, cols as nat, row as int, col as int, i as int)),
        n is Some ==> n->Some_0.0 < rows && n->Some_0.1 < cols,
{
    let d = offset_of(i);
    let nr: i128 = row as i128 + d.0 as i128;
    let nc: i128 = col as i128 + d.1 as i128;
    if nr >= 0 && nr < rows as i128 - 1 && nc >= 0 && nc < cols as i128 - 1 {
        Some((nr as usize, nc as usize))
    } else {
        None
    }
}

} // verus!
