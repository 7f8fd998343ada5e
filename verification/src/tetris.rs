//! The Tetris board's grid: its size and the cells of the test piece shown
//! on it.

use vstd::prelude::*;

verus! {

/// Columns of the board.
pub const COLS: i32 = 10;

/// Rows of the board, counted upwards from the bottom.
pub const ROWS: i32 = 20;

/// Column of the test piece's first cell.
pub const TEST_PIECE_COL: i32 = 3;

/// Row of the test piece: the second row from the top.
pub const TEST_PIECE_ROW: i32 = ROWS - 2;

/// Whether `(col, row)` is a cell of the board.
pub open spec fn on_board(cell: (i32, i32)) -> bool {
    0 <= cell.0 < COLS && 0 <= cell.1 < ROWS
}

/// The cells of the horizontal I-piece shown on the board: the four cells
/// `(3, 18)` to `(6, 18)`, from the test piece's column rightwards along its
/// row, in the order they are drawn.
pub fn test_piece_cells() -> (cells: Vec<(i32, i32)>)
    ensures
        cells@ == seq![(3i32, 18i32), (4i32, 18i32), (5i32, 18i32), (6i32, 18i32)],
        forall|i: int| 0 <= i < cells.len() ==> on_board(#[trigger] cells@[i]),
{
    let mut cells: Vec<(i32, i32)> = Vec::new();
    let mut dc: i32 = 0;
    while dc < 4
        invariant
            0 <= dc <= 4,
            cells@.len() == dc,
            forall|i: int|
                0 <= i < dc ==> #[trigger] cells@[i].0 == TEST_PIECE_COL + i && cells@[i].1
                    == TEST_PIECE_ROW,
        decreases 4 - dc,
    {
        cells.push((TEST_PIECE_COL + dc, TEST_PIECE_ROW));
        dc = dc + 1;
    }
    assert(cells@[0] == (3i32, 18i32) && cells@[1] == (4i32, 18i32));
    assert(cells@[2] == (5i32, 18i32) && cells@[3] == (6i32, 18i32));
    assert(cells@ =~= seq![(3i32, 18i32), (4i32, 18i32), (5i32, 18i32), (6i32, 18i32)]);
    cells
}

} // verus!
