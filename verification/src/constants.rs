use vstd::prelude::*;
use crate::bit_utils::{has_cell, lemma_combined_cells, lemma_insert_cell};

verus! {

/// Occupancy mask: bit `i` is set when cell `i` holds a piece.
pub type BitBoard = u64;

/// Row-major index of a cell, `BOARD_WIDTH * y + x`.
pub type BoardIndex = u8;

/// The eight slots of a piece list, front first.
pub type BoardIndexList = [BoardIndex; 8];

/// The number of cells in a row.
pub const BOARD_WIDTH: u8 = 7;

/// The number of rows.
pub const BOARD_HEIGHT: u8 = 6;

/// The number of cells of the board.
pub const BOARD_TOTAL_PIECES: u8 = 42;

/// Lower end of the search window; the score of a side that cannot move.
pub const SCORE_MIN: i32 = -2147483647;

/// Upper end of the search window.
pub const SCORE_MAX: i32 = 2147483647;

/// Score of a side by the number of its kings, rising with each king.
pub const SCORE_KING_COUNT: [i32; 8] = [0, 1000, 2200, 3600, 5200, 7000, 100000, 100000];

/// Builds a board from one digit per cell, cell 0 first.
pub fn make_board(bits: [u8; 42]) -> (board: BitBoard)
    ensures
        forall|cell: nat| has_cell(board, cell) <==> cell < 42 && bits[cell as int] != 0,
{
    let mut board: BitBoard = 0;
    let mut i: usize = 0;
    proof {
        lemma_combined_cells(0, 0);
    }
    while i < 42
        invariant
            i <= 42,
            forall|cell: nat| has_cell(board, cell) <==> cell < i && bits[cell as int] != 0,
        decreases 42 - i,
    {
        if bits[i] != 0 {
            proof {
                lemma_insert_cell(board, i as u64);
            }
            board |= 1u64 << i;
        }
        i += 1;
    }
    board
}

} // verus!
