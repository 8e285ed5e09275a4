use vstd::prelude::*;
use crate::bit_utils::{cells, lemma_combined_cells, set_board_bit};
use crate::constants::{BitBoard, BoardIndex, BOARD_WIDTH};

verus! {

/// `to` is one of the up to eight cells that surround `from`.
pub open spec fn is_step(from: nat, to: nat) -> bool {
    &&& from < 42
    &&& to < 42
    &&& from != to
    &&& -1 <= from % 7 - to % 7 <= 1
    &&& -1 <= from / 7 - to / 7 <= 1
}

/// `to` lies two cells away from `from` along its row or its column.
pub open spec fn is_jump(from: nat, to: nat) -> bool {
    &&& from < 42
    &&& to < 42
    &&& {
        ||| from / 7 == to / 7 && (from + 2 == to || to + 2 == from)
        ||| from + 14 == to
        ||| to + 14 == from
    }
}

/// The cells a king on `from` can step to on an empty board.
pub fn king_moves(from: BoardIndex) -> (mask: BitBoard)
    requires
        from < 42,
    ensures
        cells(mask) == Set::new(|to: nat| is_step(from as nat, to)),
{
    let x: u8 = from % BOARD_WIDTH;
    let y: u8 = from / BOARD_WIDTH;
    let left: u8 = x.wrapping_sub(1);
    let above: u8 = y.wrapping_sub(1);
    proof {
        lemma_combined_cells(0, 0);
    }
    let mut bits: BitBoard = 0;
    bits = set_board_bit(bits, left, above);
    bits = set_board_bit(bits, x, above);
    bits = set_board_bit(bits, x + 1, above);
    bits = set_board_bit(bits, left, y);
    bits = set_board_bit(bits, x + 1, y);
    bits = set_board_bit(bits, left, y + 1);
    bits = set_board_bit(bits, x, y + 1);
    bits = set_board_bit(bits, x + 1, y + 1);
    assert(cells(bits) =~= Set::new(|to: nat| is_step(from as nat, to)));
    bits
}

/// The cells a piece on `from` can jump to on an empty board.
pub fn jump_moves(from: BoardIndex) -> (mask: BitBoard)
    requires
        from < 42,
    ensures
        cells(mask) == Set::new(|to: nat| is_jump(from as nat, to)),
{
    let x: u8 = from % BOARD_WIDTH;
    let y: u8 = from / BOARD_WIDTH;
    proof {
        lemma_combined_cells(0, 0);
    }
    let mut bits: BitBoard = 0;
    bits = set_board_bit(bits, x, y.wrapping_sub(2));
    bits = set_board_bit(bits, x.wrapping_sub(2), y);
    bits = set_board_bit(bits, x + 2, y);
    bits = set_board_bit(bits, x, y + 2);
    assert(cells(bits) =~= Set::new(|to: nat| is_jump(from as nat, to)));
    bits
}

} // verus!
