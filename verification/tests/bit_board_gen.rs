use uisge::bit_board_gen::{jump_moves, king_moves};
use uisge::bit_utils::get_bit_indices;

#[test]
fn test_king_moves_in_a_corner() {
    assert_eq!(get_bit_indices(king_moves(0)), vec![1, 7, 8]);
    assert_eq!(get_bit_indices(king_moves(6)), vec![5, 12, 13]);
    assert_eq!(get_bit_indices(king_moves(35)), vec![28, 29, 36]);
    assert_eq!(get_bit_indices(king_moves(41)), vec![33, 34, 40]);
}

#[test]
fn test_king_moves_in_the_middle() {
    assert_eq!(
        get_bit_indices(king_moves(17)),
        vec![9, 10, 11, 16, 18, 23, 24, 25]
    );
}

#[test]
fn test_king_moves_on_an_edge() {
    assert_eq!(get_bit_indices(king_moves(7)), vec![0, 1, 8, 14, 15]);
    assert_eq!(get_bit_indices(king_moves(3)), vec![2, 4, 9, 10, 11]);
}

#[test]
fn test_jump_moves_in_a_corner() {
    assert_eq!(get_bit_indices(jump_moves(0)), vec![2, 14]);
    assert_eq!(get_bit_indices(jump_moves(41)), vec![27, 39]);
}

#[test]
fn test_jump_moves_in_the_middle() {
    assert_eq!(get_bit_indices(jump_moves(17)), vec![3, 15, 19, 31]);
}

#[test]
fn test_jump_moves_do_not_wrap_rows() {
    assert_eq!(get_bit_indices(jump_moves(5)), vec![3, 19]);
    assert_eq!(get_bit_indices(jump_moves(8)), vec![10, 22]);
    assert_eq!(get_bit_indices(jump_moves(13)), vec![11, 27]);
}

#[test]
fn test_neighbour_masks_stay_on_the_board() {
    for from in 0..42u8 {
        assert_eq!(king_moves(from) >> 42, 0);
        assert_eq!(jump_moves(from) >> 42, 0);
        assert_eq!(king_moves(from) & (1 << from), 0);
        assert_eq!(jump_moves(from) & (1 << from), 0);
    }
}
