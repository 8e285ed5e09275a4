use uisge::constants::BitBoard;
use uisge::valid_board_gen::{
    boards_to_bytes, bytes_to_boards, flood_fill, is_connected, make_board, next_placement,
    unset_bit,
};

#[test]
fn test_boards_to_bytes() {
    let mut x = Vec::<BitBoard>::new();
    x.push(5345345345234243);
    x.push(143954759751381111);

    let a = boards_to_bytes(&x);
    let b = bytes_to_boards(&a);

    assert_eq!(a.len(), 16);
    assert_eq!(b.len(), 2);
    assert_eq!(x, b);
}

#[test]
fn test_is_connected() {
    let x = make_board(
        "\
            0001000\
            0011100\
            0011111\
            0000010\
            0000010\
            0000010\
        ",
    );

    assert_eq!(is_connected(x, 1), true);
    assert_eq!(is_connected(x, 38), true);
    assert_eq!(is_connected(x, 0), false);

    let x = make_board(
        "\
            0001000\
            0011100\
            0011101\
            0000010\
            0000010\
            0000010\
        ",
    );

    assert_eq!(is_connected(x, 1), false);
    assert_eq!(is_connected(x, 38), false);

    let x = make_board(
        "\
            0000000\
            0000000\
            0000000\
            0000101\
            1111110\
            1001011\
        ",
    );

    assert_eq!(is_connected(x, 0), false);
}

#[test]
fn test_unset_bit() {
    let x = make_board(
        "\
            0001000\
            0011100\
            0011111\
            0000010\
            0000010\
            0000010\
        ",
    );
    assert_eq!(x, 0b000100000111000011111000001000000100000010);
    assert_eq!(
        unset_bit(x, 0, 0),
        0b000100000111000011111000001000000100000010
    );
    assert_eq!(
        unset_bit(x, 1, 0),
        0b000100000111000011111000001000000100000000
    );
    assert_eq!(
        unset_bit(x, 1, 1),
        0b000100000111000011111000001000000000000010
    );
    assert_eq!(
        unset_bit(x, 1, 2),
        0b000100000111000011111000000000000100000010
    );
}

#[test]
fn test_unset_bit_off_board_changes_nothing() {
    assert_eq!(unset_bit(u64::MAX, 7, 0), u64::MAX);
    assert_eq!(unset_bit(u64::MAX, 0, 6), u64::MAX);
    assert_eq!(unset_bit(u64::MAX, 255, 255), u64::MAX);
    assert_eq!(unset_bit(u64::MAX, 6, 5), u64::MAX ^ (1 << 41));
}

#[test]
fn test_make_board_reads_binary_text() {
    assert_eq!(make_board("0"), 0);
    assert_eq!(make_board("1"), 1);
    assert_eq!(make_board("101"), 5);
    assert_eq!(make_board("+101"), 5);
    assert_eq!(make_board("+0"), 0);
    assert_eq!(make_board("00000000000000000000000000000000000000000000000000000000000000000000011"), 3);
    assert_eq!(make_board("000000000110000111100001111000011000000000"), 0x1_8787_8600);
    assert_eq!(
        make_board("1111111111111111111111111111111111111111111111111111111111111111"),
        u64::MAX
    );
}

#[test]
fn test_single_piece_is_connected() {
    for cell in 0..42u8 {
        assert_eq!(is_connected(1 << cell, cell), true);
    }
}

#[test]
fn test_single_piece_not_connected_from_elsewhere() {
    assert_eq!(is_connected(1 << 10, 11), false);
    assert_eq!(is_connected(1 << 10, 3), false);
}

#[test]
fn test_empty_board_is_connected_from_anywhere() {
    assert_eq!(is_connected(0, 0), true);
    assert_eq!(is_connected(0, 41), true);
    assert_eq!(is_connected(0, 200), true);
}

#[test]
fn test_two_clusters_are_not_connected_from_either() {
    // cells 0 and 1 on one side, cells 40 and 41 on the other
    let x: BitBoard = 0b11 | (0b11 << 40);
    assert_eq!(is_connected(x, 0), false);
    assert_eq!(is_connected(x, 1), false);
    assert_eq!(is_connected(x, 40), false);
    assert_eq!(is_connected(x, 41), false);
}

#[test]
fn test_diagonal_neighbours_are_not_connected() {
    // cells 0 and 8 touch only at a corner
    let x: BitBoard = 1 | (1 << 8);
    assert_eq!(is_connected(x, 0), false);
    assert_eq!(is_connected(x, 8), false);
}

#[test]
fn test_row_ends_are_not_neighbours() {
    // cell 6 ends the first row, cell 7 begins the second
    let x: BitBoard = (1 << 6) | (1 << 7);
    assert_eq!(is_connected(x, 6), false);
    assert_eq!(is_connected(x, 7), false);
    // cells 6 and 13 lie in one column
    let x: BitBoard = (1 << 6) | (1 << 13);
    assert_eq!(is_connected(x, 6), true);
    assert_eq!(is_connected(x, 13), true);
}

#[test]
fn test_bits_beyond_the_board_are_never_reached() {
    let x: BitBoard = 1 | (1 << 42);
    assert_eq!(is_connected(x, 0), false);
    assert_eq!(is_connected(1 << 50, 50), false);
}

#[test]
fn test_full_board_is_connected() {
    let x: BitBoard = (1 << 42) - 1;
    assert_eq!(is_connected(x, 0), true);
    assert_eq!(is_connected(x, 20), true);
    assert_eq!(is_connected(x, 41), true);
    assert_eq!(is_connected(x, 42), false);
}

#[test]
fn test_flood_fill_leaves_the_other_group() {
    let x: BitBoard = 0b11 | (0b11 << 40);
    assert_eq!(flood_fill(x, 0, 0), 0b11 << 40);
    assert_eq!(flood_fill(x, 6, 5), 0b11);
    assert_eq!(flood_fill(x, 3, 3), x);
    assert_eq!(flood_fill(x, 7, 0), x);
}

#[test]
fn test_boards_to_bytes_is_big_endian() {
    let bytes = boards_to_bytes(&vec![0x0102030405060708, 1]);
    assert_eq!(
        bytes,
        vec![1, 2, 3, 4, 5, 6, 7, 8, 0, 0, 0, 0, 0, 0, 0, 1]
    );
    assert_eq!(boards_to_bytes(&Vec::new()), Vec::<u8>::new());
}

#[test]
fn test_bytes_to_boards_drops_incomplete_tail() {
    let boards = bytes_to_boards(&vec![0, 0, 0, 0, 0, 0, 1, 2, 9, 9, 9]);
    assert_eq!(boards, vec![0x0102]);
    assert_eq!(bytes_to_boards(&vec![1, 2, 3]), Vec::<BitBoard>::new());
}

#[test]
fn test_next_placement() {
    assert_eq!(next_placement(0b0001), 0b0010);
    assert_eq!(next_placement(0b0011), 0b0101);
    assert_eq!(next_placement(0b0101), 0b0110);
    assert_eq!(next_placement(0b0110), 0b1001);
    assert_eq!(next_placement(0b1110), 0b10011);
    assert_eq!(next_placement(0b1011_0000), 0b1100_0001);
    assert_eq!(next_placement(4095), 0b1_0111_1111_1111);
    assert_eq!(next_placement(1 << 62), 1 << 63);
    assert_eq!(next_placement((1 << 63) - 1), (1 << 63) | ((1 << 62) - 1));
}

#[test]
fn test_next_placement_counts_all_placements_of_two_pieces_on_five_cells() {
    let mut v: BitBoard = 0b11;
    let mut seen = vec![v];
    while v < 0b11000 {
        let w = next_placement(v);
        assert!(w > v);
        assert_eq!(w.count_ones(), 2);
        seen.push(w);
        v = w;
    }
    assert_eq!(
        seen,
        vec![
            0b00011, 0b00101, 0b00110, 0b01001, 0b01010, 0b01100, 0b10001, 0b10010, 0b10100,
            0b11000
        ]
    );
}
