use uisge::piece_list::PieceList;
use uisge::state::{Board, GameState, Piece};

#[test]
fn test_opening_board() {
    let board = Board::new();
    assert_eq!(board.piece_bits, 0b000000000110000111100001111000011000000000);
    assert_eq!(board.white_kings, PieceList::new());
    assert_eq!(board.black_kings, PieceList::new());
    assert_eq!(board.white_pawns, PieceList::from_vec(vec![9, 10, 15, 16, 17, 18]));
    assert_eq!(board.black_pawns, PieceList::from_vec(vec![23, 24, 25, 26, 31, 32]));
}

#[test]
fn test_opening_occupancy_is_the_union_of_the_lists() {
    let board = Board::new();
    let mut union: u64 = 0;
    for list in [board.white_kings, board.white_pawns, board.black_kings, board.black_pawns] {
        for cell in list.to_array() {
            if cell != 255 {
                assert_eq!(union & (1 << cell), 0);
                union |= 1 << cell;
            }
        }
    }
    assert_eq!(union, board.piece_bits);
}

#[test]
fn test_new_game_state() {
    let game_state = GameState::new();
    assert_eq!(game_state.board, Board::new());
    assert_eq!(game_state.is_active_player_white, true);
    assert_eq!(game_state.move_count, 0);
}

#[test]
fn test_get_active_pieces_follows_the_side_to_move() {
    let mut game_state = GameState::new();
    game_state.board.white_kings = PieceList::from_vec(vec![1]);
    game_state.board.black_kings = PieceList::from_vec(vec![40]);

    assert_eq!(game_state.get_active_kings(), PieceList::from_vec(vec![1]));
    assert_eq!(
        game_state.get_active_pieces(),
        (
            PieceList::from_vec(vec![1]),
            PieceList::from_vec(vec![9, 10, 15, 16, 17, 18])
        )
    );

    game_state.is_active_player_white = false;
    assert_eq!(game_state.get_active_kings(), PieceList::from_vec(vec![40]));
    assert_eq!(
        game_state.get_active_pieces(),
        (
            PieceList::from_vec(vec![40]),
            PieceList::from_vec(vec![23, 24, 25, 26, 31, 32])
        )
    );
}

#[test]
fn test_set_active_pieces_writes_the_side_to_move() {
    let mut game_state = GameState::new();
    let kings = PieceList::from_vec(vec![3]);
    let pawns = PieceList::from_vec(vec![4, 5]);

    game_state.set_active_pieces(kings, pawns);
    assert_eq!(game_state.board.white_kings, kings);
    assert_eq!(game_state.board.white_pawns, pawns);
    assert_eq!(game_state.board.black_kings, PieceList::new());
    assert_eq!(
        game_state.board.black_pawns,
        PieceList::from_vec(vec![23, 24, 25, 26, 31, 32])
    );

    let mut game_state = GameState::new();
    game_state.is_active_player_white = false;
    game_state.set_active_pieces(kings, pawns);
    assert_eq!(game_state.board.black_kings, kings);
    assert_eq!(game_state.board.black_pawns, pawns);
    assert_eq!(game_state.board.white_kings, PieceList::new());
    assert_eq!(
        game_state.board.white_pawns,
        PieceList::from_vec(vec![9, 10, 15, 16, 17, 18])
    );
}

#[test]
fn test_piece_at() {
    let mut board = Board::new();
    assert_eq!(board.piece_at(9), Some(Piece::WhitePawn));
    assert_eq!(board.piece_at(18), Some(Piece::WhitePawn));
    assert_eq!(board.piece_at(23), Some(Piece::BlackPawn));
    assert_eq!(board.piece_at(32), Some(Piece::BlackPawn));
    assert_eq!(board.piece_at(0), None);
    assert_eq!(board.piece_at(41), None);
    assert_eq!(board.piece_at(255), None);

    board.white_kings = PieceList::from_vec(vec![2]);
    board.black_kings = PieceList::from_vec(vec![40]);
    assert_eq!(board.piece_at(2), Some(Piece::WhiteKing));
    assert_eq!(board.piece_at(40), Some(Piece::BlackKing));
}

#[test]
fn test_piece_grid() {
    let grid = Board::new().piece_grid();
    assert_eq!(grid.len(), 42);
    for cell in 0..42usize {
        let expected = if [9, 10, 15, 16, 17, 18].contains(&cell) {
            Some(Piece::WhitePawn)
        } else if [23, 24, 25, 26, 31, 32].contains(&cell) {
            Some(Piece::BlackPawn)
        } else {
            None
        };
        assert_eq!(grid[cell], expected);
    }
}

#[test]
fn test_opening_is_sound() {
    assert_eq!(Board::new().is_sound(), true);
    assert_eq!(GameState::new().is_sound(), true);
}

#[test]
fn test_unsound_boards() {
    // a piece that the mask does not hold
    let mut board = Board::new();
    board.white_kings = PieceList::from_vec(vec![0]);
    assert_eq!(board.is_sound(), false);
    board.piece_bits |= 1;
    assert_eq!(board.is_sound(), true);

    // a cell of the mask that no list holds
    let mut board = Board::new();
    board.piece_bits |= 1 << 41;
    assert_eq!(board.is_sound(), false);

    // a cell in two lists
    let mut board = Board::new();
    board.black_kings = PieceList::from_vec(vec![9]);
    assert_eq!(board.is_sound(), false);

    // a cell twice in one list
    let mut board = Board::new();
    board.white_pawns = PieceList::from_vec(vec![9, 9, 10, 15, 16, 17, 18]);
    assert_eq!(board.is_sound(), false);

    // a piece off the board
    let mut board = Board::new();
    board.white_kings = PieceList::from_vec(vec![42]);
    board.piece_bits |= 1 << 42;
    assert_eq!(board.is_sound(), false);

    // a piece behind a sentinel
    let mut board = Board::new();
    board.white_kings = PieceList::from_u64(0xffffffffff00ffff);
    assert_eq!(board.is_sound(), false);

    // more pieces of one side than a list can take
    let mut board = Board::new();
    board.white_kings = PieceList::from_vec(vec![0, 1]);
    board.piece_bits |= 0b11;
    assert_eq!(board.is_sound(), false);
}

#[test]
fn test_play_keeps_the_state_sound() {
    let mut game_state = GameState::new();
    for round in 0..30usize {
        let moves = game_state.generate_moves();
        if moves.is_empty() {
            break;
        }
        game_state.make_move(moves[(round * 7) % moves.len()]);
        assert_eq!(game_state.is_sound(), true);
    }
}
