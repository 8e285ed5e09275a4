use uisge::move_gen::{file_letter, rank_number, Move};
use uisge::piece_list::PieceList;
use uisge::state::GameState;
use uisge::valid_board_gen::is_connected;

fn list(game_state_list: PieceList) -> Vec<u8> {
    game_state_list
        .to_array()
        .iter()
        .copied()
        .take_while(|cell| *cell != 255)
        .collect()
}

fn piece_count(game_state: &GameState) -> usize {
    game_state.board.white_kings.len()
        + game_state.board.white_pawns.len()
        + game_state.board.black_kings.len()
        + game_state.board.black_pawns.len()
}

fn occupancy_of_lists(game_state: &GameState) -> u64 {
    let board = &game_state.board;
    let mut union: u64 = 0;
    for pieces in [board.white_kings, board.white_pawns, board.black_kings, board.black_pawns] {
        for cell in list(pieces) {
            assert!(cell < 42);
            assert_eq!(union & (1 << cell), 0);
            union |= 1 << cell;
        }
    }
    union
}

#[test]
fn test_generate_moves_from_initial_position() {
    let game_state = GameState::new();

    let moves = game_state.generate_moves();

    assert_eq!(
        moves,
        vec![
            Move::new(9, 11),
            Move::new(10, 8),
            Move::new(17, 3),
            Move::new(17, 19),
        ]
    );
}

#[test]
fn test_is_jump() {
    assert_eq!(Move::new(9, 11).is_jump(), true);
    assert_eq!(Move::new(11, 9).is_jump(), true);
    assert_eq!(Move::new(17, 3).is_jump(), true);
    assert_eq!(Move::new(3, 17).is_jump(), true);
    assert_eq!(Move::new(9, 10).is_jump(), false);
    assert_eq!(Move::new(9, 16).is_jump(), false);
    assert_eq!(Move::new(9, 2).is_jump(), false);
    assert_eq!(Move::new(9, 1).is_jump(), false);
    assert_eq!(Move::new(9, 9).is_jump(), false);
    assert_eq!(Move::new(0, 254).is_jump(), false);
    assert_eq!(Move::new(255, 253).is_jump(), true);
}

#[test]
fn test_moves_compare_by_their_cells() {
    assert_eq!(Move::new(1, 2), Move::new(1, 2));
    assert_ne!(Move::new(1, 2), Move::new(2, 1));
    assert_eq!(Move::new(4, 18).from, 4);
    assert_eq!(Move::new(4, 18).to, 18);
}

#[test]
fn test_generate_moves_twice_gives_the_same_list() {
    let mut game_state = GameState::new();
    assert_eq!(game_state.generate_moves(), game_state.generate_moves());
    game_state.make_move(Move::new(9, 11));
    assert_eq!(game_state.generate_moves(), game_state.generate_moves());
}

#[test]
fn test_pawn_jump_makes_a_king() {
    let mut game_state = GameState::new();
    game_state.make_move(Move::new(9, 11));

    assert_eq!(list(game_state.board.white_kings), vec![11]);
    assert_eq!(list(game_state.board.white_pawns), vec![10, 15, 16, 17, 18]);
    assert_eq!(list(game_state.board.black_kings), Vec::<u8>::new());
    assert_eq!(list(game_state.board.black_pawns), vec![23, 24, 25, 26, 31, 32]);
    assert_eq!(game_state.board.piece_bits, 0x187878c00);
    assert_eq!(game_state.is_active_player_white, false);
    assert_eq!(game_state.move_count, 1);
}

#[test]
fn test_generate_moves_for_black() {
    let mut game_state = GameState::new();
    game_state.make_move(Move::new(9, 11));

    assert_eq!(
        game_state.generate_moves(),
        vec![
            Move::new(23, 9),
            Move::new(24, 22),
            Move::new(24, 38),
            Move::new(31, 33),
            Move::new(32, 30),
        ]
    );
}

#[test]
fn test_kings_come_before_pawns() {
    let mut game_state = GameState::new();
    game_state.make_move(Move::new(9, 11));
    game_state.make_move(Move::new(23, 9));

    assert_eq!(list(game_state.board.black_kings), vec![9]);
    assert_eq!(list(game_state.board.black_pawns), vec![24, 25, 26, 31, 32]);
    assert_eq!(game_state.board.piece_bits, 0x187078e00);
    assert_eq!(game_state.is_active_player_white, true);
    assert_eq!(game_state.move_count, 2);
    assert_eq!(
        game_state.generate_moves(),
        vec![
            Move::new(11, 3),
            Move::new(11, 19),
            Move::new(10, 8),
            Move::new(10, 12),
            Move::new(17, 3),
            Move::new(17, 19),
            Move::new(18, 4),
        ]
    );
}

#[test]
fn test_king_jump_makes_a_pawn() {
    let mut game_state = GameState::new();
    game_state.make_move(Move::new(9, 11));
    game_state.make_move(Move::new(24, 22));

    assert_eq!(
        game_state.generate_moves(),
        vec![
            Move::new(11, 9),
            Move::new(11, 3),
            Move::new(11, 19),
            Move::new(10, 12),
            Move::new(10, 24),
            Move::new(15, 29),
            Move::new(16, 30),
        ]
    );

    game_state.make_move(Move::new(11, 9));

    assert_eq!(list(game_state.board.white_kings), Vec::<u8>::new());
    assert_eq!(list(game_state.board.white_pawns), vec![9, 10, 15, 16, 17, 18]);
    assert_eq!(list(game_state.board.black_kings), vec![22]);
    assert_eq!(list(game_state.board.black_pawns), vec![23, 25, 26, 31, 32]);
    assert_eq!(game_state.board.piece_bits, 0x186c78600);
    assert_eq!(game_state.is_active_player_white, false);
    assert_eq!(game_state.move_count, 3);
}

#[test]
fn test_king_step_to_a_diagonal_cell() {
    let mut game_state = GameState::new();
    game_state.make_move(Move::new(9, 11));
    game_state.make_move(Move::new(23, 9));
    game_state.make_move(Move::new(11, 3));

    assert_eq!(list(game_state.board.white_kings), vec![3]);
    assert_eq!(list(game_state.board.white_pawns), vec![10, 15, 16, 17, 18]);
    assert_eq!(game_state.board.piece_bits, 0x187078608);
    assert_eq!(game_state.is_active_player_white, false);
    assert_eq!(game_state.move_count, 3);
}

#[test]
fn test_king_step_keeps_the_king() {
    let mut game_state = GameState::new();
    game_state.board.piece_bits = 0b11;
    game_state.board.white_kings = PieceList::from_vec(vec![0]);
    game_state.board.white_pawns = PieceList::new();
    game_state.board.black_kings = PieceList::new();
    game_state.board.black_pawns = PieceList::from_vec(vec![1]);

    assert_eq!(
        game_state.generate_moves(),
        vec![Move::new(0, 2), Move::new(0, 8)]
    );

    game_state.make_move(Move::new(0, 8));
    assert_eq!(list(game_state.board.white_kings), vec![8]);
    assert_eq!(list(game_state.board.white_pawns), Vec::<u8>::new());
    assert_eq!(list(game_state.board.black_pawns), vec![1]);
    assert_eq!(game_state.board.piece_bits, (1 << 8) | (1 << 1));
    assert_eq!(game_state.is_active_player_white, false);
    assert_eq!(game_state.move_count, 1);
}

#[test]
fn test_pawns_never_step() {
    let mut game_state = GameState::new();
    game_state.board.piece_bits = 0b11;
    game_state.board.white_kings = PieceList::from_vec(vec![0]);
    game_state.board.white_pawns = PieceList::new();
    game_state.board.black_kings = PieceList::new();
    game_state.board.black_pawns = PieceList::from_vec(vec![1]);
    game_state.is_active_player_white = false;

    assert_eq!(game_state.generate_moves(), Vec::<Move>::new());
}

#[test]
fn test_lonely_pawn_has_no_move() {
    let mut game_state = GameState::new();
    game_state.board.piece_bits = 1;
    game_state.board.white_pawns = PieceList::from_vec(vec![0]);
    game_state.board.black_pawns = PieceList::new();

    assert_eq!(game_state.generate_moves(), Vec::<Move>::new());
}

#[test]
fn test_every_generated_move_keeps_one_group() {
    let mut game_state = GameState::new();
    for _ in 0..12 {
        let moves = game_state.generate_moves();
        if moves.is_empty() {
            break;
        }
        for mov in moves.iter() {
            let mut reply = game_state;
            reply.make_move(*mov);
            assert_eq!(is_connected(reply.board.piece_bits, mov.to), true);
        }
        game_state.make_move(moves[moves.len() / 2]);
    }
}

#[test]
fn test_make_move_keeps_lists_and_occupancy_in_step() {
    let mut game_state = GameState::new();
    assert_eq!(occupancy_of_lists(&game_state), game_state.board.piece_bits);
    for round in 0..20usize {
        let moves = game_state.generate_moves();
        if moves.is_empty() {
            break;
        }
        game_state.make_move(moves[round % moves.len()]);
        assert_eq!(occupancy_of_lists(&game_state), game_state.board.piece_bits);
        assert_eq!(piece_count(&game_state), 12);
        assert_eq!(game_state.move_count, round as u32 + 1);
        assert_eq!(game_state.is_active_player_white, round % 2 == 1);
    }
}

#[test]
fn test_cell_labels() {
    assert_eq!(file_letter(0), 'a');
    assert_eq!(file_letter(6), 'g');
    assert_eq!(file_letter(7), 'a');
    assert_eq!(file_letter(41), 'g');
    assert_eq!(file_letter(17), 'd');
    assert_eq!(rank_number(0), 1);
    assert_eq!(rank_number(6), 1);
    assert_eq!(rank_number(7), 2);
    assert_eq!(rank_number(41), 6);
    assert_eq!(rank_number(17), 3);
}
