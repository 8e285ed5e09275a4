use uisge::gui::{
    is_computers_turn, parse_number, read_command, read_menu_choice, search_depth_max_from,
    Command, Configuration, GameMode, MenuChoice, ANALYSIS_DEPTH, DEFAULT_SEARCH_DEPTH_MAX,
};
use uisge::move_gen::Move;
use uisge::state::GameState;

#[test]
fn test_is_computers_turn() {
    let mut game_state = GameState::new();
    assert_eq!(is_computers_turn(&game_state, &GameMode::ComputerWhite), true);
    assert_eq!(is_computers_turn(&game_state, &GameMode::ComputerBlack), false);
    assert_eq!(is_computers_turn(&game_state, &GameMode::NoComputer), false);

    game_state.make_move(Move::new(9, 11));
    assert_eq!(is_computers_turn(&game_state, &GameMode::ComputerWhite), false);
    assert_eq!(is_computers_turn(&game_state, &GameMode::ComputerBlack), true);
    assert_eq!(is_computers_turn(&game_state, &GameMode::NoComputer), false);
}

#[test]
fn test_configuration_holds_mode_and_depth() {
    let config = Configuration {
        game_mode: GameMode::NoComputer,
        search_depth_max: 7,
    };
    assert_eq!(config.game_mode, GameMode::NoComputer);
    assert_eq!(config.search_depth_max, 7);
}

#[test]
fn test_parse_number() {
    assert_eq!(parse_number("0", 10), Some(0));
    assert_eq!(parse_number("7", 10), Some(7));
    assert_eq!(parse_number("10", 10), Some(10));
    assert_eq!(parse_number("11", 10), None);
    assert_eq!(parse_number("+5", 10), Some(5));
    assert_eq!(parse_number("007", 10), Some(7));
    assert_eq!(parse_number("", 10), None);
    assert_eq!(parse_number("+", 10), None);
    assert_eq!(parse_number("-5", 10), None);
    assert_eq!(parse_number("5 ", 10), None);
    assert_eq!(parse_number(" 5", 10), None);
    assert_eq!(parse_number("5a", 10), None);
    assert_eq!(parse_number("++5", 10), None);
    assert_eq!(parse_number("18446744073709551615", u64::MAX), Some(u64::MAX));
    assert_eq!(parse_number("18446744073709551616", u64::MAX), None);
    assert_eq!(parse_number("99999999999999999999999999", u64::MAX), None);
}

#[test]
fn test_search_depth_max_from() {
    assert_eq!(DEFAULT_SEARCH_DEPTH_MAX, 11);
    assert_eq!(search_depth_max_from(None), 11);
    assert_eq!(search_depth_max_from(Some("5")), 5);
    assert_eq!(search_depth_max_from(Some("0")), 0);
    assert_eq!(search_depth_max_from(Some("4294967295")), 4294967295);
    assert_eq!(search_depth_max_from(Some("4294967296")), 11);
    assert_eq!(search_depth_max_from(Some("deep")), 11);
    assert_eq!(search_depth_max_from(Some("")), 11);
    assert_eq!(search_depth_max_from(Some("-3")), 11);
    assert_eq!(search_depth_max_from(Some("3.5")), 11);
}

#[test]
fn test_read_menu_choice() {
    assert_eq!(read_menu_choice("b"), MenuChoice::Play(GameMode::ComputerWhite));
    assert_eq!(read_menu_choice("w"), MenuChoice::Play(GameMode::ComputerBlack));
    assert_eq!(read_menu_choice("h"), MenuChoice::Play(GameMode::NoComputer));
    assert_eq!(read_menu_choice("q"), MenuChoice::Quit);
    assert_eq!(read_menu_choice(""), MenuChoice::Unknown);
    assert_eq!(read_menu_choice("B"), MenuChoice::Unknown);
    assert_eq!(read_menu_choice("bw"), MenuChoice::Unknown);
    assert_eq!(read_menu_choice("x"), MenuChoice::Unknown);
}

#[test]
fn test_read_command() {
    assert_eq!(read_command("1", 4), Command::Play(0));
    assert_eq!(read_command("4", 4), Command::Play(3));
    assert_eq!(read_command("+2", 4), Command::Play(1));
    assert_eq!(read_command("0", 4), Command::InvalidMoveNumber);
    assert_eq!(read_command("5", 4), Command::InvalidMoveNumber);
    assert_eq!(read_command("1", 0), Command::InvalidMoveNumber);
    assert_eq!(read_command("a", 4), Command::Analyze);
    assert_eq!(read_command("q", 4), Command::Quit);
    assert_eq!(read_command("", 4), Command::InvalidInput);
    assert_eq!(read_command("aq", 4), Command::InvalidInput);
    assert_eq!(read_command("-1", 4), Command::InvalidInput);
    assert_eq!(read_command("one", 4), Command::InvalidInput);
    assert_eq!(
        read_command("99999999999999999999999999", 4),
        Command::InvalidInput
    );
}

#[test]
fn test_analysis_depth() {
    assert_eq!(ANALYSIS_DEPTH, 100);
}
