use vstd::prelude::*;
use vstd::string::StringSliceAdditionalSpecFns;
use crate::state::GameState;

verus! {

/// Which side the computer plays.
#[derive(Clone, Copy, PartialEq, Eq, Structural, Debug)]
pub enum GameMode {
    ComputerBlack,
    ComputerWhite,
    NoComputer,
}

/// How a game is set up.
pub struct Configuration {
    pub game_mode: GameMode,
    pub search_depth_max: u32,
}

/// The search depth that is used when none is configured.
pub const DEFAULT_SEARCH_DEPTH_MAX: u32 = 11;

/// The depth of the search that analyses a position on request.
pub const ANALYSIS_DEPTH: u32 = 100;

/// What the player chose in the opening menu.
#[derive(Clone, Copy, PartialEq, Eq, Structural, Debug)]
pub enum MenuChoice {
    Play(GameMode),
    Quit,
    Unknown,
}

/// What the player asked for when it was their turn.
#[derive(Clone, Copy, PartialEq, Eq, Structural, Debug)]
pub enum Command {
    /// Make the move at this place of the list of legal moves.
    Play(usize),
    /// A number, but not that of a move in the list.
    InvalidMoveNumber,
    Analyze,
    Quit,
    InvalidInput,
}

pub const DIGIT_ZERO: u8 = 48;

pub const DIGIT_NINE: u8 = 57;

pub const PLUS_SIGN: u8 = 43;

/// The number that the decimal digits `digits` write.
pub open spec fn decimal_value(digits: Seq<u8>) -> nat
    decreases digits.len(),
{
    if digits.len() == 0 {
        0
    } else {
        (10 * decimal_value(digits.drop_last()) + (digits.last() - DIGIT_ZERO)) as nat
    }
}

/// The digits of a number text: the text without a plus sign in front.
pub open spec fn digits_of(text: Seq<u8>) -> Seq<u8> {
    if text.len() > 0 && text[0] == PLUS_SIGN {
        text.drop_first()
    } else {
        text
    }
}

/// `text` writes a number: at least one decimal digit and nothing else, but
/// for a plus sign that may stand in front.
pub open spec fn is_number_text(text: Seq<u8>) -> bool {
    &&& digits_of(text).len() > 0
    &&& forall|i: int|
        0 <= i < digits_of(text).len() ==> DIGIT_ZERO <= #[trigger] digits_of(text)[i]
            <= DIGIT_NINE
}

/// The number that `text` writes, when it writes one that is not above
/// `max`.
pub open spec fn parsed_number(text: Seq<u8>, max: nat) -> Option<nat> {
    if is_number_text(text) && decimal_value(digits_of(text)) <= max {
        Some(decimal_value(digits_of(text)))
    } else {
        None
    }
}

/// More digits never write a smaller number.
proof fn lemma_decimal_value_grows(digits: Seq<u8>, count: int)
    requires
        0 <= count <= digits.len(),
        forall|i: int| 0 <= i < digits.len() ==> DIGIT_ZERO <= #[trigger] digits[i] <= DIGIT_NINE,
    ensures
        decimal_value(digits.take(count)) <= decimal_value(digits),
    decreases digits.len() - count,
{
    if count < digits.len() {
        let longer = digits.take(count + 1);
        assert(longer.drop_last() =~= digits.take(count));
        assert(longer.last() == digits[count]);
        lemma_decimal_value_grows(digits, count + 1);
    } else {
        assert(digits.take(count) =~= digits);
    }
}

/// Reads a decimal number that is not above `max`. A plus sign may stand
/// in front of the digits.
pub fn parse_number(text: &str, max: u64) -> (number: Option<u64>)
    ensures
        match number {
            Some(value) => parsed_number(text.spec_bytes(), max as nat) == Some(value as nat),
            None => parsed_number(text.spec_bytes(), max as nat).is_none(),
        },
{
    let bytes = text.as_bytes();
    let start: usize = if bytes.len() > 0 && bytes[0] == PLUS_SIGN {
        1
    } else {
        0
    };
    if start == bytes.len() {
        return None;
    }
    let ghost digits = digits_of(bytes@);
    assert(digits =~= bytes@.subrange(start as int, bytes.len() as int));
    let mut value: u64 = 0;
    let mut i: usize = start;
    assert(digits.take(0) =~= Seq::empty());
    while i < bytes.len()
        invariant
            start <= i <= bytes.len(),
            start <= 1,
            bytes@ == text.spec_bytes(),
            digits == bytes@.subrange(start as int, bytes.len() as int),
            digits == digits_of(bytes@),
            forall|k: int| 0 <= k < i - start ==> DIGIT_ZERO <= #[trigger] digits[k] <= DIGIT_NINE,
            value == decimal_value(digits.take(i - start)),
            value <= max,
        decreases bytes.len() - i,
    {
        let byte = bytes[i];
        if byte < DIGIT_ZERO || byte > DIGIT_NINE {
            assert(digits[i - start] == byte);
            return None;
        }
        let longer: u128 = value as u128 * 10 + (byte - DIGIT_ZERO) as u128;
        proof {
            let taken = digits.take(i - start + 1);
            assert(taken.drop_last() =~= digits.take(i - start));
            assert(taken.last() == byte);
            assert(longer == decimal_value(taken));
        }
        if longer > max as u128 {
            proof {
                if is_number_text(bytes@) {
                    lemma_decimal_value_grows(digits, i - start + 1);
                }
            }
            return None;
        }
        value = longer as u64;
        i += 1;
    }
    proof {
        assert(digits.take(i - start) =~= digits);
    }
    Some(value)
}

/// The configured search depth: the number that `setting` writes, or the
/// default depth when there is no setting or it writes no number that
/// fits.
pub fn search_depth_max_from(setting: Option<&str>) -> (depth: u32)
    ensures
        depth == match setting {
            Some(text) => match parsed_number(text.spec_bytes(), u32::MAX as nat) {
                Some(value) => value,
                None => DEFAULT_SEARCH_DEPTH_MAX as nat,
            },
            None => DEFAULT_SEARCH_DEPTH_MAX as nat,
        },
{
    match setting {
        Some(text) => match parse_number(text, u32::MAX as u64) {
            Some(value) => value as u32,
            None => DEFAULT_SEARCH_DEPTH_MAX,
        },
        None => DEFAULT_SEARCH_DEPTH_MAX,
    }
}

/// Whether the computer plays the side that is to move.
pub fn is_computers_turn(game_state: &GameState, game_mode: &GameMode) -> (turn: bool)
    ensures
        turn == match *game_mode {
            GameMode::ComputerWhite => game_state.is_active_player_white,
            GameMode::ComputerBlack => !game_state.is_active_player_white,
            GameMode::NoComputer => false,
        },
{
    if *game_mode == GameMode::ComputerWhite && game_state.is_active_player_white {
        return true;
    }
    if *game_mode == GameMode::ComputerBlack && !game_state.is_active_player_white {
        return true;
    }
    false
}

/// The choice that a line of the opening menu stands for: `b` lets the
/// player have black, `w` white, `h` both sides, and `q` quits.
pub open spec fn menu_choice_of(input: Seq<u8>) -> MenuChoice {
    if input == seq![98u8] {
        MenuChoice::Play(GameMode::ComputerWhite)
    } else if input == seq![119u8] {
        MenuChoice::Play(GameMode::ComputerBlack)
    } else if input == seq![104u8] {
        MenuChoice::Play(GameMode::NoComputer)
    } else if input == seq![113u8] {
        MenuChoice::Quit
    } else {
        MenuChoice::Unknown
    }
}

/// Reads a line of the opening menu.
pub fn read_menu_choice(input: &str) -> (choice: MenuChoice)
    ensures
        choice == menu_choice_of(input.spec_bytes()),
{
    let bytes = input.as_bytes();
    if bytes.len() != 1 {
        return MenuChoice::Unknown;
    }
    let letter = bytes[0];
    assert(bytes@ =~= seq![letter]);
    if letter == 98 {
        MenuChoice::Play(GameMode::ComputerWhite)
    } else if letter == 119 {
        MenuChoice::Play(GameMode::ComputerBlack)
    } else if letter == 104 {
        MenuChoice::Play(GameMode::NoComputer)
    } else if letter == 113 {
        MenuChoice::Quit
    } else {
        MenuChoice::Unknown
    }
}

/// The command that a line stands for when `moves_len` moves are on offer.
/// A number picks a move, counted from one; `a` asks for an analysis and
/// `q` quits.
pub open spec fn command_of(input: Seq<u8>, moves_len: nat) -> Command {
    match parsed_number(input, usize::MAX as nat) {
        Some(number) => if number == 0 || number > moves_len {
            Command::InvalidMoveNumber
        } else {
            Command::Play((number - 1) as usize)
        },
        None => if input == seq![97u8] {
            Command::Analyze
        } else if input == seq![113u8] {
            Command::Quit
        } else {
            Command::InvalidInput
        },
    }
}

/// Reads a line of the player whose turn it is.
pub fn read_command(input: &str, moves_len: usize) -> (command: Command)
    ensures
        command == command_of(input.spec_bytes(), moves_len as nat),
{
    if let Some(number) = parse_number(input, usize::MAX as u64) {
        if number == 0 || number > moves_len as u64 {
            return Command::InvalidMoveNumber;
        }
        return Command::Play((number - 1) as usize);
    }
    let bytes = input.as_bytes();
    if bytes.len() != 1 {
        return Command::InvalidInput;
    }
    let letter = bytes[0];
    assert(bytes@ =~= seq![letter]);
    if letter == 97 {
        Command::Analyze
    } else if letter == 113 {
        Command::Quit
    } else {
        Command::InvalidInput
    }
}

} // verus!
