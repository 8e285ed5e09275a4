use vstd::prelude::*;
use vstd::string::StringSliceAdditionalSpecFns;
use crate::bit_utils::{
    cells, has_cell, is_board_bit_set, lemma_cells_injective, lemma_combined_cells,
    lemma_insert_cell,
};
use crate::constants::{BitBoard, BoardIndex, BOARD_TOTAL_PIECES};
use crate::piece_list::{PieceList, END_OF_LIST};
use crate::valid_board_gen::make_board;

verus! {

// 00 01 02 03 04 05 06
// 07 08 09 10 11 12 13
// 14 15 16 17 18 19 20
// 21 22 23 24 25 26 27
// 28 29 30 31 32 33 34
// 35 36 37 38 39 40 41
/// The occupied cells and, for each side, the cells of its kings and of its
/// pawns.
#[derive(Clone, Copy, PartialEq, Eq, Structural, Debug)]
pub struct Board {
    pub piece_bits: BitBoard,
    pub black_kings: PieceList,
    pub black_pawns: PieceList,
    pub white_kings: PieceList,
    pub white_pawns: PieceList,
}

/// A piece by its colour and kind.
#[derive(Clone, Copy, PartialEq, Eq, Structural, Debug)]
pub enum Piece {
    BlackKing,
    BlackPawn,
    WhiteKing,
    WhitePawn,
}

/// The four lists place the pieces soundly on `piece_bits`: no list names
/// a cell twice, no cell stands in two lists, every listed cell lies on the
/// board, the occupancy mask holds exactly the listed cells, and neither
/// side has more pieces than one list can take.
pub open spec fn is_placement(
    piece_bits: BitBoard,
    white_kings: Seq<u8>,
    white_pawns: Seq<u8>,
    black_kings: Seq<u8>,
    black_pawns: Seq<u8>,
) -> bool {
    &&& white_kings.no_duplicates()
    &&& white_pawns.no_duplicates()
    &&& black_kings.no_duplicates()
    &&& black_pawns.no_duplicates()
    &&& forall|cell: u8|
        !(white_kings.contains(cell) && white_pawns.contains(cell)) && !(white_kings.contains(cell)
            && black_kings.contains(cell)) && !(white_kings.contains(cell) && black_pawns.contains(
            cell,
        )) && !(white_pawns.contains(cell) && black_kings.contains(cell)) && !(
        white_pawns.contains(cell) && black_pawns.contains(cell)) && !(black_kings.contains(cell)
            && black_pawns.contains(cell))
    &&& forall|cell: u8|
        white_kings.contains(cell) || white_pawns.contains(cell) || black_kings.contains(cell)
            || black_pawns.contains(cell) ==> cell < 42
    &&& forall|cell: nat|
        has_cell(piece_bits, cell) <==> cell < 42 && (white_kings.contains(cell as u8)
            || white_pawns.contains(cell as u8) || black_kings.contains(cell as u8)
            || black_pawns.contains(cell as u8))
    &&& white_kings.len() + white_pawns.len() <= 7
    &&& black_kings.len() + black_pawns.len() <= 7
}

/// The cells of `entries` can be added to the occupied cells `seen`: they
/// lie on the board, none is occupied yet, and none comes twice.
pub open spec fn fits(seen: BitBoard, entries: Seq<u8>) -> bool {
    &&& entries.no_duplicates()
    &&& forall|i: int|
        0 <= i < entries.len() ==> entries[i] < 42 && !has_cell(seen, #[trigger] entries[i] as nat)
}

/// What `fits` says of one of the entries.
proof fn lemma_fits(seen: BitBoard, entries: Seq<u8>, cell: u8)
    requires
        fits(seen, entries),
        entries.contains(cell),
    ensures
        cell < 42,
        !has_cell(seen, cell as nat),
{
    let i = choose|i: int| 0 <= i < entries.len() && entries[i] == cell;
    assert(!has_cell(seen, entries[i] as nat));
}

/// Entries that do not fit lie off the board, in a cell of `seen`, or in
/// one cell twice.
proof fn lemma_unfit(seen: BitBoard, entries: Seq<u8>)
    requires
        !fits(seen, entries),
    ensures
        !entries.no_duplicates() || exists|cell: u8|
            entries.contains(cell) && (cell >= 42 || has_cell(seen, cell as nat)),
{
    if entries.no_duplicates() {
        let i = choose|i: int|
            0 <= i < entries.len() && !(entries[i] < 42 && !has_cell(
                seen,
                #[trigger] entries[i] as nat,
            ));
        assert(entries.contains(entries[i]));
    }
}

/// Adds the cells of `list` to the occupied cells `seen`, when they fit.
fn place_pieces(seen: BitBoard, list: PieceList) -> (placed: Option<BitBoard>)
    requires
        list.wf(),
    ensures
        match placed {
            Some(board) => fits(seen, list@) && forall|cell: nat|
                has_cell(board, cell) <==> has_cell(seen, cell) || (cell < 256 && list@.contains(
                    cell as u8,
                )),
            None => !fits(seen, list@),
        },
{
    let array = list.to_array();
    let mut board = seen;
    let mut index: usize = 0;
    proof {
        list.lemma_view();
    }
    while array[index] != END_OF_LIST
        invariant
            list.wf(),
            array@ == list.slots(),
            index <= list@.len() <= 7,
            forall|i: int| 0 <= i < list@.len() ==> list.slots()[i] == list@[i],
            list.slots()[list@.len() as int] == END_OF_LIST,
            fits(seen, list@.take(index as int)),
            forall|cell: nat|
                has_cell(board, cell) <==> has_cell(seen, cell) || (cell < 256 && list@.take(
                    index as int,
                ).contains(cell as u8)),
        decreases 8 - index,
    {
        let cell = array[index];
        let ghost before = list@.take(index as int);
        let ghost after = list@.take(index + 1);
        proof {
            assert(after =~= before.push(cell));
        }
        if cell >= BOARD_TOTAL_PIECES || is_board_bit_set(board, cell) {
            proof {
                if fits(seen, list@) {
                    assert(!has_cell(seen, list@[index as int] as nat));
                    let j = choose|j: int| 0 <= j < before.len() && before[j] == cell;
                    assert(list@[j] == list@[index as int]);
                }
            }
            return None;
        }
        proof {
            lemma_insert_cell(board, cell as u64);
            assert forall|c: nat|
                has_cell(board | 1u64 << cell, c) <==> has_cell(seen, c) || (c < 256
                    && after.contains(c as u8)) by {
                if c < 256 && before.contains(c as u8) {
                    let j = choose|j: int| 0 <= j < before.len() && before[j] == c as u8;
                    assert(after[j] == c as u8);
                }
                if c == cell {
                    assert(after[index as int] == cell);
                }
                if c < 256 && after.contains(c as u8) {
                    let j = choose|j: int| 0 <= j < after.len() && after[j] == c as u8;
                    if j < index {
                        assert(before[j] == c as u8);
                    }
                }
            }
            assert forall|i: int, j: int| 0 <= i < j < after.len() implies after[i] != after[j] by {
                if j == index {
                    assert(before[i] == after[i]);
                    assert(before.contains(after[i]));
                } else {
                    assert(before[i] == after[i] && before[j] == after[j]);
                }
            }
            assert forall|i: int| 0 <= i < after.len() implies after[i] < 42 && !has_cell(
                seen,
                #[trigger] after[i] as nat,
            ) by {
                if i < index {
                    assert(before[i] == after[i]);
                }
            }
        }
        board = board | 1u64 << cell;
        index += 1;
    }
    proof {
        assert(list@.take(index as int) =~= list@);
    }
    Some(board)
}

impl Board {
    /// Each of the four lists ends in a sentinel and hides no piece behind
    /// one.
    pub open spec fn lists_sound(self) -> bool {
        &&& self.white_kings.wf() && self.white_kings.is_compact()
        &&& self.white_pawns.wf() && self.white_pawns.is_compact()
        &&& self.black_kings.wf() && self.black_kings.is_compact()
        &&& self.black_pawns.wf() && self.black_pawns.is_compact()
    }

    /// The four lists are sound, and they place the pieces soundly on the
    /// occupancy mask.
    pub open spec fn wf(self) -> bool {
        &&& self.lists_sound()
        &&& is_placement(
            self.piece_bits,
            self.white_kings@,
            self.white_pawns@,
            self.black_kings@,
            self.black_pawns@,
        )
    }

    /// Whether the board is sound.
    pub fn is_sound(&self) -> (sound: bool)
        requires
            self.white_kings.wf(),
            self.white_pawns.wf(),
            self.black_kings.wf(),
            self.black_pawns.wf(),
        ensures
            sound == self.wf(),
    {
        if !self.white_kings.is_packed() || !self.white_pawns.is_packed()
            || !self.black_kings.is_packed() || !self.black_pawns.is_packed() {
            return false;
        }
        if self.white_kings.len() + self.white_pawns.len() > 7 || self.black_kings.len()
            + self.black_pawns.len() > 7 {
            return false;
        }
        proof {
            lemma_combined_cells(0, 0);
        }
        let with_white_kings = match place_pieces(0, self.white_kings) {
            Some(seen) => seen,
            None => {
                proof {
                    lemma_unfit(0, self.white_kings@);
                }
                return false;
            },
        };
        let with_white = match place_pieces(with_white_kings, self.white_pawns) {
            Some(seen) => seen,
            None => {
                proof {
                    lemma_unfit(with_white_kings, self.white_pawns@);
                }
                return false;
            },
        };
        let with_black_kings = match place_pieces(with_white, self.black_kings) {
            Some(seen) => seen,
            None => {
                proof {
                    lemma_unfit(with_white, self.black_kings@);
                }
                return false;
            },
        };
        let with_all = match place_pieces(with_black_kings, self.black_pawns) {
            Some(seen) => seen,
            None => {
                proof {
                    lemma_unfit(with_black_kings, self.black_pawns@);
                }
                return false;
            },
        };
        proof {
            assert forall|cell: u8|
                self.white_kings@.contains(cell) || self.white_pawns@.contains(cell)
                    || self.black_kings@.contains(cell) || self.black_pawns@.contains(
                    cell,
                ) implies cell < 42 by {
                if self.white_kings@.contains(cell) {
                    lemma_fits(0, self.white_kings@, cell);
                } else if self.white_pawns@.contains(cell) {
                    lemma_fits(with_white_kings, self.white_pawns@, cell);
                } else if self.black_kings@.contains(cell) {
                    lemma_fits(with_white, self.black_kings@, cell);
                } else {
                    lemma_fits(with_black_kings, self.black_pawns@, cell);
                }
            }
            assert forall|cell: u8|
                !(self.white_kings@.contains(cell) && self.white_pawns@.contains(cell)) && !(
                self.white_kings@.contains(cell) && self.black_kings@.contains(cell)) && !(
                self.white_kings@.contains(cell) && self.black_pawns@.contains(cell)) && !(
                self.white_pawns@.contains(cell) && self.black_kings@.contains(cell)) && !(
                self.white_pawns@.contains(cell) && self.black_pawns@.contains(cell)) && !(
                self.black_kings@.contains(cell) && self.black_pawns@.contains(cell)) by {
                if self.white_pawns@.contains(cell) {
                    lemma_fits(with_white_kings, self.white_pawns@, cell);
                }
                if self.black_kings@.contains(cell) {
                    lemma_fits(with_white, self.black_kings@, cell);
                }
                if self.black_pawns@.contains(cell) {
                    lemma_fits(with_black_kings, self.black_pawns@, cell);
                }
            }
            assert forall|cell: nat|
                has_cell(with_all, cell) <==> cell < 42 && (self.white_kings@.contains(cell as u8)
                    || self.white_pawns@.contains(cell as u8) || self.black_kings@.contains(
                    cell as u8,
                ) || self.black_pawns@.contains(cell as u8)) by {}
            if with_all == self.piece_bits {
            } else if self.wf() {
                assert(cells(with_all) =~= cells(self.piece_bits));
                lemma_cells_injective(with_all, self.piece_bits);
            }
        }
        with_all == self.piece_bits
    }

    /// The piece that the lists name for `cell`. Where more than one list
    /// names the cell, the white pawns go before the white kings, these
    /// before the black pawns, and these before the black kings.
    pub open spec fn piece_on(self, cell: BoardIndex) -> Option<Piece> {
        if self.white_pawns@.contains(cell) {
            Some(Piece::WhitePawn)
        } else if self.white_kings@.contains(cell) {
            Some(Piece::WhiteKing)
        } else if self.black_pawns@.contains(cell) {
            Some(Piece::BlackPawn)
        } else if self.black_kings@.contains(cell) {
            Some(Piece::BlackKing)
        } else {
            None
        }
    }

    /// The piece on `cell`, if any.
    pub fn piece_at(&self, cell: BoardIndex) -> (piece: Option<Piece>)
        requires
            self.white_kings.wf(),
            self.white_pawns.wf(),
            self.black_kings.wf(),
            self.black_pawns.wf(),
        ensures
            piece == self.piece_on(cell),
    {
        if self.white_pawns.contains(cell) {
            Some(Piece::WhitePawn)
        } else if self.white_kings.contains(cell) {
            Some(Piece::WhiteKing)
        } else if self.black_pawns.contains(cell) {
            Some(Piece::BlackPawn)
        } else if self.black_kings.contains(cell) {
            Some(Piece::BlackKing)
        } else {
            None
        }
    }

    /// What stands on each of the 42 cells, cell 0 first.
    pub fn piece_grid(&self) -> (grid: Vec<Option<Piece>>)
        requires
            self.white_kings.wf(),
            self.white_pawns.wf(),
            self.black_kings.wf(),
            self.black_pawns.wf(),
        ensures
            grid@.len() == BOARD_TOTAL_PIECES,
            forall|cell: int| 0 <= cell < BOARD_TOTAL_PIECES ==> grid@[cell] == self.piece_on(cell as u8),
    {
        let mut grid: Vec<Option<Piece>> = Vec::new();
        let mut cell: u8 = 0;
        while cell < BOARD_TOTAL_PIECES
            invariant
                self.white_kings.wf(),
                self.white_pawns.wf(),
                self.black_kings.wf(),
                self.black_pawns.wf(),
                cell <= BOARD_TOTAL_PIECES,
                grid@.len() == cell,
                forall|c: int| 0 <= c < cell ==> grid@[c] == self.piece_on(c as u8),
            decreases BOARD_TOTAL_PIECES - cell,
        {
            grid.push(self.piece_at(cell));
            cell += 1;
        }
        grid
    }

    /// The opening position: six pawns a side and no king.
    pub fn new() -> (board: Self)
        ensures
            board.wf(),
            board.white_kings@ == Seq::<u8>::empty(),
            board.white_pawns@ == seq![9u8, 10, 15, 16, 17, 18],
            board.black_kings@ == Seq::<u8>::empty(),
            board.black_pawns@ == seq![23u8, 24, 25, 26, 31, 32],
    {
        proof {
            reveal_strlit("000000000110000111100001111000011000000000");
        }
        let text = "000000000110000111100001111000011000000000";
        assert(text.is_ascii());
        let piece_bits = make_board(text);
        let black_kings = PieceList::new();
        let black_pawns = PieceList::from_vec(vec![23, 24, 25, 26, 31, 32]);
        let white_kings = PieceList::new();
        let white_pawns = PieceList::from_vec(vec![9, 10, 15, 16, 17, 18]);
        let board = Self { piece_bits, black_kings, black_pawns, white_kings, white_pawns };
        proof {
            let white = white_pawns@;
            let black = black_pawns@;
            assert(white =~= seq![9u8, 10, 15, 16, 17, 18]);
            assert(black =~= seq![23u8, 24, 25, 26, 31, 32]);
            assert forall|cell: nat|
                has_cell(board.piece_bits, cell) <==> cell < 42 && (white.contains(cell as u8)
                    || black.contains(cell as u8)) by {
                if cell < 42 && text.spec_bytes()[41 - cell] == 49 {
                    if cell < 20 {
                        let i = choose|i: int| 0 <= i < 6 && white[i] == cell;
                        assert(white[i] == cell as u8);
                    } else {
                        let i = choose|i: int| 0 <= i < 6 && black[i] == cell;
                        assert(black[i] == cell as u8);
                    }
                }
            }
        }
        board
    }
}

/// A position together with the side to move and the number of moves made.
#[derive(Clone, Copy, PartialEq, Eq, Structural, Debug)]
pub struct GameState {
    pub board: Board,
    pub is_active_player_white: bool,
    pub move_count: u32,
}

/// What a game state stands for: the occupancy, the four lists of pieces,
/// the side to move and the number of moves made.
pub struct Position {
    pub piece_bits: BitBoard,
    pub white_kings: Seq<u8>,
    pub white_pawns: Seq<u8>,
    pub black_kings: Seq<u8>,
    pub black_pawns: Seq<u8>,
    pub white_to_move: bool,
    pub move_count: nat,
}

impl Position {
    /// The kings of the side to move.
    pub open spec fn active_kings(self) -> Seq<u8> {
        if self.white_to_move {
            self.white_kings
        } else {
            self.black_kings
        }
    }

    /// The pawns of the side to move.
    pub open spec fn active_pawns(self) -> Seq<u8> {
        if self.white_to_move {
            self.white_pawns
        } else {
            self.black_pawns
        }
    }

    /// The kings of the side that is not to move.
    pub open spec fn waiting_kings(self) -> Seq<u8> {
        if self.white_to_move {
            self.black_kings
        } else {
            self.white_kings
        }
    }

    /// The pawns of the side that is not to move.
    pub open spec fn waiting_pawns(self) -> Seq<u8> {
        if self.white_to_move {
            self.black_pawns
        } else {
            self.white_pawns
        }
    }

    /// This position with the colours exchanged: each side has the other's
    /// pieces, and the other side is to move.
    pub open spec fn mirrored(self) -> Position {
        Position {
            white_kings: self.black_kings,
            white_pawns: self.black_pawns,
            black_kings: self.white_kings,
            black_pawns: self.white_pawns,
            white_to_move: !self.white_to_move,
            ..self
        }
    }

    /// This position with the lists of the side to move replaced.
    pub open spec fn with_active_pieces(self, kings: Seq<u8>, pawns: Seq<u8>) -> Position {
        if self.white_to_move {
            Position { white_kings: kings, white_pawns: pawns, ..self }
        } else {
            Position { black_kings: kings, black_pawns: pawns, ..self }
        }
    }

    /// The lists place the pieces soundly on the occupancy mask.
    pub open spec fn wf(self) -> bool {
        is_placement(
            self.piece_bits,
            self.white_kings,
            self.white_pawns,
            self.black_kings,
            self.black_pawns,
        )
    }

    /// The number of pieces on the board.
    pub open spec fn piece_count(self) -> nat {
        self.white_kings.len() + self.white_pawns.len() + self.black_kings.len()
            + self.black_pawns.len()
    }
}

impl View for GameState {
    type V = Position;

    open spec fn view(&self) -> Position {
        Position {
            piece_bits: self.board.piece_bits,
            white_kings: self.board.white_kings@,
            white_pawns: self.board.white_pawns@,
            black_kings: self.board.black_kings@,
            black_pawns: self.board.black_pawns@,
            white_to_move: self.is_active_player_white,
            move_count: self.move_count as nat,
        }
    }
}

impl GameState {
    /// The lists are sound and hold a sound position.
    pub open spec fn wf(self) -> bool {
        self.board.wf()
    }

    /// Whether the game state is sound.
    pub fn is_sound(&self) -> (sound: bool)
        requires
            self.board.white_kings.wf(),
            self.board.white_pawns.wf(),
            self.board.black_kings.wf(),
            self.board.black_pawns.wf(),
        ensures
            sound == self.wf(),
    {
        self.board.is_sound()
    }

    /// A sound game state stands for a sound position.
    pub proof fn lemma_view_wf(self)
        requires
            self.wf(),
        ensures
            self@.wf(),
    {
    }

    /// Two sound game states that stand for the same position are equal.
    pub proof fn lemma_view_injective(self, other: GameState)
        requires
            self.wf(),
            other.wf(),
            self@ == other@,
        ensures
            self == other,
    {
        self.board.white_kings.lemma_compact_injective(other.board.white_kings);
        self.board.white_pawns.lemma_compact_injective(other.board.white_pawns);
        self.board.black_kings.lemma_compact_injective(other.board.black_kings);
        self.board.black_pawns.lemma_compact_injective(other.board.black_pawns);
    }

    /// The kings of the side to move.
    pub open spec fn active_kings(self) -> PieceList {
        if self.is_active_player_white {
            self.board.white_kings
        } else {
            self.board.black_kings
        }
    }

    /// The pawns of the side to move.
    pub open spec fn active_pawns(self) -> PieceList {
        if self.is_active_player_white {
            self.board.white_pawns
        } else {
            self.board.black_pawns
        }
    }

    /// This state with the lists of the side to move replaced.
    pub open spec fn with_active_pieces(self, kings: PieceList, pawns: PieceList) -> GameState {
        if self.is_active_player_white {
            GameState {
                board: Board { white_kings: kings, white_pawns: pawns, ..self.board },
                ..self
            }
        } else {
            GameState {
                board: Board { black_kings: kings, black_pawns: pawns, ..self.board },
                ..self
            }
        }
    }

    /// The opening position with white to move and no move made.
    pub fn new() -> (game_state: Self)
        ensures
            game_state.wf(),
            game_state.is_active_player_white,
            game_state.move_count == 0,
            game_state.board.white_kings@ == Seq::<u8>::empty(),
            game_state.board.white_pawns@ == seq![9u8, 10, 15, 16, 17, 18],
            game_state.board.black_kings@ == Seq::<u8>::empty(),
            game_state.board.black_pawns@ == seq![23u8, 24, 25, 26, 31, 32],
    {
        let board = Board::new();
        let is_active_player_white = true;
        let move_count: u32 = 0;
        Self { board, is_active_player_white, move_count }
    }

    /// The kings of the side to move.
    pub fn get_active_kings(&self) -> (kings: PieceList)
        ensures
            kings == self.active_kings(),
    {
        match self.is_active_player_white {
            true => self.board.white_kings,
            false => self.board.black_kings,
        }
    }

    /// The kings and the pawns of the side to move.
    pub fn get_active_pieces(&self) -> (pieces: (PieceList, PieceList))
        ensures
            pieces.0 == self.active_kings(),
            pieces.1 == self.active_pawns(),
    {
        match self.is_active_player_white {
            true => (self.board.white_kings, self.board.white_pawns),
            false => (self.board.black_kings, self.board.black_pawns),
        }
    }

    /// Replaces the kings and the pawns of the side to move.
    pub fn set_active_pieces(&mut self, kings: PieceList, pawns: PieceList)
        ensures
            *final(self) == old(self).with_active_pieces(kings, pawns),
    {
        match self.is_active_player_white {
            true => {
                self.board.white_kings = kings;
                self.board.white_pawns = pawns;
            },
            false => {
                self.board.black_kings = kings;
                self.board.black_pawns = pawns;
            },
        }
    }
}

} // verus!
