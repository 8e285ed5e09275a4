use vstd::prelude::*;
use crate::bit_board_gen::{is_jump, is_step, jump_moves, king_moves};
use crate::bit_utils::{
    ascending, cells, get_bit_indices, has_cell, is_board_bit_set, jump_bit, lemma_ascending_skip,
    lemma_ascending_sorted, lemma_combined_cells, lemma_moved, moved,
};
use crate::constants::{BitBoard, BoardIndex, BOARD_TOTAL_PIECES, BOARD_WIDTH};
use crate::piece_list::{
    first_index, lemma_first_index_found, PieceList, PieceListIterator, END_OF_LIST,
};
use crate::state::{is_placement, GameState, Position};
use crate::valid_board_gen::{connected_from, is_connected};

verus! {

// note that 'move' is a rust keyword, so when intended as variable 'mov' is used instead here
/// A piece goes from one cell to another.
#[derive(Clone, Copy, PartialEq, Eq, Structural, Debug)]
pub struct Move {
    pub from: BoardIndex,
    pub to: BoardIndex,
}

impl Move {
    /// The two cells lie two or fourteen indices apart: the move is a jump
    /// and not a step.
    pub open spec fn jumps(self) -> bool {
        ||| self.from + 2 == self.to
        ||| self.to + 2 == self.from
        ||| self.from + 14 == self.to
        ||| self.to + 14 == self.from
    }

    /// The move from `from` to `to`.
    pub fn new(from: BoardIndex, to: BoardIndex) -> (mov: Self)
        ensures
            mov == (Move { from, to }),
    {
        Self { from, to }
    }

    /// Whether the move is a jump, by the distance of its cells.
    pub fn is_jump(&self) -> (jump: bool)
        ensures
            jump == self.jumps(),
    {
        let from = self.from as i16;
        let to = self.to as i16;
        let diff = from - to;
        diff == 2 || diff == -2 || diff == 14 || diff == -14
    }
}

/// The letter of the column of `cell`, from `a` to `g`.
pub fn file_letter(cell: BoardIndex) -> (letter: char)
    ensures
        letter as u8 == 97 + cell % BOARD_WIDTH,
{
    (97u8 + cell % BOARD_WIDTH) as char
}

/// The number of the row of `cell`, counted from one.
pub fn rank_number(cell: BoardIndex) -> (rank: u8)
    ensures
        rank == cell / BOARD_WIDTH + 1,
{
    cell / BOARD_WIDTH + 1
}

/// The piece on `from` may jump to `to`: the cell lies two away in its row
/// or column and is empty, the cell between is occupied, and afterwards
/// the pieces form one group.
pub open spec fn is_legal_jump(bit_board: BitBoard, from: nat, to: nat) -> bool {
    &&& is_jump(from, to)
    &&& !has_cell(bit_board, to)
    &&& has_cell(bit_board, (from + to) / 2)
    &&& connected_from(moved(bit_board, from as u8, to as u8), to)
}

/// The king on `from` may step to `to`: the cell lies beside it and is
/// empty, and afterwards the pieces form one group.
pub open spec fn is_legal_step(bit_board: BitBoard, from: nat, to: nat) -> bool {
    &&& is_step(from, to)
    &&& !has_cell(bit_board, to)
    &&& connected_from(moved(bit_board, from as u8, to as u8), to)
}

/// The moves from `from` to each of `targets`, in their order.
pub open spec fn moves_to(from: BoardIndex, targets: Seq<u8>) -> Seq<Move> {
    targets.map_values(|to: u8| Move { from, to })
}

/// The jumps of the piece on `from`, lower target cells first.
pub open spec fn jumps_from(bit_board: BitBoard, from: BoardIndex) -> Seq<Move> {
    moves_to(from, ascending(Set::new(|to: nat| is_legal_jump(bit_board, from as nat, to)), 42))
}

/// The steps of the king on `from`, lower target cells first.
pub open spec fn steps_from(bit_board: BitBoard, from: BoardIndex) -> Seq<Move> {
    moves_to(from, ascending(Set::new(|to: nat| is_legal_step(bit_board, from as nat, to)), 42))
}

/// The moves of the kings, king by king in the order of the list: first the
/// jumps of a king, then its steps.
pub open spec fn moves_of_kings(bit_board: BitBoard, kings: Seq<u8>) -> Seq<Move>
    decreases kings.len(),
{
    if kings.len() == 0 {
        Seq::empty()
    } else {
        moves_of_kings(bit_board, kings.drop_last()) + jumps_from(bit_board, kings.last())
            + steps_from(bit_board, kings.last())
    }
}

/// The moves of the pawns, pawn by pawn in the order of the list: a pawn
/// only jumps.
pub open spec fn moves_of_pawns(bit_board: BitBoard, pawns: Seq<u8>) -> Seq<Move>
    decreases pawns.len(),
{
    if pawns.len() == 0 {
        Seq::empty()
    } else {
        moves_of_pawns(bit_board, pawns.drop_last()) + jumps_from(bit_board, pawns.last())
    }
}

/// `entries` without the first `value` among them.
pub open spec fn without_first(entries: Seq<u8>, value: u8) -> Seq<u8> {
    if entries.contains(value) {
        entries.remove(first_index(entries, value))
    } else {
        entries
    }
}

/// Taking a value out of a list without repeats leaves the other values,
/// each once.
pub proof fn lemma_without_first(entries: Seq<u8>, value: u8)
    requires
        entries.no_duplicates(),
        entries.contains(value),
    ensures
        without_first(entries, value).len() == entries.len() - 1,
        without_first(entries, value).no_duplicates(),
        forall|other: u8|
            without_first(entries, value).contains(other) <==> entries.contains(other) && other
                != value,
{
    lemma_first_index_found(entries, value);
    let at = first_index(entries, value);
    let rest = without_first(entries, value);
    assert forall|other: u8| rest.contains(other) <==> entries.contains(other) && other
        != value by {
        if rest.contains(other) {
            let j = choose|j: int| 0 <= j < rest.len() && rest[j] == other;
            if j < at {
                assert(entries[j] == other);
            } else {
                assert(entries[j + 1] == other);
            }
        }
        if entries.contains(other) && other != value {
            let k = choose|k: int| 0 <= k < entries.len() && entries[k] == other;
            if k < at {
                assert(rest[k] == other);
            } else {
                assert(rest[k - 1] == other);
            }
        }
    }
}

/// Putting a new value in front of a list without repeats adds that value
/// and no repeat.
pub proof fn lemma_with_front(entries: Seq<u8>, value: u8)
    requires
        entries.no_duplicates(),
        !entries.contains(value),
    ensures
        (seq![value] + entries).no_duplicates(),
        forall|other: u8|
            (seq![value] + entries).contains(other) <==> entries.contains(other) || other == value,
{
    let longer = seq![value] + entries;
    assert forall|other: u8| longer.contains(other) <==> entries.contains(other) || other
        == value by {
        if entries.contains(other) {
            let k = choose|k: int| 0 <= k < entries.len() && entries[k] == other;
            assert(longer[k + 1] == other);
        }
        if other == value {
            assert(longer[0] == other);
        }
    }
    assert forall|i: int, j: int| 0 <= i < j < longer.len() implies longer[i] != longer[j] by {
        if i == 0 {
            assert(entries[j - 1] == longer[j]);
        } else {
            assert(entries[i - 1] == longer[i] && entries[j - 1] == longer[j]);
        }
    }
}

/// A placement stays sound when one side's lists lose the cell `from` and
/// gain the empty cell `to`.
proof fn lemma_replace_active(
    piece_bits: BitBoard,
    kings: Seq<u8>,
    pawns: Seq<u8>,
    other_kings: Seq<u8>,
    other_pawns: Seq<u8>,
    new_kings: Seq<u8>,
    new_pawns: Seq<u8>,
    from: u8,
    to: u8,
)
    requires
        is_placement(piece_bits, kings, pawns, other_kings, other_pawns) || is_placement(
            piece_bits,
            other_kings,
            other_pawns,
            kings,
            pawns,
        ),
        kings.contains(from) || pawns.contains(from),
        to < 42,
        !has_cell(piece_bits, to as nat),
        new_kings.no_duplicates(),
        new_pawns.no_duplicates(),
        new_kings.len() + new_pawns.len() == kings.len() + pawns.len(),
        forall|cell: u8| !(new_kings.contains(cell) && new_pawns.contains(cell)),
        forall|cell: u8|
            (new_kings.contains(cell) || new_pawns.contains(cell)) <==> ((kings.contains(cell)
                || pawns.contains(cell)) && cell != from) || cell == to,
    ensures
        is_placement(moved(piece_bits, from, to), new_kings, new_pawns, other_kings, other_pawns),
        is_placement(moved(piece_bits, from, to), other_kings, other_pawns, new_kings, new_pawns),
{
    let after = moved(piece_bits, from, to);
    lemma_moved(piece_bits, from, to);
    assert(from < 42);
    assert(!other_kings.contains(to) && !other_pawns.contains(to));
    assert(!other_kings.contains(from) && !other_pawns.contains(from));
    assert forall|cell: nat|
        has_cell(after, cell) <==> cell < 42 && (new_kings.contains(cell as u8)
            || new_pawns.contains(cell as u8) || other_kings.contains(cell as u8)
            || other_pawns.contains(cell as u8)) by {
        assert(has_cell(after, cell) == cells(piece_bits).insert(to as nat).remove(
            from as nat,
        ).contains(cell));
        assert(has_cell(piece_bits, cell) == cells(piece_bits).contains(cell));
    }
    assert forall|cell: u8|
        new_kings.contains(cell) || new_pawns.contains(cell) || other_kings.contains(cell)
            || other_pawns.contains(cell) implies cell < 42 by {}
}

impl Position {
    /// The side to move has the piece that `mov` takes: a king or a pawn
    /// for a jump, a king for a step.
    pub open spec fn tracks(self, mov: Move) -> bool {
        if mov.jumps() {
            self.active_kings().contains(mov.from) || self.active_pawns().contains(mov.from)
        } else {
            self.active_kings().contains(mov.from)
        }
    }

    /// The position after `mov`: the piece leaves `from` and stands on
    /// `to`, at the front of its list. A jump changes its kind, so it
    /// changes lists. The other side is to move, and one more move is made.
    pub open spec fn after_move(self, mov: Move) -> Position {
        let kings = self.active_kings();
        let pawns = self.active_pawns();
        let placed = if !mov.jumps() {
            self.with_active_pieces(seq![mov.to] + without_first(kings, mov.from), pawns)
        } else if kings.contains(mov.from) {
            self.with_active_pieces(without_first(kings, mov.from), seq![mov.to] + pawns)
        } else {
            self.with_active_pieces(seq![mov.to] + kings, without_first(pawns, mov.from))
        };
        Position {
            piece_bits: moved(self.piece_bits, mov.from, mov.to),
            white_to_move: !self.white_to_move,
            move_count: self.move_count + 1,
            ..placed
        }
    }

    /// A sound position stays sound when a piece of the side to move goes
    /// to an empty cell of the board.
    pub proof fn lemma_after_move_wf(self, mov: Move)
        requires
            self.wf(),
            self.tracks(mov),
            mov.to < 42,
            !has_cell(self.piece_bits, mov.to as nat),
        ensures
            self.after_move(mov).wf(),
    {
        let kings = self.active_kings();
        let pawns = self.active_pawns();
        let after = self.after_move(mov);
        let new_kings = after.waiting_kings();
        let new_pawns = after.waiting_pawns();
        assert(!kings.contains(mov.to) && !pawns.contains(mov.to));
        if kings.contains(mov.from) {
            lemma_without_first(kings, mov.from);
            if mov.jumps() {
                lemma_with_front(pawns, mov.to);
            } else {
                lemma_with_front(without_first(kings, mov.from), mov.to);
            }
        } else {
            lemma_without_first(pawns, mov.from);
            lemma_with_front(kings, mov.to);
        }
        assert forall|cell: u8| !(new_kings.contains(cell) && new_pawns.contains(cell)) by {
            assert(!(kings.contains(cell) && pawns.contains(cell)));
        }
        lemma_replace_active(
            self.piece_bits,
            kings,
            pawns,
            self.waiting_kings(),
            self.waiting_pawns(),
            new_kings,
            new_pawns,
            mov.from,
            mov.to,
        );
    }

    /// A move keeps the number of pieces, in all and of each colour.
    pub proof fn lemma_after_move_count(self, mov: Move)
        requires
            self.wf(),
            self.tracks(mov),
        ensures
            self.after_move(mov).piece_count() == self.piece_count(),
            self.after_move(mov).white_kings.len() + self.after_move(mov).white_pawns.len()
                == self.white_kings.len() + self.white_pawns.len(),
            self.after_move(mov).black_kings.len() + self.after_move(mov).black_pawns.len()
                == self.black_kings.len() + self.black_pawns.len(),
    {
        if self.active_kings().contains(mov.from) {
            lemma_without_first(self.active_kings(), mov.from);
        } else {
            lemma_without_first(self.active_pawns(), mov.from);
        }
    }

    /// A jump changes the kind of the piece. After a king has jumped, the
    /// pawns of its side are the target cell followed by the pawns as they
    /// were, and its kings are the kings as they were without the cell it
    /// left, in their order. After a pawn has jumped, the kings of its side
    /// are the target cell followed by the kings as they were, and its pawns
    /// are the pawns as they were without the cell it left, in their order.
    /// Either way no list names the cell it left any more. The lists are
    /// those of the side that moved.
    pub proof fn lemma_jump_flips_kind(self, mov: Move)
        requires
            self.wf(),
            mov.jumps(),
            self.tracks(mov),
        ensures
            self.active_kings().contains(mov.from) ==> {
                &&& self.after_move(mov).waiting_pawns() == seq![mov.to] + self.active_pawns()
                &&& self.after_move(mov).waiting_kings() == without_first(
                    self.active_kings(),
                    mov.from,
                )
            },
            self.active_pawns().contains(mov.from) ==> {
                &&& self.after_move(mov).waiting_kings() == seq![mov.to] + self.active_kings()
                &&& self.after_move(mov).waiting_pawns() == without_first(
                    self.active_pawns(),
                    mov.from,
                )
            },
            !self.after_move(mov).white_kings.contains(mov.from),
            !self.after_move(mov).white_pawns.contains(mov.from),
            !self.after_move(mov).black_kings.contains(mov.from),
            !self.after_move(mov).black_pawns.contains(mov.from),
    {
        let kings = self.active_kings();
        let pawns = self.active_pawns();
        let after = self.after_move(mov);
        assert(!(kings.contains(mov.from) && pawns.contains(mov.from)));
        assert(!self.waiting_kings().contains(mov.from) && !self.waiting_pawns().contains(
            mov.from,
        ));
        if kings.contains(mov.from) {
            lemma_without_first(kings, mov.from);
            let longer = seq![mov.to] + pawns;
            assert(!longer.contains(mov.from)) by {
                if longer.contains(mov.from) {
                    let i = choose|i: int| 0 <= i < longer.len() && longer[i] == mov.from;
                    assert(pawns[i - 1] == mov.from);
                }
            }
        } else {
            lemma_without_first(pawns, mov.from);
            let longer = seq![mov.to] + kings;
            assert(!longer.contains(mov.from)) by {
                if longer.contains(mov.from) {
                    let i = choose|i: int| 0 <= i < longer.len() && longer[i] == mov.from;
                    assert(kings[i - 1] == mov.from);
                }
            }
        }
    }

    /// The legal moves are the legal jumps and steps of the kings and the
    /// legal jumps of the pawns of the side to move, and no others.
    pub proof fn lemma_legal_moves_are_all(self, mov: Move)
        ensures
            self.legal_moves().contains(mov) <==> is_king_move(
                self.piece_bits,
                self.active_kings(),
                mov,
            ) || is_pawn_move(self.piece_bits, self.active_pawns(), mov),
    {
        let of_kings = moves_of_kings(self.piece_bits, self.active_kings());
        let of_pawns = moves_of_pawns(self.piece_bits, self.active_pawns());
        let all = self.legal_moves();
        if all.contains(mov) {
            let i = choose|i: int| 0 <= i < all.len() && all[i] == mov;
            if i < of_kings.len() {
                lemma_moves_of_kings(self.piece_bits, self.active_kings(), i);
            } else {
                lemma_moves_of_pawns(self.piece_bits, self.active_pawns(), i - of_kings.len());
            }
        }
        if is_king_move(self.piece_bits, self.active_kings(), mov) {
            lemma_moves_of_kings_holds(self.piece_bits, self.active_kings(), mov);
            let i = choose|i: int| 0 <= i < of_kings.len() && of_kings[i] == mov;
            assert(all[i] == mov);
        } else if is_pawn_move(self.piece_bits, self.active_pawns(), mov) {
            lemma_moves_of_pawns_holds(self.piece_bits, self.active_pawns(), mov);
            let i = choose|i: int| 0 <= i < of_pawns.len() && of_pawns[i] == mov;
            assert(all[of_kings.len() + i] == mov);
        }
    }

    /// Every legal move takes a piece of the side to move to an empty cell
    /// of the board, and the pieces form one group afterwards, the moved
    /// piece among them. So the position after it is sound again.
    pub proof fn lemma_legal_move(self, mov: Move)
        requires
            self.wf(),
            self.legal_moves().contains(mov),
        ensures
            is_king_move(self.piece_bits, self.active_kings(), mov) || is_pawn_move(
                self.piece_bits,
                self.active_pawns(),
                mov,
            ),
            self.tracks(mov),
            mov.to < 42,
            !has_cell(self.piece_bits, mov.to as nat),
            connected_from(self.after_move(mov).piece_bits, mov.to as nat),
            self.after_move(mov).wf(),
    {
        let of_kings = moves_of_kings(self.piece_bits, self.active_kings());
        let of_pawns = moves_of_pawns(self.piece_bits, self.active_pawns());
        let i = choose|i: int| 0 <= i < self.legal_moves().len() && self.legal_moves()[i] == mov;
        if i < of_kings.len() {
            lemma_moves_of_kings(self.piece_bits, self.active_kings(), i);
        } else {
            lemma_moves_of_pawns(self.piece_bits, self.active_pawns(), i - of_kings.len());
        }
        self.lemma_after_move_wf(mov);
    }

    /// The legal moves of the side to move: those of its kings, then those
    /// of its pawns.
    pub open spec fn legal_moves(self) -> Seq<Move> {
        moves_of_kings(self.piece_bits, self.active_kings()) + moves_of_pawns(
            self.piece_bits,
            self.active_pawns(),
        )
    }
}

/// `mov` takes one of `kings` by a legal jump or a legal step.
pub open spec fn is_king_move(bit_board: BitBoard, kings: Seq<u8>, mov: Move) -> bool {
    &&& kings.contains(mov.from)
    &&& is_legal_jump(bit_board, mov.from as nat, mov.to as nat) || is_legal_step(
        bit_board,
        mov.from as nat,
        mov.to as nat,
    )
}

/// `mov` takes one of `pawns` by a legal jump.
pub open spec fn is_pawn_move(bit_board: BitBoard, pawns: Seq<u8>, mov: Move) -> bool {
    &&& pawns.contains(mov.from)
    &&& is_legal_jump(bit_board, mov.from as nat, mov.to as nat)
}

/// Every move in the list of a piece's jumps is a legal jump of that piece.
pub proof fn lemma_jumps_from(bit_board: BitBoard, from: BoardIndex, i: int)
    requires
        0 <= i < jumps_from(bit_board, from).len(),
    ensures
        jumps_from(bit_board, from)[i].from == from,
        is_legal_jump(bit_board, from as nat, jumps_from(bit_board, from)[i].to as nat),
{
    lemma_ascending_sorted(Set::new(|to: nat| is_legal_jump(bit_board, from as nat, to)), 42);
}

/// Every move in the list of a king's steps is a legal step of that king.
pub proof fn lemma_steps_from(bit_board: BitBoard, from: BoardIndex, i: int)
    requires
        0 <= i < steps_from(bit_board, from).len(),
    ensures
        steps_from(bit_board, from)[i].from == from,
        is_legal_step(bit_board, from as nat, steps_from(bit_board, from)[i].to as nat),
{
    lemma_ascending_sorted(Set::new(|to: nat| is_legal_step(bit_board, from as nat, to)), 42);
}

/// Every legal jump of the piece on `from` is in the list of its jumps.
pub proof fn lemma_jumps_from_holds(bit_board: BitBoard, from: BoardIndex, to: BoardIndex)
    requires
        is_legal_jump(bit_board, from as nat, to as nat),
    ensures
        jumps_from(bit_board, from).contains(Move { from, to }),
{
    let legal = Set::new(|to: nat| is_legal_jump(bit_board, from as nat, to));
    lemma_ascending_sorted(legal, 42);
    assert(legal.contains(to as nat));
    let targets = ascending(legal, 42);
    let i = choose|i: int| 0 <= i < targets.len() && targets[i] == to;
    assert(jumps_from(bit_board, from)[i] == Move { from, to });
}

/// Every legal step of the king on `from` is in the list of its steps.
pub proof fn lemma_steps_from_holds(bit_board: BitBoard, from: BoardIndex, to: BoardIndex)
    requires
        is_legal_step(bit_board, from as nat, to as nat),
    ensures
        steps_from(bit_board, from).contains(Move { from, to }),
{
    let legal = Set::new(|to: nat| is_legal_step(bit_board, from as nat, to));
    lemma_ascending_sorted(legal, 42);
    assert(legal.contains(to as nat));
    let targets = ascending(legal, 42);
    let i = choose|i: int| 0 <= i < targets.len() && targets[i] == to;
    assert(steps_from(bit_board, from)[i] == Move { from, to });
}

/// Every legal move of a king is in the list of the kings' moves.
pub proof fn lemma_moves_of_kings_holds(bit_board: BitBoard, kings: Seq<u8>, mov: Move)
    requires
        is_king_move(bit_board, kings, mov),
    ensures
        moves_of_kings(bit_board, kings).contains(mov),
    decreases kings.len(),
{
    let before = moves_of_kings(bit_board, kings.drop_last());
    let jumps = jumps_from(bit_board, kings.last());
    let steps = steps_from(bit_board, kings.last());
    let all = moves_of_kings(bit_board, kings);
    if kings.last() == mov.from {
        if is_legal_jump(bit_board, mov.from as nat, mov.to as nat) {
            lemma_jumps_from_holds(bit_board, mov.from, mov.to);
            let i = choose|i: int| 0 <= i < jumps.len() && jumps[i] == mov;
            assert(all[before.len() + i] == mov);
        } else {
            lemma_steps_from_holds(bit_board, mov.from, mov.to);
            let i = choose|i: int| 0 <= i < steps.len() && steps[i] == mov;
            assert(all[before.len() + jumps.len() + i] == mov);
        }
    } else {
        let k = choose|k: int| 0 <= k < kings.len() && kings[k] == mov.from;
        assert(kings.drop_last()[k] == mov.from);
        lemma_moves_of_kings_holds(bit_board, kings.drop_last(), mov);
        let i = choose|i: int| 0 <= i < before.len() && before[i] == mov;
        assert(all[i] == mov);
    }
}

/// Every legal jump of a pawn is in the list of the pawns' moves.
pub proof fn lemma_moves_of_pawns_holds(bit_board: BitBoard, pawns: Seq<u8>, mov: Move)
    requires
        is_pawn_move(bit_board, pawns, mov),
    ensures
        moves_of_pawns(bit_board, pawns).contains(mov),
    decreases pawns.len(),
{
    let before = moves_of_pawns(bit_board, pawns.drop_last());
    let jumps = jumps_from(bit_board, pawns.last());
    let all = moves_of_pawns(bit_board, pawns);
    if pawns.last() == mov.from {
        lemma_jumps_from_holds(bit_board, mov.from, mov.to);
        let i = choose|i: int| 0 <= i < jumps.len() && jumps[i] == mov;
        assert(all[before.len() + i] == mov);
    } else {
        let k = choose|k: int| 0 <= k < pawns.len() && pawns[k] == mov.from;
        assert(pawns.drop_last()[k] == mov.from);
        lemma_moves_of_pawns_holds(bit_board, pawns.drop_last(), mov);
        let i = choose|i: int| 0 <= i < before.len() && before[i] == mov;
        assert(all[i] == mov);
    }
}

/// Every move in the list of the kings' moves is a legal move of a king.
pub proof fn lemma_moves_of_kings(bit_board: BitBoard, kings: Seq<u8>, i: int)
    requires
        0 <= i < moves_of_kings(bit_board, kings).len(),
    ensures
        is_king_move(bit_board, kings, moves_of_kings(bit_board, kings)[i]),
    decreases kings.len(),
{
    let before = moves_of_kings(bit_board, kings.drop_last());
    let jumps = jumps_from(bit_board, kings.last());
    if i < before.len() {
        lemma_moves_of_kings(bit_board, kings.drop_last(), i);
        let from = before[i].from;
        let k = choose|k: int| 0 <= k < kings.drop_last().len() && kings.drop_last()[k] == from;
        assert(kings[k] == from);
    } else {
        assert(kings[kings.len() - 1] == kings.last());
        if i < before.len() + jumps.len() {
            lemma_jumps_from(bit_board, kings.last(), i - before.len());
        } else {
            lemma_steps_from(bit_board, kings.last(), i - before.len() - jumps.len());
        }
    }
}

/// Every move in the list of the pawns' moves is a legal jump of a pawn.
pub proof fn lemma_moves_of_pawns(bit_board: BitBoard, pawns: Seq<u8>, i: int)
    requires
        0 <= i < moves_of_pawns(bit_board, pawns).len(),
    ensures
        is_pawn_move(bit_board, pawns, moves_of_pawns(bit_board, pawns)[i]),
    decreases pawns.len(),
{
    let before = moves_of_pawns(bit_board, pawns.drop_last());
    if i < before.len() {
        lemma_moves_of_pawns(bit_board, pawns.drop_last(), i);
        let from = before[i].from;
        let k = choose|k: int| 0 <= k < pawns.drop_last().len() && pawns.drop_last()[k] == from;
        assert(pawns[k] == from);
    } else {
        assert(pawns[pawns.len() - 1] == pawns.last());
        lemma_jumps_from(bit_board, pawns.last(), i - before.len());
    }
}

/// Two lists of moves that were generated for one game state are the same,
/// move for move.
pub proof fn lemma_generate_moves_determined(
    game_state: GameState,
    first: Seq<Move>,
    second: Seq<Move>,
)
    requires
        first == game_state@.legal_moves(),
        second == game_state@.legal_moves(),
    ensures
        first == second,
        first.len() == second.len(),
        forall|i: int| 0 <= i < first.len() ==> first[i] == second[i],
{
}

/// The position after the moves of `moves` have been made in turn.
pub open spec fn played(position: Position, moves: Seq<Move>) -> Position
    decreases moves.len(),
{
    if moves.len() == 0 {
        position
    } else {
        played(position, moves.drop_last()).after_move(moves.last())
    }
}

/// Each move of `moves` is legal in the position in which it is made.
pub open spec fn is_legal_play(position: Position, moves: Seq<Move>) -> bool {
    forall|i: int|
        0 <= i < moves.len() ==> (#[trigger] played(position, moves.take(i))).legal_moves().contains(
            moves[i],
        )
}

/// Every position that legal play reaches from a sound position is sound:
/// the occupancy mask holds exactly the cells of the four lists, and no
/// cell stands in two of them. It holds as many pieces as the first, and
/// one more move is counted for each move made.
pub proof fn lemma_play_keeps_wf(position: Position, moves: Seq<Move>)
    requires
        position.wf(),
        is_legal_play(position, moves),
    ensures
        played(position, moves).wf(),
        played(position, moves).piece_count() == position.piece_count(),
        played(position, moves).move_count == position.move_count + moves.len(),
    decreases moves.len(),
{
    if moves.len() > 0 {
        let before = moves.drop_last();
        assert forall|i: int| 0 <= i < before.len() implies (#[trigger] played(
            position,
            before.take(i),
        )).legal_moves().contains(before[i]) by {
            assert(before.take(i) =~= moves.take(i));
        }
        lemma_play_keeps_wf(position, before);
        let reached = played(position, before);
        assert(moves.take(moves.len() - 1) =~= before);
        assert(reached.legal_moves().contains(moves.last()));
        reached.lemma_legal_move(moves.last());
        reached.lemma_after_move_count(moves.last());
    }
}

/// The cell half way between the two ends of a jump.
fn calculate_between_index(a1: BoardIndex, a2: BoardIndex) -> (between: BoardIndex)
    requires
        a1 + 2 == a2 || a2 + 2 == a1 || a1 + 14 == a2 || a2 + 14 == a1,
    ensures
        between == (a1 + a2) / 2,
    decreases
            if a1 > a2 {
                1nat
            } else {
                0nat
            },
{
    if a1 > a2 {
        return calculate_between_index(a2, a1);
    }
    let diff = a2 - a1;
    if diff == 2 {
        return a1 + 1;
    }
    a1 + 7
}

/// Whether the cell between the two ends of a jump is occupied.
fn is_between_occupied(board: BitBoard, a1: BoardIndex, a2: BoardIndex) -> (occupied: bool)
    requires
        a1 + 2 == a2 || a2 + 2 == a1 || a1 + 14 == a2 || a2 + 14 == a1,
    ensures
        occupied == ((a1 + a2) / 2 < BOARD_TOTAL_PIECES && has_cell(
            board,
            ((a1 + a2) / 2) as nat,
        )),
{
    is_board_bit_set(board, calculate_between_index(a1, a2))
}

/// Between two neighbours in the ascending list of `candidates`, and before
/// the first and behind the last, lies no candidate.
proof fn lemma_gap(candidates: Set<nat>, k: int, cell: nat)
    requires
        0 <= k <= ascending(candidates, 64).len(),
        k > 0 ==> ascending(candidates, 64)[k - 1] < cell,
        k < ascending(candidates, 64).len() ==> cell < ascending(candidates, 64)[k],
        cell < 64,
    ensures
        !candidates.contains(cell),
{
    let indices = ascending(candidates, 64);
    lemma_ascending_sorted(candidates, 64);
    if candidates.contains(cell) {
        let j = choose|j: int| 0 <= j < indices.len() && indices[j] == cell as u8;
        if j < k {
            if j < k - 1 {
                assert(indices[j] < indices[k - 1]);
            }
        } else {
            if j > k {
                assert(indices[k] < indices[j]);
            }
        }
    }
}

/// Taking the targets one by one from the candidates gives the ascending
/// list of the legal ones.
proof fn lemma_next_target(candidates: Set<nat>, legal: Set<nat>, k: int)
    requires
        0 <= k < ascending(candidates, 64).len(),
        forall|cell: nat| legal.contains(cell) ==> candidates.contains(cell),
    ensures
        ascending(legal, (ascending(candidates, 64)[k] + 1) as nat) == if legal.contains(
            ascending(candidates, 64)[k] as nat,
        ) {
            ascending(
                legal,
                if k == 0 {
                    0
                } else {
                    (ascending(candidates, 64)[k - 1] + 1) as nat
                },
            ).push(ascending(candidates, 64)[k])
        } else {
            ascending(
                legal,
                if k == 0 {
                    0
                } else {
                    (ascending(candidates, 64)[k - 1] + 1) as nat
                },
            )
        },
{
    let indices = ascending(candidates, 64);
    lemma_ascending_sorted(candidates, 64);
    let low: nat = if k == 0 {
        0
    } else {
        (indices[k - 1] + 1) as nat
    };
    let to = indices[k] as nat;
    if k > 0 {
        assert(indices[k - 1] < indices[k]);
    }
    assert forall|cell: nat| low <= cell < to implies !legal.contains(cell) by {
        lemma_gap(candidates, k, cell);
    }
    lemma_ascending_skip(legal, low, to);
}

/// Behind the last candidate lies no legal target.
proof fn lemma_last_target(candidates: Set<nat>, legal: Set<nat>, limit: nat)
    requires
        forall|cell: nat| legal.contains(cell) ==> candidates.contains(cell),
        forall|cell: nat| candidates.contains(cell) ==> cell < limit,
        limit <= 64,
    ensures
        ascending(legal, limit) == ascending(
            legal,
            if ascending(candidates, 64).len() == 0 {
                0
            } else {
                (ascending(candidates, 64).last() + 1) as nat
            },
        ),
{
    let indices = ascending(candidates, 64);
    lemma_ascending_sorted(candidates, 64);
    let low: nat = if indices.len() == 0 {
        0
    } else {
        (indices.last() + 1) as nat
    };
    assert forall|cell: nat| low <= cell < limit implies !legal.contains(cell) by {
        lemma_gap(candidates, indices.len() as int, cell);
    }
    if indices.len() > 0 {
        assert(candidates.contains(indices[indices.len() - 1] as nat));
    }
    lemma_ascending_skip(legal, low, limit);
}

impl GameState {
    /// The legal moves of the side to move, in the order of its pieces:
    /// the kings before the pawns, each list from its front, and for each
    /// piece the lower target cells first.
    pub fn generate_moves(&self) -> (moves: Vec<Move>)
        requires
            self.wf(),
        ensures
            moves@ == self@.legal_moves(),
    {
        let mut moves = Vec::<Move>::new();
        let (kings, pawns) = self.get_active_pieces();
        let ghost bit_board = self.board.piece_bits;
        proof {
            self.lemma_pieces_on_board();
            assert(kings@ == self@.active_kings());
            assert(pawns@ == self@.active_pawns());
            kings.lemma_view();
            pawns.lemma_view();
        }
        let mut king_iter = PieceListIterator::new(kings);
        let ghost mut count: int = 0;
        loop
            invariant_except_break
                self.wf(),
                bit_board == self.board.piece_bits,
                kings.wf(),
                king_iter.slots() == kings.slots(),
                king_iter.position() == count,
                0 <= count <= kings@.len() <= 7,
                forall|i: int| 0 <= i < kings@.len() ==> kings.slots()[i] == kings@[i] && kings@[i] < 42,
                kings.slots()[kings@.len() as int] == END_OF_LIST,
                moves@ == moves_of_kings(bit_board, kings@.take(count)),
            ensures
                moves@ == moves_of_kings(bit_board, kings@),
            decreases 8 - count,
        {
            match king_iter.next() {
                None => {
                    proof {
                        assert(kings@.take(count) =~= kings@);
                    }
                    break ;
                },
                Some(king) => {
                    self.append_jump_moves(&mut moves, king);
                    self.append_king_moves(&mut moves, king);
                    proof {
                        assert(kings@.take(count + 1).drop_last() =~= kings@.take(count));
                        count = count + 1;
                    }
                },
            }
        }
        let mut pawn_iter = PieceListIterator::new(pawns);
        let ghost king_moves = moves@;
        proof {
            count = 0;
        }
        loop
            invariant_except_break
                self.wf(),
                bit_board == self.board.piece_bits,
                pawns.wf(),
                pawn_iter.slots() == pawns.slots(),
                pawn_iter.position() == count,
                0 <= count <= pawns@.len() <= 7,
                forall|i: int| 0 <= i < pawns@.len() ==> pawns.slots()[i] == pawns@[i] && pawns@[i] < 42,
                pawns.slots()[pawns@.len() as int] == END_OF_LIST,
                moves@ == king_moves + moves_of_pawns(bit_board, pawns@.take(count)),
            ensures
                moves@ == king_moves + moves_of_pawns(bit_board, pawns@),
            decreases 8 - count,
        {
            match pawn_iter.next() {
                None => {
                    proof {
                        assert(pawns@.take(count) =~= pawns@);
                    }
                    break ;
                },
                Some(pawn) => {
                    self.append_jump_moves(&mut moves, pawn);
                    proof {
                        assert(pawns@.take(count + 1).drop_last() =~= pawns@.take(count));
                        count = count + 1;
                    }
                },
            }
        }
        moves
    }

    /// Applies `mov`: the piece of the side to move leaves `from` and
    /// stands on `to`, at the front of its list; after a jump it has changed
    /// its kind. Then the other side is to move.
    pub fn make_move(&mut self, mov: Move)
        requires
            old(self).wf(),
            old(self)@.tracks(mov),
            mov.to < 64,
            old(self).move_count < u32::MAX,
        ensures
            final(self)@ == old(self)@.after_move(mov),
            final(self).board.lists_sound(),
            mov.to < 42 && !has_cell(old(self).board.piece_bits, mov.to as nat) ==> final(self).wf(),
            old(self)@.legal_moves().contains(mov) ==> final(self).wf(),
            final(self)@.piece_count() == old(self)@.piece_count(),
            final(self)@.white_kings.len() + final(self)@.white_pawns.len()
                == old(self)@.white_kings.len() + old(self)@.white_pawns.len(),
            final(self)@.black_kings.len() + final(self)@.black_pawns.len()
                == old(self)@.black_kings.len() + old(self)@.black_pawns.len(),
    {
        let (mut kings, mut pawns) = self.get_active_pieces();
        proof {
            self@.lemma_after_move_count(mov);
            if self@.legal_moves().contains(mov) {
                self@.lemma_legal_move(mov);
            }
            self.lemma_pieces_on_board();
            kings.lemma_view();
            pawns.lemma_view();
            assert(kings@ == self@.active_kings());
            assert(pawns@ == self@.active_pawns());
            if kings@.contains(mov.from) {
                lemma_without_first(kings@, mov.from);
            }
            if pawns@.contains(mov.from) {
                lemma_without_first(pawns@, mov.from);
            }
            if mov.to < 42 && !has_cell(self.board.piece_bits, mov.to as nat) {
                self@.lemma_after_move_wf(mov);
            }
        }
        self.board.piece_bits = jump_bit(self.board.piece_bits, mov.from, mov.to);
        if mov.is_jump() {
            if kings.find_and_remove(mov.from) {
                pawns.push_front(mov.to);
            } else {
                let found = pawns.find_and_remove(mov.from);
                assert(found);
                kings.push_front(mov.to);
            }
        } else {
            let found = kings.find_and_remove(mov.from);
            assert(found);
            proof {
                kings.lemma_view();
            }
            kings.push_front(mov.to);
        }
        self.set_active_pieces(kings, pawns);
        self.is_active_player_white = !self.is_active_player_white;
        self.move_count += 1;
    }

    /// Every listed piece stands on the board.
    pub proof fn lemma_pieces_on_board(self)
        requires
            self.wf(),
        ensures
            forall|i: int| 0 <= i < self@.active_kings().len() ==> self@.active_kings()[i] < 42,
            forall|i: int| 0 <= i < self@.active_pawns().len() ==> self@.active_pawns()[i] < 42,
    {
        let kings = self@.active_kings();
        let pawns = self@.active_pawns();
        assert forall|i: int| 0 <= i < kings.len() implies kings[i] < 42 by {
            assert(kings.contains(kings[i]));
        }
        assert forall|i: int| 0 <= i < pawns.len() implies pawns[i] < 42 by {
            assert(pawns.contains(pawns[i]));
        }
    }

    /// Adds the steps of the king on `from`.
    fn append_king_moves(&self, moves: &mut Vec<Move>, from: BoardIndex)
        requires
            from < 42,
        ensures
            final(moves)@ == old(moves)@ + steps_from(self.board.piece_bits, from),
    {
        let bit_board = self.board.piece_bits;
        let king_moves = king_moves(from);
        let allowed_jump_bits = king_moves & !bit_board;
        let allowed_jump_indices = get_bit_indices(allowed_jump_bits);
        let ghost candidates = cells(allowed_jump_bits);
        let ghost legal = Set::new(|to: nat| is_legal_step(bit_board, from as nat, to));
        proof {
            lemma_combined_cells(king_moves, !bit_board);
            lemma_combined_cells(bit_board, 0);
            lemma_ascending_sorted(candidates, 64);
            assert forall|cell: nat| candidates.contains(cell) <==> is_step(from as nat, cell)
                && !has_cell(bit_board, cell) by {
                assert(cells(king_moves).contains(cell) == is_step(from as nat, cell));
            }
        }
        let mut k: usize = 0;
        while k < allowed_jump_indices.len()
            invariant
                from < 42,
                bit_board == self.board.piece_bits,
                k <= allowed_jump_indices.len(),
                allowed_jump_indices@ == ascending(candidates, 64),
                legal == Set::new(|to: nat| is_legal_step(bit_board, from as nat, to)),
                forall|cell: nat|
                    candidates.contains(cell) <==> is_step(from as nat, cell) && !has_cell(
                        bit_board,
                        cell,
                    ),
                forall|i: int|
                    0 <= i < allowed_jump_indices.len() ==> candidates.contains(
                        #[trigger] allowed_jump_indices[i] as nat,
                    ),
                moves@ == old(moves)@ + moves_to(
                    from,
                    ascending(
                        legal,
                        if k == 0 {
                            0
                        } else {
                            (allowed_jump_indices[k - 1] + 1) as nat
                        },
                    ),
                ),
            decreases allowed_jump_indices.len() - k,
        {
            let to = allowed_jump_indices[k];
            proof {
                assert(candidates.contains(to as nat));
                lemma_next_target(candidates, legal, k as int);
            }
            k += 1;
            let moved_bit_board = jump_bit(bit_board, from, to);
            if !is_connected(moved_bit_board, to) {
                continue ;
            }
            moves.push(Move::new(from, to));
            proof {
                let before = ascending(
                    legal,
                    if k == 1 {
                        0
                    } else {
                        (allowed_jump_indices[k - 2] + 1) as nat
                    },
                );
                assert(moves_to(from, before.push(to)) =~= moves_to(from, before).push(
                    Move { from, to },
                ));
            }
        }
        proof {
            lemma_last_target(candidates, legal, 42);
        }
    }

    /// Adds the jumps of the piece on `from`.
    fn append_jump_moves(&self, moves: &mut Vec<Move>, from: BoardIndex)
        requires
            from < 42,
        ensures
            final(moves)@ == old(moves)@ + jumps_from(self.board.piece_bits, from),
    {
        let bit_board = self.board.piece_bits;
        let jump_moves = jump_moves(from);
        let allowed_jump_bits = jump_moves & !bit_board;
        let allowed_jump_indices = get_bit_indices(allowed_jump_bits);
        let ghost candidates = cells(allowed_jump_bits);
        let ghost legal = Set::new(|to: nat| is_legal_jump(bit_board, from as nat, to));
        proof {
            lemma_combined_cells(jump_moves, !bit_board);
            lemma_combined_cells(bit_board, 0);
            lemma_ascending_sorted(candidates, 64);
            assert forall|cell: nat| candidates.contains(cell) <==> is_jump(from as nat, cell)
                && !has_cell(bit_board, cell) by {
                assert(cells(jump_moves).contains(cell) == is_jump(from as nat, cell));
            }
        }
        let mut k: usize = 0;
        while k < allowed_jump_indices.len()
            invariant
                from < 42,
                bit_board == self.board.piece_bits,
                k <= allowed_jump_indices.len(),
                allowed_jump_indices@ == ascending(candidates, 64),
                legal == Set::new(|to: nat| is_legal_jump(bit_board, from as nat, to)),
                forall|cell: nat|
                    candidates.contains(cell) <==> is_jump(from as nat, cell) && !has_cell(
                        bit_board,
                        cell,
                    ),
                forall|i: int|
                    0 <= i < allowed_jump_indices.len() ==> candidates.contains(
                        #[trigger] allowed_jump_indices[i] as nat,
                    ),
                moves@ == old(moves)@ + moves_to(
                    from,
                    ascending(
                        legal,
                        if k == 0 {
                            0
                        } else {
                            (allowed_jump_indices[k - 1] + 1) as nat
                        },
                    ),
                ),
            decreases allowed_jump_indices.len() - k,
        {
            let to = allowed_jump_indices[k];
            proof {
                assert(candidates.contains(to as nat));
                lemma_next_target(candidates, legal, k as int);
            }
            k += 1;
            if !is_between_occupied(bit_board, from, to) {
                continue ;
            }
            let moved_bit_board = jump_bit(bit_board, from, to);
            if !is_connected(moved_bit_board, to) {
                continue ;
            }
            moves.push(Move::new(from, to));
            proof {
                let before = ascending(
                    legal,
                    if k == 1 {
                        0
                    } else {
                        (allowed_jump_indices[k - 2] + 1) as nat
                    },
                );
                assert(moves_to(from, before.push(to)) =~= moves_to(from, before).push(
                    Move { from, to },
                ));
            }
        }
        proof {
            lemma_last_target(candidates, legal, 42);
        }
    }
}

} // verus!
