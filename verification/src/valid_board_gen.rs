use vstd::prelude::*;
use vstd::std_specs::bits::{
    axiom_u64_trailing_ones, axiom_u64_trailing_zeros, u64_trailing_ones, u64_trailing_zeros,
};
use vstd::string::StringSliceAdditionalSpecFns;
use crate::bit_utils::{
    bit, cells, coord_cell, has_cell, is_board_coord_set, lemma_bit_ops, lemma_cells_injective,
    lemma_combined_cells, lemma_remove_cell, on_board,
};
use crate::constants::{BitBoard, BoardIndex, BOARD_HEIGHT, BOARD_WIDTH};

verus! {

pub const DIGIT_ZERO: u8 = 48;

pub const DIGIT_ONE: u8 = 49;

pub const PLUS_SIGN: u8 = 43;

/// The digits of a board text: the text without a plus sign in front.
pub open spec fn board_digits(text: Seq<u8>) -> Seq<u8> {
    if text.len() > 0 && text[0] == PLUS_SIGN {
        text.drop_first()
    } else {
        text
    }
}

/// `text` is a board written in binary, highest cell first: at least one
/// digit, only the digits 0 and 1, and nothing but zeros before the last 64
/// digits. A plus sign may stand in front of the digits.
pub open spec fn is_board_text(text: Seq<u8>) -> bool {
    let digits = board_digits(text);
    &&& digits.len() > 0
    &&& forall|i: int| 0 <= i < digits.len() ==> digits[i] == DIGIT_ZERO || digits[i] == DIGIT_ONE
    &&& forall|i: int| 0 <= i && i + 64 < digits.len() ==> digits[i] == DIGIT_ZERO
}

proof fn lemma_shift_in(word: u64, low: u64, j: u64)
    by (bit_vector)
    requires
        j < 64,
        low <= 1,
    ensures
        bit((word << 1) | low, j) <==> if j == 0 {
            low == 1
        } else {
            bit(word, (j - 1) as u64)
        },
{
}

/// Reads a board from its binary text: the last digit is cell 0, the digit
/// before it cell 1, and so on.
pub fn make_board(s: &str) -> (board: BitBoard)
    requires
        is_board_text(s.spec_bytes()),
    ensures
        forall|cell: nat|
            has_cell(board, cell) <==> cell < board_digits(s.spec_bytes()).len() && board_digits(
                s.spec_bytes(),
            )[board_digits(s.spec_bytes()).len() - 1 - cell] == DIGIT_ONE,
{
    let bytes = s.as_bytes();
    let start: usize = if bytes.len() > 0 && bytes[0] == PLUS_SIGN {
        1
    } else {
        0
    };
    let ghost digits = board_digits(bytes@);
    assert(digits =~= bytes@.subrange(start as int, bytes.len() as int));
    let mut board: BitBoard = 0;
    let mut i: usize = start;
    proof {
        lemma_combined_cells(0, 0);
    }
    while i < bytes.len()
        invariant
            start <= i <= bytes.len(),
            digits == bytes@.subrange(start as int, bytes.len() as int),
            forall|k: int| 0 <= k && k + 64 < digits.len() ==> digits[k] == DIGIT_ZERO,
            forall|cell: nat|
                has_cell(board, cell) <==> cell < i - start && cell < 64 && digits[i - start - 1
                    - cell] == DIGIT_ONE,
        decreases bytes.len() - i,
    {
        let low: u64 = if bytes[i] == DIGIT_ONE {
            1
        } else {
            0
        };
        let ghost before = board;
        board = (board << 1) | low;
        i += 1;
        proof {
            assert(digits[i - start - 1] == bytes[i - 1]);
            assert forall|cell: nat|
                has_cell(board, cell) <==> cell < i - start && cell < 64 && digits[i - start - 1
                    - cell] == DIGIT_ONE by {
                if cell < 64 {
                    lemma_shift_in(before, low, cell as u64);
                    if cell > 0 {
                        assert(has_cell(before, (cell - 1) as nat) == bit(
                            before,
                            (cell - 1) as u64,
                        ));
                    }
                }
            }
        }
    }
    board
}

/// Two cells of the board that share a side.
pub open spec fn adjacent(a: nat, b: nat) -> bool {
    &&& a < 42
    &&& b < 42
    &&& {
        ||| a / 7 == b / 7 && (a + 1 == b || b + 1 == a)
        ||| a + 7 == b
        ||| b + 7 == a
    }
}

/// `path` walks over occupied cells of the board, from each cell to one
/// beside it.
pub open spec fn is_path(bit_board: BitBoard, path: Seq<nat>) -> bool {
    &&& path.len() > 0
    &&& forall|i: int| 0 <= i < path.len() ==> path[i] < 42 && has_cell(bit_board, path[i])
    &&& forall|i: int| 0 <= i < path.len() - 1 ==> adjacent(#[trigger] path[i], path[i + 1])
}

/// Some path over occupied cells leads from `from` to `to`.
pub open spec fn reachable(bit_board: BitBoard, from: nat, to: nat) -> bool {
    exists|path: Seq<nat>| #[trigger]
        is_path(bit_board, path) && path[0] == from && path.last() == to
}

/// Every occupied cell can be reached from `start`: the pieces form one
/// group, and `start` belongs to it.
pub open spec fn connected_from(bit_board: BitBoard, start: nat) -> bool {
    forall|cell: nat| has_cell(bit_board, cell) ==> reachable(bit_board, start, cell)
}

/// An occupied cell reaches itself.
pub proof fn lemma_reachable_self(bit_board: BitBoard, cell: nat)
    requires
        cell < 42,
        has_cell(bit_board, cell),
    ensures
        reachable(bit_board, cell, cell),
{
    assert(is_path(bit_board, seq![cell]));
}

/// A path can be carried on to an occupied cell beside its end.
pub proof fn lemma_reachable_step(bit_board: BitBoard, from: nat, via: nat, to: nat)
    requires
        reachable(bit_board, from, via),
        adjacent(via, to),
        has_cell(bit_board, to),
    ensures
        reachable(bit_board, from, to),
{
    let path = choose|path: Seq<nat>| #[trigger]
        is_path(bit_board, path) && path[0] == from && path.last() == via;
    let longer = path.push(to);
    assert(is_path(bit_board, longer));
}

/// A path never leaves a set of occupied cells that has no occupied cell
/// beside it.
proof fn lemma_path_stays(bit_board: BitBoard, group: Set<nat>, path: Seq<nat>, i: int)
    requires
        is_path(bit_board, path),
        group.contains(path[0]),
        forall|a: nat, b: nat|
            group.contains(a) && #[trigger] adjacent(a, b) && has_cell(bit_board, b)
                ==> group.contains(b),
        0 <= i < path.len(),
    ensures
        group.contains(path[i]),
    decreases i,
{
    if i > 0 {
        lemma_path_stays(bit_board, group, path, i - 1);
        assert(adjacent(path[i - 1], path[i]));
    }
}

/// A board with a single piece is connected from the cell of that piece.
pub proof fn lemma_single_piece_connected(bit_board: BitBoard, cell: nat)
    requires
        cell < 42,
        cells(bit_board) == set![cell],
    ensures
        connected_from(bit_board, cell),
{
    assert(cells(bit_board).contains(cell));
    lemma_reachable_self(bit_board, cell);
    assert forall|other: nat| has_cell(bit_board, other) implies reachable(
        bit_board,
        cell,
        other,
    ) by {
        assert(cells(bit_board).contains(other));
    }
}

/// A board whose pieces fall into two groups, with no piece of the one
/// beside a piece of the other, is not connected from any cell of the first
/// group. With the groups exchanged, the same holds of the second.
pub proof fn lemma_two_groups_not_connected(
    bit_board: BitBoard,
    first: Set<nat>,
    second: Set<nat>,
    start: nat,
)
    requires
        cells(bit_board) == first.union(second),
        first.disjoint(second),
        forall|a: nat, b: nat| first.contains(a) && second.contains(b) ==> !adjacent(a, b),
        first.contains(start),
        exists|cell: nat| second.contains(cell),
    ensures
        !connected_from(bit_board, start),
{
    let far = choose|cell: nat| second.contains(cell);
    assert(cells(bit_board).contains(far));
    assert(has_cell(bit_board, far));
    if reachable(bit_board, start, far) {
        let path = choose|path: Seq<nat>| #[trigger]
            is_path(bit_board, path) && path[0] == start && path.last() == far;
        assert forall|a: nat, b: nat|
            first.contains(a) && #[trigger] adjacent(a, b) && has_cell(
                bit_board,
                b,
            ) implies first.contains(b) by {
            assert(cells(bit_board).contains(b));
        }
        lemma_path_stays(bit_board, first, path, path.len() - 1);
    }
}

proof fn lemma_clearing_lowers(word: u64, j: u64)
    by (bit_vector)
    requires
        j < 64,
        bit(word, j),
    ensures
        word & !(1u64 << j) < word,
{
}

/// Empties the cell at a coordinate; a coordinate off the board changes nothing.
pub fn unset_bit(bit_board: BitBoard, x: BoardIndex, y: BoardIndex) -> (board: BitBoard)
    ensures
        cells(board) == if on_board(x, y) {
            cells(bit_board).remove(coord_cell(x, y))
        } else {
            cells(bit_board)
        },
        board <= bit_board,
        on_board(x, y) && has_cell(bit_board, coord_cell(x, y)) ==> board < bit_board,
{
    if x >= BOARD_WIDTH || y >= BOARD_HEIGHT {
        return bit_board;
    }
    let index: u8 = BOARD_WIDTH * y + x;
    let mask = 1u64 << index;
    proof {
        lemma_remove_cell(bit_board, index as u64);
        if has_cell(bit_board, index as nat) {
            lemma_clearing_lowers(bit_board, index as u64);
        } else {
            assert(cells(bit_board & !mask) =~= cells(bit_board));
            lemma_cells_injective(bit_board & !mask, bit_board);
        }
    }
    bit_board & !mask
}

/// If the cell at the coordinate is still occupied in `rest`, empties it
/// there and puts it on the stack.
fn visit(rest: BitBoard, stack: &mut Vec<BoardIndex>, x: BoardIndex, y: BoardIndex) -> (left:
    BitBoard)
    ensures
        on_board(x, y) && has_cell(rest, coord_cell(x, y)) ==> {
            &&& cells(left) == cells(rest).remove(coord_cell(x, y))
            &&& final(stack)@ == old(stack)@.push(coord_cell(x, y) as u8)
            &&& left < rest
        },
        !(on_board(x, y) && has_cell(rest, coord_cell(x, y))) ==> {
            &&& left == rest
            &&& final(stack)@ == old(stack)@
        },
{
    if !is_board_coord_set(rest, x, y) {
        return rest;
    }
    stack.push(BOARD_WIDTH * y + x);
    unset_bit(rest, x, y)
}

/// What the fill has emptied so far lies in one group with `start`, and
/// every emptied cell that is off the stack has no occupied cell beside it
/// left in `rest`.
spec fn fill_invariant(bit_board: BitBoard, rest: BitBoard, stack: Seq<u8>, start: nat) -> bool {
    &&& start < 42
    &&& has_cell(bit_board, start)
    &&& !has_cell(rest, start)
    &&& forall|c: nat| has_cell(rest, c) ==> has_cell(bit_board, c)
    &&& forall|c: nat|
        has_cell(bit_board, c) && !has_cell(rest, c) ==> c < 42 && reachable(bit_board, start, c)
    &&& forall|i: int|
        0 <= i < stack.len() ==> stack[i] < 42 && has_cell(bit_board, stack[i] as nat) && !has_cell(
            rest,
            stack[i] as nat,
        )
    &&& forall|c: nat, n: nat|
        has_cell(bit_board, c) && !has_cell(rest, c) && !stack.contains(c as u8) && #[trigger] adjacent(
            c,
            n,
        ) && has_cell(bit_board, n) ==> !has_cell(rest, n)
}

/// Once nothing is left on the stack, every cell on a path from `start` has
/// been emptied.
proof fn lemma_fill_complete(bit_board: BitBoard, rest: BitBoard, start: nat, path: Seq<nat>, i: int)
    requires
        fill_invariant(bit_board, rest, Seq::empty(), start),
        is_path(bit_board, path),
        path[0] == start,
        0 <= i < path.len(),
    ensures
        !has_cell(rest, path[i]),
    decreases i,
{
    if i > 0 {
        lemma_fill_complete(bit_board, rest, start, path, i - 1);
        assert(adjacent(path[i - 1], path[i]));
        assert(!Seq::<u8>::empty().contains(path[i - 1] as u8));
    }
}

/// Empties the group of the piece at the coordinate and returns what is
/// left of the board. Nothing is emptied when the coordinate is off the
/// board or the cell is empty.
pub fn flood_fill(bit_board: BitBoard, x: BoardIndex, y: BoardIndex) -> (rest: BitBoard)
    ensures
        !on_board(x, y) ==> rest == bit_board,
        on_board(x, y) ==> forall|cell: nat|
            has_cell(rest, cell) <==> has_cell(bit_board, cell) && !reachable(
                bit_board,
                coord_cell(x, y),
                cell,
            ),
{
    if !is_board_coord_set(bit_board, x, y) {
        proof {
            if on_board(x, y) {
                assert forall|cell: nat| !reachable(bit_board, coord_cell(x, y), cell) by {
                    if reachable(bit_board, coord_cell(x, y), cell) {
                        let path = choose|path: Seq<nat>| #[trigger]
                            is_path(bit_board, path) && path[0] == coord_cell(x, y) && path.last()
                                == cell;
                        assert(has_cell(bit_board, path[0]));
                    }
                }
            }
        }
        return bit_board;
    }
    let ghost start = coord_cell(x, y);
    let mut stack: Vec<BoardIndex> = Vec::new();
    let mut rest = visit(bit_board, &mut stack, x, y);
    proof {
        lemma_reachable_self(bit_board, start);
        assert forall|c: nat| has_cell(bit_board, c) && !has_cell(rest, c) implies c == start by {
            assert(cells(rest).contains(c) == cells(bit_board).remove(start).contains(c));
        }
        assert forall|c: nat| has_cell(rest, c) implies has_cell(bit_board, c) by {
            assert(cells(rest).contains(c) == cells(bit_board).remove(start).contains(c));
        }
        assert(!has_cell(rest, start)) by {
            assert(cells(rest).contains(start) == cells(bit_board).remove(start).contains(start));
        }
        assert(stack@[0] == start as u8);
        assert forall|c: nat|
            has_cell(bit_board, c) && !has_cell(rest, c) implies stack@.contains(c as u8) by {}
    }
    while stack.len() > 0
        invariant
            fill_invariant(bit_board, rest, stack@, start),
        decreases rest, stack.len(),
    {
        let ghost before = rest;
        let ghost waiting = stack@;
        let cell = stack.pop().unwrap();
        let ghost popped = stack@;
        let cx: u8 = cell % BOARD_WIDTH;
        let cy: u8 = cell / BOARD_WIDTH;
        let ghost r0 = rest;
        rest = visit(rest, &mut stack, cx.wrapping_sub(1), cy);
        let ghost r1 = rest;
        let ghost s1 = stack@;
        rest = visit(rest, &mut stack, cx + 1, cy);
        let ghost r2 = rest;
        let ghost s2 = stack@;
        rest = visit(rest, &mut stack, cx, cy.wrapping_sub(1));
        let ghost r3 = rest;
        let ghost s3 = stack@;
        rest = visit(rest, &mut stack, cx, cy + 1);
        proof {
            lemma_fill_step(
                bit_board,
                start,
                cell as int,
                waiting,
                popped,
                s1,
                s2,
                s3,
                stack@,
                r0,
                r1,
                r2,
                r3,
                rest,
            );
        }
    }
    proof {
        assert(stack@ =~= Seq::empty());
        assert forall|cell: nat|
            has_cell(rest, cell) <==> has_cell(bit_board, cell) && !reachable(
                bit_board,
                start,
                cell,
            ) by {
            if reachable(bit_board, start, cell) {
                let path = choose|path: Seq<nat>| #[trigger]
                    is_path(bit_board, path) && path[0] == start && path.last() == cell;
                lemma_fill_complete(bit_board, rest, start, path, path.len() - 1);
            }
        }
    }
    rest
}

/// One cell of the board whose `rest` bit is cleared when it is occupied
/// there, and pushed on the stack.
spec fn visited(rest: BitBoard, stack: Seq<u8>, cell: int, left: BitBoard, grown: Seq<u8>) -> bool {
    if 0 <= cell < 42 && has_cell(rest, cell as nat) {
        &&& cells(left) == cells(rest).remove(cell as nat)
        &&& grown == stack.push(cell as u8)
    } else {
        &&& left == rest
        &&& grown == stack
    }
}

/// One round of the fill keeps its invariant.
proof fn lemma_fill_step(
    bit_board: BitBoard,
    start: nat,
    cell: int,
    waiting: Seq<u8>,
    s0: Seq<u8>,
    s1: Seq<u8>,
    s2: Seq<u8>,
    s3: Seq<u8>,
    s4: Seq<u8>,
    r0: BitBoard,
    r1: BitBoard,
    r2: BitBoard,
    r3: BitBoard,
    r4: BitBoard,
)
    requires
        fill_invariant(bit_board, r0, waiting, start),
        waiting.len() > 0,
        cell == waiting.last(),
        s0 == waiting.drop_last(),
        visited(r0, s0, if cell % 7 > 0 { cell - 1 } else { -1 }, r1, s1),
        visited(r1, s1, if cell % 7 < 6 { cell + 1 } else { -1 }, r2, s2),
        visited(r2, s2, cell - 7, r3, s3),
        visited(r3, s3, cell + 7, r4, s4),
    ensures
        fill_invariant(bit_board, r4, s4, start),
{
    let left: int = if cell % 7 > 0 { cell - 1 } else { -1 };
    let right: int = if cell % 7 < 6 { cell + 1 } else { -1 };
    let up: int = cell - 7;
    let down: int = cell + 7;
    assert(0 <= cell < 42 && has_cell(bit_board, cell as nat) && !has_cell(r0, cell as nat));
    assert(reachable(bit_board, start, cell as nat));
    assert forall|c: nat| #[trigger]
        has_cell(r1, c) <==> has_cell(r0, c) && !(c == left && left >= 0) by {
        assert(cells(r1).contains(c) == has_cell(r1, c));
        assert(cells(r0).contains(c) == has_cell(r0, c));
    }
    assert forall|c: nat| #[trigger]
        has_cell(r2, c) <==> has_cell(r1, c) && !(c == right && right >= 0) by {
        assert(cells(r2).contains(c) == has_cell(r2, c));
        assert(cells(r1).contains(c) == has_cell(r1, c));
    }
    assert forall|c: nat| #[trigger] has_cell(r3, c) <==> has_cell(r2, c) && !(c == up && c < 42) by {
        assert(cells(r3).contains(c) == has_cell(r3, c));
        assert(cells(r2).contains(c) == has_cell(r2, c));
    }
    assert forall|c: nat| #[trigger]
        has_cell(r4, c) <==> has_cell(r3, c) && !(c == down && c < 42) by {
        assert(cells(r4).contains(c) == has_cell(r4, c));
        assert(cells(r3).contains(c) == has_cell(r3, c));
    }
    assert forall|c: nat| has_cell(bit_board, c) && !has_cell(r4, c) implies c < 42 && reachable(
        bit_board,
        start,
        c,
    ) by {
        if has_cell(r0, c) {
            assert(adjacent(cell as nat, c));
            lemma_reachable_step(bit_board, start, cell as nat, c);
        }
    }
    assert forall|i: int| 0 <= i < s4.len() implies s4[i] < 42 && has_cell(
        bit_board,
        s4[i] as nat,
    ) && !has_cell(r4, s4[i] as nat) by {
        if i < s0.len() {
            assert(s4[i] == waiting[i]);
        }
    }
    assert forall|c: nat, n: nat|
        has_cell(bit_board, c) && !has_cell(r4, c) && !s4.contains(c as u8) && #[trigger] adjacent(
            c,
            n,
        ) && has_cell(bit_board, n) implies !has_cell(r4, n) by {
        if has_cell(r0, c) {
            // emptied in this round, so it is on the stack
            if c == left {
                assert(s1.last() == c as u8);
                assert(s4[s0.len() as int] == c as u8);
            } else if c == right {
                assert(s2.last() == c as u8);
                assert(s4[s2.len() - 1] == c as u8);
            } else if c == up {
                assert(s3.last() == c as u8);
                assert(s4[s3.len() - 1] == c as u8);
            } else {
                assert(s4.last() == c as u8);
            }
        } else if c == cell {
        } else {
            if waiting.contains(c as u8) {
                let i = choose|i: int| 0 <= i < waiting.len() && waiting[i] == c as u8;
                if i < s0.len() {
                    assert(s4[i] == c as u8);
                }
            }
        }
    }
}

/// Whether the pieces form one group that holds cell `bit_index`.
pub fn is_connected(bit_board: BitBoard, bit_index: BoardIndex) -> (connected: bool)
    ensures
        connected == connected_from(bit_board, bit_index as nat),
{
    let x = bit_index % BOARD_WIDTH;
    let y = bit_index / BOARD_WIDTH;
    let rest = flood_fill(bit_board, x, y);
    proof {
        lemma_combined_cells(0, 0);
        if rest == 0 {
            assert forall|cell: nat| has_cell(bit_board, cell) implies reachable(
                bit_board,
                bit_index as nat,
                cell,
            ) by {
                assert(!has_cell(rest, cell));
            }
        } else {
            if connected_from(bit_board, bit_index as nat) {
                assert forall|cell: nat| !has_cell(rest, cell) by {
                    if has_cell(rest, cell) {
                        if on_board(x, y) {
                        } else {
                            let path = choose|path: Seq<nat>| #[trigger]
                                is_path(bit_board, path) && path[0] == bit_index as nat
                                    && path.last() == cell;
                            assert(path[0] < 42);
                        }
                    }
                }
                assert(cells(rest) =~= cells(0));
                lemma_cells_injective(rest, 0);
            }
        }
    }
    rest == 0
}

/// The lowest occupied cell of a board that is not empty.
pub open spec fn run_start(bit_board: BitBoard) -> nat {
    u64_trailing_zeros(bit_board) as nat
}

/// The number of occupied cells in a row from the lowest occupied cell
/// upwards.
pub open spec fn run_len(bit_board: BitBoard) -> nat {
    u64_trailing_ones(bit_board >> u64_trailing_zeros(bit_board)) as nat
}

/// Filling the cells below the lowest piece of `v` and adding one clears
/// the lowest row of pieces and occupies the cell above it. `z` is the
/// lowest occupied cell and `k` the length of the row.
#[verifier::rlimit(100)]
proof fn lemma_carry_bits(v: u64, z: u64, k: u64, j: u64)
    by (bit_vector)
    requires
        1 <= k,
        z + k < 64,
        j < 64,
        v << ((64 - z) as u64) == 0,
        (!(v >> z)) << ((64 - k) as u64) == 0,
        ((v >> z) >> k) & 1 == 0,
    ensures
        v >= 1,
        (v | ((v - 1) as u64)) < 0xffff_ffff_ffff_ffff,
        bit(((v | ((v - 1) as u64)) + 1) as u64, j) <==> j == z + k || (bit(v, j) && j > z + k),
{
}

/// The lowest cell that is free in `t`, where the `m` cells below it are
/// occupied, less one and moved down by `d` cells, is a row of `m - d`
/// cells at the low end.
#[verifier::rlimit(100)]
proof fn lemma_low_row(t: u64, m: u64, d: u64, j: u64)
    by (bit_vector)
    requires
        m < 64,
        d <= m,
        j < 64,
        (!t) << ((64 - m) as u64) == 0,
        (t >> m) & 1 == 0,
    ensures
        !t >= 1,
        !t & ((0xffff_ffff_ffff_ffff - !t + 1) as u64) >= 1,
        bit((((!t & ((0xffff_ffff_ffff_ffff - !t + 1) as u64)) - 1) as u64) >> d, j) <==> j + d
            < m,
{
}

/// The cells below the lowest row of pieces of `v` and the row itself are
/// occupied once the cells below the lowest piece are filled.
#[verifier::rlimit(100)]
proof fn lemma_filled_low(v: u64, z: u64, k: u64)
    by (bit_vector)
    requires
        1 <= k,
        z + k < 64,
        v << ((64 - z) as u64) == 0,
        (!(v >> z)) << ((64 - k) as u64) == 0,
        ((v >> z) >> k) & 1 == 0,
    ensures
        (!(v | ((v - 1) as u64))) << ((64 - (z + k)) as u64) == 0,
        ((v | ((v - 1) as u64)) >> ((z + k) as u64)) & 1 == 0,
{
}

/// The placement that follows `v` when the placements of as many pieces
/// are counted up: of the lowest row of occupied cells, the highest piece
/// goes up by one cell and the others go down to the lowest cells of the
/// board. The cells above stay as they are. There must be a cell above
/// the row.
pub fn next_placement(v: BitBoard) -> (w: BitBoard)
    requires
        v != 0,
        run_start(v) + run_len(v) < 64,
    ensures
        forall|cell: nat| #[trigger]
            has_cell(w, cell) <==> cell + 1 < run_len(v) || cell == run_start(v) + run_len(v) || (
            has_cell(v, cell) && cell > run_start(v) + run_len(v)),
{
    let zeros = v.trailing_zeros();
    let ghost z = zeros as u64;
    let ghost k = run_len(v) as u64;
    proof {
        axiom_u64_trailing_zeros(v);
        axiom_u64_trailing_ones(v >> zeros);
        assert(k >= 1) by {
            lemma_bit_ops(v >> z, 0, 0, 0);
        }
        assert(v << ((64 - z) as u64) == 0);
        assert((!(v >> z)) << ((64 - k) as u64) == 0);
        assert(((v >> z) >> k) & 1 == 0);
        lemma_carry_bits(v, z, k, 0);
        lemma_filled_low(v, z, k);
    }
    let t = v | (v - 1);
    proof {
        lemma_low_row(t, (z + k) as u64, (z + 1) as u64, 0);
    }
    let lowest_free = !t & (u64::MAX - !t + 1);
    let high = t + 1;
    let low = (lowest_free - 1) >> (zeros + 1);
    let w = high | low;
    proof {
        assert forall|cell: nat| #[trigger]
            has_cell(w, cell) <==> cell + 1 < run_len(v) || cell == run_start(v) + run_len(v) || (
            has_cell(v, cell) && cell > run_start(v) + run_len(v)) by {
            if cell < 64 {
                lemma_carry_bits(v, z, k, cell as u64);
                lemma_low_row(t, (z + k) as u64, (z + 1) as u64, cell as u64);
                lemma_bit_ops(high, low, cell as u64, 0);
            }
        }
    }
    w
}

/// The eight bytes of `board`, the highest first.
pub open spec fn be_bytes(board: BitBoard) -> Seq<u8> {
    Seq::new(8, |i: int| ((board >> ((56 - 8 * i) as u64)) & 0xff) as u8)
}

/// The board whose eight bytes, the highest first, are `bytes`.
pub open spec fn be_board(bytes: Seq<u8>) -> BitBoard {
    (bytes[0] as u64) << 56 | (bytes[1] as u64) << 48 | (bytes[2] as u64) << 40 | (bytes[3] as u64)
        << 32 | (bytes[4] as u64) << 24 | (bytes[5] as u64) << 16 | (bytes[6] as u64) << 8 | (
    bytes[7] as u64)
}

proof fn lemma_be_join(board: u64)
    by (bit_vector)
    ensures
        (board >> 56 & 0xff) << 56 | (board >> 48 & 0xff) << 48 | (board >> 40 & 0xff) << 40 | (board
            >> 32 & 0xff) << 32 | (board >> 24 & 0xff) << 24 | (board >> 16 & 0xff) << 16 | (board
            >> 8 & 0xff) << 8 | (board >> 0 & 0xff) == board,
        board >> 56 & 0xff < 256,
        board >> 48 & 0xff < 256,
        board >> 40 & 0xff < 256,
        board >> 32 & 0xff < 256,
        board >> 24 & 0xff < 256,
        board >> 16 & 0xff < 256,
        board >> 8 & 0xff < 256,
        board >> 0 & 0xff < 256,
{
}

/// Reading back the bytes of a board gives the board.
pub proof fn lemma_be_round_trip(board: BitBoard)
    ensures
        be_board(be_bytes(board)) == board,
{
    lemma_be_join(board);
}

/// The boards written one after the other, eight bytes each, the highest
/// byte first.
pub open spec fn boards_bytes(bit_boards: Seq<BitBoard>) -> Seq<u8> {
    Seq::new(8 * bit_boards.len(), |k: int| be_bytes(bit_boards[k / 8])[k % 8])
}

/// The boards read from `bytes`, eight bytes each; bytes behind the last
/// full eight are left out.
pub open spec fn bytes_boards(bytes: Seq<u8>) -> Seq<BitBoard> {
    Seq::new((bytes.len() / 8) as nat, |i: int| be_board(bytes.subrange(8 * i, 8 * i + 8)))
}

/// Reading what was written gives the boards back.
pub proof fn lemma_boards_round_trip(bit_boards: Seq<BitBoard>)
    ensures
        bytes_boards(boards_bytes(bit_boards)) == bit_boards,
{
    let bytes = boards_bytes(bit_boards);
    assert forall|i: int| 0 <= i < bit_boards.len() implies bytes_boards(bytes)[i]
        == bit_boards[i] by {
        assert(bytes.subrange(8 * i, 8 * i + 8) =~= be_bytes(bit_boards[i]));
        lemma_be_round_trip(bit_boards[i]);
    }
    assert(bytes_boards(bytes) =~= bit_boards);
}

/// Reads boards from bytes, eight bytes a board, the highest byte first.
pub fn bytes_to_boards(bytes: &Vec<u8>) -> (bit_boards: Vec<BitBoard>)
    ensures
        bit_boards@ == bytes_boards(bytes@),
{
    let bit_boards_len = bytes.len() / 8;
    let mut bit_boards: Vec<BitBoard> = Vec::with_capacity(bit_boards_len);
    let mut i: usize = 0;
    while i < bit_boards_len
        invariant
            bit_boards_len == bytes.len() / 8,
            i <= bit_boards_len,
            bit_boards@.len() == i,
            forall|j: int| 0 <= j < i ==> bit_boards@[j] == bytes_boards(bytes@)[j],
        decreases bit_boards_len - i,
    {
        let bit_board = (bytes[i * 8] as u64) << 56 | (bytes[i * 8 + 1] as u64) << 48 | (bytes[i * 8
            + 2] as u64) << 40 | (bytes[i * 8 + 3] as u64) << 32 | (bytes[i * 8 + 4] as u64) << 24
            | (bytes[i * 8 + 5] as u64) << 16 | (bytes[i * 8 + 6] as u64) << 8 | (bytes[i * 8
            + 7] as u64);
        bit_boards.push(bit_board);
        i += 1;
    }
    assert(bit_boards@ =~= bytes_boards(bytes@));
    bit_boards
}

/// Writes boards as bytes, eight bytes a board, the highest byte first.
pub fn boards_to_bytes(bit_boards: &Vec<BitBoard>) -> (bytes: Vec<u8>)
    ensures
        bytes@ == boards_bytes(bit_boards@),
{
    let mut bytes: Vec<u8> = Vec::new();
    let mut i: usize = 0;
    while i < bit_boards.len()
        invariant
            i <= bit_boards.len(),
            bytes@.len() == 8 * i,
            forall|k: int| 0 <= k < 8 * i ==> bytes@[k] == boards_bytes(bit_boards@)[k],
        decreases bit_boards.len() - i,
    {
        let bit_board = bit_boards[i];
        proof {
            lemma_be_join(bit_board);
        }
        bytes.push((bit_board >> 56 & 0xff) as u8);
        bytes.push((bit_board >> 48 & 0xff) as u8);
        bytes.push((bit_board >> 40 & 0xff) as u8);
        bytes.push((bit_board >> 32 & 0xff) as u8);
        bytes.push((bit_board >> 24 & 0xff) as u8);
        bytes.push((bit_board >> 16 & 0xff) as u8);
        bytes.push((bit_board >> 8 & 0xff) as u8);
        bytes.push((bit_board >> 0 & 0xff) as u8);
        i += 1;
    }
    assert(bytes@ =~= boards_bytes(bit_boards@));
    bytes
}

} // verus!
