use vstd::prelude::*;
use vstd::std_specs::bits::axiom_u64_trailing_zeros;
use crate::constants::{BitBoard, BoardIndex, BOARD_HEIGHT, BOARD_TOTAL_PIECES, BOARD_WIDTH};

verus! {

/// Bit `j` of `word` is one.
pub open spec fn bit(word: u64, j: u64) -> bool {
    (word >> j) & 1 == 1
}

/// Cell `cell` is occupied in `bit_board`.
pub open spec fn has_cell(bit_board: BitBoard, cell: nat) -> bool {
    cell < 64 && bit(bit_board, cell as u64)
}

/// The occupied cells of `bit_board`.
pub open spec fn cells(bit_board: BitBoard) -> Set<nat> {
    Set::new(|cell: nat| has_cell(bit_board, cell))
}

/// How the bitwise operators act on single bits.
pub proof fn lemma_bit_ops(a: u64, b: u64, j: u64, k: u64)
    by (bit_vector)
    requires
        j < 64,
        k < 64,
    ensures
        !bit(0, j),
        bit(1u64 << k, j) <==> j == k,
        bit(a | b, j) <==> bit(a, j) || bit(b, j),
        bit(a & b, j) <==> bit(a, j) && bit(b, j),
        bit(a ^ b, j) <==> bit(a, j) != bit(b, j),
        bit(!a, j) <==> !bit(a, j),
        a & (1u64 << j) != 0 <==> bit(a, j),
        a >> 0 == a,
{
}

/// Setting one bit adds one cell.
pub proof fn lemma_insert_cell(bit_board: BitBoard, cell: u64)
    requires
        cell < 64,
    ensures
        cells(bit_board | 1u64 << cell) == cells(bit_board).insert(cell as nat),
        forall|c: nat| #[trigger]
            has_cell(bit_board | 1u64 << cell, c) <==> c == cell || has_cell(bit_board, c),
{
    let board = bit_board | 1u64 << cell;
    assert forall|c: nat| has_cell(board, c) == (c == cell || has_cell(bit_board, c)) by {
        if c < 64 {
            lemma_bit_ops(bit_board, 1u64 << cell, c as u64, cell);
        }
    }
    assert(cells(board) =~= cells(bit_board).insert(cell as nat));
}

/// Clearing one bit removes one cell.
pub proof fn lemma_remove_cell(bit_board: BitBoard, cell: u64)
    requires
        cell < 64,
    ensures
        cells(bit_board & !(1u64 << cell)) == cells(bit_board).remove(cell as nat),
        forall|c: nat| #[trigger]
            has_cell(bit_board & !(1u64 << cell), c) <==> c != cell && has_cell(bit_board, c),
{
    let board = bit_board & !(1u64 << cell);
    assert forall|c: nat| has_cell(board, c) == (c != cell && has_cell(bit_board, c)) by {
        if c < 64 {
            lemma_bit_ops(1u64 << cell, 0, c as u64, cell);
            lemma_bit_ops(bit_board, !(1u64 << cell), c as u64, cell);
        }
    }
    assert(cells(board) =~= cells(bit_board).remove(cell as nat));
}

/// The cells of an intersection, of a union and of a complement.
pub proof fn lemma_combined_cells(a: BitBoard, b: BitBoard)
    ensures
        cells(a & b) == cells(a).intersect(cells(b)),
        cells(a | b) == cells(a).union(cells(b)),
        forall|c: nat| c < 64 ==> (has_cell(!a, c) <==> !has_cell(a, c)),
        cells(0) == Set::<nat>::empty(),
        forall|c: nat| !#[trigger] has_cell(0, c),
{
    assert forall|c: nat|
        has_cell(a & b, c) == (has_cell(a, c) && has_cell(b, c)) && has_cell(a | b, c) == (has_cell(
            a,
            c,
        ) || has_cell(b, c)) && (c < 64 ==> has_cell(!a, c) == !has_cell(a, c)) && !has_cell(
            0,
            c,
        ) by {
        if c < 64 {
            lemma_bit_ops(a, b, c as u64, 0);
        }
    }
    assert(cells(a & b) =~= cells(a).intersect(cells(b)));
    assert(cells(a | b) =~= cells(a).union(cells(b)));
    assert(cells(0) =~= Set::<nat>::empty());
}

/// Two boards with the same occupied cells are the same word.
pub proof fn lemma_cells_injective(a: BitBoard, b: BitBoard)
    requires
        cells(a) == cells(b),
    ensures
        a == b,
{
    assert forall|j: u64| j < 64 implies bit(a, j) == bit(b, j) by {
        assert(has_cell(a, j as nat) == cells(a).contains(j as nat));
        assert(has_cell(b, j as nat) == cells(b).contains(j as nat));
    }
    lemma_equal_above(a, b, 0);
    lemma_bit_ops(a, b, 0, 0);
    lemma_bit_ops(b, a, 0, 0);
}

/// Words that agree above bit `n` and in bit `n` agree from bit `n` on.
proof fn lemma_shift_step(a: u64, b: u64, n: u64)
    by (bit_vector)
    requires
        n < 64,
        bit(a, n) == bit(b, n),
        n < 63 ==> a >> ((n + 1) as u64) == b >> ((n + 1) as u64),
    ensures
        a >> n == b >> n,
{
}

/// Words that agree in every bit agree from any bit on.
proof fn lemma_equal_above(a: u64, b: u64, n: u64)
    requires
        n < 64,
        forall|j: u64| j < 64 ==> bit(a, j) == bit(b, j),
    ensures
        a >> n == b >> n,
    decreases 64 - n,
{
    if n < 63 {
        lemma_equal_above(a, b, (n + 1) as u64);
    }
    lemma_shift_step(a, b, n);
}

/// The members of `set` below `limit`, in ascending order.
pub open spec fn ascending(set: Set<nat>, limit: nat) -> Seq<u8>
    decreases limit,
{
    if limit == 0 {
        Seq::empty()
    } else {
        let rest = ascending(set, (limit - 1) as nat);
        if set.contains((limit - 1) as nat) {
            rest.push((limit - 1) as u8)
        } else {
            rest
        }
    }
}

/// The positions of the set bits of `word`, in ascending order.
pub open spec fn bit_indices(word: u64) -> Seq<u8> {
    ascending(cells(word), 64)
}

/// A range without members adds nothing to the list.
pub proof fn lemma_ascending_skip(set: Set<nat>, low: nat, high: nat)
    requires
        low <= high,
        forall|cell: nat| low <= cell < high ==> !set.contains(cell),
    ensures
        ascending(set, high) == ascending(set, low),
    decreases high - low,
{
    if low < high {
        lemma_ascending_skip(set, low, (high - 1) as nat);
    }
}

/// The list holds exactly the members of `set` below `limit`, each once,
/// smaller cells first.
pub proof fn lemma_ascending_sorted(set: Set<nat>, limit: nat)
    requires
        limit <= 256,
    ensures
        forall|i: int|
            0 <= i < ascending(set, limit).len() ==> #[trigger] ascending(set, limit)[i] < limit
                && set.contains(ascending(set, limit)[i] as nat),
        forall|i: int, j: int|
            0 <= i < j < ascending(set, limit).len() ==> ascending(set, limit)[i] < ascending(
                set,
                limit,
            )[j],
        forall|cell: nat|
            cell < limit && set.contains(cell) ==> ascending(set, limit).contains(cell as u8),
    decreases limit,
{
    if limit > 0 {
        let rest = ascending(set, (limit - 1) as nat);
        lemma_ascending_sorted(set, (limit - 1) as nat);
        let all = ascending(set, limit);
        assert forall|cell: nat| cell < limit && set.contains(cell) implies all.contains(
            cell as u8,
        ) by {
            if cell < limit - 1 {
                let i = choose|i: int| 0 <= i < rest.len() && rest[i] == cell as u8;
                assert(all[i] == cell as u8);
            } else {
                assert(all[all.len() - 1] == cell as u8);
            }
        }
    }
}

/// The coordinate lies on the board.
pub open spec fn on_board(x: BoardIndex, y: BoardIndex) -> bool {
    x < BOARD_WIDTH && y < BOARD_HEIGHT
}

/// The cell at column `x` of row `y`.
pub open spec fn coord_cell(x: BoardIndex, y: BoardIndex) -> nat {
    (BOARD_WIDTH * y + x) as nat
}

/// Lists the positions of the set bits, lowest first.
pub fn get_bit_indices(i: u64) -> (indices: Vec<u8>)
    ensures
        indices@ == bit_indices(i),
{
    let mut indices: Vec<u8> = Vec::new();
    let mut j = i;
    let ghost mut done: nat = 0;
    loop
        invariant
            done <= 64,
            indices@ == ascending(cells(i), done),
            forall|c: u64| c < 64 ==> (bit(j, c) <==> c >= done && bit(i, c)),
        ensures
            indices@ == bit_indices(i),
        decreases 64 - done,
    {
        let index = j.trailing_zeros();
        proof {
            axiom_u64_trailing_zeros(j);
        }
        if index == 64 {
            proof {
                assert forall|cell: nat| done <= cell < 64 implies !cells(i).contains(cell) by {
                    lemma_bit_ops(0, 0, cell as u64, 0);
                }
                lemma_ascending_skip(cells(i), done, 64);
            }
            break ;
        }
        indices.push(index as u8);
        let ghost before = j;
        j ^= 1u64 << index;
        proof {
            assert(bit(before, index as u64));
            assert forall|cell: nat| done <= cell < index implies !cells(i).contains(cell) by {
                assert(!bit(before, cell as u64));
            }
            lemma_ascending_skip(cells(i), done, index as nat);
            assert(cells(i).contains(index as nat));
            assert forall|c: u64| c < 64 implies (bit(j, c) <==> c >= index + 1 && bit(i, c)) by {
                lemma_bit_ops(before, 1u64 << (index as u64), c, index as u64);
                if c < index {
                    assert(!bit(before, c));
                }
            }
            done = (index + 1) as nat;
        }
    }
    indices
}

/// Reads one cell of the board; an index off the board reads as empty.
pub fn is_board_bit_set(bit_board: BitBoard, bit_index: BoardIndex) -> (set: bool)
    ensures
        set == (bit_index < BOARD_TOTAL_PIECES && has_cell(bit_board, bit_index as nat)),
{
    if bit_index >= BOARD_TOTAL_PIECES {
        return false;
    }
    proof {
        lemma_bit_ops(bit_board, 0, bit_index as u64, 0);
    }
    bit_board & 1u64 << bit_index != 0
}

/// Reads the cell at a coordinate; a coordinate off the board reads as empty.
pub fn is_board_coord_set(bit_board: BitBoard, x: BoardIndex, y: BoardIndex) -> (set: bool)
    ensures
        set == (on_board(x, y) && has_cell(bit_board, coord_cell(x, y))),
{
    if x >= BOARD_WIDTH || y >= BOARD_HEIGHT {
        return false;
    }
    is_board_bit_set(bit_board, BOARD_WIDTH * y + x)
}

/// Occupies the cell at a coordinate; a coordinate off the board changes nothing.
pub fn set_board_bit(bit_board: BitBoard, x: BoardIndex, y: BoardIndex) -> (board: BitBoard)
    ensures
        cells(board) == if on_board(x, y) {
            cells(bit_board).insert(coord_cell(x, y))
        } else {
            cells(bit_board)
        },
{
    if x >= BOARD_WIDTH || y >= BOARD_HEIGHT {
        return bit_board;
    }
    let index: u8 = BOARD_WIDTH * y + x;
    proof {
        lemma_insert_cell(bit_board, index as u64);
    }
    bit_board | 1u64 << index
}

/// The occupancy after the piece on `from` has gone to `to`.
pub fn jump_bit(bit_board: BitBoard, from: BoardIndex, to: BoardIndex) -> (board: BitBoard)
    requires
        from < 64,
        to < 64,
    ensures
        board == moved(bit_board, from, to),
        cells(board) == cells(bit_board).insert(to as nat).remove(from as nat),
{
    let from_mask = 1u64 << from;
    proof {
        lemma_moved(bit_board, from, to);
    }
    (bit_board | 1u64 << to) & !from_mask
}

/// The board on which cell `to` has been filled and cell `from` emptied.
pub open spec fn moved(bit_board: BitBoard, from: BoardIndex, to: BoardIndex) -> BitBoard {
    (bit_board | 1u64 << to) & !(1u64 << from)
}

/// The cells after a piece has gone from `from` to `to`.
pub proof fn lemma_moved(bit_board: BitBoard, from: BoardIndex, to: BoardIndex)
    requires
        from < 64,
        to < 64,
    ensures
        cells(moved(bit_board, from, to)) == cells(bit_board).insert(to as nat).remove(from as nat),
{
    lemma_insert_cell(bit_board, to as u64);
    lemma_remove_cell(bit_board | 1u64 << to, from as u64);
}

/// Builds a board from six rows of seven digits, written as the board is
/// printed: the first digit is cell 41, the last is cell 0.
pub fn make_board(bits: [[u8; 7]; 6]) -> (board: BitBoard)
    ensures
        forall|y: int, x: int|
            0 <= y < 6 && 0 <= x < 7 ==> (has_cell(board, (41 - 7 * y - x) as nat) <==> #[trigger] bits[y][x]
                != 0),
        forall|cell: nat| has_cell(board, cell) ==> cell < 42,
{
    let mut board: BitBoard = 0;
    let mut y: usize = 0;
    proof {
        lemma_combined_cells(0, 0);
    }
    while y < 6
        invariant
            y <= 6,
            forall|v: int, u: int|
                0 <= v < y && 0 <= u < 7 ==> (has_cell(board, (41 - 7 * v - u) as nat) <==> #[trigger] bits[v][u]
                    != 0),
            forall|cell: nat| has_cell(board, cell) ==> 41 - 7 * y < cell < 42,
        decreases 6 - y,
    {
        let mut x: usize = 0;
        while x < 7
            invariant
                y < 6,
                x <= 7,
                forall|v: int, u: int|
                    0 <= v < 6 && 0 <= u < 7 && 7 * v + u < 7 * y + x ==> (has_cell(
                        board,
                        (41 - 7 * v - u) as nat,
                    ) <==> #[trigger] bits[v][u] != 0),
                forall|cell: nat| has_cell(board, cell) ==> 41 - 7 * y - x < cell < 42,
            decreases 7 - x,
        {
            if bits[y][x] != 0 {
                let index: usize = 7 * (5 - y) + (6 - x);
                proof {
                    lemma_insert_cell(board, index as u64);
                }
                board |= 1u64 << index;
            }
            x += 1;
        }
        y += 1;
    }
    board
}

} // verus!
