use vstd::prelude::*;
use crate::constants::{BoardIndex, BoardIndexList};

verus! {

/// The slot value that stands for "no piece".
pub const END_OF_LIST: BoardIndex = 0xff;

const EMPTY_PIECE_LIST: u64 = 0xffffffffffffffff;

const TOP_SLOT: u64 = 0xff00000000000000;

/// The byte of `word` that starts at bit `shift`.
spec fn byte_at(word: u64, shift: u64) -> u8 {
    ((word >> shift) & 0xff) as u8
}

/// The eight bytes of `word`, lowest first.
spec fn word_slots(word: u64) -> Seq<u8> {
    Seq::new(8, |i: int| byte_at(word, (8 * i) as u64))
}

/// The word with byte `shift / 8` taken out, the bytes above it moved down by
/// one place, and the sentinel in the top byte.
spec fn without_byte(word: u64, shift: u64) -> u64 {
    let lower = if shift == 0 {
        0
    } else {
        (word << ((64 - shift) as u64)) >> ((64 - shift) as u64)
    };
    let upper = (word >> shift) >> 8;
    (lower | (upper << shift)) | TOP_SLOT
}

/// The entries before the first sentinel.
pub open spec fn live(slots: Seq<u8>) -> Seq<u8>
    decreases slots.len(),
{
    if slots.len() == 0 || slots[0] == END_OF_LIST {
        Seq::empty()
    } else {
        seq![slots[0]] + live(slots.drop_first())
    }
}

/// The live part is the longest prefix without a sentinel.
pub proof fn lemma_live_is_prefix(slots: Seq<u8>, count: nat)
    requires
        count <= slots.len(),
        forall|i: int| 0 <= i < count ==> slots[i] != END_OF_LIST,
        count < slots.len() ==> slots[count as int] == END_OF_LIST,
    ensures
        live(slots) == slots.take(count as int),
    decreases slots.len(),
{
    if count == 0 {
        assert(slots.take(0) =~= Seq::empty());
    } else {
        let rest = slots.drop_first();
        assert forall|i: int| 0 <= i < count - 1 implies rest[i] != END_OF_LIST by {
            assert(rest[i] == slots[i + 1]);
        }
        lemma_live_is_prefix(rest, (count - 1) as nat);
        assert(slots.take(count as int) =~= seq![slots[0]] + rest.take(count - 1));
    }
}

/// The live part is a prefix, holds no sentinel, and ends at a sentinel or at
/// the end of the slots.
pub proof fn lemma_live_len(slots: Seq<u8>)
    ensures
        live(slots).len() <= slots.len(),
        live(slots) == slots.take(live(slots).len() as int),
        forall|i: int| 0 <= i < live(slots).len() ==> slots[i] != END_OF_LIST,
        live(slots).len() < slots.len() ==> slots[live(slots).len() as int] == END_OF_LIST,
    decreases slots.len(),
{
    if slots.len() == 0 || slots[0] == END_OF_LIST {
        assert(slots.take(0) =~= Seq::empty());
    } else {
        let rest = slots.drop_first();
        lemma_live_len(rest);
        let count = live(rest).len();
        assert(slots.take((count + 1) as int) =~= seq![slots[0]] + rest.take(count as int));
        assert forall|i: int| 0 <= i < count + 1 implies slots[i] != END_OF_LIST by {
            if i > 0 {
                assert(rest[i - 1] == slots[i]);
            }
        }
    }
}

/// The place of the first `value` in `entries`, or their number when there
/// is none.
pub open spec fn first_index<A>(entries: Seq<A>, value: A) -> int
    decreases entries.len(),
{
    if entries.len() == 0 || entries[0] == value {
        0
    } else {
        1 + first_index(entries.drop_first(), value)
    }
}

/// `first_index` finds the least place that holds `value`.
pub proof fn lemma_first_index<A>(entries: Seq<A>, value: A, place: int)
    requires
        0 <= place <= entries.len(),
        forall|i: int| 0 <= i < place ==> entries[i] != value,
        place < entries.len() ==> entries[place] == value,
    ensures
        first_index(entries, value) == place,
    decreases entries.len(),
{
    if place > 0 {
        let rest = entries.drop_first();
        assert forall|i: int| 0 <= i < place - 1 implies rest[i] != value by {
            assert(rest[i] == entries[i + 1]);
        }
        lemma_first_index(rest, value, place - 1);
    }
}

/// Where `first_index` points when the value is there.
pub proof fn lemma_first_index_found<A>(entries: Seq<A>, value: A)
    requires
        entries.contains(value),
    ensures
        0 <= first_index(entries, value) < entries.len(),
        entries[first_index(entries, value)] == value,
    decreases entries.len(),
{
    if entries[0] != value {
        let rest = entries.drop_first();
        let i = choose|i: int| 0 <= i < entries.len() && entries[i] == value;
        assert(rest[i - 1] == value);
        lemma_first_index_found(rest, value);
    }
}

/// A byte is below 256, and every byte of the empty list is the sentinel.
proof fn lemma_byte_range(word: u64, shift: u64)
    by (bit_vector)
    requires
        shift < 64,
    ensures
        (word >> shift) & 0xff < 256,
        byte_at(word, shift) == (word >> shift) & 0xff,
        byte_at(EMPTY_PIECE_LIST, shift) == 0xff || shift > 56,
{
}

/// The top byte of a word is the word moved down by seven bytes.
proof fn lemma_top_byte(word: u64)
    by (bit_vector)
    ensures
        (word >> 56) & 0xff == word >> 56,
{
}

/// Moving a word up by one byte and putting `value` below moves every byte
/// up by one place.
proof fn lemma_pushed_bytes(word: u64, value: u8, shift: u64)
    by (bit_vector)
    requires
        shift < 64,
        shift % 8 == 0,
    ensures
        byte_at((word << 8) | (value as u64), 0) == value,
        shift >= 8 ==> byte_at((word << 8) | (value as u64), shift) == byte_at(
            word,
            (shift - 8) as u64,
        ),
{
}

/// Taking a byte out leaves the bytes below it, moves the bytes above it
/// down by one place, and puts the sentinel on top.
proof fn lemma_removed_bytes(word: u64, at: u64, shift: u64)
    by (bit_vector)
    requires
        at < 64,
        at % 8 == 0,
        shift < 64,
        shift % 8 == 0,
    ensures
        shift < at ==> byte_at(without_byte(word, at), shift) == byte_at(word, shift),
        at <= shift < 56 ==> byte_at(without_byte(word, at), shift) == byte_at(
            word,
            (shift + 8) as u64,
        ),
        byte_at(without_byte(word, at), 56) == 0xff,
        ((word >> at) & 0xff) == byte_at(word, at),
{
}

/// Words with the same eight bytes are the same word.
proof fn lemma_equal_bytes(a: u64, b: u64)
    by (bit_vector)
    requires
        byte_at(a, 0) == byte_at(b, 0),
        byte_at(a, 8) == byte_at(b, 8),
        byte_at(a, 16) == byte_at(b, 16),
        byte_at(a, 24) == byte_at(b, 24),
        byte_at(a, 32) == byte_at(b, 32),
        byte_at(a, 40) == byte_at(b, 40),
        byte_at(a, 48) == byte_at(b, 48),
        byte_at(a, 56) == byte_at(b, 56),
    ensures
        a == b,
{
}

/// Up to seven cell indices of one side's pieces of one kind, in the order in
/// which they were put in, the latest at the front.
///
/// The list is packed into one word of eight byte slots. Slot 0 is the front,
/// unused slots hold `END_OF_LIST`, and the last slot always does.
#[derive(Clone, Copy, PartialEq, Eq, Structural, Debug)]
pub struct PieceList {
    pieces: u64,
}

impl PieceList {
    /// The eight slots, front first.
    pub closed spec fn slots(self) -> Seq<u8> {
        word_slots(self.pieces)
    }

    /// The pieces of the list: the slots before the first sentinel.
    pub open spec fn view(self) -> Seq<u8> {
        live(self.slots())
    }

    /// The last slot holds the sentinel.
    pub open spec fn wf(self) -> bool {
        self.slots().len() == 8 && self.slots()[7] == END_OF_LIST
    }

    /// No piece hides behind a sentinel.
    pub open spec fn is_compact(self) -> bool {
        forall|i: int| self@.len() <= i < 8 ==> self.slots()[i] == END_OF_LIST
    }

    /// Two lists with the same slots are the same list.
    pub proof fn lemma_slots_injective(self, other: PieceList)
        requires
            self.slots() == other.slots(),
        ensures
            self == other,
    {
        let a = self.slots();
        let b = other.slots();
        assert(a[0] == b[0] && a[1] == b[1] && a[2] == b[2] && a[3] == b[3]);
        assert(a[4] == b[4] && a[5] == b[5] && a[6] == b[6] && a[7] == b[7]);
        lemma_equal_bytes(self.pieces, other.pieces);
    }

    /// Two sound lists that hide no piece and hold the same pieces are the
    /// same list.
    pub proof fn lemma_compact_injective(self, other: PieceList)
        requires
            self.wf(),
            self.is_compact(),
            other.wf(),
            other.is_compact(),
            self@ == other@,
        ensures
            self == other,
    {
        self.lemma_view();
        other.lemma_view();
        assert(self.slots() =~= other.slots());
        self.lemma_slots_injective(other);
    }

    /// What the live part says about the slots.
    pub proof fn lemma_view(self)
        requires
            self.wf(),
        ensures
            self@.len() <= 7,
            self@ == self.slots().take(self@.len() as int),
            forall|i: int| 0 <= i < self@.len() ==> self.slots()[i] == self@[i] && self@[i] != END_OF_LIST,
            self.slots()[self@.len() as int] == END_OF_LIST,
    {
        lemma_live_len(self.slots());
    }

    /// The list without a piece.
    pub fn new() -> (list: Self)
        ensures
            list.wf(),
            list.slots() == Seq::new(8, |i: int| END_OF_LIST),
            list@ == Seq::<u8>::empty(),
    {
        let list = Self { pieces: EMPTY_PIECE_LIST };
        proof {
            assert forall|i: int| 0 <= i < 8 implies list.slots()[i] == END_OF_LIST by {
                lemma_byte_range(EMPTY_PIECE_LIST, (8 * i) as u64);
            }
            assert(list.slots() =~= Seq::new(8, |i: int| END_OF_LIST));
        }
        list
    }

    /// The eight slots, front first.
    pub fn to_array(&self) -> (array: BoardIndexList)
        ensures
            array@ == self.slots(),
    {
        let p = self.pieces;
        proof {
            lemma_byte_range(p, 0);
            lemma_byte_range(p, 8);
            lemma_byte_range(p, 16);
            lemma_byte_range(p, 24);
            lemma_byte_range(p, 32);
            lemma_byte_range(p, 40);
            lemma_byte_range(p, 48);
            lemma_byte_range(p, 56);
        }
        let array = [
            ((p >> 0u64) & 0xff) as u8,
            ((p >> 8u64) & 0xff) as u8,
            ((p >> 16u64) & 0xff) as u8,
            ((p >> 24u64) & 0xff) as u8,
            ((p >> 32u64) & 0xff) as u8,
            ((p >> 40u64) & 0xff) as u8,
            ((p >> 48u64) & 0xff) as u8,
            ((p >> 56u64) & 0xff) as u8,
        ];
        assert(array@ =~= self.slots());
        array
    }

    /// The number of pieces in the list.
    pub fn len(&self) -> (count: usize)
        requires
            self.wf(),
        ensures
            count == self@.len(),
            count <= 7,
    {
        let array = self.to_array();
        let mut count: usize = 0;
        while array[count] != END_OF_LIST
            invariant
                self.wf(),
                array@ == self.slots(),
                count <= 7,
                forall|i: int| 0 <= i < count ==> array[i] != END_OF_LIST,
            decreases 8 - count,
        {
            count += 1;
        }
        proof {
            lemma_live_is_prefix(self.slots(), count as nat);
        }
        count
    }

    /// Puts `value` in front of the other slots. The last but one slot must
    /// be free, since every slot moves back by one place.
    pub fn push_front(&mut self, value: BoardIndex)
        requires
            old(self).slots()[6] == END_OF_LIST,
        ensures
            final(self).wf(),
            final(self).slots() == seq![value] + old(self).slots().take(7),
            value != END_OF_LIST ==> final(self)@ == seq![value] + old(self)@,
            value != END_OF_LIST && old(self).is_compact() ==> final(self).is_compact(),
    {
        let ghost before = *self;
        self.pieces = (self.pieces << 8) | (value as u64);
        proof {
            let slots = self.slots();
            assert forall|i: int| 0 <= i < 8 implies slots[i] == (seq![value] + before.slots().take(
                7,
            ))[i] by {
                lemma_pushed_bytes(before.pieces, value, (8 * i) as u64);
            }
            assert(slots =~= seq![value] + before.slots().take(7));
            if value != END_OF_LIST {
                lemma_live_len(before.slots());
                let count = before@.len();
                assert(count <= 6) by {
                    if count > 6 {
                        assert(before.slots()[6] != END_OF_LIST);
                    }
                }
                lemma_live_is_prefix(slots, count + 1);
                assert(slots.take((count + 1) as int) =~= seq![value] + before.slots().take(count as int));
            }
        }
    }

    /// Takes out slot `index` and moves the slots behind it forward by one
    /// place. Returns what the slot held, or `None` when it was free.
    pub fn remove(&mut self, index: usize) -> (removed: Option<BoardIndex>)
        requires
            index < 8,
        ensures
            final(self).wf(),
            final(self).slots() == old(self).slots().remove(index as int).push(END_OF_LIST),
            removed == if old(self).slots()[index as int] == END_OF_LIST {
                None
            } else {
                Some(old(self).slots()[index as int])
            },
            old(self).wf() && index < old(self)@.len() ==> final(self)@ == old(self)@.remove(
                index as int,
            ),
            old(self).wf() && old(self).is_compact() ==> final(self).is_compact(),
            old(self).wf() && old(self).is_compact() && index >= old(self)@.len() ==> *final(self)
                == *old(self),
    {
        let ghost before = *self;
        let shift = index * 8;
        let lower = if shift == 0 {
            0
        } else {
            (self.pieces << (64 - shift)) >> (64 - shift)
        };
        let result = self.pieces >> shift;
        let upper = result >> 8;
        self.pieces = (lower | (upper << shift)) | TOP_SLOT;
        proof {
            assert(self.pieces == without_byte(before.pieces, shift as u64));
            let slots = self.slots();
            let expected = before.slots().remove(index as int).push(END_OF_LIST);
            assert forall|i: int| 0 <= i < 8 implies slots[i] == expected[i] by {
                lemma_removed_bytes(before.pieces, shift as u64, (8 * i) as u64);
            }
            assert(slots =~= expected);
            lemma_removed_bytes(before.pieces, shift as u64, 0);
            lemma_byte_range(before.pieces, shift as u64);
            if before.wf() {
                before.lemma_view();
                let count = before@.len();
                if index < count {
                    lemma_live_is_prefix(slots, (count - 1) as nat);
                    assert(slots.take(count - 1) =~= before@.remove(index as int));
                } else if before.is_compact() {
                    assert(slots =~= before.slots());
                    self.lemma_slots_injective(before);
                }
                if before.is_compact() {
                    self.lemma_view();
                }
            }
        }
        let value = (result & 0xff) as u8;
        if value == END_OF_LIST {
            None
        } else {
            Some(value)
        }
    }

    /// Whether no piece hides behind a sentinel.
    pub fn is_packed(&self) -> (packed: bool)
        requires
            self.wf(),
        ensures
            packed == self.is_compact(),
    {
        let array = self.to_array();
        let count = self.len();
        let mut index: usize = count;
        while index < 8
            invariant
                array@ == self.slots(),
                count == self@.len(),
                count <= index <= 8,
                forall|i: int| count <= i < index ==> self.slots()[i] == END_OF_LIST,
            decreases 8 - index,
        {
            if array[index] != END_OF_LIST {
                return false;
            }
            index += 1;
        }
        true
    }

    /// Whether `value` is one of the pieces.
    pub fn contains(&self, value: BoardIndex) -> (found: bool)
        requires
            self.wf(),
        ensures
            found == self@.contains(value),
    {
        let array = self.to_array();
        let mut index: usize = 0;
        proof {
            self.lemma_view();
        }
        while array[index] != END_OF_LIST
            invariant
                self.wf(),
                array@ == self.slots(),
                index <= self@.len() <= 7,
                forall|i: int| 0 <= i < self@.len() ==> self.slots()[i] == self@[i],
                self.slots()[self@.len() as int] == END_OF_LIST,
                forall|i: int| 0 <= i < index ==> self@[i] != value,
            decreases 8 - index,
        {
            if array[index] == value {
                return true;
            }
            index += 1;
        }
        false
    }

    /// Takes the first `value` out of the pieces and says whether there was one.
    pub fn find_and_remove(&mut self, value: BoardIndex) -> (found: bool)
        requires
            old(self).wf(),
        ensures
            final(self).wf(),
            found == old(self)@.contains(value),
            found ==> final(self)@ == old(self)@.remove(first_index(old(self)@, value)),
            found ==> final(self).slots() == old(self).slots().remove(
                first_index(old(self)@, value),
            ).push(END_OF_LIST),
            !found ==> *final(self) == *old(self),
            old(self).is_compact() ==> final(self).is_compact(),
    {
        let array = self.to_array();
        let mut index: usize = 0;
        proof {
            self.lemma_view();
        }
        while array[index] != END_OF_LIST
            invariant
                self.wf(),
                *self == *old(self),
                array@ == self.slots(),
                index <= self@.len() <= 7,
                forall|i: int| 0 <= i < self@.len() ==> self.slots()[i] == self@[i],
                self.slots()[self@.len() as int] == END_OF_LIST,
                forall|i: int| 0 <= i < index ==> self@[i] != value,
            decreases 8 - index,
        {
            if array[index] == value {
                proof {
                    lemma_first_index(self@, value, index as int);
                }
                self.remove(index);
                return true;
            }
            index += 1;
        }
        false
    }

    /// The list with the slots of `word`, whose top byte is the sentinel.
    pub fn from_u64(word: u64) -> (list: Self)
        requires
            word >> 56 == END_OF_LIST,
        ensures
            list.wf(),
            list.slots() == Seq::new(8, |i: int| (word >> ((8 * i) as u64) & 0xff) as u8),
    {
        let list = Self { pieces: word };
        proof {
            lemma_byte_range(word, 56);
            lemma_top_byte(word);
            assert(list.slots() =~= Seq::new(8, |i: int| (word >> ((8 * i) as u64) & 0xff) as u8));
        }
        list
    }

    /// The list whose slots hold `board_indices`, front first, and the
    /// sentinel behind them. Only sentinels may stand from place 7 on.
    pub fn from_vec(board_indices: Vec<u8>) -> (list: Self)
        requires
            forall|i: int| 7 <= i < board_indices.len() ==> board_indices[i] == END_OF_LIST,
        ensures
            list.wf(),
            list.slots() == Seq::new(
                8,
                |i: int|
                    if i < board_indices.len() {
                        board_indices[i]
                    } else {
                        END_OF_LIST
                    },
            ),
            board_indices.len() <= 7 && (forall|i: int|
                0 <= i < board_indices.len() ==> board_indices[i] != END_OF_LIST) ==> list@
                == board_indices@ && list.is_compact(),
    {
        let mut list = PieceList::new();
        let mut k: usize = board_indices.len();
        while k > 0
            invariant
                k <= board_indices.len(),
                forall|i: int| 7 <= i < board_indices.len() ==> board_indices[i] == END_OF_LIST,
                list.slots().len() == 8,
                forall|i: int|
                    0 <= i < 8 ==> list.slots()[i] == if k + i < board_indices.len() {
                        board_indices[k + i]
                    } else {
                        END_OF_LIST
                    },
            decreases k,
        {
            k -= 1;
            list.push_front(board_indices[k]);
        }
        assert(list.slots() =~= Seq::new(
            8,
            |i: int|
                if i < board_indices.len() {
                    board_indices[i]
                } else {
                    END_OF_LIST
                },
        ));
        proof {
            if board_indices.len() <= 7 && (forall|i: int|
                0 <= i < board_indices.len() ==> board_indices[i] != END_OF_LIST) {
                lemma_live_is_prefix(list.slots(), board_indices.len() as nat);
                assert(list.slots().take(board_indices.len() as int) =~= board_indices@);
            }
        }
        list
    }
}

/// Walks the slots of a piece list from the front.
pub struct PieceListIterator {
    index: usize,
    pieces: BoardIndexList,
}

impl PieceListIterator {
    /// The slots that are walked.
    pub closed spec fn slots(self) -> Seq<u8> {
        self.pieces@
    }

    /// The number of slots already passed.
    pub closed spec fn position(self) -> nat {
        self.index as nat
    }

    /// A walk over `piece_list` that starts at the front.
    pub fn new(piece_list: PieceList) -> (iter: Self)
        ensures
            iter.slots() == piece_list.slots(),
            iter.position() == 0,
    {
        Self { index: 0, pieces: piece_list.to_array() }
    }

    /// Passes one slot and hands out the piece in it. Returns `None` at a
    /// sentinel, and when all eight slots are passed.
    pub fn next(&mut self) -> (item: Option<BoardIndex>)
        ensures
            final(self).slots() == old(self).slots(),
            old(self).position() < 8 ==> final(self).position() == old(self).position() + 1,
            old(self).position() >= 8 ==> final(self).position() == old(self).position(),
            item == if old(self).position() < 8 && old(self).slots()[old(self).position() as int]
                != END_OF_LIST {
                Some(old(self).slots()[old(self).position() as int])
            } else {
                None
            },
    {
        if self.index >= 8 {
            return None;
        }
        let piece = self.pieces[self.index];
        self.index += 1;
        if piece == END_OF_LIST {
            None
        } else {
            Some(piece)
        }
    }
}

} // verus!
