use uisge::constants::BoardIndex;
use uisge::piece_list::{PieceList, PieceListIterator};

#[test]
fn test_iterate_trivial() {
    let piece_list = PieceList::new();

    let mut piece_vec = Vec::<BoardIndex>::new();

    let mut iter = PieceListIterator::new(piece_list);
    while let Some(piece) = iter.next() {
        piece_vec.push(piece as BoardIndex);
    }

    assert_eq!(piece_vec, vec![]);
}

#[test]
fn test_iterate_simple() {
    let piece_list = PieceList::from_u64(0xffff01020407217f);

    let mut piece_vec = Vec::<BoardIndex>::new();

    let mut iter = PieceListIterator::new(piece_list);
    while let Some(piece) = iter.next() {
        piece_vec.push(piece as BoardIndex);
    }

    assert_eq!(piece_vec, vec![127, 33, 7, 4, 2, 1]);
}

#[test]
fn test_iterate_early_return() {
    let piece_list = PieceList::from_u64(0xffff010204ff0708);

    let mut piece_vec = Vec::<BoardIndex>::new();

    let mut iter = PieceListIterator::new(piece_list);
    while let Some(piece) = iter.next() {
        piece_vec.push(piece as BoardIndex);
    }

    assert_eq!(piece_vec, vec![8, 7]);
}

#[test]
fn test_push_front() {
    let mut piece_list = PieceList::new();

    piece_list.push_front(3);
    piece_list.push_front(7);
    piece_list.push_front(100);
    piece_list.push_front(87);

    assert_eq!(
        piece_list.to_array(),
        &vec![87, 100, 7, 3, 255, 255, 255, 255][..]
    );
}

#[test]
fn test_remove() {
    let mut piece_list = PieceList::from_u64(0xffff060504030201);

    assert_eq!(piece_list.remove(4), Some(5));
    assert_eq!(
        piece_list,
        PieceList::from_vec(vec![1, 2, 3, 4, 6, 255, 255, 255]),
    );

    assert_eq!(piece_list.remove(4), Some(6));
    assert_eq!(
        piece_list,
        PieceList::from_vec(vec![1, 2, 3, 4, 255, 255, 255, 255]),
    );

    assert_eq!(piece_list.remove(4), None);
    assert_eq!(
        piece_list,
        PieceList::from_vec(vec![1, 2, 3, 4, 255, 255, 255, 255]),
    );

    assert_eq!(piece_list.remove(7), None);
    assert_eq!(
        piece_list,
        PieceList::from_vec(vec![1, 2, 3, 4, 255, 255, 255, 255]),
    );

    assert_eq!(piece_list.remove(1), Some(2));
    assert_eq!(
        piece_list,
        PieceList::from_vec(vec![1, 3, 4, 255, 255, 255, 255, 255]),
    );

    assert_eq!(piece_list.remove(0), Some(1));
    assert_eq!(
        piece_list,
        PieceList::from_vec(vec![3, 4, 255, 255, 255, 255, 255, 255]),
    );

    assert_eq!(piece_list.remove(0), Some(3));
    assert_eq!(
        piece_list,
        PieceList::from_vec(vec![4, 255, 255, 255, 255, 255, 255, 255]),
    );

    assert_eq!(piece_list.remove(0), Some(4));
    assert_eq!(
        piece_list,
        PieceList::from_vec(vec![255, 255, 255, 255, 255, 255, 255, 255]),
    );

    assert_eq!(piece_list.remove(0), None);
    assert_eq!(
        piece_list,
        PieceList::from_vec(vec![255, 255, 255, 255, 255, 255, 255, 255]),
    );

    assert_eq!(
        piece_list,
        PieceList::from_vec(vec![255, 255, 255, 255, 255, 255, 255, 255]),
    );
}

#[test]
fn test_from_vec_u8() {
    assert_eq!(PieceList::new(), PieceList::from_vec(Vec::new()),);

    assert_eq!(
        PieceList::from_u64(0xffffffffffff0102),
        PieceList::from_vec(vec![2, 1]),
    );

    assert_eq!(
        PieceList::from_u64(0xff01020304050607),
        PieceList::from_vec(vec![7, 6, 5, 4, 3, 2, 1]),
    );
}

#[test]
fn test_new_list_is_all_sentinels() {
    let piece_list = PieceList::new();
    assert_eq!(piece_list.to_array(), [255u8; 8]);
    assert_eq!(piece_list.len(), 0);
    assert_eq!(piece_list, PieceList::from_u64(u64::MAX));
}

#[test]
fn test_to_array_is_little_endian() {
    let piece_list = PieceList::from_u64(0xff07060504030201);
    assert_eq!(piece_list.to_array(), [1, 2, 3, 4, 5, 6, 7, 255]);
}

#[test]
fn test_len_counts_up_to_first_sentinel() {
    assert_eq!(PieceList::from_vec(vec![5]).len(), 1);
    assert_eq!(PieceList::from_vec(vec![7, 6, 5, 4, 3, 2, 1]).len(), 7);
    assert_eq!(PieceList::from_u64(0xffff010204ff0708).len(), 2);
}

#[test]
fn test_seven_entries_fit() {
    let mut piece_list = PieceList::new();
    for cell in 1..=7u8 {
        piece_list.push_front(cell);
    }
    assert_eq!(piece_list.to_array(), [7, 6, 5, 4, 3, 2, 1, 255]);
    assert_eq!(piece_list.len(), 7);
}

#[test]
fn test_remove_missing_leaves_list_unchanged() {
    let mut piece_list = PieceList::from_vec(vec![9, 10, 15]);
    let before = piece_list;

    assert_eq!(piece_list.remove(3), None);
    assert_eq!(piece_list, before);
    assert_eq!(piece_list.remove(6), None);
    assert_eq!(piece_list, before);
    assert_eq!(piece_list.remove(7), None);
    assert_eq!(piece_list, before);
}

#[test]
fn test_remove_keeps_order_of_the_rest() {
    let mut piece_list = PieceList::from_vec(vec![30, 20, 10, 40]);
    assert_eq!(piece_list.remove(2), Some(10));
    assert_eq!(piece_list.to_array(), [30, 20, 40, 255, 255, 255, 255, 255]);
    assert_eq!(piece_list.remove(0), Some(30));
    assert_eq!(piece_list.to_array(), [20, 40, 255, 255, 255, 255, 255, 255]);
}

#[test]
fn test_find_and_remove() {
    let mut piece_list = PieceList::from_vec(vec![9, 10, 15, 16]);

    assert_eq!(piece_list.find_and_remove(15), true);
    assert_eq!(piece_list, PieceList::from_vec(vec![9, 10, 16]));

    assert_eq!(piece_list.find_and_remove(15), false);
    assert_eq!(piece_list, PieceList::from_vec(vec![9, 10, 16]));

    assert_eq!(piece_list.find_and_remove(255), false);
    assert_eq!(piece_list, PieceList::from_vec(vec![9, 10, 16]));

    assert_eq!(piece_list.find_and_remove(9), true);
    assert_eq!(piece_list.find_and_remove(16), true);
    assert_eq!(piece_list.find_and_remove(10), true);
    assert_eq!(piece_list, PieceList::new());
}

#[test]
fn test_find_and_remove_takes_first_of_equal_entries() {
    let mut piece_list = PieceList::from_vec(vec![4, 8, 4, 2]);
    assert_eq!(piece_list.find_and_remove(4), true);
    assert_eq!(piece_list.to_array(), [8, 4, 2, 255, 255, 255, 255, 255]);
}

#[test]
fn test_iterator_stops_after_eight_slots() {
    let mut iter = PieceListIterator::new(PieceList::from_vec(vec![1, 2]));
    assert_eq!(iter.next(), Some(1));
    assert_eq!(iter.next(), Some(2));
    for _ in 0..20 {
        assert_eq!(iter.next(), None);
    }
}

#[test]
fn test_contains() {
    let piece_list = PieceList::from_vec(vec![9, 10, 15]);
    assert_eq!(piece_list.contains(9), true);
    assert_eq!(piece_list.contains(15), true);
    assert_eq!(piece_list.contains(16), false);
    assert_eq!(piece_list.contains(255), false);
    assert_eq!(PieceList::new().contains(0), false);
    assert_eq!(PieceList::from_u64(0xffff010204ff0708).contains(4), false);
}

#[test]
fn test_is_packed() {
    assert_eq!(PieceList::new().is_packed(), true);
    assert_eq!(PieceList::from_vec(vec![1, 2, 3]).is_packed(), true);
    assert_eq!(PieceList::from_vec(vec![7, 6, 5, 4, 3, 2, 1]).is_packed(), true);
    assert_eq!(PieceList::from_u64(0xffff010204ff0708).is_packed(), false);
    assert_eq!(PieceList::from_u64(0xff01ffffffffffff).is_packed(), false);
}
