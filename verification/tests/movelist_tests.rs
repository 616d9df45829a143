use bitboard::mov::{ChessMove, MoveType};
use bitboard::movelist::MoveList;
use bitboard::Square;

#[test]
fn test_movelist_basic() {
    let mut list = MoveList::new();
    assert_eq!(list.len(), 0);
    assert!(list.is_empty());

    let mv = ChessMove::new(Square::E2, Square::E4, MoveType::Quiet);
    list.push(mv);
    assert_eq!(list.len(), 1);
    assert!(!list.is_empty());
    assert_eq!(list[0], mv);
}

#[test]
fn test_movelist_iteration() {
    let mut list = MoveList::new();
    list.push(ChessMove::new(Square::E2, Square::E4, MoveType::Quiet));
    list.push(ChessMove::new(Square::D2, Square::D4, MoveType::Quiet));

    let mut count = 0;
    for _mv in list.iter() {
        count += 1;
    }
    assert_eq!(count, 2);
}

#[test]
fn test_movelist_swap() {
    let mut list = MoveList::new();
    let mv1 = ChessMove::new(Square::E2, Square::E4, MoveType::Quiet);
    let mv2 = ChessMove::new(Square::D2, Square::D4, MoveType::Quiet);

    list.push(mv1);
    list.push(mv2);
    list.swap(0, 1);

    assert_eq!(list[0], mv2);
    assert_eq!(list[1], mv1);
}

#[test]
fn movelist_swap_out_of_range_changes_nothing() {
    let mut list = MoveList::new();
    let mv1 = ChessMove::new(Square::E2, Square::E4, MoveType::Quiet);
    list.push(mv1);
    list.swap(0, 5);
    assert_eq!(list.to_vec(), vec![mv1]);
    assert!(list.get(1).is_none());
}

#[test]
fn movelist_from_vec_keeps_order_and_clear_empties() {
    let mv1 = ChessMove::new(Square::E2, Square::E4, MoveType::Quiet);
    let mv2 = ChessMove::new(Square::D2, Square::D4, MoveType::Quiet);
    let mut list = MoveList::from_vec(vec![mv1, mv2]);
    assert_eq!(list.as_slice(), &[mv1, mv2]);
    list.clear();
    assert!(list.is_empty());
}

#[test]
fn movelist_get_and_mutable_slice() {
    let mv1 = ChessMove::new(Square::E2, Square::E4, MoveType::Quiet);
    let mv2 = ChessMove::new(Square::D2, Square::D4, MoveType::Quiet);
    let mut list = MoveList::default();
    list.push(mv1);
    assert_eq!(*list.get(0).unwrap(), mv1);
    list.as_mut_slice()[0] = mv2;
    assert_eq!(list[0], mv2);
}
