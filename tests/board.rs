use gomoku_core::board::Board;
use gomoku_core::types::{Coord, Player};

#[test]
fn new_board_is_empty() {
    let b = Board::new(15);
    assert_eq!(b.size(), 15);
    assert_eq!(b.hash(), 0);
    assert_eq!(b.cells().len(), 225);
    assert!(b.cells().iter().all(|c| c.is_none()));
    assert!(!b.is_full());
    assert_eq!(b.empty_coords().len(), 225);
}

#[test]
fn set_get_and_clear() {
    let mut b = Board::new(15);
    b.set(3, 4, Player::B);
    assert_eq!(b.get(3, 4), Some(Player::B));
    assert_eq!(b.get(4, 3), None);
    assert!(!b.is_empty(3, 4));
    assert!(b.is_empty(4, 3));
    assert!(!b.is_empty(15, 0));
    assert_eq!(b.get(15, 0), None);
    assert_eq!(b.index(3, 4), 63);
    b.clear(3, 4);
    assert_eq!(b.get(3, 4), None);
}

#[test]
fn set_then_clear_restores_hash() {
    let mut b = Board::new(15);
    b.set(7, 7, Player::B);
    b.set(8, 7, Player::W);
    let before = b.hash();
    for y in 0..15 {
        for x in 0..15 {
            if b.is_empty(x, y) {
                for p in [Player::B, Player::W] {
                    b.set(x, y, p);
                    assert_ne!(b.hash(), before);
                    b.clear(x, y);
                    assert_eq!(b.hash(), before);
                    assert_eq!(b.zobrist_hash(), before);
                }
            }
        }
    }
}

#[test]
fn hash_depends_on_position_not_order() {
    let mut a = Board::new(15);
    a.set(1, 1, Player::B);
    a.set(2, 2, Player::W);
    let mut b = a.clone();
    b.clear(1, 1);
    b.clear(2, 2);
    b.set(2, 2, Player::W);
    b.set(1, 1, Player::B);
    assert_eq!(a.hash(), b.hash());
    assert_ne!(a.hash(), 0);
}

#[test]
fn replacing_a_stone_keeps_hash_exact() {
    let mut b = Board::new(15);
    b.set(5, 5, Player::B);
    let black = b.hash();
    b.set(5, 5, Player::W);
    let white = b.hash();
    assert_ne!(black, white);
    b.clear(5, 5);
    assert_eq!(b.hash(), 0);
}

#[test]
fn empty_coords_in_row_major_order() {
    let mut b = Board::new(3);
    b.set(1, 0, Player::B);
    b.set(0, 2, Player::W);
    let e = b.empty_coords();
    let want = vec![
        Coord { x: 0, y: 0 },
        Coord { x: 2, y: 0 },
        Coord { x: 0, y: 1 },
        Coord { x: 1, y: 1 },
        Coord { x: 2, y: 1 },
        Coord { x: 1, y: 2 },
        Coord { x: 2, y: 2 },
    ];
    assert_eq!(e, want);
}

#[test]
fn full_board_is_full() {
    let mut b = Board::new(2);
    b.set(0, 0, Player::B);
    b.set(1, 0, Player::W);
    b.set(0, 1, Player::B);
    assert!(!b.is_full());
    b.set(1, 1, Player::W);
    assert!(b.is_full());
    assert!(b.empty_coords().is_empty());
}

#[test]
fn separate_boards_share_hash_keys() {
    let mut a = Board::new(15);
    let mut b = Board::new(15);
    a.set(3, 3, Player::B);
    a.set(4, 4, Player::W);
    a.set(9, 9, Player::B);
    a.clear(9, 9);
    b.set(4, 4, Player::W);
    b.set(3, 3, Player::B);
    assert_eq!(a.cells(), b.cells());
    assert_eq!(a.hash(), b.hash());
    assert_ne!(a.hash(), 0);
}
