use gomoku_core::board::Board;
use gomoku_core::notation::{
    build_prompt, coord_to_label, format_move_history, list_stones, parse_label, player_label, render_board,
};
use gomoku_core::types::{Coord, Move, Player};

#[test]
fn labels_of_cells() {
    assert_eq!(coord_to_label(Coord { x: 7, y: 7 }), "H8");
    assert_eq!(coord_to_label(Coord { x: 0, y: 14 }), "A15");
    assert_eq!(coord_to_label(Coord { x: 14, y: 0 }), "O1");
    assert_eq!(coord_to_label(Coord { x: 15, y: 0 }), "A1");
    assert_eq!(player_label(Player::B), "B");
    assert_eq!(player_label(Player::W), "W");
}

#[test]
fn parsing_labels() {
    assert_eq!(parse_label("H8"), Some(Coord { x: 7, y: 7 }));
    assert_eq!(parse_label("h8"), Some(Coord { x: 7, y: 7 }));
    assert_eq!(parse_label("A15"), Some(Coord { x: 0, y: 14 }));
    assert_eq!(parse_label("o1"), Some(Coord { x: 14, y: 0 }));
    assert_eq!(parse_label("A+3"), Some(Coord { x: 0, y: 2 }));
    assert_eq!(parse_label("A0"), None);
    assert_eq!(parse_label("A"), None);
    assert_eq!(parse_label(""), None);
    assert_eq!(parse_label("Q5"), None);
    assert_eq!(parse_label("A-1"), None);
    assert_eq!(parse_label("A+"), None);
    assert_eq!(parse_label("B1x"), None);
    assert_eq!(parse_label("A99999999999999999999999"), None);
}

#[test]
fn labels_round_trip() {
    for y in 0..15 {
        for x in 0..15 {
            let c = Coord { x, y };
            assert_eq!(parse_label(&coord_to_label(c)), Some(c));
        }
    }
}

#[test]
fn drawing_a_small_board() {
    let mut b = Board::new(3);
    b.set(0, 0, Player::B);
    b.set(2, 2, Player::W);
    assert_eq!(render_board(&b), "   A B C \n 3 . . W \n 2 . . . \n 1 B . . \n");
    let wide = render_board(&Board::new(10));
    assert!(wide.contains("\n10 . . . . . . . . . . \n"));
}

#[test]
fn listing_stones() {
    let b = Board::new(15);
    assert_eq!(list_stones(&b), ("none".to_string(), "none".to_string()));
    let mut c = Board::new(15);
    c.set(0, 0, Player::B);
    c.set(1, 0, Player::B);
    c.set(7, 7, Player::W);
    assert_eq!(list_stones(&c), ("A1, B1".to_string(), "H8".to_string()));
}

#[test]
fn move_history_text() {
    assert_eq!(format_move_history(&[]), "None (opening move)");
    let moves = [
        Move { x: 7, y: 7, player: Player::B, t: None },
        Move { x: 8, y: 8, player: Player::W, t: Some(5) },
    ];
    assert_eq!(format_move_history(&moves), "1. H8(B), 2. I9(W)");
}

#[test]
fn prompt_for_a_position() {
    let mut b = Board::new(15);
    b.set(7, 7, Player::B);
    let moves = [Move { x: 7, y: 7, player: Player::B, t: None }];
    let cands = vec!["G7".to_string(), "H7".to_string()];
    let (system, user) = build_prompt(&b, Player::W, &moves, &cands);
    assert!(system.starts_with("You are a Gomoku player. Board size 15x15.\n"));
    assert!(system.ends_with("If no move possible, respond {\"move\":\"pass\"}."));
    let head = "To move: White\nBlack stones: H8\nWhite stones: none\nMove history: 1. H8(B)\nCandidates: G7, H7\nBoard (row 15 at top):\n";
    assert!(user.starts_with(head));
    assert_eq!(&user[head.len()..], render_board(&b));
}
