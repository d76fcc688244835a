use gomoku_core::board::Board;
use gomoku_core::rules::{rules_for, RuleSet, StandardRuleSet};
use gomoku_core::types::{GameResult, Move, Player, RuleSetKind};

fn mv(x: usize, y: usize, player: Player) -> Move {
    Move { x, y, player, t: None }
}

#[test]
fn legality_needs_empty_cell_on_board() {
    let rules = rules_for(RuleSetKind::Standard);
    let mut b = Board::new(15);
    b.set(7, 7, Player::B);
    assert!(rules.is_legal(&b, &mv(0, 0, Player::W)));
    assert!(!rules.is_legal(&b, &mv(7, 7, Player::W)));
    assert!(!rules.is_legal(&b, &mv(15, 3, Player::W)));
}

#[test]
fn five_in_a_row_wins_each_direction() {
    let rules = StandardRuleSet;
    let dirs: [(i64, i64); 4] = [(1, 0), (0, 1), (1, 1), (1, -1)];
    for (dx, dy) in dirs {
        let mut b = Board::new(15);
        for k in 0..5i64 {
            let x = (5 + k * dx) as usize;
            let y = (7 + k * dy) as usize;
            b.set(x, y, Player::W);
        }
        let last = mv((5 + 2 * dx) as usize, (7 + 2 * dy) as usize, Player::W);
        assert_eq!(rules.check_win(&b, &last), Some(GameResult::WWin));
    }
}

#[test]
fn four_in_a_row_does_not_win() {
    let rules = StandardRuleSet;
    let mut b = Board::new(15);
    for x in 3..7 {
        b.set(x, 0, Player::B);
    }
    assert_eq!(rules.check_win(&b, &mv(6, 0, Player::B)), None);
    b.set(7, 0, Player::W);
    assert_eq!(rules.check_win(&b, &mv(6, 0, Player::B)), None);
}

#[test]
fn six_in_a_row_wins() {
    let rules = StandardRuleSet;
    let mut b = Board::new(15);
    for x in 0..6 {
        b.set(x, 14, Player::B);
    }
    assert_eq!(rules.check_win(&b, &mv(0, 14, Player::B)), Some(GameResult::BWin));
}

#[test]
fn other_player() {
    assert_eq!(Player::B.other(), Player::W);
    assert_eq!(Player::W.other(), Player::B);
}
