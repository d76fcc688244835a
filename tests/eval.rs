use gomoku_core::board::Board;
use gomoku_core::eval::{evaluate_board, run_score, score_for_player, score_line};
use gomoku_core::types::Player;

#[test]
fn run_score_table() {
    assert_eq!(run_score(5, 0), 200_000);
    assert_eq!(run_score(7, 2), 200_000);
    assert_eq!(run_score(4, 2), 50_000);
    assert_eq!(run_score(4, 1), 10_000);
    assert_eq!(run_score(3, 2), 3_000);
    assert_eq!(run_score(3, 1), 1_200);
    assert_eq!(run_score(2, 2), 300);
    assert_eq!(run_score(2, 1), 80);
    assert_eq!(run_score(1, 2), 6);
    assert_eq!(run_score(1, 1), 0);
    assert_eq!(run_score(4, 0), 0);
}

#[test]
fn open_runs_score_in_order() {
    let four = score_line(&vec![0, 1, 1, 1, 1, 0, 0]);
    let three = score_line(&vec![0, 1, 1, 1, 0, 0, 0]);
    let two = score_line(&vec![0, 1, 1, 0, 0, 0, 0]);
    assert_eq!(four.score, 50_000);
    assert_eq!(four.open_fours, 1);
    assert_eq!(three.score, 3_000);
    assert_eq!(three.open_threes, 1);
    assert_eq!(two.score, 300);
    assert!(four.score > three.score && three.score > two.score);
}

#[test]
fn split_three_window_adds_on_top_of_runs() {
    let s = score_line(&vec![0, 1, 1, 0, 1, 0]);
    assert_eq!(s.score, 300 + 6 + 1_200);
    assert_eq!(s.open_threes, 1);
}

#[test]
fn split_four_windows() {
    let s = score_line(&vec![1, 1, 1, 0, 1]);
    // run of three blocked by the edge, open on the right: 1200; single stone open left: 0;
    // the five-cell window adds 7000
    assert_eq!(s.score, 1_200 + 7_000);
    let t = score_line(&vec![0, 1, 1, 1, 0, 1]);
    // open three 3000, lone stone at the edge 0, six-cell split four 7000, and the
    // five-cell split four ending at the same cell counts again
    assert_eq!(t.score, 3_000 + 7_000 + 7_000);
}

#[test]
fn blocked_run_at_edge() {
    let s = score_line(&vec![1, 1, 1, 1, 2]);
    assert_eq!(s.score, 0);
    let t = score_line(&vec![2, 1, 1, 1, 1, 0]);
    assert_eq!(t.score, 10_000);
}

#[test]
fn empty_board_scores_zero() {
    let b = Board::new(15);
    assert_eq!(score_for_player(&b, Player::B).score, 0);
    assert_eq!(evaluate_board(&b, Player::B, 10), 0);
}

#[test]
fn single_centre_stone_score() {
    let mut b = Board::new(15);
    b.set(7, 7, Player::B);
    // four open singles (6 each) and a centre bonus of 15 / 3
    assert_eq!(score_for_player(&b, Player::B).score, 29);
    assert_eq!(evaluate_board(&b, Player::B, 10), 29);
    assert_eq!(evaluate_board(&b, Player::W, 10), -29);
    assert_eq!(evaluate_board(&b, Player::W, 11), -31);
    assert_eq!(evaluate_board(&b, Player::W, -11), 31);
}

#[test]
fn open_four_bonus_on_board() {
    let mut b = Board::new(15);
    for x in 5..9 {
        b.set(x, 7, Player::B);
    }
    let four = score_for_player(&b, Player::B).score;
    let mut c = Board::new(15);
    for x in 5..8 {
        c.set(x, 7, Player::B);
    }
    let three = score_for_player(&c, Player::B).score;
    assert!(four > three);
    assert!(four >= 50_000 + 10_000);
}

#[test]
fn threat_counts() {
    let mut b = Board::new(15);
    b.set(7, 7, Player::B);
    let s = score_for_player(&b, Player::B);
    assert_eq!((s.score, s.open_threes, s.open_fours), (29, 0, 0));
    let w = score_for_player(&b, Player::W);
    assert_eq!((w.score, w.open_threes, w.open_fours), (0, 0, 0));
    let mut f = Board::new(15);
    for x in 5..9 {
        f.set(x, 7, Player::W);
    }
    assert_eq!(score_for_player(&f, Player::W).open_fours, 1);
}
