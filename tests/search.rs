use std::sync::atomic::AtomicU64;

use gomoku_core::ai::{
    best_scored, candidate_moves_for_llm, choose_move, pick_with_randomness, search_root, tactical_move, RootJob,
};
use gomoku_core::board::Board;
use gomoku_core::candidates::SearchContext;
use gomoku_core::eval::evaluate_board;
use gomoku_core::rules::StandardRuleSet;
use gomoku_core::search::{negamax, record_cutoff, SearchParams, TTFlag, TranspositionTable};
use gomoku_core::types::{AiConfig, Coord, Player, RuleSetKind};

fn config(depth: u8, randomness: u8) -> AiConfig {
    AiConfig { depth, max_candidates: 8, randomness, max_nodes: 300, defense_weight: 11 }
}

fn four_in_row() -> Board {
    let mut b = Board::new(15);
    for x in 6..10 {
        b.set(x, 7, Player::B);
    }
    b.set(7, 8, Player::W);
    b.set(8, 8, Player::W);
    b.set(9, 9, Player::W);
    b
}

#[test]
fn empty_board_plays_centre() {
    let b = Board::new(15);
    for cfg in [config(1, 0), config(3, 0), config(2, 4), AiConfig { depth: 0, max_candidates: 1, randomness: 9, max_nodes: 0, defense_weight: 14 }] {
        assert_eq!(choose_move(&b, RuleSetKind::Standard, Player::B, cfg), Some(Coord { x: 7, y: 7 }));
    }
}

#[test]
fn four_in_a_row_is_completed() {
    let b = four_in_row();
    let ends = [Coord { x: 5, y: 7 }, Coord { x: 10, y: 7 }];
    let t = tactical_move(&b, RuleSetKind::Standard, Player::B).unwrap();
    assert!(ends.contains(&t));
    let c = choose_move(&b, RuleSetKind::Standard, Player::B, config(3, 0)).unwrap();
    assert!(ends.contains(&c));
    let r = choose_move(&b, RuleSetKind::Standard, Player::B, config(2, 3)).unwrap();
    assert!(ends.contains(&r));
}

#[test]
fn opponent_four_is_blocked() {
    let b = four_in_row();
    let ends = [Coord { x: 5, y: 7 }, Coord { x: 10, y: 7 }];
    let t = tactical_move(&b, RuleSetKind::Standard, Player::W).unwrap();
    assert!(ends.contains(&t));
    let c = choose_move(&b, RuleSetKind::Standard, Player::W, config(2, 0)).unwrap();
    assert!(ends.contains(&c));
}

#[test]
fn quiet_position_has_no_tactical_move() {
    let mut b = Board::new(15);
    b.set(7, 7, Player::B);
    b.set(8, 8, Player::W);
    assert_eq!(tactical_move(&b, RuleSetKind::Standard, Player::B), None);
    assert_eq!(tactical_move(&Board::new(15), RuleSetKind::Standard, Player::B), None);
}

#[test]
fn search_is_deterministic_without_randomness() {
    let mut b = Board::new(15);
    b.set(7, 7, Player::B);
    b.set(8, 7, Player::W);
    b.set(7, 8, Player::B);
    let a = choose_move(&b, RuleSetKind::Standard, Player::W, config(2, 0));
    let c = choose_move(&b, RuleSetKind::Standard, Player::W, config(2, 0));
    assert!(a.is_some());
    assert_eq!(a, c);
    let m = a.unwrap();
    assert!(b.is_empty(m.x, m.y));
}

#[test]
fn full_board_has_no_move() {
    let mut b = Board::new(2);
    b.set(0, 0, Player::B);
    b.set(1, 0, Player::W);
    b.set(0, 1, Player::W);
    b.set(1, 1, Player::B);
    assert_eq!(choose_move(&b, RuleSetKind::Standard, Player::B, config(2, 0)), None);
    assert_eq!(tactical_move(&b, RuleSetKind::Standard, Player::B), None);
}

#[test]
fn zero_candidates_gives_no_move() {
    let b = Board::new(15);
    let cfg = AiConfig { depth: 2, max_candidates: 0, randomness: 0, max_nodes: 10, defense_weight: 10 };
    assert_eq!(choose_move(&b, RuleSetKind::Standard, Player::B, cfg), None);
}

#[test]
fn llm_candidates_near_stones() {
    assert_eq!(candidate_moves_for_llm(&Board::new(15), Player::B, 5), vec![Coord { x: 7, y: 7 }]);
    let mut b = Board::new(15);
    b.set(7, 7, Player::B);
    let all = candidate_moves_for_llm(&b, Player::W, 100);
    assert_eq!(all.len(), 24);
    for c in &all {
        assert!(b.is_empty(c.x, c.y));
        assert!(c.x.abs_diff(7) <= 2 && c.y.abs_diff(7) <= 2);
    }
    let few = candidate_moves_for_llm(&b, Player::W, 3);
    assert_eq!(few.len(), 3);
    for c in &few {
        assert!(all.contains(c));
    }
    let mut corner = Board::new(15);
    corner.set(0, 0, Player::W);
    assert_eq!(candidate_moves_for_llm(&corner, Player::B, 100).len(), 8);
}

#[test]
fn randomness_picks_from_the_top() {
    let scored = vec![(9, Coord { x: 1, y: 1 }), (5, Coord { x: 2, y: 2 }), (1, Coord { x: 3, y: 3 })];
    assert_eq!(pick_with_randomness(&scored, 0), Some(Coord { x: 1, y: 1 }));
    assert_eq!(pick_with_randomness(&vec![], 3), None);
    for _ in 0..50 {
        let c = pick_with_randomness(&scored, 1).unwrap();
        assert!(c == Coord { x: 1, y: 1 } || c == Coord { x: 2, y: 2 });
    }
    let only = vec![(0, Coord { x: 4, y: 4 })];
    assert_eq!(pick_with_randomness(&only, 5), Some(Coord { x: 4, y: 4 }));
}

#[test]
fn transposition_table_replacement() {
    let mut tt = TranspositionTable::new(16);
    assert_eq!(tt.probe(5, 1), None);
    tt.store(5, 3, 42, TTFlag::Exact);
    assert_eq!(tt.probe(5, 3), Some((42, TTFlag::Exact)));
    assert_eq!(tt.probe(5, 2), Some((42, TTFlag::Exact)));
    assert_eq!(tt.probe(5, 4), None);
    assert_eq!(tt.probe(21, 1), None);
    tt.store(21, 2, 7, TTFlag::LowerBound);
    assert_eq!(tt.probe(5, 1), Some((42, TTFlag::Exact)));
    tt.store(21, 3, 8, TTFlag::UpperBound);
    assert_eq!(tt.probe(21, 3), Some((8, TTFlag::UpperBound)));
    assert_eq!(tt.probe(5, 1), None);
}

#[test]
fn cutoff_updates_killers_and_history() {
    let mut ctx = SearchContext::new(225);
    let a = Coord { x: 3, y: 4 };
    let b = Coord { x: 5, y: 6 };
    record_cutoff(&mut ctx, 2, 3, a, 15);
    assert_eq!(ctx.history[4 * 15 + 3], 9);
    assert_eq!(ctx.killers[4], Some(a));
    assert_eq!(ctx.killers[5], None);
    record_cutoff(&mut ctx, 2, 2, b, 15);
    assert_eq!(ctx.killers[4], Some(b));
    assert_eq!(ctx.killers[5], Some(a));
    record_cutoff(&mut ctx, 2, 1, b, 15);
    assert_eq!(ctx.killers[4], Some(b));
    assert_eq!(ctx.killers[5], Some(a));
    assert_eq!(ctx.history[6 * 15 + 5], 5);
    record_cutoff(&mut ctx, 40, 2, a, 15);
    assert_eq!(ctx.history[4 * 15 + 3], 13);
}

#[test]
fn negamax_leaf_is_static_score() {
    let mut b = Board::new(15);
    b.set(7, 7, Player::B);
    let before = b.hash();
    let mut ctx = SearchContext::new(225);
    let mut tt = TranspositionTable::new(64);
    let shared = AtomicU64::new(0);
    let params = SearchParams { defense_weight: 10, max_candidates: 5, max_nodes: 100 };
    let s = negamax(&mut b, Player::W, 0, -1_000_000, 1_000_000, &StandardRuleSet, &params, &mut ctx, &shared, &mut tt, 1, true);
    assert_eq!(s, evaluate_board(&b, Player::W, 10));
    let d = negamax(&mut b, Player::W, 2, -1_000_000, 1_000_000, &StandardRuleSet, &params, &mut ctx, &shared, &mut tt, 1, true);
    assert!(d.abs() < 1_000_000);
    assert_eq!(b.hash(), before);
    assert!(ctx.nodes > 1);
}

#[test]
fn spent_budget_makes_every_node_a_leaf() {
    let mut b = Board::new(15);
    b.set(7, 7, Player::B);
    b.set(8, 8, Player::W);
    let mut ctx = SearchContext::new(225);
    let mut tt = TranspositionTable::new(64);
    let shared = AtomicU64::new(0);
    let params = SearchParams { defense_weight: 12, max_candidates: 5, max_nodes: 1 };
    let s = negamax(&mut b, Player::B, 4, -1_000_000, 1_000_000, &StandardRuleSet, &params, &mut ctx, &shared, &mut tt, 1, true);
    assert_eq!(s, evaluate_board(&b, Player::B, 12));
    assert_eq!(ctx.nodes, 1);
    let busy = AtomicU64::new(1_000);
    let mut ctx2 = SearchContext::new(225);
    let params2 = SearchParams { defense_weight: 12, max_candidates: 5, max_nodes: 500 };
    let t = negamax(&mut b, Player::B, 4, -1_000_000, 1_000_000, &StandardRuleSet, &params2, &mut ctx2, &busy, &mut tt, 1, true);
    assert_eq!(t, evaluate_board(&b, Player::B, 12));
}

#[test]
fn one_ply_search_is_best_static_reply() {
    let mut b = Board::new(15);
    b.set(7, 7, Player::B);
    b.set(8, 8, Player::W);
    let cands = candidate_moves_for_llm(&b, Player::B, 100);
    let mut expected = i64::MIN;
    for c in &cands {
        let mut after = b.clone();
        after.set(c.x, c.y, Player::B);
        let v = -evaluate_board(&after, Player::W, 10);
        expected = expected.max(v);
    }
    let mut ctx = SearchContext::new(225);
    let mut tt = TranspositionTable::new(1024);
    let shared = AtomicU64::new(0);
    let params = SearchParams { defense_weight: 10, max_candidates: 100, max_nodes: 1_000_000 };
    let got = negamax(&mut b, Player::B, 1, -1_000_000, 1_000_000, &StandardRuleSet, &params, &mut ctx, &shared, &mut tt, 1, false);
    assert_eq!(got, expected);
    assert_eq!(tt.probe(b.hash(), 1), Some((expected, TTFlag::Exact)));
}

#[test]
fn root_scores() {
    let mut b = Board::new(15);
    for x in 6..10 {
        b.set(x, 7, Player::B);
    }
    let params = SearchParams { defense_weight: 10, max_candidates: 8, max_nodes: 1000 };
    let job = RootJob { board: b.clone(), rules: StandardRuleSet, player: Player::B, depth: 1, alpha: -1_000_000, beta: 1_000_000, params };
    let shared = AtomicU64::new(0);
    assert_eq!(search_root(&job, &shared, Coord { x: 5, y: 7 }), (1_000_000, Coord { x: 5, y: 7 }));
    let (v, c) = search_root(&job, &shared, Coord { x: 7, y: 9 });
    let mut after = b.clone();
    after.set(7, 9, Player::B);
    assert_eq!(c, Coord { x: 7, y: 9 });
    assert_eq!(v, -evaluate_board(&after, Player::W, 10));
}

#[test]
fn first_best_entry() {
    let s = vec![(3, Coord { x: 0, y: 0 }), (7, Coord { x: 1, y: 0 }), (7, Coord { x: 2, y: 0 }), (1, Coord { x: 3, y: 0 })];
    assert_eq!(best_scored(&s), (7, 1));
}

#[test]
fn one_ply_choice_is_best_root_score() {
    let mut b = Board::new(15);
    b.set(7, 7, Player::B);
    b.set(8, 8, Player::W);
    let cfg = AiConfig { depth: 1, max_candidates: 100, randomness: 0, max_nodes: 100_000, defense_weight: 10 };
    let m = choose_move(&b, RuleSetKind::Standard, Player::B, cfg).unwrap();
    let value = |c: &Coord| {
        let mut after = b.clone();
        after.set(c.x, c.y, Player::B);
        -evaluate_board(&after, Player::W, 10)
    };
    let best = candidate_moves_for_llm(&b, Player::B, 100).iter().map(|c| value(c)).max().unwrap();
    assert_eq!(value(&m), best);
}
