use gomoku_core::selfplay::{build_pairs, play_ai_game};
use gomoku_core::types::AiConfig;

#[test]
fn pairs_of_entrants() {
    assert_eq!(build_pairs(0), vec![]);
    assert_eq!(build_pairs(1), vec![]);
    assert_eq!(build_pairs(4), vec![(0, 1), (0, 2), (0, 3), (1, 2), (1, 3), (2, 3)]);
    assert_eq!(build_pairs(10).len(), 45);
}

#[test]
fn engine_plays_itself_to_the_end() {
    let quick = AiConfig { depth: 1, max_candidates: 3, randomness: 0, max_nodes: 10, defense_weight: 11 };
    let result = play_ai_game(quick, quick);
    assert!(result.is_ok());
}
