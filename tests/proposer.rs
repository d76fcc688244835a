use gomoku_core::board::Board;
use gomoku_core::proposer::{after_attempt, chat_endpoint, prepare_proposal, ProposerStep, DEFAULT_BASE_URL};
use gomoku_core::types::{Coord, Move, Player};

#[test]
fn endpoints() {
    assert_eq!(chat_endpoint(""), DEFAULT_BASE_URL);
    assert_eq!(chat_endpoint("  \t"), DEFAULT_BASE_URL);
    assert_eq!(chat_endpoint("https://x.test"), "https://x.test/v1/chat/completions");
    assert_eq!(chat_endpoint("https://x.test/v1/"), "https://x.test/v1/chat/completions");
    assert_eq!(chat_endpoint("https://x.test/v1/chat/completions//"), "https://x.test/v1/chat/completions");
    assert_eq!(chat_endpoint("https://x.test/api/"), "https://x.test/api/v1/chat/completions");
}

#[test]
fn retry_policy() {
    let c = Coord { x: 1, y: 2 };
    assert!(matches!(after_attempt(1, Ok(c)), ProposerStep::Done(d) if d == c));
    assert!(matches!(after_attempt(3, Ok(c)), ProposerStep::Done(_)));
    assert!(matches!(after_attempt(1, Err("bad".to_string())), ProposerStep::Retry));
    assert!(matches!(after_attempt(2, Err("bad".to_string())), ProposerStep::Retry));
    match after_attempt(3, Err("bad".to_string())) {
        ProposerStep::GiveUp(m) => assert_eq!(m, "LLM failed after 3 attempts: bad"),
        other => panic!("unexpected {:?}", other),
    }
}

#[test]
fn preparing_a_request() {
    let b = Board::new(15);
    let none: Vec<Move> = Vec::new();
    assert_eq!(prepare_proposal(&b, Player::B, &none, 5, "  ").err(), Some("Missing API key for LLM profile".to_string()));
    assert_eq!(prepare_proposal(&b, Player::B, &none, 0, "key").err(), Some("No valid moves".to_string()));
    let p = prepare_proposal(&b, Player::B, &none, 5, "key").ok().unwrap();
    assert_eq!(p.labels, vec!["H8".to_string()]);
    assert!(p.user.contains("\nCandidates: H8\n"));
    assert!(p.user.starts_with("To move: Black\n"));
    let mut full = Board::new(1);
    full.set(0, 0, Player::W);
    assert_eq!(prepare_proposal(&full, Player::B, &none, 5, "key").err(), Some("No valid moves".to_string()));
}
