use gomoku_core::game::{format_game_id, GameState};
use gomoku_core::types::{GameMode, GameResult, Player, Players, RuleSetKind};

fn players() -> Players {
    Players { black: "alice".to_string(), white: "bob".to_string() }
}

fn new_game(mode: GameMode) -> GameState {
    GameState::new(15, RuleSetKind::Standard, players(), mode)
}

#[test]
fn new_game_starts_with_black() {
    let g = new_game(GameMode::HumanVsHuman);
    assert_eq!(g.to_move, Player::B);
    assert!(g.moves.is_empty());
    assert!(g.result.is_none());
    assert!(g.game_id.starts_with("gomoku-"));
    assert_eq!(g.game_id.len(), "gomoku-".len() + g.created_at.to_string().len() + 1 + 8);
    let s = g.snapshot();
    assert_eq!(s.board_size, 15);
    assert_eq!(s.board.len(), 225);
    assert!(s.can_human_move);
}

#[test]
fn moves_alternate_and_errors_are_reported() {
    let mut g = new_game(GameMode::HumanVsHuman);
    assert!(g.apply_move(7, 7).is_ok());
    assert_eq!(g.to_move, Player::W);
    assert_eq!(g.apply_move(7, 7), Err("Illegal move".to_string()));
    assert_eq!(g.apply_move(15, 0), Err("Illegal move".to_string()));
    assert_eq!(g.moves.len(), 1);
    assert_eq!(g.to_move, Player::W);
}

#[test]
fn five_ends_the_game() {
    let mut g = new_game(GameMode::HumanVsHuman);
    for x in 0..4 {
        g.apply_move(x, 0).unwrap();
        g.apply_move(x, 1).unwrap();
    }
    g.apply_move(4, 0).unwrap();
    assert_eq!(g.result, Some(GameResult::BWin));
    assert_eq!(g.apply_move(9, 9), Err("Game is already finished".to_string()));
    assert!(!g.can_human_move());
    assert!(!g.is_ai_turn());
}

#[test]
fn filling_the_board_is_a_draw() {
    let mut g = GameState::new(2, RuleSetKind::Standard, players(), GameMode::HumanVsHuman);
    g.apply_move(0, 0).unwrap();
    g.apply_move(1, 0).unwrap();
    g.apply_move(0, 1).unwrap();
    g.apply_move(1, 1).unwrap();
    assert_eq!(g.result, Some(GameResult::Draw));
}

#[test]
fn turn_owner_by_mode() {
    let mut g = new_game(GameMode::HumanVsAi { human_color: Player::W });
    assert!(!g.can_human_move());
    assert!(g.is_ai_turn());
    assert_eq!(g.current_ai_profile(), None);
    g.apply_move(7, 7).unwrap();
    assert!(g.can_human_move());
    assert!(!g.is_ai_turn());
    let mut a = new_game(GameMode::AiVsAi { black_id: "x".to_string(), white_id: "y".to_string() });
    assert_eq!(a.current_ai_profile(), Some("x"));
    a.apply_move(7, 7).unwrap();
    assert_eq!(a.current_ai_profile(), Some("y"));
    assert!(a.is_ai_turn());
    assert!(!a.can_human_move());
}

#[test]
fn record_round_trip() {
    let mut g = new_game(GameMode::HumanVsHuman);
    g.apply_move(7, 7).unwrap();
    g.apply_move(8, 8).unwrap();
    g.apply_move(6, 6).unwrap();
    let rec = g.to_record();
    assert_eq!(rec.version, "1.0");
    assert_eq!(rec.moves.len(), 3);
    assert_eq!(rec.meta.game_id.as_deref(), Some(g.game_id.as_str()));
    let back = GameState::from_record(rec).unwrap();
    assert_eq!(back.moves.len(), 3);
    assert_eq!(back.board.get(8, 8), Some(Player::W));
    assert_eq!(back.to_move, Player::W);
    assert_eq!(back.board.hash() == 0, false);
    assert_eq!(back.game_id, g.game_id);
    assert_eq!(back.created_at, g.created_at);
}

#[test]
fn record_with_bad_move_is_refused() {
    let mut g = new_game(GameMode::HumanVsHuman);
    g.apply_move(7, 7).unwrap();
    let mut rec = g.to_record();
    let mut dup = rec.moves[0];
    dup.player = Player::W;
    rec.moves.push(dup);
    assert_eq!(GameState::from_record(rec).err(), Some("Illegal move".to_string()));
    let mut rec2 = g.to_record();
    rec2.moves.push(rec2.moves[0]);
    assert_eq!(GameState::from_record(rec2).err(), Some("Move order mismatch".to_string()));
}

#[test]
fn training_samples_replay_the_game() {
    let mut g = new_game(GameMode::HumanVsHuman);
    g.apply_move(7, 7).unwrap();
    g.apply_move(8, 8).unwrap();
    let samples = g.training_samples();
    assert_eq!(samples.len(), 2);
    assert_eq!(samples[0].ply, 0);
    assert_eq!(samples[0].to_move, Player::B);
    assert_eq!(samples[0].legal_moves.len(), 225);
    assert!(samples[0].board.iter().all(|c| c.is_none()));
    assert_eq!(samples[1].to_move, Player::W);
    assert_eq!(samples[1].legal_moves.len(), 224);
    assert_eq!(samples[1].board[7 * 15 + 7], Some(Player::B));
    assert_eq!(samples[1].played_move.unwrap().x, 8);
}

#[test]
fn game_id_layout() {
    assert_eq!(format_game_id(1700000000, 0xdeadbeef), "gomoku-1700000000-deadbeef");
    assert_eq!(format_game_id(-5, 255), "gomoku--5-000000ff");
    assert_eq!(format_game_id(0, 0), "gomoku-0-00000000");
    assert_eq!(format_game_id(i64::MIN, 1), "gomoku--9223372036854775808-00000001");
}
