use gomoku_core::reply::{
    check_reply, extract_move_from_field, move_in_upper_text, parse_response, truncate_for_error,
    try_extract_json_from_text, try_extract_move_directly, try_parse_json,
};
use gomoku_core::types::Coord;

fn c(x: usize, y: usize) -> Coord {
    Coord { x, y }
}

#[test]
fn json_replies() {
    assert_eq!(try_parse_json(r#"{"move":"H8"}"#), Some(c(7, 7)));
    assert_eq!(try_parse_json(r#" { "move" : "a1" } "#), Some(c(0, 0)));
    assert_eq!(try_parse_json(r#"{"move":"pass"}"#), None);
    assert_eq!(try_parse_json(r#"{"move":"PaSs"}"#), None);
    assert_eq!(try_parse_json(r#"{"other":"H8"}"#), None);
    assert_eq!(try_parse_json(r#"{"move":5}"#), None);
    assert_eq!(try_parse_json("not json"), None);
}

#[test]
fn move_fields() {
    assert_eq!(extract_move_from_field("PASS"), None);
    assert_eq!(extract_move_from_field("O15"), Some(c(14, 14)));
    assert_eq!(extract_move_from_field("passe"), None);
}

#[test]
fn json_inside_text() {
    assert_eq!(try_extract_json_from_text("```json\n{\"move\":\"C3\"}\n```"), Some(c(2, 2)));
    assert_eq!(try_extract_json_from_text("  ```\n{\"move\":\"C3\"}\n```  "), Some(c(2, 2)));
    assert_eq!(try_extract_json_from_text("I choose {\"move\":\"D4\"} now"), Some(c(3, 3)));
    assert_eq!(try_extract_json_from_text("} and {"), None);
    assert_eq!(try_extract_json_from_text("no braces"), None);
}

#[test]
fn move_words_in_text() {
    assert_eq!(try_extract_move_directly("I will play h8."), Some(c(7, 7)));
    assert_eq!(try_extract_move_directly("Play P5 or K10"), Some(c(10, 9)));
    assert_eq!(try_extract_move_directly("A16 then B2"), Some(c(1, 1)));
    assert_eq!(try_extract_move_directly("H8x"), None);
    assert_eq!(try_extract_move_directly("nothing here"), None);
    assert_eq!(move_in_upper_text("GO TO E5"), Some(c(4, 4)));
}

#[test]
fn truncating_long_text() {
    assert_eq!(truncate_for_error("short"), "short");
    let long = "a".repeat(150);
    assert_eq!(truncate_for_error(&long), format!("{}...", "a".repeat(100)));
    let exact = "b".repeat(100);
    assert_eq!(truncate_for_error(&exact), exact);
    let split = format!("{}\u{e9}{}", "a".repeat(99), "z".repeat(10));
    assert_eq!(truncate_for_error(&split), format!("{}...", "a".repeat(99)));
}

#[test]
fn whole_replies() {
    assert_eq!(parse_response(r#"{"move":"H8"}"#), Ok(c(7, 7)));
    assert_eq!(parse_response("```json\n{\"move\":\"J10\"}\n```"), Ok(c(9, 9)));
    assert_eq!(parse_response("My move: G7"), Ok(c(6, 6)));
    assert_eq!(parse_response("garbage"), Err("Failed to parse LLM response: garbage".to_string()));
}

#[test]
fn replies_must_be_offered() {
    let offered = vec!["H8".to_string(), "G7".to_string()];
    assert_eq!(check_reply(r#"{"move":"h8"}"#, &offered), Ok(c(7, 7)));
    let other = vec!["G7".to_string()];
    assert_eq!(
        check_reply(r#"{"move":"H8"}"#, &other),
        Err("LLM returned move H8 outside candidate list".to_string())
    );
    assert_eq!(check_reply("??", &offered), Err("Failed to parse LLM response: ??".to_string()));
}
