use wuziqi::llm::{
    board_text, checked_reply, move_prompt, parse_move, pos_list_text, read_move, repair_paste_artifact,
    repaired_settings, usize_text, LlmConfig, LlmMove, DEFAULT_API_URL, DEFAULT_MODEL,
};
use wuziqi::board::{Board, Cell, BOARD};
use wuziqi::text::compact_text;

#[test]
fn labels_the_route_reported_by_openrouter() {
    let routed_move = LlmMove {
        position: (1, 2),
        model: "mistralai/mistral-large".to_string(),
        provider: Some("Mistral".to_string()),
    };
    assert_eq!(
        routed_move.route_label(),
        "mistralai/mistral-large via Mistral"
    );
}

#[test]
fn parses_json_configuration() {
    let raw = r#"{
            "api_key": "sk-or-test",
            "api_url": "https://openrouter.ai/api/v1/chat/completions",
            "model": "openai/gpt-5-mini"
        }"#;
    let parsed: serde_json::Value = serde_json::from_str(raw).unwrap();
    let field = |name: &str| parsed[name].as_str().unwrap().to_string();
    let config = LlmConfig::new(field("api_key"), field("api_url"), field("model")).unwrap();
    assert_eq!(config.api_key(), "sk-or-test");
    assert_eq!(config.api_url(), DEFAULT_API_URL);
    assert_eq!(config.model(), DEFAULT_MODEL);
}

#[test]
fn repairs_only_the_known_cmd_v_paste_artifact() {
    let valid = format!("sk-or-v1-{}", "a".repeat(64));
    assert_eq!(repair_paste_artifact(&(valid.clone() + "v")), valid);
    assert_eq!(repair_paste_artifact("unrelated-keyv"), "unrelated-keyv");
    assert_eq!(repair_paste_artifact("sk-or-v1-shortv"), "sk-or-v1-shortv");
}

#[test]
fn validates_manual_configuration() {
    assert!(LlmConfig::new("key".into(), DEFAULT_API_URL.into(), "model".into()).is_ok());
    assert!(LlmConfig::new("".into(), DEFAULT_API_URL.into(), "model".into()).is_err());
    assert!(LlmConfig::new("key".into(), "not-a-url".into(), "model".into()).is_err());
    assert!(LlmConfig::new(
        "key".into(),
        "https://openrouter.ai/api/v1".into(),
        "model".into()
    )
    .is_err());
    assert!(LlmConfig::new("key".into(), DEFAULT_API_URL.into(), "".into()).is_err());
}

#[test]
fn compact_text_preserves_short_model_ids_and_truncates_long_ones() {
    assert_eq!(compact_text("openai/gpt-5-mini", 24), "openai/gpt-5-mini");
    assert_eq!(
        compact_text("provider/a-very-long-model-name", 16),
        "provider/a-ve..."
    );
}

#[test]
fn parses_json_and_plain_coordinates() {
    assert_eq!(parse_move(r#"{"x":7,"y":8}"#), Some((7, 8)));
    assert_eq!(parse_move("(12, 3)"), Some((12, 3)));
    assert_eq!(parse_move("选择 (12, 3)，因为它最好"), Some((12, 3)));
    assert_eq!(parse_move("7 8 9"), None);
}

#[test]
fn parse_move_reads_json_members_and_skips_numbers_too_large() {
    assert_eq!(parse_move("  {\"y\": 2, \"x\": 14}\n"), Some((14, 2)));
    assert_eq!(parse_move("{\"x\": 3}"), None);
    assert_eq!(parse_move("{\"x\": -3, \"y\": 4}"), None);
    assert_eq!(parse_move("99999999999999999999999 at 4,5"), Some((4, 5)));
    assert_eq!(parse_move("no digits here"), None);
    assert_eq!(parse_move("007-08"), Some((7, 8)));
}

#[test]
fn config_errors_name_the_first_problem() {
    let err = |k: &str, u: &str, m: &str| {
        LlmConfig::new(k.into(), u.into(), m.into()).err().unwrap()
    };
    assert_eq!(err(" \t", DEFAULT_API_URL, "model"), "OpenRouter API Key is required");
    assert_eq!(err("key", DEFAULT_API_URL, "  "), "OpenRouter model name is required");
    assert_eq!(err("", "not-a-url", ""), "OpenRouter API Key is required");
    assert_eq!(
        err("key", "ftp://host/chat/completions", "m"),
        "API URL must start with http:// or https://"
    );
    assert_eq!(
        err("key", "http://host/v1", "m"),
        "OpenRouter API URL must end with /chat/completions"
    );
}

#[test]
fn config_is_trimmed_and_loses_trailing_slashes() {
    let config = LlmConfig::new(
        "  sk-key \n".into(),
        " http://localhost:8080/chat/completions/// ".into(),
        "\u{3000}vendor/model\t".into(),
    )
    .unwrap();
    assert_eq!(config.api_key(), "sk-key");
    assert_eq!(config.api_url(), "http://localhost:8080/chat/completions");
    assert_eq!(config.model(), "vendor/model");
}

#[test]
fn repair_is_idempotent_and_keeps_other_keys() {
    let valid = format!("sk-or-v1-{}", "0123456789abcdefABCDEF0123456789abcdef0123456789abcdef0123456789");
    let damaged = valid.clone() + "v";
    let once = repair_paste_artifact(&damaged);
    assert_eq!(once, valid);
    assert_eq!(repair_paste_artifact(&once), valid);
    let not_hex = format!("sk-or-v1-{}v", "g".repeat(64));
    assert_eq!(repair_paste_artifact(&not_hex), not_hex);
    assert_eq!(repair_paste_artifact(""), "");
    assert_eq!(repair_paste_artifact("v"), "v");
}

#[test]
fn route_label_without_provider_is_the_model() {
    let plain = LlmMove { position: (0, 0), model: "m/x".to_string(), provider: None };
    assert_eq!(plain.route_label(), "m/x");
    let empty = LlmMove { position: (0, 0), model: "m/x".to_string(), provider: Some(String::new()) };
    assert_eq!(empty.route_label(), "m/x");
}

#[test]
fn board_text_draws_rows_top_down() {
    let mut board: Board = [[Cell::Empty; BOARD]; BOARD];
    board[0][1] = Cell::Black;
    board[14][14] = Cell::White;
    let text = board_text(&board);
    let lines: Vec<&str> = text.lines().collect();
    assert_eq!(text.len(), BOARD * (BOARD + 1));
    assert_eq!(lines.len(), BOARD);
    assert_eq!(lines[0], ".X.............");
    assert_eq!(lines[14], "..............O");
    assert!(text.ends_with('\n'));
}

#[test]
fn moves_are_written_as_debug_pairs() {
    assert_eq!(usize_text(0), "0");
    assert_eq!(usize_text(1204), "1204");
    assert_eq!(pos_list_text(&[]), "[]");
    assert_eq!(pos_list_text(&[(4, 7), (10, 0)]), format!("{:?}", [(4usize, 7usize), (10, 0)]));
}

#[test]
fn prompt_holds_board_and_candidates() {
    let board: Board = [[Cell::Empty; BOARD]; BOARD];
    let prompt = move_prompt(&board, &[(7, 7)]);
    assert!(prompt.contains(&board_text(&board)));
    assert!(prompt.contains("战术引擎给出的合法候选点：[(7, 7)]\n"));
    assert!(prompt.starts_with("你执白棋 O"));
}

#[test]
fn replies_outside_the_candidates_are_refused() {
    assert_eq!(checked_reply("{\"x\":7,\"y\":7}", &[(7, 7)]), Ok((7, 7)));
    assert_eq!(
        checked_reply("(1, 2)", &[(7, 7)]),
        Err("模型返回了候选集外的落点: (1, 2)".to_string())
    );
    assert_eq!(
        checked_reply("pass", &[(7, 7)]),
        Err("无法解析模型落点: pass".to_string())
    );
}

#[test]
fn compact_text_edge_cases() {
    assert_eq!(compact_text("abcdef", 6), "abcdef");
    assert_eq!(compact_text("abcdefg", 6), "abc...");
    assert_eq!(compact_text("abcdef", 2), "...");
    assert_eq!(compact_text("五子棋五子棋", 5), "五子...");
}

#[test]
fn read_move_follows_what_the_json_reading_gave() {
    assert_eq!(read_move(Some((Some(1), Some(2))), "ignored 5 6"), Some((1, 2)));
    assert_eq!(read_move(Some((Some(1), None)), "5 6"), None);
    assert_eq!(read_move(None, "a 5 b 6"), Some((5, 6)));
    assert_eq!(read_move(None, "5"), None);
}

#[test]
fn settings_from_the_file_are_repaired_and_saved_only_when_changed() {
    let key = format!("sk-or-v1-{}", "b".repeat(64));
    let (config, save) = repaired_settings(key.clone() + "v", DEFAULT_API_URL.into(), "m".into());
    assert_eq!(config.unwrap().api_key(), key);
    assert!(save);
    let (config, save) = repaired_settings(key.clone(), DEFAULT_API_URL.into(), "m".into());
    assert!(config.is_ok());
    assert!(!save);
    let (config, save) = repaired_settings(key + "v", "bad".into(), "m".into());
    assert!(config.is_err());
    assert!(!save);
}
