use wuziqi::board::{Board, Cell, BOARD};
use wuziqi::llm::DEFAULT_MODEL;
use wuziqi::openrouter::{
    api_error, chat_request_body, decide_reply, http_error_text, json_string, reply_text,
    request_body, ChatMessage,
};

#[test]
fn extracts_openrouter_chat_completion_text() {
    let body = r#"{"choices": [{"message": {"role": "assistant", "content": "{\"x\":1,\"y\":2}"}}]}"#;
    assert_eq!(reply_text(body).as_deref(), Some("{\"x\":1,\"y\":2}"));
}

#[test]
fn chat_request_limits_reasoning_and_reserves_completion_tokens() {
    let body = chat_request_body(DEFAULT_MODEL, &[]);
    let value: serde_json::Value = serde_json::from_str(&body).unwrap();
    assert_eq!(value["max_completion_tokens"], 1_024);
    assert_eq!(value["reasoning"]["effort"], "minimal");
    assert_eq!(value["reasoning"]["exclude"], true);
    assert!(value.get("max_tokens").is_none());
}

#[test]
fn json_strings_escape_what_json_requires() {
    let tricky = "a\"b\\c\nd\te\u{1}f\u{8}\u{c}\r五";
    let written = json_string(tricky);
    assert_eq!(written, "\"a\\\"b\\\\c\\nd\\te\\u0001f\\b\\f\\r五\"");
    let back: String = serde_json::from_str(&written).unwrap();
    assert_eq!(back, tricky);
}

#[test]
fn request_carries_model_and_messages() {
    let messages = [
        ChatMessage { role: "system".to_string(), content: "be brief".to_string() },
        ChatMessage { role: "user".to_string(), content: "line one\n\"two\"".to_string() },
    ];
    let body = chat_request_body("vendor/model", &messages);
    let value: serde_json::Value = serde_json::from_str(&body).unwrap();
    assert_eq!(value["model"], "vendor/model");
    assert_eq!(value["messages"][0]["role"], "system");
    assert_eq!(value["messages"][1]["content"], "line one\n\"two\"");
    assert_eq!(value["temperature"].as_f64(), Some(0.2));
}

#[test]
fn request_body_refuses_an_empty_candidate_list() {
    let board: Board = [[Cell::Empty; BOARD]; BOARD];
    assert_eq!(request_body("m", &board, &[]), Err("没有合法候选点".to_string()));
    let body = request_body("m", &board, &[(7, 7)]).unwrap();
    let value: serde_json::Value = serde_json::from_str(&body).unwrap();
    assert_eq!(value["messages"][0]["role"], "system");
    assert!(value["messages"][1]["content"].as_str().unwrap().contains("[(7, 7)]"));
}

#[test]
fn reply_text_takes_the_first_text_part() {
    let parts = r#"{"choices":[{"message":{"content":[{"type":"image"},{"text":"(3, 4)"},{"text":"x"}]}}]}"#;
    assert_eq!(reply_text(parts).as_deref(), Some("(3, 4)"));
    assert_eq!(reply_text(r#"{"choices":[]}"#), None);
    assert_eq!(reply_text(r#"{"choices":{"0":{"message":{"content":"hi"}}}}"#), None);
    assert_eq!(reply_text("not json"), None);
}

#[test]
fn api_errors_are_read_from_either_place() {
    assert_eq!(api_error(r#"{"error":{"message":"quota"}}"#).as_deref(), Some("quota"));
    assert_eq!(api_error(r#"{"message":"down"}"#).as_deref(), Some("down"));
    assert_eq!(api_error(r#"{"error":"plain"}"#), None);
    assert_eq!(http_error_text(401, r#"{"error":{"message":"No auth"}}"#), "OpenRouter HTTP 401: No auth");
    assert_eq!(http_error_text(502, "<html>"), "OpenRouter HTTP 502: unknown API error");
}

#[test]
fn reply_decisions_follow_the_order_of_checks() {
    let cands = [(7, 7), (8, 8)];
    let ok = r#"{"model":"m/x","provider":"P","choices":[{"message":{"content":"{\"x\":8,\"y\":8}"}}]}"#;
    let mv = decide_reply(ok, &cands).unwrap();
    assert_eq!(mv.position, (8, 8));
    assert_eq!(mv.model, "m/x");
    assert_eq!(mv.provider.as_deref(), Some("P"));

    let no_provider = r#"{"model":"m/x","provider":"","choices":[{"message":{"content":"7 7"}}]}"#;
    assert_eq!(decide_reply(no_provider, &cands).unwrap().provider, None);

    let err = |body: &str| decide_reply(body, &cands).err().unwrap();
    assert!(err("{oops").starts_with("OpenRouter returned invalid JSON: Failed to read JSON: "));
    assert_eq!(err(r#"{"error":{"message":"busy"},"choices":[]}"#), "OpenRouter error: busy");
    assert_eq!(
        err(r#"{"choices":[{"finish_reason":"length","message":{"content":null}}],"usage":{"completion_tokens_details":{"reasoning_tokens":12}}}"#),
        "OpenRouter response has no text (finish_reason=length, reasoning_tokens=12)"
    );
    assert_eq!(err(r#"{}"#), "OpenRouter response has no text (finish_reason=unknown, reasoning_tokens=0)");
    assert_eq!(
        err(r#"{"model":"m","choices":[{"message":{"content":"(1, 2)"}}]}"#),
        "模型返回了候选集外的落点: (1, 2)"
    );
    assert_eq!(
        err(r#"{"model":"","choices":[{"message":{"content":"(7, 7)"}}]}"#),
        "OpenRouter response is missing the routed model"
    );
}
