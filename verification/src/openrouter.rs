//! The exchange with the OpenRouter chat completions endpoint: the JSON text of the request, and
//! what a reply body comes to.
use vstd::prelude::*;
use crate::board::{Board, Pos};
use crate::llm::{
    checked_reply, decimal_text, digit_char, move_prompt, prompt_chars, reply_result, u64_text,
    LlmMove,
};

verus! {

/// The character of the hexadecimal digit `d` (lower case).
pub open spec fn hex_char(d: nat) -> char {
    if d < 10 {
        digit_char(d)
    } else {
        ((d - 10 + 0x61) as u32) as char
    }
}

/// How `c` is written inside a JSON string: quote and backslash escaped, the control characters
/// as `\b`, `\t`, `\n`, `\f`, `\r` or `\u00XX`, everything else as it is.
pub open spec fn escape_char(c: char) -> Seq<char> {
    let u = c as u32;
    if c == '"' {
        "\\\""@
    } else if c == '\\' {
        "\\\\"@
    } else if c == '\n' {
        "\\n"@
    } else if c == '\r' {
        "\\r"@
    } else if c == '\t' {
        "\\t"@
    } else if u == 8 {
        "\\b"@
    } else if u == 0x0C {
        "\\f"@
    } else if u < 0x20 {
        "\\u00"@ + seq![hex_char((u / 16) as nat), hex_char((u % 16) as nat)]
    } else {
        seq![c]
    }
}

/// `s` with each character escaped for a JSON string.
pub open spec fn json_escaped(s: Seq<char>) -> Seq<char>
    decreases s.len(),
{
    if s.len() == 0 {
        Seq::empty()
    } else {
        json_escaped(s.drop_last()) + escape_char(s.last())
    }
}

/// `s` as a JSON string, quotes included.
pub open spec fn json_string_chars(s: Seq<char>) -> Seq<char> {
    "\""@ + json_escaped(s) + "\""@
}

fn hex_str(d: u32) -> (r: &'static str)
    requires
        d < 16,
    ensures
        r@ == seq![hex_char(d as nat)],
{
    proof {
        reveal_strlit("a");
        reveal_strlit("b");
        reveal_strlit("c");
        reveal_strlit("d");
        reveal_strlit("e");
        reveal_strlit("f");
    }
    if d < 10 {
        crate::llm::digit_str(d as usize)
    } else {
        let r = if d == 10 {
            "a"
        } else if d == 11 {
            "b"
        } else if d == 12 {
            "c"
        } else if d == 13 {
            "d"
        } else if d == 14 {
            "e"
        } else {
            "f"
        };
        assert(r@ =~= seq![hex_char(d as nat)]);
        r
    }
}

/// `s` as a JSON string, quotes included.
pub fn json_string(s: &str) -> (r: String)
    ensures
        r@ == json_string_chars(s@),
{
    let n = s.unicode_len();
    let mut out = "\"".to_owned();
    let mut i: usize = 0;
    while i < n
        invariant
            n == s@.len(),
            i <= n,
            out@ == "\""@ + json_escaped(s@.take(i as int)),
        decreases n - i,
    {
        let c = s.get_char(i);
        let u = c as u32;
        proof {
            let t = s@.take(i + 1);
            assert(t.drop_last() =~= s@.take(i as int));
            assert(t.last() == c);
        }
        if c == '"' {
            out.append("\\\"");
        } else if c == '\\' {
            out.append("\\\\");
        } else if c == '\n' {
            out.append("\\n");
        } else if c == '\r' {
            out.append("\\r");
        } else if c == '\t' {
            out.append("\\t");
        } else if u == 8 {
            out.append("\\b");
        } else if u == 0x0C {
            out.append("\\f");
        } else if u < 0x20 {
            out.append("\\u00");
            out.append(hex_str(u / 16));
            out.append(hex_str(u % 16));
        } else {
            let one = s.substring_char(i, i + 1);
            assert(one@ =~= seq![c]);
            out.append(one);
        }
        assert(out@ =~= "\""@ + json_escaped(s@.take(i + 1)));
        i += 1;
    }
    assert(s@.take(n as int) =~= s@);
    out.append("\"");
    out
}

/// A message of a chat: who speaks (`system` or `user`) and what is said.
pub struct ChatMessage {
    pub role: String,
    pub content: String,
}

/// A message as a JSON object.
pub open spec fn message_chars(m: (Seq<char>, Seq<char>)) -> Seq<char> {
    "{\"role\":"@ + json_string_chars(m.0) + ",\"content\":"@ + json_string_chars(m.1) + "}"@
}

/// The messages as JSON objects separated by commas.
pub open spec fn messages_chars(ms: Seq<(Seq<char>, Seq<char>)>) -> Seq<char>
    decreases ms.len(),
{
    if ms.len() == 0 {
        Seq::empty()
    } else if ms.len() == 1 {
        message_chars(ms[0])
    } else {
        messages_chars(ms.drop_last()) + ","@ + message_chars(ms.last())
    }
}

pub open spec fn messages_view(ms: Seq<ChatMessage>) -> Seq<(Seq<char>, Seq<char>)> {
    ms.map_values(|m: ChatMessage| (m.role@, m.content@))
}

/// The JSON text of a chat completions request to `model` with the messages `ms`: at most 1024
/// completion tokens, temperature 0.2, and minimal reasoning kept out of the reply.
pub open spec fn request_chars(model: Seq<char>, ms: Seq<(Seq<char>, Seq<char>)>) -> Seq<char> {
    "{\"model\":"@ + json_string_chars(model) + ",\"messages\":["@ + messages_chars(ms)
        + "],\"max_completion_tokens\":1024,\"temperature\":0.2,\"reasoning\":{\"effort\":\"minimal\",\"exclude\":true}}"@
}

/// The JSON text of a chat completions request (see `request_chars`).
pub fn chat_request_body(model: &str, messages: &[ChatMessage]) -> (r: String)
    ensures
        r@ == request_chars(model@, messages_view(messages@)),
{
    let ghost ms = messages_view(messages@);
    let mut list = String::new();
    let mut i: usize = 0;
    while i < messages.len()
        invariant
            ms == messages_view(messages@),
            i <= messages@.len(),
            list@ == messages_chars(ms.take(i as int)),
        decreases messages@.len() - i,
    {
        proof {
            let t = ms.take(i + 1);
            assert(t.drop_last() =~= ms.take(i as int));
            assert(t.last() == (messages@[i as int].role@, messages@[i as int].content@));
            if i == 0 {
                assert(list@ =~= Seq::<char>::empty());
            }
        }
        if i > 0 {
            list.append(",");
        }
        let m = &messages[i];
        let one = "{\"role\":".to_owned().concat(json_string(m.role.as_str()).as_str()).concat(
            ",\"content\":",
        ).concat(json_string(m.content.as_str()).as_str()).concat("}");
        list.append(one.as_str());
        proof {
            let t = ms.take(i + 1);
            if i == 0 {
                assert(list@ =~= message_chars(t[0]));
            } else {
                assert(list@ =~= messages_chars(t));
            }
        }
        i += 1;
    }
    assert(ms.take(messages@.len() as int) =~= ms);
    let out = "{\"model\":".to_owned().concat(json_string(model).as_str()).concat(
        ",\"messages\":[",
    ).concat(list.as_str()).concat(
        "],\"max_completion_tokens\":1024,\"temperature\":0.2,\"reasoning\":{\"effort\":\"minimal\",\"exclude\":true}}",
    );
    assert(out@ =~= request_chars(model@, ms));
    out
}

/// The instruction given to the model before the position.
pub open spec fn system_chars() -> Seq<char> {
    "你是五子棋专家。只输出一个 JSON 对象，例如 {\"x\":7,\"y\":7}，不要解释。"@
}

/// The request that asks `model` for a move among `candidates`: refused when there is none;
/// otherwise the instruction, then the position with the candidates (see `prompt_chars`).
pub open spec fn request_outcome(model: Seq<char>, b: Board, candidates: Seq<Pos>) -> Result<
    Seq<char>,
    Seq<char>,
> {
    if candidates.len() == 0 {
        Err("没有合法候选点"@)
    } else {
        Ok(
            request_chars(
                model,
                seq![("system"@, system_chars()), ("user"@, prompt_chars(b, candidates))],
            ),
        )
    }
}

/// The JSON text of the request that asks `model` for its move among `candidates`.
pub fn request_body(model: &str, board: &Board, candidates: &[Pos]) -> (r: Result<String, String>)
    ensures
        match r {
            Ok(body) => request_outcome(model@, *board, candidates@) == Ok::<Seq<char>, Seq<char>>(
                body@,
            ),
            Err(e) => request_outcome(model@, *board, candidates@) == Err::<Seq<char>, Seq<char>>(
                e@,
            ),
        },
{
    if candidates.len() == 0 {
        return Err("没有合法候选点".to_owned());
    }
    let mut messages: Vec<ChatMessage> = Vec::new();
    messages.push(
        ChatMessage {
            role: "system".to_owned(),
            content: "你是五子棋专家。只输出一个 JSON 对象，例如 {\"x\":7,\"y\":7}，不要解释。".to_owned(),
        },
    );
    messages.push(ChatMessage { role: "user".to_owned(), content: move_prompt(board, candidates) });
    let body = chat_request_body(model, messages.as_slice());
    assert(messages_view(messages@) =~= seq![
        ("system"@, system_chars()),
        ("user"@, prompt_chars(*board, candidates@)),
    ]);
    Ok(body)
}


// ---------------------------------------------------------------------------------------------
// Reading a reply
// ---------------------------------------------------------------------------------------------

pub open spec fn opt_view(o: Option<String>) -> Option<Seq<char>> {
    match o {
        Some(s) => Some(s@),
        None => None,
    }
}

/// What `serde_json::from_str::<serde_json::Value>` reports of `text`: `None` when `text` is one
/// JSON document, otherwise its error as `Display` writes it.
pub uninterp spec fn json_error(text: Seq<char>) -> Option<Seq<char>>;

/// The string that the JSON pointer `pointer` addresses in the JSON document `text`
/// (`serde_json::Value::pointer`, then `Value::as_str`); `None` when `text` is not JSON, nothing is
/// there, or it is not a string.
pub uninterp spec fn json_string_at(text: Seq<char>, pointer: Seq<char>) -> Option<Seq<char>>;

/// The unsigned integer (fitting a `u64`) that `pointer` addresses in the JSON document `text`
/// (`Value::pointer`, then `Value::as_u64`).
pub uninterp spec fn json_u64_at(text: Seq<char>, pointer: Seq<char>) -> Option<u64>;

/// The length of the array that `pointer` addresses in the JSON document `text`
/// (`Value::pointer`, then `Value::as_array`).
pub uninterp spec fn json_array_len_at(text: Seq<char>, pointer: Seq<char>) -> Option<usize>;

/// Parses `text` with `serde_json::from_str::<serde_json::Value>` and gives the error's message,
/// if any. What JSON is, and what `serde_json` says of a text that is not, is only named
/// (`json_error`).
#[verifier::external_body]
fn json_error_message(text: &str) -> (r: Option<String>)
    ensures
        opt_view(r) == json_error(text@),
{
    match serde_json::from_str::<serde_json::Value>(text) {
        Ok(_) => None,
        Err(error) => Some(error.to_string()),
    }
}

/// Parses `text` with `serde_json::from_str::<serde_json::Value>` and reads the string at
/// `pointer` (`Value::pointer`, `Value::as_str`). The outcome is only named (`json_string_at`).
#[verifier::external_body]
fn json_pointer_str(text: &str, pointer: &str) -> (r: Option<String>)
    ensures
        opt_view(r) == json_string_at(text@, pointer@),
{
    match serde_json::from_str::<serde_json::Value>(text) {
        Ok(value) => value.pointer(pointer).and_then(serde_json::Value::as_str).map(str::to_string),
        Err(_) => None,
    }
}

/// Parses `text` with `serde_json::from_str::<serde_json::Value>` and reads the unsigned integer
/// at `pointer` (`Value::pointer`, `Value::as_u64`). The outcome is only named (`json_u64_at`).
#[verifier::external_body]
fn json_pointer_u64(text: &str, pointer: &str) -> (r: Option<u64>)
    ensures
        r == json_u64_at(text@, pointer@),
{
    match serde_json::from_str::<serde_json::Value>(text) {
        Ok(value) => value.pointer(pointer).and_then(serde_json::Value::as_u64),
        Err(_) => None,
    }
}

/// Parses `text` with `serde_json::from_str::<serde_json::Value>` and reads the length of the
/// array at `pointer` (`Value::pointer`, `Value::as_array`). The outcome is only named
/// (`json_array_len_at`).
#[verifier::external_body]
fn json_pointer_array_len(text: &str, pointer: &str) -> (r: Option<usize>)
    ensures
        r == json_array_len_at(text@, pointer@),
{
    match serde_json::from_str::<serde_json::Value>(text) {
        Ok(value) => value.pointer(pointer).and_then(serde_json::Value::as_array).map(Vec::len),
        Err(_) => None,
    }
}

/// The error a reply reports: the string `error.message`, else a top-level string `message`.
pub open spec fn error_member(body: Seq<char>) -> Option<Seq<char>> {
    match json_string_at(body, "/error/message"@) {
        Some(m) => Some(m),
        None => json_string_at(body, "/message"@),
    }
}

/// Where the content of the first choice of a chat completion stands.
pub open spec fn content_pointer() -> Seq<char> {
    "/choices/0/message/content"@
}

/// Where the text of the `i`-th part of that content stands.
pub open spec fn part_pointer(i: nat) -> Seq<char> {
    content_pointer() + "/"@ + decimal_text(i) + "/text"@
}

/// The text of the first of the parts `i`, `i + 1`, ... (below `n`) that has one.
pub open spec fn first_part_text(body: Seq<char>, n: nat, i: nat) -> Option<Seq<char>>
    decreases n - i,
{
    if i >= n {
        None
    } else {
        match json_string_at(body, part_pointer(i)) {
            Some(t) => Some(t),
            None => first_part_text(body, n, i + 1),
        }
    }
}

/// The text of a chat completion: when `choices` is a non-empty array, the content of its first
/// choice if that is a string, else the text of the first part of that content that has one.
pub open spec fn reply_text_of(body: Seq<char>) -> Option<Seq<char>> {
    if !(json_array_len_at(body, "/choices"@) matches Some(n) && n > 0) {
        None
    } else {
        match json_string_at(body, content_pointer()) {
            Some(t) => Some(t),
            None => match json_array_len_at(body, content_pointer()) {
                Some(n) => first_part_text(body, n as nat, 0),
                None => None,
            },
        }
    }
}

/// The error reported in a reply body, if any (see `error_member`).
pub fn api_error(body: &str) -> (r: Option<String>)
    ensures
        opt_view(r) == error_member(body@),
{
    match json_pointer_str(body, "/error/message") {
        Some(m) => Some(m),
        None => json_pointer_str(body, "/message"),
    }
}

/// The text of a chat completion (see `reply_text_of`).
pub fn reply_text(body: &str) -> (r: Option<String>)
    ensures
        opt_view(r) == reply_text_of(body@),
{
    match json_pointer_array_len(body, "/choices") {
        Some(n) => {
            if n == 0 {
                return None;
            }
        },
        None => {
            return None;
        },
    }
    let content = "/choices/0/message/content";
    if let Some(t) = json_pointer_str(body, content) {
        return Some(t);
    }
    match json_pointer_array_len(body, content) {
        None => None,
        Some(n) => {
            let mut i: usize = 0;
            while i < n
                invariant
                    i <= n,
                    content@ == content_pointer(),
                    json_array_len_at(body@, "/choices"@) matches Some(c) && c > 0,
                    json_string_at(body@, content_pointer()) is None,
                    json_array_len_at(body@, content_pointer()) == Some(n),
                    first_part_text(body@, n as nat, 0) == first_part_text(body@, n as nat, i as nat),
                decreases n - i,
            {
                let pointer = content.to_owned().concat("/").concat(u64_text(i as u64).as_str()).concat(
                    "/text",
                );
                assert(pointer@ =~= part_pointer(i as nat));
                if let Some(t) = json_pointer_str(body, pointer.as_str()) {
                    return Some(t);
                }
                i += 1;
            }
            None
        },
    }
}

/// The message of a refused request: the HTTP status, then the error the body reports, else
/// `unknown API error`.
pub open spec fn http_error_chars(code: u16, body: Seq<char>) -> Seq<char> {
    "OpenRouter HTTP "@ + decimal_text(code as nat) + ": "@ + match error_member(body) {
        Some(m) => m,
        None => "unknown API error"@,
    }
}

/// The message for a request that OpenRouter refused with status `code` and `body`.
pub fn http_error_text(code: u16, body: &str) -> (r: String)
    ensures
        r@ == http_error_chars(code, body@),
{
    let detail = match api_error(body) {
        Some(m) => m,
        None => "unknown API error".to_owned(),
    };
    "OpenRouter HTTP ".to_owned().concat(u64_text(code as u64).as_str()).concat(": ").concat(
        detail.as_str(),
    )
}

/// The finish reason of the first choice, `unknown` when there is none.
pub open spec fn finish_reason_of(body: Seq<char>) -> Seq<char> {
    match json_string_at(body, "/choices/0/finish_reason"@) {
        Some(f) => f,
        None => "unknown"@,
    }
}

/// The reasoning tokens the reply reports, zero when it reports none.
pub open spec fn reasoning_tokens_of(body: Seq<char>) -> u64 {
    match json_u64_at(body, "/usage/completion_tokens_details/reasoning_tokens"@) {
        Some(n) => n,
        None => 0,
    }
}

/// What a reply body of the chat completions endpoint comes to, checked in this order: it must be
/// JSON; it must not report an error; it must have a text; the text must name one of the
/// `candidates` (see `reply_result`); it must name the model that answered. The provider, when
/// named, is kept. The result is the move, the model and the provider, or the error message.
pub open spec fn chat_outcome(body: Seq<char>, candidates: Seq<Pos>) -> Result<
    (Pos, Seq<char>, Option<Seq<char>>),
    Seq<char>,
> {
    if let Some(e) = json_error(body) {
        Err("OpenRouter returned invalid JSON: Failed to read JSON: "@ + e)
    } else if let Some(m) = error_member(body) {
        Err("OpenRouter error: "@ + m)
    } else if let Some(text) = reply_text_of(body) {
        match reply_result(text, candidates) {
            Err(e) => Err(e),
            Ok(m) => {
                let model = json_string_at(body, "/model"@);
                let provider = json_string_at(body, "/provider"@);
                if model matches Some(name) && name.len() > 0 {
                    Ok(
                        (
                            m,
                            model->0,
                            if provider matches Some(p) && p.len() > 0 {
                                provider
                            } else {
                                None
                            },
                        ),
                    )
                } else {
                    Err("OpenRouter response is missing the routed model"@)
                }
            },
        }
    } else {
        Err(
            "OpenRouter response has no text (finish_reason="@ + finish_reason_of(body)
                + ", reasoning_tokens="@ + decimal_text(reasoning_tokens_of(body) as nat) + ")"@,
        )
    }
}

/// The move that a reply body of the chat completions endpoint gives (see `chat_outcome`).
pub fn decide_reply(body: &str, candidates: &[Pos]) -> (r: Result<LlmMove, String>)
    ensures
        match r {
            Ok(mv) => chat_outcome(body@, candidates@) == Ok::<
                (Pos, Seq<char>, Option<Seq<char>>),
                Seq<char>,
            >((mv.position, mv.model@, opt_view(mv.provider))),
            Err(e) => chat_outcome(body@, candidates@) == Err::<
                (Pos, Seq<char>, Option<Seq<char>>),
                Seq<char>,
            >(e@),
        },
{
    if let Some(e) = json_error_message(body) {
        return Err("OpenRouter returned invalid JSON: Failed to read JSON: ".to_owned().concat(e.as_str()));
    }
    if let Some(m) = api_error(body) {
        return Err("OpenRouter error: ".to_owned().concat(m.as_str()));
    }
    let text = match reply_text(body) {
        Some(t) => t,
        None => {
            let finish_reason = match json_pointer_str(body, "/choices/0/finish_reason") {
                Some(f) => f,
                None => "unknown".to_owned(),
            };
            let reasoning_tokens = match json_pointer_u64(
                body,
                "/usage/completion_tokens_details/reasoning_tokens",
            ) {
                Some(n) => n,
                None => 0,
            };
            return Err(
                "OpenRouter response has no text (finish_reason=".to_owned().concat(
                    finish_reason.as_str(),
                ).concat(", reasoning_tokens=").concat(u64_text(reasoning_tokens).as_str()).concat(
                    ")",
                ),
            );
        },
    };
    let chosen = match checked_reply(text.as_str(), candidates) {
        Ok(m) => m,
        Err(e) => {
            return Err(e);
        },
    };
    let model = match json_pointer_str(body, "/model") {
        Some(name) => {
            if name.as_str().is_empty() {
                return Err("OpenRouter response is missing the routed model".to_owned());
            }
            name
        },
        None => {
            return Err("OpenRouter response is missing the routed model".to_owned());
        },
    };
    let provider = match json_pointer_str(body, "/provider") {
        Some(p) => {
            if p.as_str().is_empty() {
                None
            } else {
                Some(p)
            }
        },
        None => None,
    };
    Ok(LlmMove { position: chosen, model, provider })
}

} // verus!
