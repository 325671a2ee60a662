//! The player that asks a language model for its move: its settings, the board as text, and
//! the model's answer.
use vstd::prelude::*;
use crate::board::{Board, Cell, Pos, BOARD};
use crate::text::{
    ends_with, is_suffix, starts_with, trim, trim_trailing_slashes, trimmed,
    without_trailing_slashes,
};

verus! {

/// The file the settings are kept in.
pub const CONFIG_PATH: &'static str = "llm_config.json";

/// The chat completions endpoint of OpenRouter.
pub const DEFAULT_API_URL: &'static str = "https://openrouter.ai/api/v1/chat/completions";

/// The model asked unless another one is set.
pub const DEFAULT_MODEL: &'static str = "openai/gpt-5-mini";

/// Settings of the language model player: key, endpoint and model, all trimmed and checked.
#[derive(Clone)]
pub struct LlmConfig {
    api_key: String,
    api_url: String,
    model: String,
}

/// What is wrong with the trimmed settings `key`, `url` and `model`, if anything: the first
/// failing check, in the order key, model, scheme of the URL, path of the URL.
pub open spec fn config_problem(key: Seq<char>, url: Seq<char>, model: Seq<char>) -> Option<
    Seq<char>,
> {
    if key.len() == 0 {
        Some("OpenRouter API Key is required"@)
    } else if model.len() == 0 {
        Some("OpenRouter model name is required"@)
    } else if !("https://"@.is_prefix_of(url) || "http://"@.is_prefix_of(url)) {
        Some("API URL must start with http:// or https://"@)
    } else if !is_suffix("/chat/completions"@, url) {
        Some("OpenRouter API URL must end with /chat/completions"@)
    } else {
        None
    }
}

impl LlmConfig {
    pub closed spec fn key_view(&self) -> Seq<char> {
        self.api_key@
    }

    pub closed spec fn url_view(&self) -> Seq<char> {
        self.api_url@
    }

    pub closed spec fn model_view(&self) -> Seq<char> {
        self.model@
    }

    /// Checked settings: the key and the model trimmed, the URL trimmed and without trailing
    /// slashes. Refused, with a message saying why, when the key or the model is empty, or the URL
    /// is not an http(s) URL of a chat completions endpoint.
    pub fn new(api_key: String, api_url: String, model: String) -> (r: Result<Self, String>)
        ensures
            ({
                let k = trimmed(api_key@);
                let u = without_trailing_slashes(trimmed(api_url@));
                let m = trimmed(model@);
                match r {
                    Ok(c) => {
                        &&& config_problem(k, u, m) is None
                        &&& c.key_view() == k
                        &&& c.url_view() == u
                        &&& c.model_view() == m
                    },
                    Err(e) => config_problem(k, u, m) == Some(e@),
                }
            }),
    {
        let api_key = trim(api_key.as_str());
        let api_url = trim_trailing_slashes(trim(api_url.as_str()).as_str());
        let model = trim(model.as_str());
        if api_key.as_str().is_empty() {
            return Err("OpenRouter API Key is required".to_owned());
        }
        if model.as_str().is_empty() {
            return Err("OpenRouter model name is required".to_owned());
        }
        if !(starts_with(api_url.as_str(), "https://") || starts_with(api_url.as_str(), "http://")) {
            return Err("API URL must start with http:// or https://".to_owned());
        }
        if !ends_with(api_url.as_str(), "/chat/completions") {
            return Err("OpenRouter API URL must end with /chat/completions".to_owned());
        }
        Ok(LlmConfig { api_key, api_url, model })
    }

    pub fn api_key(&self) -> (r: &str)
        ensures
            r@ == self.key_view(),
    {
        self.api_key.as_str()
    }

    pub fn api_url(&self) -> (r: &str)
        ensures
            r@ == self.url_view(),
    {
        self.api_url.as_str()
    }

    pub fn model(&self) -> (r: &str)
        ensures
            r@ == self.model_view(),
    {
        self.model.as_str()
    }
}

/// Settings as read from the settings file: the key repaired first (see `repaired_key`), then all
/// checked as by `LlmConfig::new`. The flag says whether to write the settings back: when the
/// repair changed the key and the settings are valid.
pub fn repaired_settings(api_key: String, api_url: String, model: String) -> (r: (
    Result<LlmConfig, String>,
    bool,
))
    ensures
        ({
            let k = trimmed(repaired_key(api_key@));
            let u = without_trailing_slashes(trimmed(api_url@));
            let m = trimmed(model@);
            &&& match r.0 {
                Ok(c) => {
                    &&& config_problem(k, u, m) is None
                    &&& c.key_view() == k
                    &&& c.url_view() == u
                    &&& c.model_view() == m
                },
                Err(e) => config_problem(k, u, m) == Some(e@),
            }
            &&& r.1 == (repaired_key(api_key@) != api_key@ && r.0 is Ok)
        }),
{
    let repaired = repair_paste_artifact(api_key.as_str());
    let changed = !(repaired == api_key);
    let config = LlmConfig::new(repaired, api_url, model);
    let save = match &config {
        Ok(_) => changed,
        Err(_) => false,
    };
    (config, save)
}

/// The move a language model chose, with the model and provider that answered.
pub struct LlmMove {
    pub position: Pos,
    pub model: String,
    pub provider: Option<String>,
}

/// `model`, followed by `via provider` when a provider is named.
pub open spec fn route_text(model: Seq<char>, provider: Option<Seq<char>>) -> Seq<char> {
    match provider {
        Some(p) => if p.len() > 0 {
            model + " via "@ + p
        } else {
            model
        },
        None => model,
    }
}

impl LlmMove {
    /// Which model answered, and through which provider when one is named.
    pub fn route_label(&self) -> (r: String)
        ensures
            r@ == route_text(
                self.model@,
                match self.provider {
                    Some(p) => Some(p@),
                    None => None,
                },
            ),
    {
        match &self.provider {
            Some(provider) => {
                if provider.as_str().is_empty() {
                    self.model.clone()
                } else {
                    self.model.clone().concat(" via ").concat(provider.as_str())
                }
            },
            None => self.model.clone(),
        }
    }
}

pub open spec fn is_hex_digit(c: char) -> bool {
    let u = c as u32;
    (0x30 <= u <= 0x39) || (0x41 <= u <= 0x46) || (0x61 <= u <= 0x66)
}

/// The key with the stray `v` dropped that an older settings page appended when a key was
/// pasted: only a key `sk-or-v1-` followed by 64 hexadecimal digits and that `v` is changed.
pub open spec fn repaired_key(s: Seq<char>) -> Seq<char> {
    let w = s.drop_last();
    let secret = w.skip("sk-or-v1-"@.len() as int);
    if s.len() > 0 && s.last() == 'v' && "sk-or-v1-"@.is_prefix_of(w) && secret.len() == 64 && (
    forall|i: int| 0 <= i < secret.len() ==> is_hex_digit(#[trigger] secret[i])) {
        w
    } else {
        s
    }
}

/// Repairing a key twice changes nothing more: a repaired key ends in a hexadecimal digit, not
/// in `v`.
pub proof fn lemma_repair_idempotent(s: Seq<char>)
    ensures
        repaired_key(repaired_key(s)) == repaired_key(s),
{
    let r = repaired_key(s);
    if r != s {
        reveal_strlit("sk-or-v1-");
        let w = s.drop_last();
        let secret = w.skip("sk-or-v1-"@.len() as int);
        assert(r.last() == secret[63]);
        assert(is_hex_digit(secret[63]));
    }
}

fn all_hex_digits(s: &str) -> (r: bool)
    ensures
        r == forall|i: int| 0 <= i < s@.len() ==> is_hex_digit(#[trigger] s@[i]),
{
    let n = s.unicode_len();
    let mut i: usize = 0;
    while i < n
        invariant
            n == s@.len(),
            i <= n,
            forall|k: int| 0 <= k < i ==> is_hex_digit(#[trigger] s@[k]),
        decreases n - i,
    {
        let u = s.get_char(i) as u32;
        if !((0x30 <= u && u <= 0x39) || (0x41 <= u && u <= 0x46) || (0x61 <= u && u <= 0x66)) {
            return false;
        }
        i += 1;
    }
    true
}

/// Drops the `v` that an older settings page appended to a pasted key (see `repaired_key`).
pub fn repair_paste_artifact(api_key: &str) -> (r: String)
    ensures
        r@ == repaired_key(api_key@),
{
    let n = api_key.unicode_len();
    if n == 0 || api_key.get_char(n - 1) != 'v' {
        return api_key.to_owned();
    }
    let without_v = api_key.substring_char(0, n - 1);
    assert(without_v@ =~= api_key@.drop_last());
    let prefix = "sk-or-v1-";
    if !starts_with(without_v, prefix) {
        return api_key.to_owned();
    }
    let m = prefix.unicode_len();
    let secret = without_v.substring_char(m, n - 1);
    assert(secret@ =~= without_v@.skip(m as int));
    if secret.unicode_len() == 64 && all_hex_digits(secret) {
        without_v.to_owned()
    } else {
        api_key.to_owned()
    }
}

/// The character a cell is drawn with.
pub open spec fn cell_char(c: Cell) -> char {
    match c {
        Cell::Empty => '.',
        Cell::Black => 'X',
        Cell::White => 'O',
    }
}

/// The board as text: one line per row, top row first, `.` for an empty intersection, `X` for
/// black and `O` for white, each line ended by a newline.
pub open spec fn board_chars(b: Board) -> Seq<char> {
    Seq::new(
        (BOARD * (BOARD + 1)) as nat,
        |i: int|
            if i % (BOARD + 1) as int == BOARD as int {
                '\n'
            } else {
                cell_char(b[i / (BOARD + 1) as int][i % (BOARD + 1) as int])
            },
    )
}

/// The board drawn in text, row by row (see `board_chars`).
pub fn board_text(board: &Board) -> (r: String)
    ensures
        r@ == board_chars(*board),
{
    let ghost b = *board;
    let ghost all = board_chars(b);
    let mut text = String::new();
    let mut k: usize = 0;
    while k < BOARD * (BOARD + 1)
        invariant
            b == *board,
            all == board_chars(b),
            k <= BOARD * (BOARD + 1),
            text@ == all.take(k as int),
        decreases BOARD * (BOARD + 1) - k,
    {
        let x = k % (BOARD + 1);
        let y = k / (BOARD + 1);
        assert(y < BOARD) by (nonlinear_arith)
            requires
                y as int == k as int / 16,
                k < 240,
        ;
        if x == BOARD {
            proof {
                reveal_strlit("\n");
            }
            text.append("\n");
        } else {
            match board[y][x] {
                Cell::Empty => {
                    proof {
                        reveal_strlit(".");
                    }
                    text.append(".");
                },
                Cell::Black => {
                    proof {
                        reveal_strlit("X");
                    }
                    text.append("X");
                },
                Cell::White => {
                    proof {
                        reveal_strlit("O");
                    }
                    text.append("O");
                },
            }
        }
        assert(text@ =~= all.take(k + 1));
        k += 1;
    }
    assert(all.take(k as int) =~= all);
    text
}


/// What `serde_json::from_str::<serde_json::Value>` makes of `text`: `None` when it is not a
/// JSON document; otherwise the members `x` and `y` of the document's top-level object that are
/// integers fitting in a `u64` (each `None` when missing, of another kind, or out of range).
pub uninterp spec fn json_coordinates(text: Seq<char>) -> Option<(Option<u64>, Option<u64>)>;

/// Parses `text` as JSON with `serde_json::from_str` into a `serde_json::Value`, then reads the
/// members `x` and `y` with `Value::get` and `Value::as_u64`. The contract only names the outcome
/// (`json_coordinates`), as a function of the text: what JSON is, and how `serde_json` reads it,
/// is not stated here.
#[verifier::external_body]
fn parse_json_coordinates(text: &str) -> (r: Option<(Option<u64>, Option<u64>)>)
    ensures
        r == json_coordinates(text@),
{
    match serde_json::from_str::<serde_json::Value>(text) {
        Ok(value) => Some(
            (
                value.get("x").and_then(serde_json::Value::as_u64),
                value.get("y").and_then(serde_json::Value::as_u64),
            ),
        ),
        Err(_) => None,
    }
}

pub open spec fn is_ascii_digit(c: char) -> bool {
    0x30 <= c as u32 <= 0x39
}

/// The maximal runs of ASCII digits in `s`, in order.
pub open spec fn digit_runs(s: Seq<char>) -> Seq<Seq<char>>
    decreases s.len(),
{
    if s.len() == 0 {
        Seq::empty()
    } else {
        let r = digit_runs(s.drop_last());
        let c = s.last();
        if !is_ascii_digit(c) {
            r
        } else if s.len() >= 2 && is_ascii_digit(s[s.len() - 2]) {
            r.update(r.len() - 1, r.last().push(c))
        } else {
            r.push(seq![c])
        }
    }
}

/// The number that the decimal digits `d` spell.
pub open spec fn decimal(d: Seq<char>) -> nat
    decreases d.len(),
{
    if d.len() == 0 {
        0
    } else {
        decimal(d.drop_last()) * 10 + (d.last() as u32 - 0x30) as nat
    }
}

/// The numbers spelled by `runs` that fit in a `usize`, in order.
pub open spec fn fitting_numbers(runs: Seq<Seq<char>>) -> Seq<usize>
    decreases runs.len(),
{
    if runs.len() == 0 {
        Seq::empty()
    } else {
        let v = fitting_numbers(runs.drop_last());
        let d = decimal(runs.last());
        if d <= usize::MAX {
            v.push(d as usize)
        } else {
            v
        }
    }
}

/// The move named by a trimmed reply `t` of the model, given what reading `t` as JSON gave
/// (`fields`): the members `x` and `y` when `t` is JSON and has both; nothing when it is JSON
/// without them; otherwise the two numbers `t` contains, when it contains exactly two (numbers
/// too large for a `usize` are passed over).
pub open spec fn move_from(fields: Option<(Option<u64>, Option<u64>)>, t: Seq<char>) -> Option<Pos> {
    match fields {
        Some(f) => match f {
            (Some(x), Some(y)) => Some((x as usize, y as usize)),
            _ => None,
        },
        None => {
            let v = fitting_numbers(digit_runs(t));
            if v.len() == 2 {
                Some((v[0], v[1]))
            } else {
                None
            }
        },
    }
}

/// The move that a reply of the model names (see `move_from`), the reply trimmed first.
pub open spec fn move_in_text(text: Seq<char>) -> Option<Pos> {
    move_from(json_coordinates(trimmed(text)), trimmed(text))
}

/// The numbers in `t` that fit in a `usize`, read from its runs of ASCII digits.
fn numbers_in(t: &str) -> (r: Vec<usize>)
    ensures
        r@ == fitting_numbers(digit_runs(t@)),
{
    let n = t.unicode_len();
    let mut values: Vec<usize> = Vec::new();
    let mut cur: usize = 0;
    let mut in_run = false;
    let mut overflow = false;
    let mut i: usize = 0;
    while i < n
        invariant
            n == t@.len(),
            i <= n,
            in_run == (i > 0 && is_ascii_digit(t@[i - 1])),
            in_run ==> digit_runs(t@.take(i as int)).len() > 0,
            in_run ==> (overflow == (decimal(digit_runs(t@.take(i as int)).last()) > usize::MAX)),
            in_run && !overflow ==> cur == decimal(digit_runs(t@.take(i as int)).last()),
            values@ == fitting_numbers(
                if in_run {
                    digit_runs(t@.take(i as int)).drop_last()
                } else {
                    digit_runs(t@.take(i as int))
                },
            ),
        decreases n - i,
    {
        let c = t.get_char(i);
        let u = c as u32;
        let ghost p = t@.take(i as int);
        let ghost q = t@.take(i + 1);
        proof {
            assert(q.drop_last() =~= p);
            assert(q.last() == c);
            if i > 0 {
                assert(q[q.len() - 2] == t@[i - 1]);
            }
        }
        if 0x30 <= u && u <= 0x39 {
            let d = (u - 0x30) as usize;
            if !in_run {
                cur = d;
                overflow = false;
                proof {
                    let r = digit_runs(q);
                    assert(r == digit_runs(p).push(seq![c]));
                    assert(r.last() == seq![c]);
                    assert(seq![c].drop_last() =~= Seq::<char>::empty());
                    assert(decimal(Seq::<char>::empty()) == 0);
                    assert(seq![c].last() == c);
                    assert(decimal(seq![c]) == d as nat);
                    assert(r.drop_last() =~= digit_runs(p));
                }
            } else {
                proof {
                    let r = digit_runs(p);
                    let r2 = digit_runs(q);
                    assert(r2 == r.update(r.len() - 1, r.last().push(c)));
                    assert(r2.last() == r.last().push(c));
                    assert(r.last().push(c).drop_last() =~= r.last());
                    assert(decimal(r.last().push(c)) == decimal(r.last()) * 10 + d);
                    assert(r2.drop_last() =~= r.drop_last());
                }
                if !overflow {
                    if cur > (usize::MAX - d) / 10 {
                        overflow = true;
                        assert(cur * 10 + d > usize::MAX) by (nonlinear_arith)
                            requires
                                cur > (usize::MAX - d) / 10,
                                d <= 9,
                        ;
                    } else {
                        assert(cur * 10 + d <= usize::MAX) by (nonlinear_arith)
                            requires
                                cur <= (usize::MAX - d) / 10,
                                d <= 9,
                        ;
                        cur = cur * 10 + d;
                    }
                } else {
                    proof {
                        let r = digit_runs(p);
                        assert(decimal(r.last()) * 10 + d > usize::MAX) by (nonlinear_arith)
                            requires
                                decimal(r.last()) > usize::MAX,
                        ;
                    }
                }
            }
            in_run = true;
        } else {
            proof {
                assert(digit_runs(q) == digit_runs(p));
            }
            if in_run {
                proof {
                    let r = digit_runs(p);
                    assert(r.drop_last().push(r.last()) =~= r);
                    assert(r.len() > 0);
                }
                if !overflow {
                    values.push(cur);
                }
            }
            in_run = false;
        }
        i += 1;
    }
    proof {
        assert(t@.take(n as int) =~= t@);
        if in_run {
            let r = digit_runs(t@);
            assert(r.drop_last().push(r.last()) =~= r);
        }
    }
    if in_run && !overflow {
        values.push(cur);
    }
    values
}

/// The move named by the trimmed reply `trimmed_text`, given what reading it as JSON gave.
pub fn read_move(fields: Option<(Option<u64>, Option<u64>)>, trimmed_text: &str) -> (r: Option<Pos>)
    ensures
        r == move_from(fields, trimmed_text@),
{
    match fields {
        Some(f) => match f {
            (Some(x), Some(y)) => Some((x as usize, y as usize)),
            _ => None,
        },
        None => {
            let values = numbers_in(trimmed_text);
            if values.len() == 2 {
                Some((values[0], values[1]))
            } else {
                None
            }
        },
    }
}

/// The move named in a reply of the model (see `move_in_text`).
pub fn parse_move(text: &str) -> (r: Option<Pos>)
    ensures
        r == move_in_text(text@),
{
    let trimmed_text = trim(text);
    let fields = parse_json_coordinates(trimmed_text.as_str());
    read_move(fields, trimmed_text.as_str())
}

/// The character of the decimal digit `d`.
pub open spec fn digit_char(d: nat) -> char {
    ((d + 0x30) as u32) as char
}

/// `n` written in decimal.
pub open spec fn decimal_text(n: nat) -> Seq<char>
    decreases n,
{
    if n < 10 {
        seq![digit_char(n)]
    } else {
        decimal_text(n / 10).push(digit_char(n % 10))
    }
}

pub(crate) fn digit_str(d: usize) -> (r: &'static str)
    requires
        d < 10,
    ensures
        r@ == seq![digit_char(d as nat)],
{
    proof {
        reveal_strlit("0");
        reveal_strlit("1");
        reveal_strlit("2");
        reveal_strlit("3");
        reveal_strlit("4");
        reveal_strlit("5");
        reveal_strlit("6");
        reveal_strlit("7");
        reveal_strlit("8");
        reveal_strlit("9");
    }
    let r = if d == 0 {
        "0"
    } else if d == 1 {
        "1"
    } else if d == 2 {
        "2"
    } else if d == 3 {
        "3"
    } else if d == 4 {
        "4"
    } else if d == 5 {
        "5"
    } else if d == 6 {
        "6"
    } else if d == 7 {
        "7"
    } else if d == 8 {
        "8"
    } else {
        "9"
    };
    assert(r@ =~= seq![digit_char(d as nat)]);
    r
}

/// `n` in decimal.
pub fn u64_text(n: u64) -> (r: String)
    ensures
        r@ == decimal_text(n as nat),
    decreases n,
{
    if n < 10 {
        digit_str(n as usize).to_owned()
    } else {
        let mut s = u64_text(n / 10);
        s.append(digit_str((n % 10) as usize));
        s
    }
}

/// `n` in decimal.
pub fn usize_text(n: usize) -> (r: String)
    ensures
        r@ == decimal_text(n as nat),
{
    u64_text(n as u64)
}

/// A move written as Rust writes a pair for debugging: `(x, y)`.
pub open spec fn pos_chars(m: Pos) -> Seq<char> {
    "("@ + decimal_text(m.0 as nat) + ", "@ + decimal_text(m.1 as nat) + ")"@
}

/// The moves of `s`, each written as `(x, y)`, separated by `, `.
pub open spec fn pos_list_chars(s: Seq<Pos>) -> Seq<char>
    decreases s.len(),
{
    if s.len() == 0 {
        Seq::empty()
    } else if s.len() == 1 {
        pos_chars(s[0])
    } else {
        pos_list_chars(s.drop_last()) + ", "@ + pos_chars(s.last())
    }
}

/// A move as `(x, y)`.
pub fn pos_text(m: Pos) -> (r: String)
    ensures
        r@ == pos_chars(m),
{
    let out = "(".to_owned().concat(usize_text(m.0).as_str()).concat(", ").concat(
        usize_text(m.1).as_str(),
    ).concat(")");
    assert(out@ =~= pos_chars(m));
    out
}

/// Moves as Rust writes a slice of pairs for debugging: `[(x, y), (x, y)]`.
pub fn pos_list_text(moves: &[Pos]) -> (r: String)
    ensures
        r@ == "["@ + pos_list_chars(moves@) + "]"@,
{
    let mut list = String::new();
    let mut i: usize = 0;
    while i < moves.len()
        invariant
            i <= moves@.len(),
            list@ == pos_list_chars(moves@.take(i as int)),
        decreases moves@.len() - i,
    {
        proof {
            let t = moves@.take(i + 1);
            assert(t.drop_last() =~= moves@.take(i as int));
            assert(t.last() == moves@[i as int]);
            if i == 0 {
                assert(list@ =~= Seq::<char>::empty());
            }
        }
        if i > 0 {
            list.append(", ");
        }
        list.append(pos_text(moves[i]).as_str());
        proof {
            let t = moves@.take(i + 1);
            if i == 0 {
                assert(list@ =~= pos_chars(t[0]));
            } else {
                assert(list@ =~= pos_list_chars(t));
            }
        }
        i += 1;
    }
    assert(moves@.take(moves@.len() as int) =~= moves@);
    let out = "[".to_owned().concat(list.as_str()).concat("]");
    out
}

/// The request sent to the model: the rules of the exchange, the board (see `board_chars`),
/// and the moves the tactical engine allows, written as a list of pairs.
pub open spec fn prompt_chars(b: Board, candidates: Seq<Pos>) -> Seq<char> {
    "你执白棋 O，对手执黑棋 X，坐标从 0 到 14，格式为 (x,y)，左上角是 (0,0)。\n当前棋盘（每行对应 y=0..14）：\n"@
        + board_chars(b) + "\n战术引擎给出的合法候选点："@ + "["@ + pos_list_chars(candidates) + "]"@
        + "\n综合进攻、防守、后续威胁和中心控制，选出最佳一手。只能从候选点中选择。"@
}

/// The request that asks the model for its move among `candidates`.
pub fn move_prompt(board: &Board, candidates: &[Pos]) -> (r: String)
    ensures
        r@ == prompt_chars(*board, candidates@),
{
    let out = "你执白棋 O，对手执黑棋 X，坐标从 0 到 14，格式为 (x,y)，左上角是 (0,0)。\n当前棋盘（每行对应 y=0..14）：\n".to_owned()
        .concat(board_text(board).as_str()).concat("\n战术引擎给出的合法候选点：").concat(
        pos_list_text(candidates).as_str(),
    ).concat("\n综合进攻、防守、后续威胁和中心控制，选出最佳一手。只能从候选点中选择。");
    assert(out@ =~= prompt_chars(*board, candidates@));
    out
}

/// What the model's reply `text` comes to: the move it names when that is one of `candidates`;
/// otherwise an error that quotes the reply, or the move named outside the candidates.
pub open spec fn reply_result(text: Seq<char>, candidates: Seq<Pos>) -> Result<Pos, Seq<char>> {
    match move_in_text(text) {
        None => Err("无法解析模型落点: "@ + text),
        Some(m) => if candidates.contains(m) {
            Ok(m)
        } else {
            Err("模型返回了候选集外的落点: "@ + pos_chars(m))
        },
    }
}

/// Reads the move out of the model's reply and checks that it is one of the offered candidates.
pub fn checked_reply(text: &str, candidates: &[Pos]) -> (r: Result<Pos, String>)
    ensures
        match r {
            Ok(m) => reply_result(text@, candidates@) == Ok::<Pos, Seq<char>>(m),
            Err(e) => reply_result(text@, candidates@) == Err::<Pos, Seq<char>>(e@),
        },
{
    match parse_move(text) {
        None => Err("无法解析模型落点: ".to_owned().concat(text)),
        Some(m) => {
            if crate::ai::contains_pos(candidates, m) {
                Ok(m)
            } else {
                Err("模型返回了候选集外的落点: ".to_owned().concat(pos_text(m).as_str()))
            }
        },
    }
}

} // verus!
