//! The commands that the log-structured engine writes to its log files, and
//! their on-disk format: one JSON object per command, as `{"SET":["k","v"]}`
//! or `{"RM":"k"}`, with JSON whitespace allowed between tokens.  Strings are
//! escaped and unescaped by `serde_json`; the framing around them is parsed
//! and printed here.
use vstd::prelude::*;

use crate::errors::KVStoreError;

verus! {

/// A command of the log: a write of a value, or the removal of a key.
#[derive(Debug)]
pub enum Command {
    SET(String, String),
    RM(String),
}

/// The mathematical value of a [`Command`].
pub enum CommandView {
    Put(Seq<char>, Seq<char>),
    Del(Seq<char>),
}

impl View for Command {
    type V = CommandView;

    open spec fn view(&self) -> CommandView {
        match self {
            Command::SET(k, v) => CommandView::Put(k@, v@),
            Command::RM(k) => CommandView::Del(k@),
        }
    }
}

// ---------------------------------------------------------------------------
// What serde_json computes on strings.
/// The bytes `serde_json` prints for a string: the JSON string literal.
pub uninterp spec fn json_str_encoding(s: Seq<char>) -> Seq<u8>;

/// The string that `serde_json` reads from a JSON string literal, if the
/// bytes are one.
pub uninterp spec fn json_str_value(token: Seq<u8>) -> Option<Seq<char>>;

/// Prints `s` as a JSON string literal with `serde_json::to_vec`.
///
/// Trusted: the result is `json_str_encoding(s)`; `serde_json` reads it back
/// as `s`; it starts with a quote and, since every quote and backslash inside
/// is escaped by a backslash, its first unescaped quote after the opening one
/// is its last byte.
#[verifier::external_body]
fn json_encode_str(s: &str) -> (r: Vec<u8>)
    ensures
        r@ == json_str_encoding(s@),
        json_str_value(r@) == Some(s@),
        r@.len() >= 2,
        r@[0] == QUOTE,
        string_end(r@, 1) == Some(r@.len() as int),
{
    serde_json::to_vec(s).unwrap_or_default()
}

/// Reads a JSON string literal with `serde_json::from_slice::<String>`.
///
/// Trusted: it succeeds exactly when `json_str_value` gives a string, and
/// then returns that string.
#[verifier::external_body]
fn json_decode_str(token: &[u8]) -> (r: Result<String, serde_json::Error>)
    ensures
        match r {
            Ok(v) => json_str_value(token@) == Some(v@),
            Err(_) => json_str_value(token@) is None,
        },
{
    serde_json::from_slice::<String>(token)
}

/// Builds a `serde_json` error for a log entry whose framing is malformed,
/// with `serde::de::Error::custom`.
#[verifier::external_body]
fn json_framing_error() -> (r: serde_json::Error) {
    <serde_json::Error as serde::de::Error>::custom("malformed log entry")
}

// ---------------------------------------------------------------------------
// Bytes of the format.
pub const QUOTE: u8 = 34;

pub const BACKSLASH: u8 = 92;

pub const OPEN_BRACE: u8 = 123;

pub const CLOSE_BRACE: u8 = 125;

pub const OPEN_BRACKET: u8 = 91;

pub const CLOSE_BRACKET: u8 = 93;

pub const COLON: u8 = 58;

pub const COMMA: u8 = 44;

/// JSON whitespace: space, tab, line feed, carriage return.
pub open spec fn is_json_ws(b: u8) -> bool {
    b == 32 || b == 9 || b == 10 || b == 13
}

/// The first position at or after `i` that does not hold whitespace.
pub open spec fn skip_ws(s: Seq<u8>, i: int) -> int
    decreases s.len() - i,
{
    if 0 <= i < s.len() && is_json_ws(s[i]) {
        skip_ws(s, i + 1)
    } else {
        i
    }
}

/// The position just after the quote that closes a string literal whose
/// contents start at `i`; a backslash escapes the byte after it.
pub open spec fn string_end(s: Seq<u8>, i: int) -> Option<int>
    decreases s.len() - i,
{
    if i < 0 || i >= s.len() {
        None
    } else if s[i] == QUOTE {
        Some(i + 1)
    } else if s[i] == BACKSLASH {
        if i + 1 >= s.len() {
            None
        } else {
            string_end(s, i + 2)
        }
    } else {
        string_end(s, i + 1)
    }
}

/// The string literal at `i`, decoded, and the position after it.
pub open spec fn string_token(s: Seq<u8>, i: int) -> Option<(Seq<char>, int)> {
    if 0 <= i < s.len() && s[i] == QUOTE {
        match string_end(s, i + 1) {
            Some(e) => match json_str_value(s.subrange(i, e)) {
                Some(v) => Some((v, e)),
                None => None,
            },
            None => None,
        }
    } else {
        None
    }
}

/// `s[i]` is `b`.
pub open spec fn byte_at(s: Seq<u8>, i: int, b: u8) -> bool {
    0 <= i < s.len() && s[i] == b
}

/// The payload of a `SET`: `["key", "value"]`.
pub open spec fn set_payload(s: Seq<u8>, p: int) -> Option<(CommandView, int)> {
    if !byte_at(s, p, OPEN_BRACKET) {
        None
    } else {
        match string_token(s, skip_ws(s, p + 1)) {
            None => None,
            Some((k, q)) => {
                let c = skip_ws(s, q);
                if !byte_at(s, c, COMMA) {
                    None
                } else {
                    match string_token(s, skip_ws(s, c + 1)) {
                        None => None,
                        Some((v, r)) => {
                            let e = skip_ws(s, r);
                            if byte_at(s, e, CLOSE_BRACKET) {
                                Some((CommandView::Put(k, v), e + 1))
                            } else {
                                None
                            }
                        },
                    }
                }
            },
        }
    }
}

/// The payload that follows the tag of a command.
pub open spec fn payload(s: Seq<u8>, tag: Seq<char>, p: int) -> Option<(CommandView, int)> {
    if tag == "SET"@ {
        set_payload(s, p)
    } else if tag == "RM"@ {
        match string_token(s, p) {
            Some((k, e)) => Some((CommandView::Del(k), e)),
            None => None,
        }
    } else {
        None
    }
}

/// The command that starts at `i` (after optional whitespace), and the
/// position just after its closing brace.
pub open spec fn parse_command(s: Seq<u8>, i: int) -> Option<(CommandView, int)> {
    let b = skip_ws(s, i);
    if !byte_at(s, b, OPEN_BRACE) {
        None
    } else {
        match string_token(s, skip_ws(s, b + 1)) {
            None => None,
            Some((tag, t)) => {
                let c = skip_ws(s, t);
                if !byte_at(s, c, COLON) {
                    None
                } else {
                    match payload(s, tag, skip_ws(s, c + 1)) {
                        None => None,
                        Some((cmd, p)) => {
                            let e = skip_ws(s, p);
                            if byte_at(s, e, CLOSE_BRACE) {
                                Some((cmd, e + 1))
                            } else {
                                None
                            }
                        },
                    }
                }
            },
        }
    }
}

/// The command that `s` holds, with nothing but whitespace around it.
pub open spec fn parse_exact(s: Seq<u8>) -> Option<CommandView> {
    match parse_command(s, 0) {
        Some((c, e)) => if skip_ws(s, e) == s.len() {
            Some(c)
        } else {
            None
        },
        None => None,
    }
}

/// The bytes of a command in the log.
pub open spec fn serialize(c: CommandView) -> Seq<u8> {
    match c {
        CommandView::Put(k, v) => seq![OPEN_BRACE] + json_str_encoding("SET"@) + seq![
            COLON,
            OPEN_BRACKET,
        ] + json_str_encoding(k) + seq![COMMA] + json_str_encoding(v) + seq![
            CLOSE_BRACKET,
            CLOSE_BRACE,
        ],
        CommandView::Del(k) => seq![OPEN_BRACE] + json_str_encoding("RM"@) + seq![COLON]
            + json_str_encoding(k) + seq![CLOSE_BRACE],
    }
}


// ---------------------------------------------------------------------------
// Lemmas on the format.
/// A string literal ends after it starts and inside the bytes.
pub proof fn lemma_string_end_bounds(s: Seq<u8>, i: int)
    ensures
        string_end(s, i) matches Some(e) ==> i < e <= s.len(),
    decreases s.len() - i,
{
    if 0 <= i < s.len() && s[i] != QUOTE {
        if s[i] == BACKSLASH {
            if i + 1 < s.len() {
                lemma_string_end_bounds(s, i + 2);
            }
        } else {
            lemma_string_end_bounds(s, i + 1);
        }
    }
}

/// Whitespace skipping never goes backwards, and stops inside the bytes.
pub proof fn lemma_skip_ws_bounds(s: Seq<u8>, i: int)
    ensures
        i <= skip_ws(s, i),
        0 <= i <= s.len() ==> skip_ws(s, i) <= s.len(),
    decreases s.len() - i,
{
    if 0 <= i < s.len() && is_json_ws(s[i]) {
        lemma_skip_ws_bounds(s, i + 1);
    }
}

/// The scan of a string literal only reads the literal: it gives the same end
/// wherever the literal is copied.
pub proof fn lemma_string_end_shift(s: Seq<u8>, o: int, t: Seq<u8>, j: int)
    requires
        0 <= o,
        o + t.len() <= s.len(),
        s.subrange(o, o + t.len()) == t,
        0 <= j,
        string_end(t, j) is Some,
    ensures
        string_end(s, o + j) == (match string_end(t, j) {
            Some(e) => Some(o + e),
            None => None,
        }),
    decreases t.len() - j,
{
    assert(s[o + j] == t[j]);
    if t[j] != QUOTE {
        if t[j] == BACKSLASH {
            assert(s[o + j + 1] == t[j + 1]);
            lemma_string_end_shift(s, o, t, j + 2);
        } else {
            lemma_string_end_shift(s, o, t, j + 1);
        }
    }
}

/// What the printer of string literals guarantees about its output.
pub open spec fn is_string_literal_of(t: Seq<u8>, x: Seq<char>) -> bool {
    &&& t.len() >= 2
    &&& t[0] == QUOTE
    &&& string_end(t, 1) == Some(t.len() as int)
    &&& json_str_value(t) == Some(x)
}

/// A printed string literal, wherever it is copied, reads back as its string.
pub proof fn lemma_token_at(s: Seq<u8>, o: int, t: Seq<u8>, x: Seq<char>)
    requires
        0 <= o,
        o + t.len() <= s.len(),
        s.subrange(o, o + t.len()) == t,
        is_string_literal_of(t, x),
    ensures
        string_token(s, o) == Some((x, o + t.len())),
{
    assert(s[o] == t[0]);
    lemma_string_end_shift(s, o, t, 1);
}

/// The bytes `{`, tag, `:`, `[`, key, `,`, value, `]`, `}` read as a `SET`.
proof fn lemma_parse_put_layout(
    s: Seq<u8>,
    tag: Seq<u8>,
    k: Seq<u8>,
    v: Seq<u8>,
    key: Seq<char>,
    value: Seq<char>,
    a: int,
    b: int,
    d: int,
)
    requires
        is_string_literal_of(tag, "SET"@),
        is_string_literal_of(k, key),
        is_string_literal_of(v, value),
        a == 1 + tag.len(),
        b == a + 2 + k.len(),
        d == b + 1 + v.len(),
        s.len() == d + 2,
        s[0] == OPEN_BRACE,
        s.subrange(1, a) == tag,
        s[a] == COLON,
        s[a + 1] == OPEN_BRACKET,
        s.subrange(a + 2, b) == k,
        s[b] == COMMA,
        s.subrange(b + 1, d) == v,
        s[d] == CLOSE_BRACKET,
        s[d + 1] == CLOSE_BRACE,
    ensures
        parse_command(s, 0) == Some((CommandView::Put(key, value), s.len() as int)),
{
    lemma_token_at(s, 1, tag, "SET"@);
    lemma_token_at(s, a + 2, k, key);
    lemma_token_at(s, b + 1, v, value);
    assert(s[1] == tag[0]);
    assert(s[a + 2] == k[0]);
    assert(s[b + 1] == v[0]);
    assert(skip_ws(s, 0) == 0);
    assert(skip_ws(s, 1) == 1);
    assert(skip_ws(s, a) == a);
    assert(skip_ws(s, a + 1) == a + 1);
    assert(skip_ws(s, a + 2) == a + 2);
    assert(skip_ws(s, b) == b);
    assert(skip_ws(s, b + 1) == b + 1);
    assert(skip_ws(s, d) == d);
    assert(skip_ws(s, d + 1) == d + 1);
    assert(set_payload(s, a + 1) == Some((CommandView::Put(key, value), d + 1)));
    assert(payload(s, "SET"@, a + 1) == Some((CommandView::Put(key, value), d + 1)));
}

/// The bytes `{`, tag, `:`, key, `}` read as an `RM`.
proof fn lemma_parse_del_layout(s: Seq<u8>, tag: Seq<u8>, k: Seq<u8>, key: Seq<char>, a: int, b: int)
    requires
        is_string_literal_of(tag, "RM"@),
        is_string_literal_of(k, key),
        a == 1 + tag.len(),
        b == a + 1 + k.len(),
        s.len() == b + 1,
        s[0] == OPEN_BRACE,
        s.subrange(1, a) == tag,
        s[a] == COLON,
        s.subrange(a + 1, b) == k,
        s[b] == CLOSE_BRACE,
    ensures
        parse_command(s, 0) == Some((CommandView::Del(key), s.len() as int)),
{
    reveal_strlit("SET");
    reveal_strlit("RM");
    lemma_token_at(s, 1, tag, "RM"@);
    lemma_token_at(s, a + 1, k, key);
    assert(s[1] == tag[0]);
    assert(s[a + 1] == k[0]);
    assert(skip_ws(s, 0) == 0);
    assert(skip_ws(s, 1) == 1);
    assert(skip_ws(s, a) == a);
    assert(skip_ws(s, a + 1) == a + 1);
    assert(skip_ws(s, b) == b);
    assert("RM"@.len() == 2);
    assert("SET"@.len() == 3);
    assert("RM"@ != "SET"@);
    assert(payload(s, "RM"@, a + 1) == Some((CommandView::Del(key), b)));
}

/// Printing a command and reading it back gives the command, and the reading
/// consumes exactly the printed bytes.
pub proof fn lemma_parse_serialized(c: CommandView, tag: Seq<u8>, k: Seq<u8>, v: Seq<u8>)
    requires
        match c {
            CommandView::Put(key, value) => {
                &&& is_string_literal_of(tag, "SET"@)
                &&& is_string_literal_of(k, key)
                &&& is_string_literal_of(v, value)
                &&& serialize(c) == seq![OPEN_BRACE] + tag + seq![COLON, OPEN_BRACKET] + k + seq![
                    COMMA,
                ] + v + seq![CLOSE_BRACKET, CLOSE_BRACE]
            },
            CommandView::Del(key) => {
                &&& is_string_literal_of(tag, "RM"@)
                &&& is_string_literal_of(k, key)
                &&& serialize(c) == seq![OPEN_BRACE] + tag + seq![COLON] + k + seq![CLOSE_BRACE]
            },
        },
    ensures
        parse_command(serialize(c), 0) == Some((c, serialize(c).len() as int)),
        parse_exact(serialize(c)) == Some(c),
{
    let s = serialize(c);
    match c {
        CommandView::Put(key, value) => {
            let a: int = 1 + tag.len() as int;
            let b: int = a + 2 + k.len();
            let d: int = b + 1 + v.len();
            assert(s.subrange(1, a) =~= tag);
            assert(s.subrange(a + 2, b) =~= k);
            assert(s.subrange(b + 1, d) =~= v);
            lemma_parse_put_layout(s, tag, k, v, key, value, a, b, d);
        },
        CommandView::Del(key) => {
            let a: int = 1 + tag.len() as int;
            let b: int = a + 1 + k.len();
            assert(s.subrange(1, a) =~= tag);
            assert(s.subrange(a + 1, b) =~= k);
            lemma_parse_del_layout(s, tag, k, key, a, b);
        },
    }
}

// ---------------------------------------------------------------------------
// Reading only looks at the bytes it consumes.
/// `t` is a copy of the bytes of `s` from `o` on.
pub open spec fn window(s: Seq<u8>, o: int, t: Seq<u8>) -> bool {
    &&& 0 <= o
    &&& o + t.len() <= s.len()
    &&& s.subrange(o, o + t.len()) == t
}

proof fn lemma_window_byte(s: Seq<u8>, o: int, t: Seq<u8>, j: int)
    requires
        window(s, o, t),
        0 <= j < t.len(),
    ensures
        s[o + j] == t[j],
{
    assert(s.subrange(o, o + t.len())[j] == s[o + j]);
}

proof fn lemma_skip_ws_extend(s: Seq<u8>, o: int, t: Seq<u8>, j: int)
    requires
        window(s, o, t),
        0 <= j,
        skip_ws(t, j) < t.len(),
    ensures
        skip_ws(s, o + j) == o + skip_ws(t, j),
    decreases t.len() - j,
{
    lemma_skip_ws_bounds(t, j);
    lemma_window_byte(s, o, t, j);
    if is_json_ws(t[j]) {
        lemma_skip_ws_extend(s, o, t, j + 1);
    }
}

proof fn lemma_skip_ws_restrict(s: Seq<u8>, o: int, t: Seq<u8>, j: int)
    requires
        window(s, o, t),
        0 <= j <= t.len(),
        skip_ws(s, o + j) < o + t.len(),
    ensures
        skip_ws(t, j) == skip_ws(s, o + j) - o,
    decreases t.len() - j,
{
    lemma_skip_ws_bounds(s, o + j);
    if j < t.len() {
        lemma_window_byte(s, o, t, j);
        if is_json_ws(t[j]) {
            lemma_skip_ws_restrict(s, o, t, j + 1);
        }
    }
}

proof fn lemma_string_end_restrict(s: Seq<u8>, o: int, t: Seq<u8>, j: int, e: int)
    requires
        window(s, o, t),
        0 <= j,
        e <= t.len(),
        string_end(s, o + j) == Some(o + e),
    ensures
        string_end(t, j) == Some(e),
    decreases t.len() - j,
{
    lemma_string_end_bounds(s, o + j);
    lemma_window_byte(s, o, t, j);
    if t[j] != QUOTE {
        if t[j] == BACKSLASH {
            lemma_string_end_bounds(s, o + j + 2);
            lemma_string_end_restrict(s, o, t, j + 2, e);
        } else {
            lemma_string_end_restrict(s, o, t, j + 1, e);
        }
    }
}

proof fn lemma_string_token_extend(s: Seq<u8>, o: int, t: Seq<u8>, j: int)
    requires
        window(s, o, t),
        0 <= j,
        string_token(t, j) is Some,
    ensures
        string_token(s, o + j) == (match string_token(t, j) {
            Some((v, e)) => Some((v, o + e)),
            None => None,
        }),
{
    lemma_window_byte(s, o, t, j);
    let e = string_end(t, j + 1)->0;
    lemma_string_end_bounds(t, j + 1);
    lemma_string_end_shift(s, o, t, j + 1);
    assert(s.subrange(o + j, o + e) =~= t.subrange(j, e));
}

proof fn lemma_string_token_restrict(s: Seq<u8>, o: int, t: Seq<u8>, j: int, e: int)
    requires
        window(s, o, t),
        0 <= j,
        e <= t.len(),
        string_token(s, o + j) matches Some((_, f)) && f == o + e,
    ensures
        string_token(t, j) == (match string_token(s, o + j) {
            Some((v, _)) => Some((v, e)),
            None => None,
        }),
{
    lemma_string_end_bounds(s, o + j + 1);
    lemma_window_byte(s, o, t, j);
    lemma_string_end_restrict(s, o, t, j + 1, e);
    assert(s.subrange(o + j, o + e) =~= t.subrange(j, e));
}

proof fn lemma_set_payload_extend(s: Seq<u8>, o: int, t: Seq<u8>, p: int)
    requires
        window(s, o, t),
        0 <= p,
        set_payload(t, p) is Some,
    ensures
        set_payload(s, o + p) == (match set_payload(t, p) {
            Some((c, e)) => Some((c, o + e)),
            None => None,
        }),
{
    lemma_window_byte(s, o, t, p);
    let q0 = skip_ws(t, p + 1);
    lemma_skip_ws_bounds(t, p + 1);
    let (k, q) = string_token(t, q0)->0;
    lemma_string_end_bounds(t, q0 + 1);
    assert(q0 < t.len());
    lemma_skip_ws_extend(s, o, t, p + 1);
    lemma_string_token_extend(s, o, t, q0);
    let c = skip_ws(t, q);
    lemma_skip_ws_bounds(t, q);
    lemma_skip_ws_extend(s, o, t, q);
    lemma_window_byte(s, o, t, c);
    let r0 = skip_ws(t, c + 1);
    lemma_skip_ws_bounds(t, c + 1);
    let (v, r) = string_token(t, r0)->0;
    lemma_string_end_bounds(t, r0 + 1);
    assert(r0 < t.len());
    lemma_skip_ws_extend(s, o, t, c + 1);
    lemma_string_token_extend(s, o, t, r0);
    let e = skip_ws(t, r);
    lemma_skip_ws_bounds(t, r);
    lemma_skip_ws_extend(s, o, t, r);
    lemma_window_byte(s, o, t, e);
}

proof fn lemma_set_payload_restrict(s: Seq<u8>, o: int, t: Seq<u8>, p: int, f: int)
    requires
        window(s, o, t),
        0 <= p,
        f <= t.len(),
        set_payload(s, o + p) matches Some((_, g)) && g == o + f,
    ensures
        set_payload(t, p) == (match set_payload(s, o + p) {
            Some((c, _)) => Some((c, f)),
            None => None,
        }),
{
    let q0 = skip_ws(s, o + p + 1);
    lemma_skip_ws_bounds(s, o + p + 1);
    let (k, q) = string_token(s, q0)->0;
    lemma_string_end_bounds(s, q0 + 1);
    let c = skip_ws(s, q);
    lemma_skip_ws_bounds(s, q);
    let r0 = skip_ws(s, c + 1);
    lemma_skip_ws_bounds(s, c + 1);
    let (v, r) = string_token(s, r0)->0;
    lemma_string_end_bounds(s, r0 + 1);
    let e = skip_ws(s, r);
    lemma_skip_ws_bounds(s, r);
    assert(e + 1 == o + f);
    lemma_window_byte(s, o, t, p);
    lemma_skip_ws_restrict(s, o, t, p + 1);
    lemma_string_token_restrict(s, o, t, q0 - o, q - o);
    lemma_skip_ws_restrict(s, o, t, q - o);
    lemma_window_byte(s, o, t, c - o);
    lemma_skip_ws_restrict(s, o, t, c + 1 - o);
    lemma_string_token_restrict(s, o, t, r0 - o, r - o);
    lemma_skip_ws_restrict(s, o, t, r - o);
    lemma_window_byte(s, o, t, e - o);
}

proof fn lemma_payload_extend(s: Seq<u8>, o: int, t: Seq<u8>, tag: Seq<char>, p: int)
    requires
        window(s, o, t),
        0 <= p,
        payload(t, tag, p) is Some,
    ensures
        payload(s, tag, o + p) == (match payload(t, tag, p) {
            Some((c, e)) => Some((c, o + e)),
            None => None,
        }),
{
    if tag == "SET"@ {
        lemma_set_payload_extend(s, o, t, p);
    } else {
        lemma_string_token_extend(s, o, t, p);
    }
}

proof fn lemma_payload_restrict(s: Seq<u8>, o: int, t: Seq<u8>, tag: Seq<char>, p: int, f: int)
    requires
        window(s, o, t),
        0 <= p,
        f <= t.len(),
        payload(s, tag, o + p) matches Some((_, g)) && g == o + f,
    ensures
        payload(t, tag, p) == (match payload(s, tag, o + p) {
            Some((c, _)) => Some((c, f)),
            None => None,
        }),
{
    if tag == "SET"@ {
        lemma_set_payload_restrict(s, o, t, p, f);
    } else {
        lemma_string_token_restrict(s, o, t, p, f);
    }
}

/// A command read from some bytes is read the same, and ends at the same
/// place, from any copy of those bytes.
pub proof fn lemma_parse_command_extend(s: Seq<u8>, o: int, t: Seq<u8>, j: int)
    requires
        window(s, o, t),
        0 <= j,
        parse_command(t, j) is Some,
    ensures
        parse_command(s, o + j) == (match parse_command(t, j) {
            Some((c, e)) => Some((c, o + e)),
            None => None,
        }),
{
    let b = skip_ws(t, j);
    lemma_skip_ws_bounds(t, j);
    lemma_skip_ws_extend(s, o, t, j);
    lemma_window_byte(s, o, t, b);
    let t0 = skip_ws(t, b + 1);
    lemma_skip_ws_bounds(t, b + 1);
    let (tag, q) = string_token(t, t0)->0;
    lemma_string_end_bounds(t, t0 + 1);
    assert(t0 < t.len());
    lemma_skip_ws_extend(s, o, t, b + 1);
    lemma_string_token_extend(s, o, t, t0);
    let c = skip_ws(t, q);
    lemma_skip_ws_bounds(t, q);
    lemma_skip_ws_extend(s, o, t, q);
    lemma_window_byte(s, o, t, c);
    let p0 = skip_ws(t, c + 1);
    lemma_skip_ws_bounds(t, c + 1);
    let (cmd, p) = payload(t, tag, p0)->0;
    lemma_payload_end(t, tag, p0);
    lemma_skip_ws_extend_any(s, o, t, c + 1, p0);
    lemma_payload_extend(s, o, t, tag, p0);
    let e = skip_ws(t, p);
    lemma_skip_ws_bounds(t, p);
    lemma_skip_ws_extend(s, o, t, p);
    lemma_window_byte(s, o, t, e);
}

/// A command read from some bytes, that ends inside a window of them, is read
/// the same from the window alone.
pub proof fn lemma_parse_command_restrict(s: Seq<u8>, o: int, t: Seq<u8>, j: int, f: int)
    requires
        window(s, o, t),
        0 <= j,
        f <= t.len(),
        parse_command(s, o + j) matches Some((_, g)) && g == o + f,
    ensures
        parse_command(t, j) == (match parse_command(s, o + j) {
            Some((c, _)) => Some((c, f)),
            None => None,
        }),
{
    let b = skip_ws(s, o + j);
    lemma_skip_ws_bounds(s, o + j);
    let t0 = skip_ws(s, b + 1);
    lemma_skip_ws_bounds(s, b + 1);
    let (tag, q) = string_token(s, t0)->0;
    lemma_string_end_bounds(s, t0 + 1);
    let c = skip_ws(s, q);
    lemma_skip_ws_bounds(s, q);
    let p0 = skip_ws(s, c + 1);
    lemma_skip_ws_bounds(s, c + 1);
    let (cmd, p) = payload(s, tag, p0)->0;
    lemma_payload_end(s, tag, p0);
    let e = skip_ws(s, p);
    lemma_skip_ws_bounds(s, p);
    assert(e + 1 == o + f);
    if j <= t.len() {
        lemma_skip_ws_restrict(s, o, t, j);
    }
    lemma_window_byte(s, o, t, b - o);
    lemma_skip_ws_restrict(s, o, t, b + 1 - o);
    lemma_string_token_restrict(s, o, t, t0 - o, q - o);
    lemma_skip_ws_restrict(s, o, t, q - o);
    lemma_window_byte(s, o, t, c - o);
    lemma_skip_ws_restrict(s, o, t, c + 1 - o);
    lemma_payload_restrict(s, o, t, tag, p0 - o, p - o);
    lemma_skip_ws_restrict(s, o, t, p - o);
    lemma_window_byte(s, o, t, e - o);
}

/// A payload ends after it starts and inside the bytes.
proof fn lemma_payload_end(s: Seq<u8>, tag: Seq<char>, p: int)
    ensures
        payload(s, tag, p) matches Some((_, e)) ==> p < e <= s.len(),
{
    if payload(s, tag, p) is Some {
        if tag == "SET"@ {
            let q0 = skip_ws(s, p + 1);
            lemma_skip_ws_bounds(s, p + 1);
            let (k, q) = string_token(s, q0)->0;
            lemma_string_end_bounds(s, q0 + 1);
            let c = skip_ws(s, q);
            lemma_skip_ws_bounds(s, q);
            let r0 = skip_ws(s, c + 1);
            lemma_skip_ws_bounds(s, c + 1);
            let (v, r) = string_token(s, r0)->0;
            lemma_string_end_bounds(s, r0 + 1);
            lemma_skip_ws_bounds(s, r);
        } else {
            lemma_string_end_bounds(s, p + 1);
        }
    }
}

proof fn lemma_skip_ws_extend_any(s: Seq<u8>, o: int, t: Seq<u8>, j: int, k: int)
    requires
        window(s, o, t),
        0 <= j,
        k == skip_ws(t, j),
        k < t.len(),
    ensures
        skip_ws(s, o + j) == o + k,
{
    lemma_skip_ws_extend(s, o, t, j);
}

/// A command ends after it starts and inside the bytes.
pub proof fn lemma_parse_command_end(s: Seq<u8>, i: int)
    ensures
        parse_command(s, i) matches Some((_, e)) ==> i < e <= s.len(),
{
    if parse_command(s, i) is Some {
        let b = skip_ws(s, i);
        lemma_skip_ws_bounds(s, i);
        let t0 = skip_ws(s, b + 1);
        lemma_skip_ws_bounds(s, b + 1);
        let (tag, q) = string_token(s, t0)->0;
        lemma_string_end_bounds(s, t0 + 1);
        let c = skip_ws(s, q);
        lemma_skip_ws_bounds(s, q);
        let p0 = skip_ws(s, c + 1);
        lemma_skip_ws_bounds(s, c + 1);
        let (cmd, p) = payload(s, tag, p0)->0;
        lemma_payload_end(s, tag, p0);
        lemma_skip_ws_bounds(s, p);
    }
}

/// A command read inside a log, cut out of the log, holds that command alone.
pub proof fn lemma_parse_exact_of_extent(s: Seq<u8>, i: int, c: CommandView, e: int)
    requires
        0 <= i,
        parse_command(s, i) == Some((c, e)),
    ensures
        parse_command(s.subrange(i, e), 0) == Some((c, e - i)),
        parse_exact(s.subrange(i, e)) == Some(c),
{
    lemma_parse_command_end(s, i);
    let t = s.subrange(i, e);
    lemma_parse_command_restrict(s, i, t, 0, e - i);
}

// ---------------------------------------------------------------------------
// Executable printing and reading.
fn is_ws(b: u8) -> (r: bool)
    ensures
        r == is_json_ws(b),
{
    b == 32 || b == 9 || b == 10 || b == 13
}

pub(crate) fn skip_ws_exec(s: &[u8], i: usize) -> (r: usize)
    requires
        i <= s@.len(),
    ensures
        r == skip_ws(s@, i as int),
        i <= r <= s@.len(),
{
    let mut j = i;
    while j < s.len() && is_ws(s[j])
        invariant
            i <= j <= s@.len(),
            skip_ws(s@, i as int) == skip_ws(s@, j as int),
        decreases s@.len() - j,
    {
        j = j + 1;
    }
    j
}

fn string_end_exec(s: &[u8], i: usize) -> (r: Option<usize>)
    requires
        i <= s@.len(),
    ensures
        match r {
            Some(e) => string_end(s@, i as int) == Some(e as int),
            None => string_end(s@, i as int) is None,
        },
{
    let mut j = i;
    loop
        invariant
            j <= s@.len(),
            string_end(s@, i as int) == string_end(s@, j as int),
        decreases s@.len() - j,
    {
        if j >= s.len() {
            return None;
        }
        let b = s[j];
        if b == QUOTE {
            return Some(j + 1);
        }
        if b == BACKSLASH {
            if j + 1 >= s.len() {
                return None;
            }
            j = j + 2;
        } else {
            j = j + 1;
        }
    }
}

fn string_token_exec(s: &[u8], i: usize) -> (r: Result<(String, usize), serde_json::Error>)
    requires
        i <= s@.len(),
    ensures
        match r {
            Ok((v, e)) => string_token(s@, i as int) == Some((v@, e as int)) && i < e <= s@.len(),
            Err(_) => string_token(s@, i as int) is None,
        },
{
    if i >= s.len() || s[i] != QUOTE {
        return Err(json_framing_error());
    }
    match string_end_exec(s, i + 1) {
        None => Err(json_framing_error()),
        Some(e) => {
            proof {
                lemma_string_end_bounds(s@, i + 1);
            }
            match json_decode_str(&s[i..e]) {
                Ok(v) => Ok((v, e)),
                Err(err) => Err(err),
            }
        },
    }
}

fn set_payload_exec(s: &[u8], p: usize) -> (r: Result<(Command, usize), serde_json::Error>)
    requires
        p <= s@.len(),
    ensures
        match r {
            Ok((c, e)) => set_payload(s@, p as int) == Some((c@, e as int)) && p < e <= s@.len(),
            Err(_) => set_payload(s@, p as int) is None,
        },
{
    if p >= s.len() || s[p] != OPEN_BRACKET {
        return Err(json_framing_error());
    }
    let q0 = skip_ws_exec(s, p + 1);
    let (k, q) = match string_token_exec(s, q0) {
        Ok(t) => t,
        Err(err) => return Err(err),
    };
    let c = skip_ws_exec(s, q);
    if c >= s.len() || s[c] != COMMA {
        return Err(json_framing_error());
    }
    let r0 = skip_ws_exec(s, c + 1);
    let (v, r) = match string_token_exec(s, r0) {
        Ok(t) => t,
        Err(err) => return Err(err),
    };
    let e = skip_ws_exec(s, r);
    if e >= s.len() || s[e] != CLOSE_BRACKET {
        return Err(json_framing_error());
    }
    Ok((Command::SET(k, v), e + 1))
}

pub(crate) fn parse_command_exec(s: &[u8], i: usize) -> (r: Result<(Command, usize), serde_json::Error>)
    requires
        i <= s@.len(),
    ensures
        match r {
            Ok((c, e)) => parse_command(s@, i as int) == Some((c@, e as int)) && i < e <= s@.len(),
            Err(_) => parse_command(s@, i as int) is None,
        },
{
    let b = skip_ws_exec(s, i);
    if b >= s.len() || s[b] != OPEN_BRACE {
        return Err(json_framing_error());
    }
    let t0 = skip_ws_exec(s, b + 1);
    let (tag, t) = match string_token_exec(s, t0) {
        Ok(x) => x,
        Err(err) => return Err(err),
    };
    let c = skip_ws_exec(s, t);
    if c >= s.len() || s[c] != COLON {
        return Err(json_framing_error());
    }
    let p0 = skip_ws_exec(s, c + 1);
    let set_tag = String::from_str("SET");
    let rm_tag = String::from_str("RM");
    let (cmd, p) = if tag == set_tag {
        match set_payload_exec(s, p0) {
            Ok(x) => x,
            Err(err) => return Err(err),
        }
    } else if tag == rm_tag {
        match string_token_exec(s, p0) {
            Ok((k, e)) => (Command::RM(k), e),
            Err(err) => return Err(err),
        }
    } else {
        return Err(json_framing_error());
    };
    assert(payload(s@, tag@, p0 as int) == Some((cmd@, p as int)));
    let e = skip_ws_exec(s, p);
    if e >= s.len() || s[e] != CLOSE_BRACE {
        return Err(json_framing_error());
    }
    Ok((cmd, e + 1))
}

impl Command {
    /// The bytes of this command in the log: what `serde_json` prints for
    /// it.  Reading them back gives this command.
    pub fn serialize(&self) -> (r: Vec<u8>)
        ensures
            r@ == serialize(self@),
            parse_command(r@, 0) == Some((self@, r@.len() as int)),
            parse_exact(r@) == Some(self@),
    {
        let mut out: Vec<u8> = Vec::new();
        out.push(OPEN_BRACE);
        match self {
            Command::SET(k, v) => {
                let mut tag = json_encode_str("SET");
                let ghost t = tag@;
                out.append(&mut tag);
                out.push(COLON);
                out.push(OPEN_BRACKET);
                let mut ek = json_encode_str(k.as_str());
                let ghost tk = ek@;
                out.append(&mut ek);
                out.push(COMMA);
                let mut ev = json_encode_str(v.as_str());
                let ghost tv = ev@;
                out.append(&mut ev);
                out.push(CLOSE_BRACKET);
                out.push(CLOSE_BRACE);
                assert(out@ =~= serialize(self@));
                proof {
                    lemma_parse_serialized(self@, t, tk, tv);
                }
            },
            Command::RM(k) => {
                let mut tag = json_encode_str("RM");
                let ghost t = tag@;
                out.append(&mut tag);
                out.push(COLON);
                let mut ek = json_encode_str(k.as_str());
                let ghost tk = ek@;
                out.append(&mut ek);
                out.push(CLOSE_BRACE);
                assert(out@ =~= serialize(self@));
                proof {
                    lemma_parse_serialized(self@, t, tk, Seq::empty());
                }
            },
        }
        out
    }

    /// Reads the one command that `bytes` holds, with only whitespace around
    /// it; any other content is a `SerdeError`.
    pub fn parse(bytes: &[u8]) -> (r: Result<Command, KVStoreError>)
        ensures
            match r {
                Ok(c) => parse_exact(bytes@) == Some(c@),
                Err(e) => parse_exact(bytes@) is None && e is SerdeError,
            },
    {
        match parse_command_exec(bytes, 0) {
            Err(err) => Err(KVStoreError::SerdeError(err)),
            Ok((c, e)) => {
                let end = skip_ws_exec(bytes, e);
                if end == bytes.len() {
                    Ok(c)
                } else {
                    Err(KVStoreError::SerdeError(json_framing_error()))
                }
            },
        }
    }
}

} // verus!
