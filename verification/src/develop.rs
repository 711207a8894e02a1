//! Replies of the DEVELOP content provider of the device: the JSON object that
//! `content call` prints (bare, or as the `result_data` entry of an Android
//! `Bundle`), the checks of its `errorCode` and `ok` members, and the choice of
//! the ADB device that the calls go to.
use vstd::prelude::*;

use crate::launch::{opt_view, parse_unsigned, string_views};
use crate::paths::{char_vec_views, lines_of, text_lines};
use crate::text::{decimal, push_decimal, chars_of, is_space, is_space_char, skip_spaces, string_of, trim_spaces, trim_start_spaces, trimmed};
use crate::launch::parse_usize;
use vstd::string::StringExecFns;

verus! {

// ---------------------------------------------------------------------------
// The JSON text of a reply
// ---------------------------------------------------------------------------

/// `result_data`, the key under which an Android `Bundle` holds the reply.
pub open spec fn result_marker() -> Seq<char> {
    seq!['r', 'e', 's', 'u', 'l', 't', '_', 'd', 'a', 't', 'a']
}

/// `result_data` starts at index `i` of `s`.
pub open spec fn marker_at(s: Seq<char>, i: int) -> bool {
    0 <= i && i + 11 <= s.len() && s.subrange(i, i + 11) == result_marker()
}

/// `result_data` occurs in `s` at `i` and nowhere else.
pub open spec fn single_marker(s: Seq<char>, i: int) -> bool {
    marker_at(s, i) && forall|j: int| marker_at(s, j) ==> j == i
}

/// One character of the scan for the end of a JSON object: the state is the
/// nesting depth of braces, whether a string is open, and whether the previous
/// character inside the string was a backslash.
pub open spec fn scan_step(st: (int, bool, bool), c: char) -> (int, bool, bool) {
    let (depth, quoted, escaped) = st;
    if quoted {
        if escaped {
            (depth, quoted, false)
        } else if c == '\\' {
            (depth, quoted, true)
        } else if c == '"' {
            (depth, false, escaped)
        } else {
            (depth, quoted, escaped)
        }
    } else if c == '"' {
        (depth, true, escaped)
    } else if c == '{' {
        (depth + 1, quoted, escaped)
    } else if c == '}' {
        (depth - 1, quoted, escaped)
    } else {
        (depth, quoted, escaped)
    }
}

/// The scan state after the characters of `s`.
pub open spec fn scan_state(s: Seq<char>) -> (int, bool, bool)
    decreases s.len(),
{
    if s.len() == 0 {
        (0, false, false)
    } else {
        scan_step(scan_state(s.drop_last()), s.last())
    }
}

/// The `}` at index `i` of `s` closes the outermost brace.
pub open spec fn closes_at(s: Seq<char>, i: int) -> bool {
    &&& 0 <= i < s.len()
    &&& s[i] == '}'
    &&& !scan_state(s.take(i)).1
    &&& scan_state(s.take(i)).0 == 1
}

/// `i` is the first index at which the outermost brace of `s` closes.
pub open spec fn first_close(s: Seq<char>, i: int) -> bool {
    closes_at(s, i) && forall|j: int| 0 <= j < i ==> !closes_at(s, j)
}

/// The JSON object at the start of `s`, up to the brace that closes it.
pub open spec fn object_text(s: Seq<char>) -> Option<Seq<char>> {
    if exists|i: int| first_close(s, i) {
        Some(s.take((choose|i: int| first_close(s, i)) + 1))
    } else {
        None
    }
}

/// Why no reply could be read from the output of `content call`.
#[derive(Debug)]
pub enum DevelopResultError {
    /// The output holds `result_data` not exactly once.
    MarkerCount,
    /// No `=` follows `result_data`.
    MissingEquals,
    /// No `{` follows `result_data=`.
    NotObject,
    /// The object after `result_data=` is not closed.
    Incomplete,
    /// The JSON text was refused; `bundled` tells whether it came from a
    /// `result_data` entry, `reason` is what the JSON parser said.
    InvalidJson { bundled: bool, reason: String },
}

impl DevelopResultError {
    /// The message that the command line shows.
    pub fn message(&self) -> (m: String)
        ensures
            m@ == match self {
                DevelopResultError::MarkerCount => "expected exactly one result_data JSON value"@,
                DevelopResultError::MissingEquals => "result_data is missing '='"@,
                DevelopResultError::NotObject => "result_data is not a JSON object"@,
                DevelopResultError::Incomplete => "incomplete result_data JSON"@,
                DevelopResultError::InvalidJson { bundled, reason } => if *bundled {
                    "invalid result_data JSON: "@ + reason@
                } else {
                    "invalid result JSON: "@ + reason@
                },
            },
    {
        match self {
            DevelopResultError::MarkerCount => String::from_str("expected exactly one result_data JSON value"),
            DevelopResultError::MissingEquals => String::from_str("result_data is missing '='"),
            DevelopResultError::NotObject => String::from_str("result_data is not a JSON object"),
            DevelopResultError::Incomplete => String::from_str("incomplete result_data JSON"),
            DevelopResultError::InvalidJson { bundled, reason } => if *bundled {
                String::from_str("invalid result_data JSON: ").concat(reason.as_str())
            } else {
                String::from_str("invalid result JSON: ").concat(reason.as_str())
            },
        }
    }
}

/// Where the JSON text of a reply came from.
#[derive(Debug)]
pub enum DevelopJson {
    /// The whole output, trimmed, is the JSON text.
    Direct(String),
    /// The JSON text is the `result_data` entry of a `Bundle`.
    ResultData(String),
}

/// What [`develop_result_json`] finds in the output of `content call`: whether
/// the JSON text came from a `result_data` entry, and the text.
pub open spec fn develop_json_text(text: Seq<char>) -> Result<(bool, Seq<char>), DevelopResultError> {
    let t = trim_spaces(text);
    if t.len() > 0 && t[0] == '{' {
        Ok((false, t))
    } else if !(exists|i: int| single_marker(text, i)) {
        Err(DevelopResultError::MarkerCount)
    } else {
        let i = choose|i: int| single_marker(text, i);
        let t1 = trim_start_spaces(text.skip(i + 11));
        if !(t1.len() > 0 && t1[0] == '=') {
            Err(DevelopResultError::MissingEquals)
        } else {
            let t2 = trim_start_spaces(t1.drop_first());
            if !(t2.len() > 0 && t2[0] == '{') {
                Err(DevelopResultError::NotObject)
            } else {
                match object_text(t2) {
                    Some(o) => Ok((true, o)),
                    None => Err(DevelopResultError::Incomplete),
                }
            }
        }
    }
}

pub open spec fn develop_json_view(r: Result<DevelopJson, DevelopResultError>) -> Result<
    (bool, Seq<char>),
    DevelopResultError,
> {
    match r {
        Ok(DevelopJson::Direct(t)) => Ok((false, t@)),
        Ok(DevelopJson::ResultData(t)) => Ok((true, t@)),
        Err(e) => Err(e),
    }
}

fn marker_matches(cs: &Vec<char>, i: usize) -> (r: bool)
    requires
        i + 11 <= cs.len(),
    ensures
        r == marker_at(cs@, i as int),
{
    let m: Vec<char> = vec!['r', 'e', 's', 'u', 'l', 't', '_', 'd', 'a', 't', 'a'];
    assert(m@ =~= result_marker());
    let mut k: usize = 0;
    while k < 11
        invariant
            k <= 11,
            i + 11 <= cs.len(),
            m@ == result_marker(),
            forall|j: int| 0 <= j < k ==> cs@[i + j] == m@[j],
        decreases 11 - k,
    {
        if cs[i + k] != m[k] {
            assert(cs@.subrange(i as int, i + 11)[k as int] != result_marker()[k as int]);
            return false;
        }
        k = k + 1;
    }
    assert(cs@.subrange(i as int, i + 11) =~= result_marker());
    true
}

/// Where `result_data` occurs: `Some(i)` when it occurs at `i` only, `None`
/// when it does not occur or occurs more than once.
fn find_single_marker(cs: &Vec<char>) -> (r: Option<usize>)
    ensures
        match r {
            Some(i) => single_marker(cs@, i as int),
            None => !(exists|i: int| single_marker(cs@, i)),
        },
{
    let n = cs.len();
    let mut first: Option<usize> = None;
    let mut count: usize = 0;
    let mut i: usize = 0;
    while i < n && n - i >= 11
        invariant
            n == cs.len(),
            i <= n,
            count <= 2,
            count == 0 ==> first is None && forall|j: int| 0 <= j < i ==> !marker_at(cs@, j),
            count == 1 ==> (first matches Some(p) && p < i && marker_at(cs@, p as int) && forall|
                j: int,
            | 0 <= j < i && marker_at(cs@, j) ==> j == p),
            count == 2 ==> exists|a: int, b: int| a != b && marker_at(cs@, a) && marker_at(cs@, b),
        decreases n - i,
    {
        if marker_matches(cs, i) {
            if count == 0 {
                first = Some(i);
                count = 1;
            } else if count == 1 {
                let p = first.unwrap();
                assert(marker_at(cs@, p as int) && marker_at(cs@, i as int) && p != i);
                count = 2;
            }
        }
        i = i + 1;
    }
    assert forall|j: int| i <= j implies !marker_at(cs@, j) by {}
    if count == 1 {
        first
    } else {
        if count == 2 {
            let ghost (a, b) = choose|a: int, b: int| a != b && marker_at(cs@, a) && marker_at(cs@, b);
            assert forall|k: int| !single_marker(cs@, k) by {
                if single_marker(cs@, k) {
                    assert(a == k && b == k);
                }
            }
        }
        None
    }
}

proof fn lemma_scan_push(s: Seq<char>, c: char)
    ensures
        scan_state(s.push(c)) == scan_step(scan_state(s), c),
{
    assert(s.push(c).drop_last() =~= s);
}

proof fn lemma_first_close_unique(s: Seq<char>, i: int, j: int)
    requires
        first_close(s, i),
        first_close(s, j),
    ensures
        i == j,
{
    if i < j {
        assert(!closes_at(s, i));
    } else if j < i {
        assert(!closes_at(s, j));
    }
}

/// The characters `cs[from..to]`.
fn slice_chars(cs: &Vec<char>, from: usize, to: usize) -> (r: Vec<char>)
    requires
        from <= to <= cs.len(),
    ensures
        r@ == cs@.subrange(from as int, to as int),
{
    let mut o: Vec<char> = Vec::new();
    let mut m: usize = from;
    while m < to
        invariant
            from <= m <= to,
            to <= cs.len(),
            o@ =~= cs@.subrange(from as int, m as int),
        decreases to - m,
    {
        o.push(cs[m]);
        m = m + 1;
    }
    o
}

/// Where the brace that opens `cs[b..]` is closed: the index of the first `}`
/// outside strings at which the nesting depth returns to zero.
fn object_end(cs: &Vec<char>, b: usize) -> (r: Option<usize>)
    requires
        b < cs.len(),
        cs@[b as int] == '{',
    ensures
        match r {
            Some(k) => b <= k < cs.len() && first_close(cs@.skip(b as int), k - b),
            None => !(exists|i: int| first_close(cs@.skip(b as int), i)),
        },
{
    let ghost t2 = cs@.skip(b as int);
    let n = cs.len();
    let mut depth: usize = 0;
    let mut quoted = false;
    let mut escaped = false;
    let mut k: usize = b;
    assert(t2.take(0) =~= Seq::<char>::empty());
    while k < n
        invariant
            b <= k <= n,
            n == cs.len(),
            b < n,
            cs@[b as int] == '{',
            t2 == cs@.skip(b as int),
            (depth as int, quoted, escaped) == scan_state(t2.take(k - b)),
            k > b ==> depth >= 1,
            depth <= k - b,
            forall|j: int| 0 <= j < k - b ==> !closes_at(t2, j),
        decreases n - k,
    {
        let c = cs[k];
        proof {
            assert(t2.take(k - b + 1) =~= t2.take(k - b).push(c));
            lemma_scan_push(t2.take(k - b), c);
        }
        if quoted {
            if escaped {
                escaped = false;
            } else if c == '\\' {
                escaped = true;
            } else if c == '"' {
                quoted = false;
            }
        } else if c == '"' {
            quoted = true;
        } else if c == '{' {
            depth = depth + 1;
        } else if c == '}' {
            depth = depth - 1;
            if depth == 0 {
                assert(closes_at(t2, k - b));
                return Some(k);
            }
        }
        assert(!closes_at(t2, k - b));
        k = k + 1;
    }
    proof {
        assert forall|i: int| !first_close(t2, i) by {
            if first_close(t2, i) {
                assert(i < t2.len());
                assert(!closes_at(t2, i));
            }
        }
    }
    None
}

/// The JSON text of a DEVELOP reply: the whole output when, trimmed, it starts
/// with `{`; otherwise the object after the only `result_data=` in it, up to
/// the brace that closes it (braces inside strings do not count).
pub fn develop_result_json(text: &str) -> (r: Result<DevelopJson, DevelopResultError>)
    ensures
        develop_json_view(r) == develop_json_text(text@),
{
    let cs = chars_of(text);
    let t = trimmed(&cs, 0, cs.len());
    assert(cs@.subrange(0, cs@.len() as int) =~= text@);
    if t.len() > 0 && t[0] == '{' {
        return Ok(DevelopJson::Direct(string_of(&t)));
    }
    let p = match find_single_marker(&cs) {
        Some(p) => p,
        None => {
            return Err(DevelopResultError::MarkerCount);
        },
    };
    proof {
        let c = choose|i: int| single_marker(text@, i);
        assert(c == p);
    }
    let a = skip_spaces(&cs, p + 11);
    let ghost t1 = trim_start_spaces(text@.skip(p + 11));
    assert(t1 == cs@.skip(a as int));
    if !(a < cs.len() && cs[a] == '=') {
        return Err(DevelopResultError::MissingEquals);
    }
    assert(t1.drop_first() =~= cs@.skip(a + 1));
    let b = skip_spaces(&cs, a + 1);
    let ghost t2 = cs@.skip(b as int);
    assert(t2 == trim_start_spaces(t1.drop_first()));
    if !(b < cs.len() && cs[b] == '{') {
        return Err(DevelopResultError::NotObject);
    }
    match object_end(&cs, b) {
        Some(k) => {
            let o = slice_chars(&cs, b, k + 1);
            proof {
                let c2 = choose|i: int| first_close(t2, i);
                lemma_first_close_unique(t2, c2, k - b);
                assert(o@ =~= t2.take(k - b + 1));
            }
            Ok(DevelopJson::ResultData(string_of(&o)))
        },
        None => Err(DevelopResultError::Incomplete),
    }
}

// ---------------------------------------------------------------------------
// Parsing the reply
// ---------------------------------------------------------------------------

#[verifier::external_type_specification]
#[verifier::external_body]
pub struct ExJsonValue(serde_json::Value);

#[verifier::external_type_specification]
#[verifier::external_body]
pub struct ExJsonError(serde_json::Error);

/// A JSON value: numbers are kept as `serde_json` writes them, and the
/// members of an object in the order `serde_json` holds them.
#[derive(Debug, PartialEq)]
pub enum JsonValue {
    Null,
    Bool(bool),
    Number(String),
    Text(String),
    Array(Vec<JsonValue>),
    Object(Vec<(String, JsonValue)>),
}

/// Whether `serde_json` reads the text as one JSON value.
pub uninterp spec fn json_text_accepted(text: Seq<char>) -> bool;

/// The JSON value that `serde_json` reads from the text.
pub uninterp spec fn json_value(text: Seq<char>) -> JsonValue;

/// `serde_json::Value` as a [`JsonValue`], member for member.
#[verifier::external_body]
fn json_of(value: serde_json::Value) -> JsonValue {
    match value {
        serde_json::Value::Null => JsonValue::Null,
        serde_json::Value::Bool(b) => JsonValue::Bool(b),
        serde_json::Value::Number(n) => JsonValue::Number(n.to_string()),
        serde_json::Value::String(t) => JsonValue::Text(t),
        serde_json::Value::Array(items) => JsonValue::Array(items.into_iter().map(json_of).collect()),
        serde_json::Value::Object(members) => JsonValue::Object(members.into_iter().map(|(k, v)| (k, json_of(v))).collect()),
    }
}

/// `serde_json::from_str::<serde_json::Value>`: it succeeds exactly on the
/// texts that the name [`json_text_accepted`] stands for, with the value that
/// the name [`json_value`] stands for; both depend on the text alone.
#[verifier::external_body]
pub(crate) fn parse_json_value(text: &str) -> (r: Result<JsonValue, serde_json::Error>)
    ensures
        r is Ok <==> json_text_accepted(text@),
        r matches Ok(v) ==> v == json_value(text@),
{
    serde_json::from_str::<serde_json::Value>(text).map(json_of)
}

/// Whether `serde_json` reads the bytes as one JSON value.
pub uninterp spec fn json_bytes_accepted(bytes: Seq<u8>) -> bool;

/// The JSON value that `serde_json` reads from the bytes.
pub uninterp spec fn json_bytes_value(bytes: Seq<u8>) -> JsonValue;

/// `serde_json::from_slice::<serde_json::Value>`: it succeeds exactly on the
/// bytes that the name [`json_bytes_accepted`] stands for, with the value
/// that the name [`json_bytes_value`] stands for; both depend on the bytes
/// alone.
#[verifier::external_body]
pub(crate) fn parse_json_bytes(bytes: &[u8]) -> (r: Result<JsonValue, serde_json::Error>)
    ensures
        r is Ok <==> json_bytes_accepted(bytes@),
        r matches Ok(v) ==> v == json_bytes_value(bytes@),
{
    serde_json::from_slice::<serde_json::Value>(bytes).map(json_of)
}

/// The `Display` text of a `serde_json` error; what it says is not described here.
#[verifier::external_body]
pub(crate) fn json_error_text(error: &serde_json::Error) -> String {
    error.to_string()
}

/// Reads the reply of a DEVELOP call from the output of `content call`: the
/// JSON text that [`develop_result_json`] finds, parsed by `serde_json`.
pub fn parse_develop_result(text: &str) -> (r: Result<JsonValue, DevelopResultError>)
    ensures
        match develop_json_text(text@) {
            Err(e) => r matches Err(f) && f == e,
            Ok((bundled, json)) => {
                &&& (r is Ok <==> json_text_accepted(json))
                &&& (r matches Ok(v) ==> v == json_value(json))
                &&& (r matches Err(f) ==> (f matches DevelopResultError::InvalidJson { bundled: b, .. }
                    && b == bundled))
            },
        },
{
    let found = develop_result_json(text);
    let (bundled, json) = match found {
        Ok(DevelopJson::Direct(t)) => (false, t),
        Ok(DevelopJson::ResultData(t)) => (true, t),
        Err(e) => {
            return Err(e);
        },
    };
    match parse_json_value(json.as_str()) {
        Ok(v) => Ok(v),
        Err(e) => Err(DevelopResultError::InvalidJson { bundled, reason: json_error_text(&e) }),
    }
}

// ---------------------------------------------------------------------------
// Checks of a reply
// ---------------------------------------------------------------------------

/// The members of a DEVELOP reply that the checks read.
#[derive(Debug)]
pub struct DevelopReply {
    /// `errorCode`, when it is a string.
    pub error_code: Option<String>,
    /// `message`: `None` when the member is absent, `Some(None)` when it is
    /// present but not a string.
    pub message: Option<Option<String>>,
    /// `errorMessage`, when it is a string.
    pub error_message: Option<String>,
    /// `ok`, when it is a boolean.
    pub ok: Option<bool>,
}

/// The explanation that a failed reply gives: `message` where that member is
/// present, otherwise `errorMessage`; only a non-empty string counts.
pub open spec fn reply_message(reply: DevelopReply) -> Option<Seq<char>> {
    let m = match reply.message {
        Some(m) => opt_view(m),
        None => opt_view(reply.error_message),
    };
    match m {
        Some(t) => if t.len() > 0 {
            Some(t)
        } else {
            None
        },
        None => None,
    }
}

/// The error of a reply whose `errorCode` is not the empty string.
pub open spec fn error_code_failure(reply: DevelopReply, stage: Seq<char>) -> Option<Seq<char>> {
    if opt_view(reply.error_code) == Some(Seq::<char>::empty()) {
        None
    } else {
        let code = match opt_view(reply.error_code) {
            Some(c) => c,
            None => "unknown error"@,
        };
        match reply_message(reply) {
            Some(m) => Some(stage + " failed ("@ + code + "): "@ + m),
            None => Some(stage + " failed ("@ + code + ")"@),
        }
    }
}

/// The error of a reply that is not a success: a non-empty `errorCode`, or
/// `ok` other than `true`.
pub open spec fn ok_failure(reply: DevelopReply, stage: Seq<char>) -> Option<Seq<char>> {
    match error_code_failure(reply, stage) {
        Some(m) => Some(m),
        None => if reply.ok != Some(true) {
            Some(stage + " did not report ok=true"@)
        } else {
            None
        },
    }
}

fn is_empty_text(s: &Option<String>) -> (r: bool)
    ensures
        r == (opt_view(*s) == Some(Seq::<char>::empty())),
{
    match s {
        Some(t) => {
            let r = t.unicode_len() == 0;
            assert(r ==> t@ =~= Seq::<char>::empty());
            r
        },
        None => false,
    }
}

/// Fails unless the reply's `errorCode` is the empty string.
pub fn require_empty_error_code(reply: &DevelopReply, stage: &str) -> (r: Result<(), String>)
    ensures
        match error_code_failure(*reply, stage@) {
            None => r is Ok,
            Some(m) => r matches Err(e) && e@ == m,
        },
{
    if is_empty_text(&reply.error_code) {
        return Ok(());
    }
    let code: &str = match &reply.error_code {
        Some(c) => c.as_str(),
        None => "unknown error",
    };
    let chosen: &Option<String> = match &reply.message {
        Some(m) => m,
        None => &reply.error_message,
    };
    let message: Option<&str> = match chosen {
        Some(t) => if t.unicode_len() > 0 {
            Some(t.as_str())
        } else {
            None
        },
        None => None,
    };
    let head = String::from_str(stage).concat(" failed (").concat(code);
    match message {
        Some(m) => Err(head.concat("): ").concat(m)),
        None => Err(head.concat(")")),
    }
}

/// Fails unless the reply's `errorCode` is the empty string and its `ok` is `true`.
pub fn require_ok(reply: &DevelopReply, stage: &str) -> (r: Result<(), String>)
    ensures
        match ok_failure(*reply, stage@) {
            None => r is Ok,
            Some(m) => r matches Err(e) && e@ == m,
        },
{
    match require_empty_error_code(reply, stage) {
        Err(e) => {
            return Err(e);
        },
        Ok(()) => {},
    }
    match reply.ok {
        Some(true) => Ok(()),
        _ => Err(String::from_str(stage).concat(" did not report ok=true")),
    }
}

// ---------------------------------------------------------------------------
// The ADB device
// ---------------------------------------------------------------------------

/// The length of the run of non-space characters at the start of `s`.
pub open spec fn word_len(s: Seq<char>) -> nat
    decreases s.len(),
{
    if s.len() > 0 && !is_space(s[0]) {
        1 + word_len(s.drop_first())
    } else {
        0
    }
}

/// The first white-space separated word of `s` (empty when there is none).
pub open spec fn first_word(s: Seq<char>) -> Seq<char> {
    let t = trim_start_spaces(s);
    t.take(word_len(t) as int)
}

/// What follows the first word of `s`.
pub open spec fn after_first_word(s: Seq<char>) -> Seq<char> {
    let t = trim_start_spaces(s);
    t.skip(word_len(t) as int)
}

/// The serial of a line of `adb devices` whose second word is `device`.
pub open spec fn device_serial(line: Seq<char>) -> Option<Seq<char>> {
    let serial = first_word(line);
    let state = first_word(after_first_word(line));
    if serial.len() > 0 && state == "device"@ {
        Some(serial)
    } else {
        None
    }
}

/// The serials of the online, authorized devices that `adb devices` lists, in order.
pub open spec fn online_serials(lines: Seq<Seq<char>>) -> Seq<Seq<char>>
    decreases lines.len(),
{
    if lines.len() == 0 {
        Seq::empty()
    } else {
        let rest = online_serials(lines.drop_last());
        match device_serial(lines.last()) {
            Some(serial) => rest.push(serial),
            None => rest,
        }
    }
}

/// The end of the run of non-space characters that starts at `from`.
fn word_end(cs: &Vec<char>, from: usize) -> (r: usize)
    requires
        from <= cs.len(),
    ensures
        from <= r <= cs.len(),
        word_len(cs@.skip(from as int)) == r - from,
{
    let mut i = from;
    while i < cs.len() && !is_space_char(cs[i])
        invariant
            from <= i <= cs.len(),
            word_len(cs@.skip(from as int)) == (i - from) + word_len(cs@.skip(i as int)),
        decreases cs.len() - i,
    {
        assert(cs@.skip(i as int).drop_first() =~= cs@.skip(i + 1));
        i = i + 1;
    }
    i
}

fn device_serial_of(line: &Vec<char>) -> (r: Option<Vec<char>>)
    ensures
        match r {
            Some(v) => device_serial(line@) == Some(v@),
            None => device_serial(line@) is None,
        },
{
    let a = skip_spaces(line, 0);
    let e = word_end(line, a);
    let b = skip_spaces(line, e);
    let f = word_end(line, b);
    proof {
        assert(line@.skip(0) =~= line@);
        let t = line@.skip(a as int);
        assert(t.take(e - a) =~= line@.subrange(a as int, e as int));
        assert(t.skip(e - a) =~= line@.skip(e as int));
        let u = line@.skip(b as int);
        assert(u.take(f - b) =~= line@.subrange(b as int, f as int));
    }
    let device: Vec<char> = vec!['d', 'e', 'v', 'i', 'c', 'e'];
    assert(device@ =~= "device"@) by {
        reveal_strlit("device");
    }
    if e == a || f - b != 6 {
        proof {
            reveal_strlit("device");
        }
        return None;
    }
    assert(first_word(line@) == line@.subrange(a as int, e as int));
    assert(first_word(after_first_word(line@)) == line@.subrange(b as int, f as int));
    let mut k: usize = 0;
    while k < 6
        invariant
            k <= 6,
            f - b == 6,
            device_serial(line@) is None <==> line@.subrange(b as int, f as int) != device@,
            b <= f <= line.len(),
            device@ == "device"@,
            device.len() == 6,
            forall|j: int| 0 <= j < k ==> line@[b + j] == device@[j],
        decreases 6 - k,
    {
        if line[b + k] != device[k] {
            assert(line@.subrange(b as int, f as int)[k as int] != device@[k as int]);
            return None;
        }
        k = k + 1;
    }
    assert(line@.subrange(b as int, f as int) =~= device@);
    Some(slice_chars(line, a, e))
}

/// The serials of the online, authorized devices in the output of `adb devices`.
pub fn online_devices(output: &str) -> (r: Vec<String>)
    ensures
        string_views(r@) == online_serials(text_lines(output@)),
{
    let cs = chars_of(output);
    let lines = lines_of(&cs);
    let ghost lv = char_vec_views(lines@);
    let mut out: Vec<String> = Vec::new();
    let mut i: usize = 0;
    while i < lines.len()
        invariant
            i <= lines.len(),
            lv == char_vec_views(lines@),
            lv == text_lines(output@),
            string_views(out@) == online_serials(lv.take(i as int)),
        decreases lines.len() - i,
    {
        assert(lv.take(i + 1).drop_last() =~= lv.take(i as int));
        assert(lv[i as int] == lines@[i as int]@);
        match device_serial_of(&lines[i]) {
            Some(v) => {
                out.push(string_of(&v));
            },
            None => {},
        }
        assert(string_views(out@) =~= online_serials(lv.take(i + 1)));
        i = i + 1;
    }
    assert(lv.take(i as int) =~= lv);
    out
}

/// Which device the calls go to.
#[derive(Debug)]
pub enum DeviceChoice {
    /// This serial.
    Use(String),
    /// Several devices are online: ask the user.
    Ask,
}

/// Why no device could be chosen.
#[derive(Debug)]
pub enum DeviceError {
    /// The requested serial is not online and authorized.
    NotOnline(String),
    /// No device is online and authorized.
    NoDevice,
    /// Several devices are online, and nobody can be asked.
    NotInteractive,
}

impl DeviceError {
    /// The message that the command line shows.
    pub fn message(&self) -> (m: String)
        ensures
            m@ == match self {
                DeviceError::NotOnline(s) => "ADB device is not online or authorized: "@ + s@,
                DeviceError::NoDevice => "no online, authorized ADB device found"@,
                DeviceError::NotInteractive => "multiple ADB devices found; pass --serial <serial> in a non-interactive shell"@,
            },
    {
        match self {
            DeviceError::NotOnline(s) => String::from_str("ADB device is not online or authorized: ").concat(s.as_str()),
            DeviceError::NoDevice => String::from_str("no online, authorized ADB device found"),
            DeviceError::NotInteractive => String::from_str(
                "multiple ADB devices found; pass --serial <serial> in a non-interactive shell",
            ),
        }
    }
}

/// Chooses the device: the requested serial if it is online, the only online
/// device, or the user's answer when several are online and the terminal is
/// interactive.
pub fn choose_device(online: &Vec<String>, requested: Option<&str>, interactive: bool) -> (r: Result<
    DeviceChoice,
    DeviceError,
>)
    ensures
        match requested {
            Some(q) => if string_views(online@).contains(q@) {
                r matches Ok(DeviceChoice::Use(s)) && s@ == q@
            } else {
                r matches Err(DeviceError::NotOnline(s)) && s@ == q@
            },
            None => if online.len() == 0 {
                r matches Err(DeviceError::NoDevice)
            } else if online.len() == 1 {
                r matches Ok(DeviceChoice::Use(s)) && s@ == online@[0]@
            } else if !interactive {
                r matches Err(DeviceError::NotInteractive)
            } else {
                r matches Ok(DeviceChoice::Ask)
            },
        },
{
    match requested {
        Some(q) => {
            let wanted = String::from_str(q);
            let mut i: usize = 0;
            while i < online.len()
                invariant
                    i <= online.len(),
                    wanted@ == q@,
                    requested == Some(q),
                    forall|j: int| 0 <= j < i ==> online@[j]@ != q@,
                decreases online.len() - i,
            {
                if online[i].eq(&wanted) {
                    assert(string_views(online@)[i as int] == q@);
                    return Ok(DeviceChoice::Use(wanted));
                }
                i = i + 1;
            }
            assert(!string_views(online@).contains(q@)) by {
                if string_views(online@).contains(q@) {
                    let j = choose|j: int| 0 <= j < online@.len() && string_views(online@)[j] == q@;
                    assert(online@[j]@ == q@);
                }
            }
            Err(DeviceError::NotOnline(wanted))
        },
        None => {
            if online.len() == 0 {
                Err(DeviceError::NoDevice)
            } else if online.len() == 1 {
                Ok(DeviceChoice::Use(String::from_str(online[0].as_str())))
            } else if !interactive {
                Err(DeviceError::NotInteractive)
            } else {
                Ok(DeviceChoice::Ask)
            }
        },
    }
}

/// The device that an answer to the selection prompt names: the answer,
/// trimmed, is a number from 1 to `count`; the result is its index.
pub fn device_answer(answer: &str, count: usize) -> (r: Option<usize>)
    ensures
        match parse_unsigned(trim_spaces(answer@)) {
            Some(n) => if 1 <= n <= count {
                r == Some((n - 1) as usize)
            } else {
                r is None
            },
            None => r is None,
        },
{
    let cs = chars_of(answer);
    let t = trimmed(&cs, 0, cs.len());
    assert(cs@.subrange(0, cs@.len() as int) =~= answer@);
    assert(t@.subrange(0, t@.len() as int) =~= t@);
    match parse_usize(&t, 0, t.len()) {
        Some(n) => if n >= 1 && n <= count {
            Some(n - 1)
        } else {
            None
        },
        None => None,
    }
}

// ---------------------------------------------------------------------------
// Installation and launch decisions
// ---------------------------------------------------------------------------

/// `s` with ASCII letters in lower case.
pub open spec fn ascii_lower(s: Seq<char>) -> Seq<char> {
    Seq::new(s.len(), |i: int| if 'A' <= s[i] && s[i] <= 'Z' { ((s[i] as u32) + 32) as char } else { s[i] })
}

fn ascii_lower_of(s: &str) -> (r: String)
    ensures
        r@ == ascii_lower(s@),
{
    let cs = chars_of(s);
    let mut out: Vec<char> = Vec::new();
    let mut i: usize = 0;
    while i < cs.len()
        invariant
            i <= cs.len(),
            cs@ == s@,
            out@ =~= ascii_lower(s@).take(i as int),
        decreases cs.len() - i,
    {
        let c = cs[i];
        if 'A' <= c && c <= 'Z' {
            let lower = (c as u32) + 32;
            let d = lower as u8 as char;
            assert(d == ((c as u32) + 32) as char) by {
                assert((lower as u8) as u32 == lower);
            }
            out.push(d);
        } else {
            out.push(c);
        }
        i = i + 1;
    }
    assert(ascii_lower(s@).take(i as int) =~= ascii_lower(s@));
    string_of(&out)
}

/// The outcomes of `apply` that mean the package is in place.
pub open spec fn known_outcome(o: Seq<char>) -> bool {
    o == "CREATED"@ || o == "UPDATED"@ || o == "UNCHANGED"@ || o == "REPAIRED"@
}

/// The members of the reply to `apply` that the installation reads.
#[derive(Debug)]
pub struct ApplyReply {
    pub reply: DevelopReply,
    /// `agentId`, when it is a string.
    pub agent_id: Option<String>,
    /// `outcome`, when it is a string.
    pub outcome: Option<String>,
    /// `operationId`, when it is a string.
    pub operation_id: Option<String>,
}

/// The error of an `apply` reply for the Agent `agent_id`, or the outcome and
/// operation id that it reports.
pub open spec fn apply_result(a: ApplyReply, agent_id: Seq<char>) -> Result<(Seq<char>, Seq<char>), Seq<char>> {
    match error_code_failure(a.reply, "apply"@) {
        Some(m) => Err(m),
        None => if opt_view(a.agent_id) != Some(agent_id) {
            Err("apply agentId does not match agent.json"@)
        } else {
            match opt_view(a.outcome) {
                None => Err("apply outcome is missing"@),
                Some(o) => if !known_outcome(o) {
                    Err("unexpected apply outcome: "@ + o)
                } else {
                    match opt_view(a.operation_id) {
                        Some(op) => if trim_spaces(op).len() > 0 {
                            Ok((o, op))
                        } else {
                            Err("apply operationId is missing"@)
                        },
                        None => Err("apply operationId is missing"@),
                    }
                },
            }
        },
    }
}

fn text_is(s: &str, lit: &str) -> (r: bool)
    ensures
        r == (s@ == lit@),
{
    let a = String::from_str(s);
    let b = String::from_str(lit);
    a.eq(&b)
}

/// Checks the reply to `apply`: no error code, the Agent of `agent.json`, a
/// known outcome and an operation id; returns the outcome and the operation id.
pub fn check_apply(applied: &ApplyReply, agent_id: &str) -> (r: Result<(String, String), String>)
    ensures
        match apply_result(*applied, agent_id@) {
            Ok((o, op)) => r matches Ok((a, b)) && a@ == o && b@ == op,
            Err(m) => r matches Err(e) && e@ == m,
        },
{
    match require_empty_error_code(&applied.reply, "apply") {
        Err(e) => {
            return Err(e);
        },
        Ok(()) => {},
    }
    let same = match &applied.agent_id {
        Some(a) => text_is(a.as_str(), agent_id),
        None => false,
    };
    if !same {
        return Err(String::from_str("apply agentId does not match agent.json"));
    }
    let outcome = match &applied.outcome {
        Some(o) => o,
        None => {
            return Err(String::from_str("apply outcome is missing"));
        },
    };
    let known = text_is(outcome.as_str(), "CREATED") || text_is(outcome.as_str(), "UPDATED") || text_is(
        outcome.as_str(),
        "UNCHANGED",
    ) || text_is(outcome.as_str(), "REPAIRED");
    if !known {
        return Err(String::from_str("unexpected apply outcome: ").concat(outcome.as_str()));
    }
    match &applied.operation_id {
        Some(op) => {
            let cs = chars_of(op.as_str());
            let t = trimmed(&cs, 0, cs.len());
            assert(cs@.subrange(0, cs@.len() as int) =~= op@);
            if t.len() > 0 {
                Ok((outcome.clone(), op.clone()))
            } else {
                Err(String::from_str("apply operationId is missing"))
            }
        },
        None => Err(String::from_str("apply operationId is missing")),
    }
}

/// The publish state of a `status` reply (`UNKNOWN` when absent), or its error.
pub open spec fn status_result(reply: DevelopReply, publish_state: Option<Seq<char>>) -> Result<Seq<char>, Seq<char>> {
    match error_code_failure(reply, "status"@) {
        Some(m) => Err(m),
        None => {
            let state = match publish_state {
                Some(s) => s,
                None => "UNKNOWN"@,
            };
            if state == "FAILED_RETRYABLE"@ || state == "FAILED_PERMANENT"@ {
                Err("upload stopped with publishState="@ + state)
            } else {
                Ok(state)
            }
        },
    }
}

/// Checks the reply to `status`: no error code, and an upload that has not
/// failed; returns the publish state.
pub fn check_status(reply: &DevelopReply, publish_state: Option<&str>) -> (r: Result<String, String>)
    ensures
        match status_result(*reply, match publish_state {
            Some(s) => Some(s@),
            None => None,
        }) {
            Ok(s) => r matches Ok(t) && t@ == s,
            Err(m) => r matches Err(e) && e@ == m,
        },
{
    match require_empty_error_code(reply, "status") {
        Err(e) => {
            return Err(e);
        },
        Ok(()) => {},
    }
    let state: &str = match publish_state {
        Some(s) => s,
        None => "UNKNOWN",
    };
    if text_is(state, "FAILED_RETRYABLE") || text_is(state, "FAILED_PERMANENT") {
        return Err(String::from_str("upload stopped with publishState=").concat(state));
    }
    Ok(String::from_str(state))
}

/// What the installation reports of the phone upload: `confirmed` once the
/// package is uploaded, otherwise the publish state in lower case.
pub fn upload_summary(publish_state: &str) -> (r: String)
    ensures
        r@ == if publish_state@ == "UPLOADED"@ {
            "confirmed"@
        } else {
            ascii_lower(publish_state@)
        },
{
    if text_is(publish_state, "UPLOADED") {
        String::from_str("confirmed")
    } else {
        ascii_lower_of(publish_state)
    }
}

/// The outcome of an installation as it is reported, in lower case.
pub fn outcome_summary(outcome: &str) -> (r: String)
    ensures
        r@ == ascii_lower(outcome@),
{
    ascii_lower_of(outcome)
}

/// The staging directory on the device when `prepare` names none.
pub open spec fn default_inbox() -> Seq<char> {
    "/sdcard/aiui/package/.staging/adb"@
}

/// The inbox of a `prepare` reply: its `inboxPath` unless that is blank,
/// otherwise the default staging directory; an error unless it is ready.
pub open spec fn inbox_result(reply: DevelopReply, ready: Option<bool>, inbox: Option<Seq<char>>) -> Result<Seq<char>, Seq<char>> {
    match error_code_failure(reply, "prepare"@) {
        Some(m) => Err(m),
        None => if ready != Some(true) {
            Err("prepare did not report ready=true"@)
        } else {
            match inbox {
                Some(p) => if trim_spaces(p).len() > 0 {
                    Ok(p)
                } else {
                    Ok(default_inbox())
                },
                None => Ok(default_inbox()),
            }
        },
    }
}

/// Checks the reply to `prepare` and returns the inbox that files go to.
pub fn prepared_inbox(reply: &DevelopReply, ready: Option<bool>, inbox: Option<&str>) -> (r: Result<String, String>)
    ensures
        match inbox_result(*reply, ready, match inbox {
            Some(p) => Some(p@),
            None => None,
        }) {
            Ok(p) => r matches Ok(t) && t@ == p,
            Err(m) => r matches Err(e) && e@ == m,
        },
{
    match require_empty_error_code(reply, "prepare") {
        Err(e) => {
            return Err(e);
        },
        Ok(()) => {},
    }
    if ready != Some(true) {
        return Err(String::from_str("prepare did not report ready=true"));
    }
    let fallback = String::from_str("/sdcard/aiui/package/.staging/adb");
    match inbox {
        Some(p) => {
            let cs = chars_of(p);
            let t = trimmed(&cs, 0, cs.len());
            assert(cs@.subrange(0, cs@.len() as int) =~= p@);
            if t.len() > 0 {
                Ok(String::from_str(p))
            } else {
                Ok(fallback)
            }
        },
        None => Ok(fallback),
    }
}

/// `s` without trailing `/`.
pub open spec fn trim_end_slashes(s: Seq<char>) -> Seq<char>
    decreases s.len(),
{
    if s.len() > 0 && s.last() == '/' {
        trim_end_slashes(s.drop_last())
    } else {
        s
    }
}

/// The path of a file in a device directory: the directory without trailing
/// `/`, a `/`, and the file name.
pub fn remote_file(directory: &str, file: &str) -> (r: String)
    ensures
        r@ == trim_end_slashes(directory@) + "/"@ + file@,
{
    let cs = chars_of(directory);
    let mut end = cs.len();
    assert(cs@.take(end as int) =~= cs@);
    while end > 0 && cs[end - 1] == '/'
        invariant
            end <= cs.len(),
            cs@ == directory@,
            trim_end_slashes(directory@) == trim_end_slashes(cs@.take(end as int)),
        decreases end,
    {
        assert(cs@.take(end as int).drop_last() =~= cs@.take(end - 1));
        end = end - 1;
    }
    let mut out: Vec<char> = Vec::new();
    let mut k: usize = 0;
    while k < end
        invariant
            k <= end,
            end <= cs.len(),
            out@ =~= cs@.take(k as int),
        decreases end - k,
    {
        out.push(cs[k]);
        k = k + 1;
    }
    assert(trim_end_slashes(cs@.take(end as int)) == cs@.take(end as int));
    string_of(&out).concat("/").concat(file)
}

/// `launch-widget` needs the device in Developer Mode.
pub fn require_developer_mode(environment: Option<&str>) -> (r: Result<(), String>)
    ensures
        r is Ok <==> (match environment {
            Some(e) => e@ == "dev"@,
            None => false,
        }),
        r matches Err(e) ==> e@ == "launch-widget requires Developer Mode; run `aix device set-dev`"@,
{
    let dev = match environment {
        Some(e) => text_is(e, "dev"),
        None => false,
    };
    if dev {
        Ok(())
    } else {
        Err(String::from_str("launch-widget requires Developer Mode; run `aix device set-dev`"))
    }
}

/// Whether a Widget launch applies the layout again and retries: the layout
/// was left unchanged, and the device answered that the placement is missing.
pub fn should_reapply_layout(changed: bool, error_code: Option<&str>) -> (r: bool)
    ensures
        r == (!changed && match error_code {
            Some(c) => c@ == "WIDGET_PLACEMENT_MISSING"@,
            None => false,
        }),
{
    if changed {
        return false;
    }
    match error_code {
        Some(c) => text_is(c, "WIDGET_PLACEMENT_MISSING"),
        None => false,
    }
}

/// What `aix device` shows for the Developer Mode of an environment.
pub fn developer_mode_label(environment: Option<&str>) -> (r: &'static str)
    ensures
        r@ == match environment {
            Some(e) => if e@ == "dev"@ {
                "enabled"@
            } else if e@ == "prod"@ {
                "disabled"@
            } else {
                "unknown"@
            },
            None => "unknown"@,
        },
{
    match environment {
        Some(e) => if text_is(e, "dev") {
            "enabled"
        } else if text_is(e, "prod") {
            "disabled"
        } else {
            "unknown"
        },
        None => "unknown",
    }
}

/// The largest package that the device accepts: 128 MiB.
pub open spec fn max_package_bytes() -> nat {
    128 * 1024 * 1024
}

/// Refuses a package larger than 128 MiB.
pub fn check_package_size(bytes: u64) -> (r: Result<(), String>)
    ensures
        bytes <= max_package_bytes() ==> r is Ok,
        bytes > max_package_bytes() ==> (r matches Err(e) && e@ == "package is larger than 128 MiB ("@
            + decimal(bytes as nat) + " bytes)"@),
{
    if bytes <= 128 * 1024 * 1024 {
        return Ok(());
    }
    let mut digits: Vec<char> = Vec::new();
    push_decimal(&mut digits, bytes as u128);
    assert(digits@ =~= decimal(bytes as nat));
    Err(String::from_str("package is larger than 128 MiB (").concat(string_of(&digits).as_str()).concat(" bytes)"))
}

} // verus!
