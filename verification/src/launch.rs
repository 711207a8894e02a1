//! Launch helpers of the device command line: Agent identities, shell quoting
//! of the `open` request, the DEVELOP content-provider calls, Page and Widget
//! routes, Widget families, and the `result_data` replies of the device.
use vstd::prelude::*;

use crate::develop::{
    json_bytes_accepted, json_bytes_value, json_error_text, json_text_accepted, json_value,
    parse_json_bytes, parse_json_value, JsonValue,
};
use crate::paths::{char_vec_views, split_chars, split_on};
use crate::text::{chars_of, is_digit, string_of};
use vstd::string::StringExecFns;

verus! {



// ---------------------------------------------------------------------------
// Agent identities
// ---------------------------------------------------------------------------

/// `develop.rokid.agent.`
pub open spec fn agent_prefix() -> Seq<char> {
    seq!['d', 'e', 'v', 'e', 'l', 'o', 'p', '.', 'r', 'o', 'k', 'i', 'd', '.', 'a', 'g', 'e', 'n', 't', '.']
}

/// A character of an Agent identity: ASCII letters in lower case, ASCII digits,
/// `_` and `-` are kept; every other character becomes `-`.
pub open spec fn agent_char(c: char) -> char {
    if 'A' <= c && c <= 'Z' {
        ((c as u32) + 32) as char
    } else if ('a' <= c && c <= 'z') || ('0' <= c && c <= '9') || c == '_' || c == '-' {
        c
    } else {
        '-'
    }
}

/// `s` without leading `-`.
pub open spec fn trim_dashes_start(s: Seq<char>) -> Seq<char>
    decreases s.len(),
{
    if s.len() > 0 && s[0] == '-' {
        trim_dashes_start(s.drop_first())
    } else {
        s
    }
}

/// `s` without trailing `-`.
pub open spec fn trim_dashes_end(s: Seq<char>) -> Seq<char>
    decreases s.len(),
{
    if s.len() > 0 && s.last() == '-' {
        trim_dashes_end(s.drop_last())
    } else {
        s
    }
}

/// The normalized identity of a package version or project identifier:
/// characters mapped by [`agent_char`], then `-` trimmed at both ends.
pub open spec fn normalized_agent_id(id: Seq<char>) -> Seq<char> {
    trim_dashes_end(trim_dashes_start(Seq::new(id.len(), |i: int| agent_char(id[i]))))
}

fn agent_char_of(c: char) -> (r: char)
    ensures
        r == agent_char(c),
{
    if 'A' <= c && c <= 'Z' {
        let lower = (c as u32) + 32;
        let r = lower as u8 as char;
        assert(r == agent_char(c)) by {
            assert((lower as u8) as u32 == lower);
        }
        r
    } else if ('a' <= c && c <= 'z') || ('0' <= c && c <= '9') || c == '_' || c == '-' {
        c
    } else {
        '-'
    }
}

/// Formats a package version or project identifier as a namespaced DEVELOP
/// Agent ID, `develop.rokid.agent.<id>`; `None` when nothing is left of the
/// identifier after normalization.
pub fn format_agent_id(id: &str) -> (r: Option<String>)
    ensures
        normalized_agent_id(id@).len() == 0 ==> r is None,
        normalized_agent_id(id@).len() > 0 ==> (r matches Some(s) && s@ == agent_prefix() + normalized_agent_id(id@)),
{
    let cs = chars_of(id);
    let ghost mapped = Seq::new(id@.len(), |i: int| agent_char(id@[i]));
    let mut m: Vec<char> = Vec::new();
    let mut i: usize = 0;
    while i < cs.len()
        invariant
            i <= cs.len(),
            cs@ == id@,
            mapped.len() == id@.len(),
            forall|j: int| 0 <= j < mapped.len() ==> mapped[j] == agent_char(#[trigger] id@[j]),
            m@ =~= mapped.take(i as int),
        decreases cs.len() - i,
    {
        m.push(agent_char_of(cs[i]));
        i = i + 1;
    }
    assert(mapped.take(i as int) =~= mapped);
    let mut start: usize = 0;
    while start < m.len() && m[start] == '-'
        invariant
            start <= m.len(),
            trim_dashes_start(m@) == trim_dashes_start(m@.skip(start as int)),
        decreases m.len() - start,
    {
        assert(m@.skip(start as int).drop_first() =~= m@.skip(start + 1));
        start = start + 1;
    }
    let ghost front = m@.skip(start as int);
    assert(trim_dashes_start(front) == front);
    let mut end: usize = m.len();
    while end > start && m[end - 1] == '-'
        invariant
            start <= end <= m.len(),
            front == m@.skip(start as int),
            trim_dashes_end(front) == trim_dashes_end(m@.subrange(start as int, end as int)),
        decreases end,
    {
        assert(m@.subrange(start as int, end as int).drop_last() =~= m@.subrange(start as int, end - 1));
        end = end - 1;
    }
    let ghost core = m@.subrange(start as int, end as int);
    assert(trim_dashes_end(core) == core);
    if start == end {
        assert(core.len() == 0);
        return None;
    }
    let mut out: Vec<char> = vec![
        'd', 'e', 'v', 'e', 'l', 'o', 'p', '.', 'r', 'o', 'k', 'i', 'd', '.', 'a', 'g', 'e', 'n', 't', '.',
    ];
    assert(out@ =~= agent_prefix());
    let mut k: usize = start;
    while k < end
        invariant
            start <= k <= end,
            end <= m.len(),
            out@ =~= agent_prefix() + m@.subrange(start as int, k as int),
        decreases end - k,
    {
        out.push(m[k]);
        k = k + 1;
    }
    Some(string_of(&out))
}

// ---------------------------------------------------------------------------
// Shell quoting
// ---------------------------------------------------------------------------

/// The body of a single-quoted shell word: every `'` becomes `'"'"'`, which
/// closes the quotes, adds a double-quoted `'`, and reopens them.
pub open spec fn quote_body(s: Seq<char>) -> Seq<char>
    decreases s.len(),
{
    if s.len() == 0 {
        Seq::empty()
    } else if s.last() == '\'' {
        quote_body(s.drop_last()) + seq!['\'', '"', '\'', '"', '\'']
    } else {
        quote_body(s.drop_last()).push(s.last())
    }
}

/// Quotes a value as one word for a POSIX shell.
pub fn shell_quote(value: &str) -> (r: String)
    ensures
        r@ == seq!['\''] + quote_body(value@) + seq!['\''],
{
    let cs = chars_of(value);
    let mut out: Vec<char> = vec!['\''];
    let mut i: usize = 0;
    while i < cs.len()
        invariant
            i <= cs.len(),
            cs@ == value@,
            out@ =~= seq!['\''] + quote_body(cs@.take(i as int)),
        decreases cs.len() - i,
    {
        let c = cs[i];
        assert(cs@.take(i + 1).drop_last() =~= cs@.take(i as int));
        if c == '\'' {
            out.push('\'');
            out.push('"');
            out.push('\'');
            out.push('"');
            out.push('\'');
        } else {
            out.push(c);
        }
        i = i + 1;
    }
    assert(cs@.take(i as int) =~= cs@);
    out.push('\'');
    string_of(&out)
}


// ---------------------------------------------------------------------------
// DEVELOP content-provider calls
// ---------------------------------------------------------------------------

/// The URI of the DEVELOP content provider.
pub open spec fn develop_uri() -> Seq<char> {
    "content://com.rokid.aiui.develop"@
}

pub open spec fn string_views(v: Seq<String>) -> Seq<Seq<char>> {
    v.map_values(|s: String| s@)
}

/// The `adb` arguments that call a DEVELOP method, with its optional argument.
pub open spec fn content_call_args(method: Seq<char>, arg: Option<Seq<char>>) -> Seq<Seq<char>> {
    let base = seq!["shell"@, "content"@, "call"@, "--uri"@, develop_uri(), "--method"@, method];
    match arg {
        Some(a) => base + seq!["--arg"@, a],
        None => base,
    }
}

/// The `adb` arguments that call the DEVELOP method `method`.
pub fn content_call(method: &str, arg: Option<&str>) -> (r: Vec<String>)
    ensures
        string_views(r@) == content_call_args(
            method@,
            match arg {
                Some(a) => Some(a@),
                None => None,
            },
        ),
{
    let mut args: Vec<String> = Vec::new();
    args.push(String::from_str("shell"));
    args.push(String::from_str("content"));
    args.push(String::from_str("call"));
    args.push(String::from_str("--uri"));
    args.push(String::from_str("content://com.rokid.aiui.develop"));
    args.push(String::from_str("--method"));
    args.push(String::from_str(method));
    match arg {
        Some(a) => {
            args.push(String::from_str("--arg"));
            args.push(String::from_str(a));
        },
        None => {},
    }
    assert(string_views(args@) =~= content_call_args(
        method@,
        match arg {
            Some(a) => Some(a@),
            None => None,
        },
    ));
    args
}

// ---------------------------------------------------------------------------
// Agent Definitions
// ---------------------------------------------------------------------------

/// Why an Agent Definition was refused.
#[derive(Debug, Clone, Copy, PartialEq, Eq, Structural)]
pub enum DefinitionError {
    /// `agentId` is absent or not a string.
    MissingAgentId,
    /// `agentId` is not of the form `develop.rokid.<business>.<id>`.
    BadAgentId,
}

impl DefinitionError {
    pub fn message(&self) -> (m: &'static str)
        ensures
            m@ == match self {
                DefinitionError::MissingAgentId => "agent.json agentId is missing"@,
                DefinitionError::BadAgentId => "agent.json agentId must use the develop.rokid.<business>.<id> format"@,
            },
    {
        match self {
            DefinitionError::MissingAgentId => "agent.json agentId is missing",
            DefinitionError::BadAgentId => "agent.json agentId must use the develop.rokid.<business>.<id> format",
        }
    }
}

/// A DEVELOP Agent ID: at least four `.`-separated parts, the first two
/// `develop` and `rokid`, none of the others empty.
pub open spec fn is_develop_agent_id(id: Seq<char>) -> bool {
    let parts = split_on(id, '.');
    &&& parts.len() >= 4
    &&& parts[0] == seq!['d', 'e', 'v', 'e', 'l', 'o', 'p']
    &&& parts[1] == seq!['r', 'o', 'k', 'i', 'd']
    &&& forall|i: int| 2 <= i < parts.len() ==> (#[trigger] parts[i]).len() > 0
}

fn chars_equal(a: &Vec<char>, b: &Vec<char>) -> (r: bool)
    ensures
        r == (a@ == b@),
{
    if a.len() != b.len() {
        return false;
    }
    let mut i: usize = 0;
    while i < a.len()
        invariant
            i <= a.len(),
            a.len() == b.len(),
            forall|j: int| 0 <= j < i ==> a@[j] == b@[j],
        decreases a.len() - i,
    {
        if a[i] != b[i] {
            return false;
        }
        i = i + 1;
    }
    assert(a@ =~= b@);
    true
}

/// Checks the `agentId` of an Agent Definition (the string it holds, if any)
/// and returns it.
pub fn validate_definition(agent_id: Option<&str>) -> (r: Result<String, DefinitionError>)
    ensures
        match agent_id {
            None => r == Err::<String, DefinitionError>(DefinitionError::MissingAgentId),
            Some(id) => if is_develop_agent_id(id@) {
                r matches Ok(s) && s@ == id@
            } else {
                r == Err::<String, DefinitionError>(DefinitionError::BadAgentId)
            },
        },
{
    let id = match agent_id {
        Some(id) => id,
        None => {
            return Err(DefinitionError::MissingAgentId);
        },
    };
    let cs = chars_of(id);
    let parts = split_chars(&cs, '.');
    let ghost pv = char_vec_views(parts@);
    if parts.len() < 4 {
        return Err(DefinitionError::BadAgentId);
    }
    let develop: Vec<char> = vec!['d', 'e', 'v', 'e', 'l', 'o', 'p'];
    let rokid: Vec<char> = vec!['r', 'o', 'k', 'i', 'd'];
    assert(develop@ =~= seq!['d', 'e', 'v', 'e', 'l', 'o', 'p']);
    assert(rokid@ =~= seq!['r', 'o', 'k', 'i', 'd']);
    if !chars_equal(&parts[0], &develop) || !chars_equal(&parts[1], &rokid) {
        assert(pv[0] == parts@[0]@ && pv[1] == parts@[1]@);
        return Err(DefinitionError::BadAgentId);
    }
    let mut i: usize = 2;
    while i < parts.len()
        invariant
            2 <= i <= parts.len(),
            pv == char_vec_views(parts@),
            pv == split_on(id@, '.'),
            agent_id == Some(id),
            forall|j: int| 2 <= j < i ==> (#[trigger] pv[j]).len() > 0,
        decreases parts.len() - i,
    {
        if parts[i].len() == 0 {
            assert(pv[i as int].len() == 0);
            assert(!is_develop_agent_id(id@));
            return Err(DefinitionError::BadAgentId);
        }
        i = i + 1;
    }
    Ok(String::from_str(id))
}

// ---------------------------------------------------------------------------
// Numbers
// ---------------------------------------------------------------------------

/// The value of a string of decimal digits.
pub open spec fn digits_value(s: Seq<char>) -> nat
    decreases s.len(),
{
    if s.len() == 0 {
        0
    } else {
        digits_value(s.drop_last()) * 10 + ((s.last() as u32) - 48) as nat
    }
}

/// `s` without one leading `+`.
pub open spec fn unsigned_body(s: Seq<char>) -> Seq<char> {
    if s.len() > 0 && s[0] == '+' {
        s.drop_first()
    } else {
        s
    }
}

/// Every character of `s` is an ASCII digit.
pub open spec fn all_digits(s: Seq<char>) -> bool {
    forall|i: int| 0 <= i < s.len() ==> is_digit(#[trigger] s[i])
}

/// What `str::parse` accepts for an unsigned integer type whose largest value
/// is `max`: an optional `+`, then one or more ASCII digits, with a value that
/// is at most `max`.
pub open spec fn parse_unsigned_within(s: Seq<char>, max: nat) -> Option<nat> {
    let body = unsigned_body(s);
    if body.len() > 0 && all_digits(body) && digits_value(body) <= max {
        Some(digits_value(body))
    } else {
        None
    }
}

/// What `str::parse::<usize>` accepts.
pub open spec fn parse_unsigned(s: Seq<char>) -> Option<nat> {
    parse_unsigned_within(s, usize::MAX as nat)
}

/// Parses `s[from..to]` as `str::parse` does for an unsigned integer type
/// whose largest value is `max`.
pub fn parse_within(s: &Vec<char>, from: usize, to: usize, max: u64) -> (r: Option<u64>)
    requires
        from <= to <= s.len(),
    ensures
        match parse_unsigned_within(s@.subrange(from as int, to as int), max as nat) {
            Some(n) => r == Some(n as u64),
            None => r is None,
        },
{
    let ghost whole = s@.subrange(from as int, to as int);
    let mut start = from;
    if start < to && s[start] == '+' {
        start = start + 1;
    }
    let ghost body = s@.subrange(start as int, to as int);
    assert(body =~= unsigned_body(whole));
    if start == to {
        return None;
    }
    let mut acc: u128 = 0;
    let mut over = false;
    let mut i = start;
    while i < to
        invariant
            from <= start <= i <= to,
            to <= s.len(),
            body == s@.subrange(start as int, to as int),
            whole == s@.subrange(from as int, to as int),
            body == unsigned_body(whole),
            body.len() > 0,
            forall|j: int| start <= j < i ==> is_digit(#[trigger] s@[j]),
            over ==> digits_value(s@.subrange(start as int, i as int)) > max,
            !over ==> acc == digits_value(s@.subrange(start as int, i as int)),
            !over ==> acc <= max,
        decreases to - i,
    {
        let c = s[i];
        if !('0' <= c && c <= '9') {
            proof {
                let k = i - start;
                assert(body[k] == s@[i as int]);
                assert(!all_digits(body));
            }
            return None;
        }
        assert(s@.subrange(start as int, i + 1).drop_last() =~= s@.subrange(start as int, i as int));
        if !over {
            acc = acc * 10 + ((c as u32) - 48) as u128;
            if acc > max as u128 {
                over = true;
            }
        }
        i = i + 1;
    }
    assert(s@.subrange(start as int, i as int) =~= body);
    assert(all_digits(body)) by {
        assert forall|j: int| 0 <= j < body.len() implies is_digit(#[trigger] body[j]) by {
            assert(body[j] == s@[start + j]);
        }
    }
    if over {
        None
    } else {
        Some(acc as u64)
    }
}

/// Parses `s[from..to]` as `str::parse::<usize>` does.
pub fn parse_usize(s: &Vec<char>, from: usize, to: usize) -> (r: Option<usize>)
    requires
        from <= to <= s.len(),
    ensures
        match parse_unsigned(s@.subrange(from as int, to as int)) {
            Some(n) => r == Some(n as usize),
            None => r is None,
        },
{
    match parse_within(s, from, to, usize::MAX as u64) {
        Some(n) => Some(n as usize),
        None => None,
    }
}

// ---------------------------------------------------------------------------
// Widget families
// ---------------------------------------------------------------------------

/// A Widget entry of `app.json`: its `path` and `family`, when they are strings.
pub struct WidgetDeclaration {
    pub path: Option<String>,
    pub family: Option<String>,
}

pub open spec fn opt_view(o: Option<String>) -> Option<Seq<char>> {
    match o {
        Some(s) => Some(s@),
        None => None,
    }
}

/// Why a Widget's size could not be derived from its family.
#[derive(Debug, Clone, Copy, PartialEq, Eq, Structural)]
pub enum FamilyError {
    /// No Widget with the path, or its family is not a string.
    NotDeclared,
    /// The family has no `x`.
    NoSeparator,
    /// The row count is not a number.
    BadRows,
    /// The column count is not a number.
    BadColumns,
    /// A dimension is zero.
    ZeroSize,
}

impl FamilyError {
    /// The message that the command line shows for the Widget `path`.
    pub fn message(&self, path: &str) -> (m: String)
        ensures
            m@ == match self {
                FamilyError::NotDeclared => "Widget path or family is not declared in app.json: "@ + path@,
                FamilyError::NoSeparator => "Widget family must use the <rows>x<columns> format"@,
                FamilyError::BadRows => "Widget family row count is invalid"@,
                FamilyError::BadColumns => "Widget family column count is invalid"@,
                FamilyError::ZeroSize => "Widget family dimensions must be greater than zero"@,
            },
    {
        match self {
            FamilyError::NotDeclared => String::from_str(
                "Widget path or family is not declared in app.json: ",
            ).concat(path),
            FamilyError::NoSeparator => String::from_str("Widget family must use the <rows>x<columns> format"),
            FamilyError::BadRows => String::from_str("Widget family row count is invalid"),
            FamilyError::BadColumns => String::from_str("Widget family column count is invalid"),
            FamilyError::ZeroSize => String::from_str("Widget family dimensions must be greater than zero"),
        }
    }
}

pub open spec fn is_first_widget(widgets: Seq<WidgetDeclaration>, path: Seq<char>, i: int) -> bool {
    &&& 0 <= i < widgets.len()
    &&& opt_view(widgets[i].path) == Some(path)
    &&& forall|j: int| 0 <= j < i ==> opt_view(#[trigger] widgets[j].path) != Some(path)
}

/// The family declared by the first Widget with the path.
pub open spec fn declared_family(widgets: Seq<WidgetDeclaration>, path: Seq<char>) -> Option<Seq<char>> {
    if exists|i: int| is_first_widget(widgets, path, i) {
        opt_view(widgets[choose|i: int| is_first_widget(widgets, path, i)].family)
    } else {
        None
    }
}

/// The index of the first `c` in `s`.
pub open spec fn is_first_index(s: Seq<char>, c: char, i: int) -> bool {
    0 <= i < s.len() && s[i] == c && forall|j: int| 0 <= j < i ==> s[j] != c
}

/// The size of a Widget family `<rows>x<columns>`, as (columns, rows).
pub open spec fn family_size(family: Seq<char>) -> Result<(nat, nat), FamilyError> {
    if !(exists|i: int| is_first_index(family, 'x', i)) {
        Err(FamilyError::NoSeparator)
    } else {
        let i = choose|i: int| is_first_index(family, 'x', i);
        match (parse_unsigned(family.take(i)), parse_unsigned(family.skip(i + 1))) {
            (None, _) => Err(FamilyError::BadRows),
            (Some(_), None) => Err(FamilyError::BadColumns),
            (Some(r), Some(c)) => if r == 0 || c == 0 {
                Err(FamilyError::ZeroSize)
            } else {
                Ok((c, r))
            },
        }
    }
}

/// The grid size (columns, rows) of the Widget `path`, from the family that
/// `app.json` declares for it.
pub fn widget_family_size(widgets: &Vec<WidgetDeclaration>, path: &str) -> (r: Result<(usize, usize), FamilyError>)
    ensures
        match declared_family(widgets@, path@) {
            None => r == Err::<(usize, usize), FamilyError>(FamilyError::NotDeclared),
            Some(f) => match family_size(f) {
                Ok((c, rw)) => r == Ok::<(usize, usize), FamilyError>((c as usize, rw as usize)),
                Err(e) => r == Err::<(usize, usize), FamilyError>(e),
            },
        },
{
    let target = String::from_str(path);
    let mut i: usize = 0;
    let mut found: Option<usize> = None;
    while i < widgets.len() && found.is_none()
        invariant
            i <= widgets.len(),
            target@ == path@,
            found matches Some(k) ==> k < widgets.len() && opt_view(widgets@[k as int].path) == Some(path@),
            found matches Some(k) ==> forall|j: int| 0 <= j < k ==> opt_view(#[trigger] widgets@[j].path) != Some(path@),
            found is None ==> forall|j: int| 0 <= j < i ==> opt_view(#[trigger] widgets@[j].path) != Some(path@),
        decreases (widgets.len() - i) * 2 + (if found is None { 1int } else { 0int }),
    {
        let hit = match &widgets[i].path {
            Some(p) => p.eq(&target),
            None => false,
        };
        if hit {
            found = Some(i);
        } else {
            i = i + 1;
        }
    }
    let idx = match found {
        Some(k) => k,
        None => {
            assert forall|k: int| !is_first_widget(widgets@, path@, k) by {
                if 0 <= k < widgets@.len() {
                    assert(opt_view(widgets@[k].path) != Some(path@));
                }
            }
            return Err(FamilyError::NotDeclared);
        },
    };
    proof {
        assert(is_first_widget(widgets@, path@, idx as int));
        let c = choose|k: int| is_first_widget(widgets@, path@, k);
        if c < idx {
        } else if c > idx {
            assert(opt_view(widgets@[idx as int].path) != Some(path@));
        }
    }
    let family = match &widgets[idx].family {
        Some(f) => f,
        None => {
            return Err(FamilyError::NotDeclared);
        },
    };
    let fs = chars_of(family.as_str());
    let mut x: usize = 0;
    while x < fs.len() && fs[x] != 'x'
        invariant
            x <= fs.len(),
            forall|j: int| 0 <= j < x ==> fs@[j] != 'x',
        decreases fs.len() - x,
    {
        x = x + 1;
    }
    if x == fs.len() {
        assert forall|k: int| !is_first_index(fs@, 'x', k) by {}
        return Err(FamilyError::NoSeparator);
    }
    proof {
        assert(is_first_index(fs@, 'x', x as int));
        let c = choose|k: int| is_first_index(fs@, 'x', k);
        if c < x {
        } else if c > x {
        }
        assert(fs@.take(x as int) =~= fs@.subrange(0, x as int));
        assert(fs@.skip(x + 1) =~= fs@.subrange(x + 1, fs.len() as int));
    }
    let rows = match parse_usize(&fs, 0, x) {
        Some(r) => r,
        None => {
            return Err(FamilyError::BadRows);
        },
    };
    let columns = match parse_usize(&fs, x + 1, fs.len()) {
        Some(c) => c,
        None => {
            return Err(FamilyError::BadColumns);
        },
    };
    if rows == 0 || columns == 0 {
        return Err(FamilyError::ZeroSize);
    }
    Ok((columns, rows))
}

// ---------------------------------------------------------------------------
// Launch routes
// ---------------------------------------------------------------------------

/// How the device opens a route.
#[derive(Debug, Clone, Copy, PartialEq, Eq, Structural)]
pub enum OpenTarget {
    /// `_blank`: a Page, full screen.
    Blank,
    /// `_current`: a Page, as a card.
    Current,
    /// `_widget`: a Widget.
    Widget,
}

impl OpenTarget {
    /// The target's name in the `open` request.
    pub fn protocol_name(&self) -> (r: &'static str)
        ensures
            r@ == match self {
                OpenTarget::Blank => "_blank"@,
                OpenTarget::Current => "_current"@,
                OpenTarget::Widget => "_widget"@,
            },
    {
        match self {
            OpenTarget::Blank => "_blank",
            OpenTarget::Current => "_current",
            OpenTarget::Widget => "_widget",
        }
    }
}

/// Why a launch route was refused.
#[derive(Debug)]
pub enum RouteError {
    /// No path was given and `app.json` declares no Page.
    NoPages,
    /// The path is neither a declared Page nor a declared Widget.
    Undeclared(String),
    /// The `widget` target was asked for a path that is not a Widget.
    WidgetTargetNeedsWidget,
    /// A Page target (as it was written) was asked for a path that is not a Page.
    PageTargetNeedsPage(String),
    /// The target is none of `blank`, `current` and `widget`.
    BadTarget,
}

impl RouteError {
    /// The message that the command line shows.
    pub fn message(&self) -> (m: String)
        ensures
            m@ == match self {
                RouteError::NoPages => "no launch path was provided and app.json declares no pages"@,
                RouteError::Undeclared(p) => "launch path is not declared in app.json pages or widgets: "@ + p@,
                RouteError::WidgetTargetNeedsWidget => "target widget requires a path declared in app.json widgets"@,
                RouteError::PageTargetNeedsPage(t) => "target "@ + t@ + " requires a path declared in app.json pages"@,
                RouteError::BadTarget => "target must be blank, current, or widget"@,
            },
    {
        match self {
            RouteError::NoPages => String::from_str("no launch path was provided and app.json declares no pages"),
            RouteError::Undeclared(p) => String::from_str(
                "launch path is not declared in app.json pages or widgets: ",
            ).concat(p.as_str()),
            RouteError::WidgetTargetNeedsWidget => String::from_str(
                "target widget requires a path declared in app.json widgets",
            ),
            RouteError::PageTargetNeedsPage(t) => String::from_str("target ").concat(t.as_str()).concat(
                " requires a path declared in app.json pages",
            ),
            RouteError::BadTarget => String::from_str("target must be blank, current, or widget"),
        }
    }
}

/// What a [`RouteError`] says.
pub enum RouteFailure {
    NoPages,
    Undeclared(Seq<char>),
    WidgetTargetNeedsWidget,
    PageTargetNeedsPage(Seq<char>),
    BadTarget,
}

impl View for RouteError {
    type V = RouteFailure;

    open spec fn view(&self) -> RouteFailure {
        match self {
            RouteError::NoPages => RouteFailure::NoPages,
            RouteError::Undeclared(p) => RouteFailure::Undeclared(p@),
            RouteError::WidgetTargetNeedsWidget => RouteFailure::WidgetTargetNeedsWidget,
            RouteError::PageTargetNeedsPage(t) => RouteFailure::PageTargetNeedsPage(t@),
            RouteError::BadTarget => RouteFailure::BadTarget,
        }
    }
}

/// `s` without its leading `_`.
pub open spec fn trim_underscores(s: Seq<char>) -> Seq<char>
    decreases s.len(),
{
    if s.len() > 0 && s[0] == '_' {
        trim_underscores(s.drop_first())
    } else {
        s
    }
}

pub open spec fn blank_word() -> Seq<char> {
    seq!['b', 'l', 'a', 'n', 'k']
}

pub open spec fn current_word() -> Seq<char> {
    seq!['c', 'u', 'r', 'r', 'e', 'n', 't']
}

pub open spec fn widget_word() -> Seq<char> {
    seq!['w', 'i', 'd', 'g', 'e', 't']
}

/// The route that a launch opens, from the declared Page paths and Widget
/// paths: the requested path (by default the first Page), with the requested
/// target (by default `widget` for a Widget, `blank` otherwise, and written
/// with or without leading `_`).
pub open spec fn open_route(
    pages: Seq<Seq<char>>,
    widgets: Seq<Seq<char>>,
    requested_path: Option<Seq<char>>,
    requested_target: Option<Seq<char>>,
) -> Result<(Seq<char>, OpenTarget), RouteFailure> {
    if requested_path is None && pages.len() == 0 {
        Err(RouteFailure::NoPages)
    } else {
        let path = match requested_path {
            Some(p) => p,
            None => pages[0],
        };
        let is_page = pages.contains(path);
        let is_widget = widgets.contains(path);
        if !is_page && !is_widget {
            Err(RouteFailure::Undeclared(path))
        } else {
            let target = match requested_target {
                Some(t) => t,
                None => if is_widget {
                    widget_word()
                } else {
                    blank_word()
                },
            };
            let name = trim_underscores(target);
            if name == blank_word() && is_page {
                Ok((path, OpenTarget::Blank))
            } else if name == current_word() && is_page {
                Ok((path, OpenTarget::Current))
            } else if name == widget_word() && is_widget {
                Ok((path, OpenTarget::Widget))
            } else if name == widget_word() {
                Err(RouteFailure::WidgetTargetNeedsWidget)
            } else if name == blank_word() || name == current_word() {
                Err(RouteFailure::PageTargetNeedsPage(target))
            } else {
                Err(RouteFailure::BadTarget)
            }
        }
    }
}

pub open spec fn opt_str(o: Option<&str>) -> Option<Seq<char>> {
    match o {
        Some(s) => Some(s@),
        None => None,
    }
}

/// Whether `v` holds the text `s`.
pub fn contains_text(v: &Vec<String>, s: &str) -> (r: bool)
    ensures
        r == string_views(v@).contains(s@),
{
    let wanted = String::from_str(s);
    let mut i: usize = 0;
    while i < v.len()
        invariant
            i <= v.len(),
            wanted@ == s@,
            forall|j: int| 0 <= j < i ==> v@[j]@ != s@,
        decreases v.len() - i,
    {
        if v[i].eq(&wanted) {
            assert(string_views(v@)[i as int] == s@);
            return true;
        }
        i = i + 1;
    }
    assert(!string_views(v@).contains(s@)) by {
        if string_views(v@).contains(s@) {
            let j = choose|j: int| 0 <= j < v@.len() && string_views(v@)[j] == s@;
            assert(v@[j]@ == s@);
        }
    }
    false
}

fn trim_underscores_of(s: &Vec<char>) -> (r: Vec<char>)
    ensures
        r@ == trim_underscores(s@),
{
    let mut i: usize = 0;
    assert(s@.skip(0) =~= s@);
    while i < s.len() && s[i] == '_'
        invariant
            i <= s.len(),
            trim_underscores(s@) == trim_underscores(s@.skip(i as int)),
        decreases s.len() - i,
    {
        assert(s@.skip(i as int).drop_first() =~= s@.skip(i + 1));
        i = i + 1;
    }
    let mut r: Vec<char> = Vec::new();
    let mut k = i;
    while k < s.len()
        invariant
            i <= k <= s.len(),
            r@ =~= s@.subrange(i as int, k as int),
        decreases s.len() - k,
    {
        r.push(s[k]);
        k = k + 1;
    }
    assert(s@.subrange(i as int, s.len() as int) =~= s@.skip(i as int));
    r
}

/// Resolves the path and target of a launch against the Page paths and Widget
/// paths that `app.json` declares.
pub fn resolve_open_route(
    pages: &Vec<String>,
    widgets: &Vec<String>,
    requested_path: Option<&str>,
    requested_target: Option<&str>,
) -> (r: Result<(String, OpenTarget), RouteError>)
    ensures
        match r {
            Ok((p, t)) => open_route(string_views(pages@), string_views(widgets@), opt_str(requested_path), opt_str(requested_target)) == Ok::<(Seq<char>, OpenTarget), RouteFailure>((p@, t)),
            Err(e) => open_route(string_views(pages@), string_views(widgets@), opt_str(requested_path), opt_str(requested_target)) == Err::<(Seq<char>, OpenTarget), RouteFailure>(e@),
        },
{
    let path: &str = match requested_path {
        Some(p) => p,
        None => {
            if pages.len() == 0 {
                return Err(RouteError::NoPages);
            }
            pages[0].as_str()
        },
    };
    let is_page = contains_text(pages, path);
    let is_widget = contains_text(widgets, path);
    if !is_page && !is_widget {
        return Err(RouteError::Undeclared(String::from_str(path)));
    }
    let target: &str = match requested_target {
        Some(t) => t,
        None => if is_widget {
            "widget"
        } else {
            "blank"
        },
    };
    proof {
        reveal_strlit("widget");
        reveal_strlit("blank");
        assert("widget"@ =~= widget_word());
        assert("blank"@ =~= blank_word());
    }
    let name = trim_underscores_of(&chars_of(target));
    let blank: Vec<char> = vec!['b', 'l', 'a', 'n', 'k'];
    let current: Vec<char> = vec!['c', 'u', 'r', 'r', 'e', 'n', 't'];
    let widget: Vec<char> = vec!['w', 'i', 'd', 'g', 'e', 't'];
    assert(blank@ =~= blank_word());
    assert(current@ =~= current_word());
    assert(widget@ =~= widget_word());
    let is_blank = chars_equal(&name, &blank);
    let is_current = chars_equal(&name, &current);
    let is_widget_name = chars_equal(&name, &widget);
    if is_blank && is_page {
        Ok((String::from_str(path), OpenTarget::Blank))
    } else if is_current && is_page {
        Ok((String::from_str(path), OpenTarget::Current))
    } else if is_widget_name && is_widget {
        Ok((String::from_str(path), OpenTarget::Widget))
    } else if is_widget_name {
        Err(RouteError::WidgetTargetNeedsWidget)
    } else if is_blank || is_current {
        Err(RouteError::PageTargetNeedsPage(String::from_str(target)))
    } else {
        Err(RouteError::BadTarget)
    }
}

// ---------------------------------------------------------------------------
// Parameters of an `open` request
// ---------------------------------------------------------------------------

/// Why the parameters of an `open` request were refused.
#[derive(Debug)]
pub enum OpenParamsError {
    /// Both `--params` and `--params-file` were given.
    BothGiven,
    /// `--params` is not JSON; the parser's explanation.
    InvalidInline(String),
    /// The parameters file does not hold JSON; the parser's explanation.
    InvalidFile(String),
    /// The parameters are JSON but not an object.
    NotObject,
}

impl OpenParamsError {
    /// The message that the command line shows; `file` names the parameters
    /// file.
    pub fn message(&self, file: &str) -> (m: String)
        ensures
            match self {
                OpenParamsError::BothGiven => m@ == "--params cannot be used with --params-file"@,
                OpenParamsError::InvalidInline(_) => m@ == "--params must be valid JSON"@,
                OpenParamsError::InvalidFile(_) => m@ == file@ + " must contain valid JSON"@,
                OpenParamsError::NotObject => m@ == "launch params must be a JSON object"@,
            },
    {
        match self {
            OpenParamsError::BothGiven => String::from_str("--params cannot be used with --params-file"),
            OpenParamsError::InvalidInline(_) => String::from_str("--params must be valid JSON"),
            OpenParamsError::InvalidFile(_) => String::from_str(file).concat(" must contain valid JSON"),
            OpenParamsError::NotObject => String::from_str("launch params must be a JSON object"),
        }
    }
}

/// What parameters that `serde_json` read, or the error given when it did
/// not read them, come to: only a JSON object is accepted.
pub open spec fn params_outcome(
    r: Result<JsonValue, OpenParamsError>,
    accepted: bool,
    value: JsonValue,
    from_inline: bool,
) -> bool {
    if !accepted {
        if from_inline {
            r matches Err(OpenParamsError::InvalidInline(_))
        } else {
            r matches Err(OpenParamsError::InvalidFile(_))
        }
    } else if value is Object {
        r matches Ok(v) && v == value
    } else {
        r matches Err(OpenParamsError::NotObject)
    }
}

/// The parameters of an `open` request: the JSON of `--params`, or the JSON
/// that the parameters file holds, or an empty object when neither is given;
/// they must be a JSON object, and at most one of the two may be given.
pub fn parse_open_params(inline: Option<&str>, file: Option<&[u8]>) -> (r: Result<JsonValue, OpenParamsError>)
    ensures
        match (inline, file) {
            (Some(_), Some(_)) => r matches Err(OpenParamsError::BothGiven),
            (Some(text), None) => params_outcome(r, json_text_accepted(text@), json_value(text@), true),
            (None, Some(bytes)) => params_outcome(r, json_bytes_accepted(bytes@), json_bytes_value(bytes@), false),
            (None, None) => r matches Ok(JsonValue::Object(members)) && members@.len() == 0,
        },
{
    let parsed = match (inline, file) {
        (Some(_), Some(_)) => {
            return Err(OpenParamsError::BothGiven);
        },
        (Some(text), None) => match parse_json_value(text) {
            Ok(v) => v,
            Err(e) => {
                return Err(OpenParamsError::InvalidInline(json_error_text(&e)));
            },
        },
        (None, Some(bytes)) => match parse_json_bytes(bytes) {
            Ok(v) => v,
            Err(e) => {
                return Err(OpenParamsError::InvalidFile(json_error_text(&e)));
            },
        },
        (None, None) => {
            return Ok(JsonValue::Object(Vec::new()));
        },
    };
    let is_object = match &parsed {
        JsonValue::Object(_) => true,
        _ => false,
    };
    if is_object {
        Ok(parsed)
    } else {
        Err(OpenParamsError::NotObject)
    }
}

} // verus!
