//! The Agent Definition that `aix install` and `aix show` build for a project
//! without an `agent.json`: its texts come from the string members of
//! `app.json` and, for the description, from the first paragraph of
//! `AGENTS.md`.
use vstd::prelude::*;

use crate::develop::JsonValue;
use crate::text::{chars_of, string_of, trim_spaces, trimmed};
use vstd::string::StringExecFns;

verus! {

// ---------------------------------------------------------------------------
// Paragraphs of Markdown
// ---------------------------------------------------------------------------

/// Where the first blank-line separator `\n\n` of `s` starts.
pub open spec fn break_index(s: Seq<char>) -> Option<nat>
    decreases s.len(),
{
    if s.len() < 2 {
        None
    } else if s[0] == '\n' && s[1] == '\n' {
        Some(0)
    } else {
        match break_index(s.drop_first()) {
            Some(k) => Some(k + 1),
            None => None,
        }
    }
}

pub proof fn lemma_break_index_bound(s: Seq<char>)
    ensures
        break_index(s) matches Some(k) ==> k + 2 <= s.len() && s[k as int] == '\n' && s[k + 1int]
            == '\n',
    decreases s.len(),
{
    if s.len() >= 2 && !(s[0] == '\n' && s[1] == '\n') {
        lemma_break_index_bound(s.drop_first());
    }
}

/// The pieces of `s` between the separators `\n\n`, found from left to right
/// as `str::split("\n\n")` finds them.
pub open spec fn paragraphs(s: Seq<char>) -> Seq<Seq<char>>
    decreases s.len(),
{
    match break_index(s) {
        Some(k) => {
            proof {
                lemma_break_index_bound(s);
            }
            seq![s.take(k as int)] + paragraphs(s.skip(k + 2int))
        },
        None => seq![s],
    }
}

/// A trimmed paragraph that describes the Agent: not empty, and neither a
/// heading (`#`) nor markup (`<`).
pub open spec fn is_description(t: Seq<char>) -> bool {
    t.len() > 0 && t[0] != '#' && t[0] != '<'
}

/// The first of the paragraphs, trimmed, that describes the Agent.
pub open spec fn first_description(ps: Seq<Seq<char>>) -> Option<Seq<char>>
    decreases ps.len(),
{
    if ps.len() == 0 {
        None
    } else if is_description(trim_spaces(ps[0])) {
        Some(trim_spaces(ps[0]))
    } else {
        first_description(ps.drop_first())
    }
}

/// Where the separator `\n\n` that follows `from` starts.
fn find_break(cs: &Vec<char>, from: usize) -> (r: Option<usize>)
    requires
        from <= cs.len(),
    ensures
        match break_index(cs@.skip(from as int)) {
            Some(k) => r == Some((from + k) as usize),
            None => r is None,
        },
        r matches Some(k) ==> from <= k && k + 2 <= cs.len() && break_index(cs@.skip(from as int))
            == Some((k - from) as nat),
{
    proof {
        lemma_break_index_bound(cs@.skip(from as int));
    }
    let mut i = from;
    while i < cs.len() && cs.len() - i >= 2
        invariant
            from <= i <= cs.len(),
            break_index(cs@.skip(from as int)) == match break_index(cs@.skip(i as int)) {
                Some(k) => Some(k + (i - from) as nat),
                None => None::<nat>,
            },
        decreases cs.len() - i,
    {
        if cs[i] == '\n' && cs[i + 1] == '\n' {
            return Some(i);
        }
        assert(cs@.skip(i as int).drop_first() =~= cs@.skip(i + 1));
        i = i + 1;
    }
    None
}

proof fn lemma_paragraphs_step(s: Seq<char>, k: nat)
    requires
        break_index(s) == Some(k),
    ensures
        k + 2 <= s.len(),
        first_description(paragraphs(s)) == if is_description(trim_spaces(s.take(k as int))) {
            Some(trim_spaces(s.take(k as int)))
        } else {
            first_description(paragraphs(s.skip(k + 2int)))
        },
{
    lemma_break_index_bound(s);
    let ps = paragraphs(s);
    assert(ps[0] == s.take(k as int));
    assert(ps.drop_first() =~= paragraphs(s.skip(k + 2int)));
}

/// The first paragraph of a Markdown text that describes the Agent, trimmed.
pub fn first_paragraph(markdown: Option<&str>) -> (r: Option<String>)
    ensures
        match markdown {
            None => r is None,
            Some(m) => match first_description(paragraphs(m@)) {
                Some(t) => r matches Some(s) && s@ == t,
                None => r is None,
            },
        },
{
    let text = match markdown {
        Some(m) => m,
        None => {
            return None;
        },
    };
    let cs = chars_of(text);
    let mut start: usize = 0;
    assert(cs@.skip(0) =~= cs@);
    loop
        invariant
            start <= cs.len(),
            cs@ == text@,
            markdown == Some(text),
            first_description(paragraphs(text@)) == first_description(paragraphs(cs@.skip(start as int))),
        decreases cs.len() - start,
    {
        let ghost rest = cs@.skip(start as int);
        match find_break(&cs, start) {
            Some(k) => {
                proof {
                    lemma_paragraphs_step(rest, (k - start) as nat);
                    assert(rest.take(k - start) =~= cs@.subrange(start as int, k as int));
                    assert(rest.skip(k - start + 2) =~= cs@.skip(k + 2));
                }
                let piece = trimmed(&cs, start, k);
                if piece.len() > 0 && piece[0] != '#' && piece[0] != '<' {
                    return Some(string_of(&piece));
                }
                start = k + 2;
            },
            None => {
                let piece = trimmed(&cs, start, cs.len());
                proof {
                    assert(paragraphs(rest) == seq![rest]);
                    assert(cs@.subrange(start as int, cs.len() as int) =~= rest);
                    assert(seq![rest].drop_first() =~= Seq::<Seq<char>>::empty());
                    assert(seq![rest][0] == rest);
                    assert(first_description(Seq::<Seq<char>>::empty()) is None);
                }
                if piece.len() > 0 && piece[0] != '#' && piece[0] != '<' {
                    return Some(string_of(&piece));
                }
                return None;
            },
        }
    }
}

// ---------------------------------------------------------------------------
// String members of app.json
// ---------------------------------------------------------------------------

/// The text of the member `key` among the string members of a JSON object
/// (the first such member, should the list hold the key twice).
pub open spec fn member_text(members: Seq<(String, String)>, key: Seq<char>) -> Option<Seq<char>>
    decreases members.len(),
{
    if members.len() == 0 {
        None
    } else if members[0].0@ == key {
        Some(members[0].1@)
    } else {
        member_text(members.drop_first(), key)
    }
}

/// The first of the keys whose member is a non-empty string, and that string.
pub open spec fn string_field(members: Seq<(String, String)>, keys: Seq<Seq<char>>) -> Option<
    Seq<char>,
>
    decreases keys.len(),
{
    if keys.len() == 0 {
        None
    } else {
        match member_text(members, keys[0]) {
            Some(t) => if t.len() > 0 {
                Some(t)
            } else {
                string_field(members, keys.drop_first())
            },
            None => string_field(members, keys.drop_first()),
        }
    }
}

fn member_text_of(members: &Vec<(String, String)>, key: &str) -> (r: Option<String>)
    ensures
        match r {
            Some(t) => member_text(members@, key@) == Some(t@),
            None => member_text(members@, key@) is None,
        },
{
    let wanted = String::from_str(key);
    let mut i: usize = 0;
    assert(members@.skip(0) =~= members@);
    while i < members.len()
        invariant
            i <= members.len(),
            wanted@ == key@,
            member_text(members@, key@) == member_text(members@.skip(i as int), key@),
        decreases members.len() - i,
    {
        assert(members@.skip(i as int)[0] == members@[i as int]);
        if members[i].0.eq(&wanted) {
            return Some(String::from_str(members[i].1.as_str()));
        }
        assert(members@.skip(i as int).drop_first() =~= members@.skip(i + 1));
        i = i + 1;
    }
    None
}

/// The first of `keys` whose member is a non-empty string, and that string.
pub fn string_field_of(members: &Vec<(String, String)>, keys: &Vec<&str>) -> (r: Option<String>)
    ensures
        match r {
            Some(t) => string_field(members@, keys@.map_values(|k: &str| k@)) == Some(t@),
            None => string_field(members@, keys@.map_values(|k: &str| k@)) is None,
        },
{
    let ghost ks = keys@.map_values(|k: &str| k@);
    let mut i: usize = 0;
    assert(ks.skip(0) =~= ks);
    while i < keys.len()
        invariant
            i <= keys.len(),
            ks == keys@.map_values(|k: &str| k@),
            string_field(members@, ks) == string_field(members@, ks.skip(i as int)),
        decreases keys.len() - i,
    {
        assert(ks.skip(i as int)[0] == keys@[i as int]@);
        assert(ks.skip(i as int).drop_first() =~= ks.skip(i + 1));
        match member_text_of(members, keys[i]) {
            Some(t) => {
                if t.unicode_len() > 0 {
                    return Some(t);
                }
            },
            None => {},
        }
        i = i + 1;
    }
    None
}

/// An Agent Definition.
#[derive(Debug)]
pub struct AgentDefinition {
    /// The version of the definition's schema: 1.
    pub schema_version: u64,
    pub agent_id: String,
    pub agent_name: String,
    pub agent_desc: String,
    pub agent_prompt: String,
    pub agent_logo: String,
    pub native_version: String,
    pub ink_version: String,
    /// The permissions that `app.json` lists.
    pub permissions: Vec<JsonValue>,
}

pub open spec fn text_or(o: Option<Seq<char>>, fallback: Seq<char>) -> Seq<char> {
    match o {
        Some(t) => t,
        None => fallback,
    }
}

pub open spec fn name_keys() -> Seq<Seq<char>> {
    seq!["agentName"@, "name"@]
}

pub open spec fn desc_keys() -> Seq<Seq<char>> {
    seq!["agentDesc"@, "description"@]
}

pub open spec fn prompt_keys() -> Seq<Seq<char>> {
    seq!["agentPrompt"@]
}

pub open spec fn logo_keys() -> Seq<Seq<char>> {
    seq!["agentLogo"@, "logo"@, "icon"@]
}

pub open spec fn native_keys() -> Seq<Seq<char>> {
    seq!["nativeVersion"@, "version"@]
}

pub open spec fn ink_keys() -> Seq<Seq<char>> {
    seq!["inkVersion"@, "engine"@]
}

/// The name of the Agent: `agentName`, else `name`, else `AIX Agent`.
pub open spec fn definition_name(app: Seq<(String, String)>) -> Seq<char> {
    text_or(string_field(app, name_keys()), "AIX Agent"@)
}

/// The description of the Agent: `agentDesc`, else `description`, else the
/// first describing paragraph of `AGENTS.md`, else the name.
pub open spec fn definition_desc(app: Seq<(String, String)>, agents: Option<Seq<char>>) -> Seq<
    char,
> {
    match string_field(app, desc_keys()) {
        Some(d) => d,
        None => match agents {
            Some(a) => text_or(first_description(paragraphs(a)), definition_name(app)),
            None => definition_name(app),
        },
    }
}

/// Builds the Agent Definition of a project from the string members of its
/// `app.json`, its `permissions` array (when that member is an array), its
/// Agent ID and the text of its `AGENTS.md`.
pub fn build_definition(
    app: &Vec<(String, String)>,
    app_permissions: Option<Vec<JsonValue>>,
    agent_id: &str,
    agents_text: Option<&str>,
) -> (r: AgentDefinition)
    ensures
        r.schema_version == 1,
        r.permissions@ == match app_permissions {
            Some(p) => p@,
            None => Seq::<JsonValue>::empty(),
        },
        r.agent_id@ == agent_id@,
        r.agent_name@ == definition_name(app@),
        r.agent_desc@ == definition_desc(app@, match agents_text {
            Some(a) => Some(a@),
            None => None,
        }),
        r.agent_prompt@ == text_or(string_field(app@, prompt_keys()), ""@),
        r.agent_logo@ == text_or(string_field(app@, logo_keys()), ""@),
        r.native_version@ == text_or(string_field(app@, native_keys()), "1.0.0"@),
        r.ink_version@ == text_or(string_field(app@, ink_keys()), ">=0.17.0"@),
{
    let name_k: Vec<&str> = vec!["agentName", "name"];
    let desc_k: Vec<&str> = vec!["agentDesc", "description"];
    let prompt_k: Vec<&str> = vec!["agentPrompt"];
    let logo_k: Vec<&str> = vec!["agentLogo", "logo", "icon"];
    let native_k: Vec<&str> = vec!["nativeVersion", "version"];
    let ink_k: Vec<&str> = vec!["inkVersion", "engine"];
    assert(name_k@.map_values(|k: &str| k@) =~= name_keys());
    assert(desc_k@.map_values(|k: &str| k@) =~= desc_keys());
    assert(prompt_k@.map_values(|k: &str| k@) =~= prompt_keys());
    assert(logo_k@.map_values(|k: &str| k@) =~= logo_keys());
    assert(native_k@.map_values(|k: &str| k@) =~= native_keys());
    assert(ink_k@.map_values(|k: &str| k@) =~= ink_keys());
    let name = match string_field_of(app, &name_k) {
        Some(n) => n,
        None => String::from_str("AIX Agent"),
    };
    let desc = match string_field_of(app, &desc_k) {
        Some(d) => d,
        None => match first_paragraph(agents_text) {
            Some(p) => p,
            None => String::from_str(name.as_str()),
        },
    };
    let prompt = match string_field_of(app, &prompt_k) {
        Some(p) => p,
        None => String::from_str(""),
    };
    let logo = match string_field_of(app, &logo_k) {
        Some(l) => l,
        None => String::from_str(""),
    };
    let native = match string_field_of(app, &native_k) {
        Some(v) => v,
        None => String::from_str("1.0.0"),
    };
    let ink = match string_field_of(app, &ink_k) {
        Some(v) => v,
        None => String::from_str(">=0.17.0"),
    };
    let permissions = match app_permissions {
        Some(p) => p,
        None => Vec::new(),
    };
    AgentDefinition {
        schema_version: 1,
        agent_id: String::from_str(agent_id),
        agent_name: name,
        agent_desc: desc,
        agent_prompt: prompt,
        agent_logo: logo,
        native_version: native,
        ink_version: ink,
        permissions,
    }
}

} // verus!
