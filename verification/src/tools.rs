//! The tools that an `.aix` package offers to agent runtimes: one per Page
//! that `app.json` declares.
use vstd::prelude::*;
use vstd::string::StringExecFns;

use crate::develop::JsonValue;

verus! {

/// How a runtime opens the Page of a tool.
#[derive(Debug, Clone, Copy, PartialEq, Eq, Structural)]
pub enum ToolTarget {
    /// In the current runtime context.
    Current,
    /// In a fresh runtime context.
    Blank,
}

/// The value of the member `key` of a JSON object's members: the first one
/// with that key.
pub open spec fn member_of(members: Seq<(String, JsonValue)>, key: Seq<char>) -> Option<JsonValue>
    decreases members.len(),
{
    if members.len() == 0 {
        None
    } else if members[0].0@ == key {
        Some(members[0].1)
    } else {
        member_of(members.drop_first(), key)
    }
}

/// Whether a Page takes parameters: its data schema is neither `null`, nor
/// an empty object, nor an object whose `type` is `"object"` and whose
/// `properties` is an empty object.
pub open spec fn has_parameters(schema: JsonValue) -> bool {
    match schema {
        JsonValue::Null => false,
        JsonValue::Object(members) => members@.len() > 0 && !(
        (member_of(members@, "type"@) matches Some(JsonValue::Text(t)) && t@ == "object"@)
            && (member_of(members@, "properties"@) matches Some(JsonValue::Object(p)) && p@.len()
            == 0)),
        _ => true,
    }
}

fn find_member<'a>(members: &'a Vec<(String, JsonValue)>, key: &str) -> (r: Option<&'a JsonValue>)
    ensures
        match r {
            Some(v) => member_of(members@, key@) == Some(*v),
            None => member_of(members@, key@) is None,
        },
{
    let wanted = String::from_str(key);
    let mut i: usize = 0;
    assert(members@.skip(0) =~= members@);
    while i < members.len()
        invariant
            i <= members.len(),
            wanted@ == key@,
            member_of(members@, key@) == member_of(members@.skip(i as int), key@),
        decreases members.len() - i,
    {
        assert(members@.skip(i as int)[0] == members@[i as int]);
        if members[i].0.eq(&wanted) {
            return Some(&members[i].1);
        }
        assert(members@.skip(i as int).drop_first() =~= members@.skip(i + 1));
        i = i + 1;
    }
    None
}

/// Whether a Page with this data schema takes parameters.
pub fn page_has_parameters(schema: &JsonValue) -> (r: bool)
    ensures
        r == has_parameters(*schema),
{
    proof {
        reveal_strlit("type");
        reveal_strlit("object");
        reveal_strlit("properties");
    }
    match schema {
        JsonValue::Null => false,
        JsonValue::Object(members) => {
            if members.len() == 0 {
                return false;
            }
            let object = String::from_str("object");
            let type_is_object = match find_member(members, "type") {
                Some(JsonValue::Text(t)) => t.eq(&object),
                _ => false,
            };
            let properties_empty = match find_member(members, "properties") {
                Some(JsonValue::Object(p)) => p.len() == 0,
                _ => false,
            };
            !(type_is_object && properties_empty)
        },
        _ => true,
    }
}

/// What a tool needs to know of its Page; `L` is the type of the Page's
/// size, which the tool carries as its layout.
pub struct PageSummary<L> {
    pub name: String,
    pub title: Option<String>,
    pub description: Option<String>,
    /// The Page's data schema (`null` where it declares none).
    pub schema: JsonValue,
    /// The Page's size.
    pub size: L,
}

/// A tool derived from a Page: its kind, name, description, target and
/// layout, and its parameters: the Page's data schema, or an empty object for a tool
/// that opens in a fresh context.
pub struct ToolSummary<L> {
    /// The tool's kind: `function`.
    pub kind: String,
    pub name: String,
    pub description: Option<String>,
    pub target: ToolTarget,
    pub parameters: JsonValue,
    /// The layout in which a runtime renders the tool's Page: the Page's size.
    pub layout: L,
}

pub open spec fn opt_text(o: Option<String>) -> Option<Seq<char>> {
    match o {
        Some(s) => Some(s@),
        None => None,
    }
}

/// The target of the tool for the Page at `index`: only the first Page, and
/// only when it takes no parameters, opens in a fresh context.
pub open spec fn tool_target(index: int, schema: JsonValue) -> ToolTarget {
    if index == 0 && !has_parameters(schema) {
        ToolTarget::Blank
    } else {
        ToolTarget::Current
    }
}

/// The tool derived from the Page at `index`.
pub open spec fn tool_matches<L>(t: ToolSummary<L>, index: int, p: PageSummary<L>) -> bool {
    &&& t.kind@ == "function"@
    &&& t.layout == p.size
    &&& t.name@ == p.name@
    &&& opt_text(t.description) == match opt_text(p.description) {
        Some(d) => Some(d),
        None => opt_text(p.title),
    }
    &&& t.target == tool_target(index, p.schema)
    &&& match t.target {
        ToolTarget::Current => t.parameters == p.schema,
        ToolTarget::Blank => t.parameters matches JsonValue::Object(m) && m@.len() == 0,
    }
}

/// Derives one tool per Page, in order.
pub fn derive_tools<L>(pages: Vec<PageSummary<L>>) -> (r: Vec<ToolSummary<L>>)
    ensures
        r.len() == pages.len(),
        forall|i: int| 0 <= i < pages.len() ==> tool_matches(#[trigger] r@[i], i, pages@[i]),
{
    let ghost all = pages@;
    let pages_len = pages.len();
    let mut rest = pages;
    assert(rest@.skip(0) =~= rest@);
    let mut tools: Vec<ToolSummary<L>> = Vec::new();
    let mut i: usize = 0;
    while rest.len() > 0
        invariant
            i + rest.len() == all.len(),
            all.len() == pages_len,
            rest@ == all.skip(i as int),
            tools.len() == i,
            forall|j: int| 0 <= j < i ==> tool_matches(#[trigger] tools@[j], j, all[j]),
        decreases rest.len(),
    {
        let page = rest.remove(0);
        assert(page == all[i as int]);
        assert(rest@ =~= all.skip(i + 1));
        let target = if i == 0 && !page_has_parameters(&page.schema) {
            ToolTarget::Blank
        } else {
            ToolTarget::Current
        };
        let PageSummary { name, title, description, schema, size } = page;
        let description = match description {
            Some(d) => Some(d),
            None => title,
        };
        let parameters = match target {
            ToolTarget::Current => schema,
            ToolTarget::Blank => JsonValue::Object(Vec::new()),
        };
        tools.push(ToolSummary { kind: String::from_str("function"), name, description, target, parameters, layout: size });
        i = i + 1;
    }
    tools
}

} // verus!
