use aix::develop::JsonValue;
use aix::tools::{derive_tools, page_has_parameters, PageSummary, ToolTarget};

#[derive(Debug, Clone, Copy, PartialEq)]
struct Size {
    width: f64,
    height: f64,
}

const DEFAULT_SIZE: Size = Size { width: 480.0, height: 640.0 };

fn page(name: &str, title: Option<&str>, description: Option<&str>, schema: JsonValue) -> PageSummary<Size> {
    sized_page(name, title, description, schema, DEFAULT_SIZE)
}

fn sized_page(
    name: &str,
    title: Option<&str>,
    description: Option<&str>,
    schema: JsonValue,
    size: Size,
) -> PageSummary<Size> {
    PageSummary {
        name: name.to_string(),
        title: title.map(str::to_string),
        description: description.map(str::to_string),
        schema,
        size,
    }
}

fn text(t: &str) -> JsonValue {
    JsonValue::Text(t.to_string())
}

fn object(members: Vec<(&str, JsonValue)>) -> JsonValue {
    JsonValue::Object(members.into_iter().map(|(k, v)| (k.to_string(), v)).collect())
}

fn object_with_properties() -> JsonValue {
    object(vec![
        ("type", text("object")),
        ("properties", object(vec![("id", object(vec![("type", text("string"))]))])),
    ])
}

fn empty_object_schema() -> JsonValue {
    object(vec![("type", text("object")), ("properties", object(vec![]))])
}

#[test]
fn decides_which_schemas_take_parameters() {
    assert!(!page_has_parameters(&JsonValue::Null));
    assert!(page_has_parameters(&JsonValue::Array(vec![])));
    assert!(page_has_parameters(&text("x")));
    assert!(!page_has_parameters(&object(vec![])));
    assert!(!page_has_parameters(&empty_object_schema()));
    assert!(page_has_parameters(&object_with_properties()));
    assert!(page_has_parameters(&object(vec![("type", text("object"))])));
    assert!(page_has_parameters(&object(vec![
        ("type", text("array")),
        ("properties", object(vec![])),
    ])));
}

#[test]
fn first_page_without_parameters_is_the_only_blank_tool() {
    let tools = derive_tools(vec![
        page("pages/home/index", Some("Home"), None, object(vec![])),
        page("pages/detail/index", Some("Detail"), None, object(vec![])),
    ]);
    assert_eq!(tools.len(), 2);
    assert_eq!(tools[0].target, ToolTarget::Blank);
    assert_eq!(tools[0].parameters, object(vec![]));
    assert_eq!(tools[1].target, ToolTarget::Current);
    assert_eq!(tools[1].parameters, object(vec![]));
    assert_eq!(tools[0].kind, "function");
}

#[test]
fn empty_object_schema_counts_as_no_parameters() {
    let tools = derive_tools(vec![
        page("pages/home/index", None, None, empty_object_schema()),
        page("pages/detail/index", None, None, empty_object_schema()),
    ]);
    assert_eq!(tools[0].target, ToolTarget::Blank);
    assert_eq!(tools[0].parameters, object(vec![]));
    assert_eq!(tools[1].target, ToolTarget::Current);
    assert_eq!(tools[1].parameters, empty_object_schema());
}

#[test]
fn prefers_descriptions_over_titles() {
    let tools = derive_tools(vec![
        page("pages/index/index", Some("Index Page"), None, object_with_properties()),
        page("pages/b", Some("B"), Some("About B"), JsonValue::Null),
        page("pages/c", None, None, JsonValue::Null),
    ]);
    assert_eq!(tools[0].target, ToolTarget::Current);
    assert_eq!(tools[0].name, "pages/index/index");
    assert_eq!(tools[0].description.as_deref(), Some("Index Page"));
    assert_eq!(tools[0].parameters, object_with_properties());
    assert_eq!(tools[1].description.as_deref(), Some("About B"));
    assert_eq!(tools[1].target, ToolTarget::Current);
    assert_eq!(tools[1].parameters, JsonValue::Null);
    assert_eq!(tools[2].description, None);
    assert!(derive_tools::<Size>(Vec::new()).is_empty());
}

#[test]
fn tools_carry_the_page_size_as_layout() {
    let small = Size { width: 200.0, height: 120.5 };
    let tools = derive_tools(vec![
        sized_page("pages/home/index", None, None, JsonValue::Null, small),
        sized_page("pages/detail/index", None, None, object_with_properties(), DEFAULT_SIZE),
    ]);
    assert_eq!(tools[0].layout, small);
    assert_eq!(tools[0].target, ToolTarget::Blank);
    assert_eq!(tools[1].layout, DEFAULT_SIZE);
}
