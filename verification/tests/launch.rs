use aix::launch::{
    content_call, format_agent_id, resolve_open_route, shell_quote, validate_definition,
    widget_family_size, DefinitionError, FamilyError, OpenTarget, RouteError, WidgetDeclaration,
    parse_open_params, OpenParamsError,
};
use aix::develop::JsonValue;

fn widget(path: &str, family: &str) -> WidgetDeclaration {
    WidgetDeclaration {
        path: Some(path.to_string()),
        family: Some(family.to_string()),
    }
}

fn strings(items: &[&str]) -> Vec<String> {
    items.iter().map(|s| s.to_string()).collect()
}

#[test]
fn formats_version_as_namespaced_agent_id() {
    assert_eq!(
        format_agent_id("550E8400-E29B-41D4-A716-446655440000").unwrap(),
        "develop.rokid.agent.550e8400-e29b-41d4-a716-446655440000"
    );
}

#[test]
fn normalizes_agent_id_characters_and_trims_dashes() {
    assert_eq!(
        format_agent_id("  My App v1.2!").unwrap(),
        "develop.rokid.agent.my-app-v1-2"
    );
    assert_eq!(format_agent_id("--a_b--").unwrap(), "develop.rokid.agent.a_b");
    assert!(format_agent_id("").is_none());
    assert!(format_agent_id("...").is_none());
}

#[test]
fn quotes_open_json_for_the_remote_shell() {
    assert_eq!(
        shell_quote(r#"{"value":"it's ready"}"#),
        r#"'{"value":"it'"'"'s ready"}'"#
    );
}

#[test]
fn quotes_empty_and_plain_values() {
    assert_eq!(shell_quote(""), "''");
    assert_eq!(shell_quote("abc"), "'abc'");
    assert_eq!(shell_quote("''"), "''\"'\"''\"'\"''");
}

#[test]
fn builds_content_calls() {
    assert_eq!(
        content_call("switch", Some("dev")),
        strings(&[
            "shell",
            "content",
            "call",
            "--uri",
            "content://com.rokid.aiui.develop",
            "--method",
            "switch",
            "--arg",
            "dev"
        ])
    );
    assert_eq!(content_call("prepare", None).len(), 7);
}

#[test]
fn validates_develop_agent_id() {
    assert_eq!(
        validate_definition(Some("develop.rokid.mobility.ride")).unwrap(),
        "develop.rokid.mobility.ride"
    );
    assert!(validate_definition(Some("production.rokid.mobility.ride")).is_err());
}

#[test]
fn refuses_malformed_agent_ids() {
    assert_eq!(
        validate_definition(None).unwrap_err(),
        DefinitionError::MissingAgentId
    );
    for id in ["develop.rokid.x", "develop.rokid..x", "develop.rokid.x.", "develop.other.x.y"] {
        assert_eq!(
            validate_definition(Some(id)).unwrap_err(),
            DefinitionError::BadAgentId
        );
    }
    assert!(validate_definition(Some("develop.rokid.a.b.c")).is_ok());
    assert_eq!(
        DefinitionError::MissingAgentId.message(),
        "agent.json agentId is missing"
    );
}

#[test]
fn infers_page_and_widget_targets() {
    let pages = strings(&["pages/index/index"]);
    let widgets = strings(&["widgets/order/index"]);
    let (path, target) = resolve_open_route(&pages, &widgets, None, None).unwrap();
    assert_eq!((path.as_str(), target.protocol_name()), ("pages/index/index", "_blank"));
    let (path, target) =
        resolve_open_route(&pages, &widgets, Some("widgets/order/index"), None).unwrap();
    assert_eq!((path.as_str(), target.protocol_name()), ("widgets/order/index", "_widget"));
    assert!(resolve_open_route(&pages, &widgets, Some("widgets/order/index"), Some("current")).is_err());
}

#[test]
fn reports_route_errors() {
    let pages = strings(&["pages/index/index"]);
    let widgets = strings(&["widgets/order/index"]);
    let none: Vec<String> = Vec::new();
    assert!(matches!(
        resolve_open_route(&none, &widgets, None, None),
        Err(RouteError::NoPages)
    ));
    let err = resolve_open_route(&pages, &widgets, Some("pages/other"), None).unwrap_err();
    assert_eq!(
        err.message(),
        "launch path is not declared in app.json pages or widgets: pages/other"
    );
    let err = resolve_open_route(&pages, &widgets, None, Some("widget")).unwrap_err();
    assert!(matches!(err, RouteError::WidgetTargetNeedsWidget));
    let err = resolve_open_route(&pages, &widgets, Some("widgets/order/index"), Some("__current")).unwrap_err();
    assert_eq!(
        err.message(),
        "target __current requires a path declared in app.json pages"
    );
    let err = resolve_open_route(&pages, &widgets, None, Some("popup")).unwrap_err();
    assert!(matches!(err, RouteError::BadTarget));
    let (_, target) = resolve_open_route(&pages, &widgets, None, Some("_current")).unwrap();
    assert_eq!(target, OpenTarget::Current);
}

#[test]
fn derives_widget_size_from_family() {
    let widgets = vec![widget("widgets/order/index", "1x2")];
    assert_eq!(
        widget_family_size(&widgets, "widgets/order/index").unwrap(),
        (2, 1)
    );
}

#[test]
fn reports_family_errors() {
    let widgets = vec![
        widget("a", "2"),
        widget("b", "zx2"),
        widget("c", "2xq"),
        widget("d", "0x3"),
        widget("e", "+3x4"),
        widget("a", "1x1"),
    ];
    assert_eq!(widget_family_size(&widgets, "a"), Err(FamilyError::NoSeparator));
    assert_eq!(widget_family_size(&widgets, "b"), Err(FamilyError::BadRows));
    assert_eq!(widget_family_size(&widgets, "c"), Err(FamilyError::BadColumns));
    assert_eq!(widget_family_size(&widgets, "d"), Err(FamilyError::ZeroSize));
    assert_eq!(widget_family_size(&widgets, "e"), Ok((4, 3)));
    assert_eq!(widget_family_size(&widgets, "z"), Err(FamilyError::NotDeclared));
}

#[test]
fn formatted_agent_ids_pass_validation() {
    for id in ["550E8400-E29B-41D4-A716-446655440000", "a.b.c", "  x  ", "Ride_2"] {
        let formatted = format_agent_id(id).unwrap();
        assert_eq!(validate_definition(Some(&formatted)).unwrap(), formatted);
    }
}

#[test]
fn explains_family_errors() {
    assert_eq!(
        FamilyError::NotDeclared.message("widgets/a"),
        "Widget path or family is not declared in app.json: widgets/a"
    );
    assert_eq!(
        FamilyError::ZeroSize.message("widgets/a"),
        "Widget family dimensions must be greater than zero"
    );
}

#[test]
fn launch_params_must_be_an_object() {
    assert_eq!(parse_open_params(None, None).unwrap(), JsonValue::Object(vec![]));
    assert_eq!(
        parse_open_params(Some(r#"{"orderId":"123"}"#), None).unwrap(),
        JsonValue::Object(vec![(
            "orderId".to_string(),
            JsonValue::Text("123".to_string())
        )])
    );
    assert!(parse_open_params(Some("[]"), None).is_err());
}

#[test]
fn launch_params_come_from_one_source() {
    let both = parse_open_params(Some("{}"), Some(b"{}")).unwrap_err();
    assert!(matches!(both, OpenParamsError::BothGiven));
    assert_eq!(both.message("p.json"), "--params cannot be used with --params-file");
    assert_eq!(
        parse_open_params(None, Some(b"{\"a\":[1]}")).unwrap(),
        JsonValue::Object(vec![(
            "a".to_string(),
            JsonValue::Array(vec![JsonValue::Number("1".to_string())])
        )])
    );
    let bad_file = parse_open_params(None, Some(b"{oops")).unwrap_err();
    assert!(matches!(bad_file, OpenParamsError::InvalidFile(_)));
    assert_eq!(bad_file.message("p.json"), "p.json must contain valid JSON");
    let bad_inline = parse_open_params(Some("{oops"), None).unwrap_err();
    assert!(matches!(bad_inline, OpenParamsError::InvalidInline(_)));
    assert_eq!(bad_inline.message(""), "--params must be valid JSON");
    let not_object = parse_open_params(Some("[]"), None).unwrap_err();
    assert_eq!(not_object.message(""), "launch params must be a JSON object");
}
