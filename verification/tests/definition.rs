use aix::definition::{build_definition, first_paragraph};
use aix::develop::JsonValue;

fn members(items: &[(&str, &str)]) -> Vec<(String, String)> {
    items
        .iter()
        .map(|(k, v)| (k.to_string(), v.to_string()))
        .collect()
}

#[test]
fn builds_definition_from_app_and_agents() {
    let app = members(&[("name", "Ride"), ("engine", "^0.17.0")]);
    let definition = build_definition(
        &app,
        Some(vec![JsonValue::Text("INTERNET".to_string())]),
        "develop.rokid.agent.test",
        Some("# Instructions\n\nUse this Agent for rides."),
    );
    assert_eq!(definition.schema_version, 1);
    assert_eq!(definition.agent_name, "Ride");
    assert_eq!(definition.agent_desc, "Use this Agent for rides.");
    assert_eq!(definition.ink_version, "^0.17.0");
    assert_eq!(definition.agent_id, "develop.rokid.agent.test");
    assert_eq!(definition.native_version, "1.0.0");
    assert_eq!(
        definition.permissions,
        vec![JsonValue::Text("INTERNET".to_string())]
    );
}

#[test]
fn falls_back_to_defaults() {
    let app = members(&[("agentName", ""), ("logo", "logo.png"), ("version", "2.0")]);
    let definition = build_definition(&app, None, "develop.rokid.agent.x", None);
    assert!(definition.permissions.is_empty());
    assert_eq!(definition.agent_id, "develop.rokid.agent.x");
    assert_eq!(definition.agent_name, "AIX Agent");
    assert_eq!(definition.agent_desc, "AIX Agent");
    assert_eq!(definition.agent_prompt, "");
    assert_eq!(definition.agent_logo, "logo.png");
    assert_eq!(definition.native_version, "2.0");
    assert_eq!(definition.ink_version, ">=0.17.0");
    let described = members(&[("name", "N"), ("agentDesc", "D"), ("description", "E")]);
    assert_eq!(
        build_definition(&described, None, "id", Some("text")).agent_desc,
        "D"
    );
}

#[test]
fn finds_the_first_describing_paragraph() {
    assert_eq!(first_paragraph(None), None);
    assert_eq!(first_paragraph(Some("")), None);
    assert_eq!(
        first_paragraph(Some("# Title\n\n<img>\n\n  Body text \n\nMore")).unwrap(),
        "Body text"
    );
    assert_eq!(first_paragraph(Some("a\n\n\nb")).unwrap(), "a");
    assert_eq!(first_paragraph(Some("\n\n\n# x\n\n")), None);
    assert_eq!(first_paragraph(Some("# only\n\n\nlast")).unwrap(), "last");
}
