use aix::develop::{
    check_apply, check_status, developer_mode_label, outcome_summary, prepared_inbox, remote_file,
    require_developer_mode, should_reapply_layout, upload_summary, ApplyReply,
    choose_device, develop_result_json, device_answer, online_devices, parse_develop_result,
    require_empty_error_code, require_ok, DevelopJson, DevelopReply, DevelopResultError,
    DeviceChoice, DeviceError, JsonValue, check_package_size,
};

fn member<'a>(value: &'a JsonValue, key: &str) -> &'a JsonValue {
    match value {
        JsonValue::Object(members) => {
            &members.iter().find(|(k, _)| k == key).expect("member is present").1
        }
        other => panic!("expected an object, found {:?}", other),
    }
}

fn text(t: &str) -> JsonValue {
    JsonValue::Text(t.to_string())
}


fn reply(code: Option<&str>, message: Option<Option<&str>>, error_message: Option<&str>, ok: Option<bool>) -> DevelopReply {
    DevelopReply {
        error_code: code.map(str::to_string),
        message: message.map(|m| m.map(str::to_string)),
        error_message: error_message.map(str::to_string),
        ok,
    }
}

#[test]
fn parses_android_bundle_result_data() {
    let result = parse_develop_result(
        r#"Result: Bundle[{result_data={"errorCode":"","ready":true,"nested":{"value":"}"}}}]"#,
    )
    .unwrap();
    assert_eq!(member(&result, "ready"), &JsonValue::Bool(true));
    assert_eq!(member(member(&result, "nested"), "value"), &text("}"));
    assert_eq!(
        result,
        JsonValue::Object(vec![
            ("errorCode".to_string(), text("")),
            (
                "nested".to_string(),
                JsonValue::Object(vec![("value".to_string(), text("}"))])
            ),
            ("ready".to_string(), JsonValue::Bool(true)),
        ])
    );
}

#[test]
fn reads_bare_json_replies() {
    match develop_result_json("  {\"ok\":true}\n").unwrap() {
        DevelopJson::Direct(t) => assert_eq!(t, "{\"ok\":true}"),
        DevelopJson::ResultData(_) => panic!("expected a direct reply"),
    }
    let value = parse_develop_result("{\"ok\":true}").unwrap();
    assert_eq!(member(&value, "ok"), &JsonValue::Bool(true));
}

#[test]
fn extracts_result_data_with_escaped_quotes() {
    match develop_result_json(r#"Bundle[{result_data = {"a":"x\"}","b":{}} trailing}]"#).unwrap() {
        DevelopJson::ResultData(t) => assert_eq!(t, r#"{"a":"x\"}","b":{}}"#),
        DevelopJson::Direct(_) => panic!("expected result_data"),
    }
}

#[test]
fn reports_malformed_replies() {
    assert!(matches!(
        develop_result_json("nothing here"),
        Err(DevelopResultError::MarkerCount)
    ));
    assert!(matches!(
        develop_result_json("result_data={} result_data={}"),
        Err(DevelopResultError::MarkerCount)
    ));
    assert!(matches!(
        develop_result_json("result_data {}"),
        Err(DevelopResultError::MissingEquals)
    ));
    assert!(matches!(
        develop_result_json("result_data= [1]"),
        Err(DevelopResultError::NotObject)
    ));
    assert!(matches!(
        develop_result_json("result_data={\"a\":{}"),
        Err(DevelopResultError::Incomplete)
    ));
    let err = parse_develop_result("result_data={\"a\":}").unwrap_err();
    assert!(matches!(err, DevelopResultError::InvalidJson { bundled: true, .. }));
    assert!(err.message().starts_with("invalid result_data JSON: "));
    let err = parse_develop_result("{oops").unwrap_err();
    assert!(matches!(err, DevelopResultError::InvalidJson { bundled: false, .. }));
    assert_eq!(
        DevelopResultError::MissingEquals.message(),
        "result_data is missing '='"
    );
}

#[test]
fn checks_error_codes_and_ok() {
    assert!(require_empty_error_code(&reply(Some(""), None, None, None), "apply").is_ok());
    assert_eq!(
        require_empty_error_code(&reply(None, None, None, None), "apply").unwrap_err(),
        "apply failed (unknown error)"
    );
    assert_eq!(
        require_empty_error_code(&reply(Some("E1"), Some(Some("boom")), Some("ignored"), None), "apply")
            .unwrap_err(),
        "apply failed (E1): boom"
    );
    assert_eq!(
        require_empty_error_code(&reply(Some("E1"), None, Some("fallback"), None), "apply").unwrap_err(),
        "apply failed (E1): fallback"
    );
    assert_eq!(
        require_empty_error_code(&reply(Some("E1"), Some(None), Some("fallback"), None), "apply")
            .unwrap_err(),
        "apply failed (E1)"
    );
    assert_eq!(
        require_empty_error_code(&reply(Some("E1"), Some(Some("")), None, None), "apply").unwrap_err(),
        "apply failed (E1)"
    );
    assert!(require_ok(&reply(Some(""), None, None, Some(true)), "open").is_ok());
    assert_eq!(
        require_ok(&reply(Some(""), None, None, Some(false)), "open").unwrap_err(),
        "open did not report ok=true"
    );
    assert_eq!(
        require_ok(&reply(Some("X"), None, None, Some(true)), "open").unwrap_err(),
        "open failed (X)"
    );
}

#[test]
fn lists_online_devices() {
    let output = "List of devices attached\nABC123\tdevice\nDEF456\tunauthorized\r\n  GHI789   device  usb:1\r\n\n";
    assert_eq!(online_devices(output), vec!["ABC123".to_string(), "GHI789".to_string()]);
    assert!(online_devices("").is_empty());
}

#[test]
fn chooses_devices() {
    let one = vec!["A".to_string()];
    let two = vec!["A".to_string(), "B".to_string()];
    let none: Vec<String> = Vec::new();
    assert!(matches!(choose_device(&one, None, false), Ok(DeviceChoice::Use(s)) if s == "A"));
    assert!(matches!(choose_device(&two, Some("B"), false), Ok(DeviceChoice::Use(s)) if s == "B"));
    let err = choose_device(&two, Some("C"), true).unwrap_err();
    assert_eq!(err.message(), "ADB device is not online or authorized: C");
    assert!(matches!(choose_device(&none, None, true), Err(DeviceError::NoDevice)));
    assert!(matches!(choose_device(&two, None, false), Err(DeviceError::NotInteractive)));
    assert!(matches!(choose_device(&two, None, true), Ok(DeviceChoice::Ask)));
}

#[test]
fn reads_device_answers() {
    assert_eq!(device_answer(" 2\n", 3), Some(1));
    assert_eq!(device_answer("+1", 3), Some(0));
    assert_eq!(device_answer("0", 3), None);
    assert_eq!(device_answer("4", 3), None);
    assert_eq!(device_answer("two", 3), None);
    assert_eq!(device_answer("", 3), None);
}

#[test]
fn checks_apply_and_status_replies() {
    let ok_reply = || reply(Some(""), None, None, None);
    let applied = |agent: Option<&str>, outcome: Option<&str>, op: Option<&str>| ApplyReply {
        reply: ok_reply(),
        agent_id: agent.map(str::to_string),
        outcome: outcome.map(str::to_string),
        operation_id: op.map(str::to_string),
    };
    let (outcome, op) = check_apply(&applied(Some("develop.rokid.a.b"), Some("CREATED"), Some("op-1")), "develop.rokid.a.b").unwrap();
    assert_eq!((outcome.as_str(), op.as_str()), ("CREATED", "op-1"));
    assert_eq!(
        check_apply(&applied(Some("x"), Some("CREATED"), Some("op")), "develop.rokid.a.b").unwrap_err(),
        "apply agentId does not match agent.json"
    );
    assert_eq!(
        check_apply(&applied(Some("x"), None, Some("op")), "x").unwrap_err(),
        "apply outcome is missing"
    );
    assert_eq!(
        check_apply(&applied(Some("x"), Some("LOST"), Some("op")), "x").unwrap_err(),
        "unexpected apply outcome: LOST"
    );
    assert_eq!(
        check_apply(&applied(Some("x"), Some("UPDATED"), Some("  ")), "x").unwrap_err(),
        "apply operationId is missing"
    );
    assert_eq!(check_status(&ok_reply(), None).unwrap(), "UNKNOWN");
    assert_eq!(
        check_status(&ok_reply(), Some("FAILED_PERMANENT")).unwrap_err(),
        "upload stopped with publishState=FAILED_PERMANENT"
    );
}

#[test]
fn summarizes_and_decides_launches() {
    assert_eq!(upload_summary("UPLOADED"), "confirmed");
    assert_eq!(upload_summary("PENDING_Upload"), "pending_upload");
    assert_eq!(outcome_summary("UNCHANGED"), "unchanged");
    let ok = reply(Some(""), None, None, None);
    assert_eq!(prepared_inbox(&ok, Some(true), Some("/data/in/")).unwrap(), "/data/in/");
    assert_eq!(
        prepared_inbox(&ok, Some(true), Some(" ")).unwrap(),
        "/sdcard/aiui/package/.staging/adb"
    );
    assert_eq!(
        prepared_inbox(&ok, None, None).unwrap_err(),
        "prepare did not report ready=true"
    );
    assert_eq!(remote_file("/data/in//", "package.aix"), "/data/in/package.aix");
    assert_eq!(remote_file("", "agent.json"), "/agent.json");
    assert!(require_developer_mode(Some("dev")).is_ok());
    assert_eq!(
        require_developer_mode(Some("prod")).unwrap_err(),
        "launch-widget requires Developer Mode; run `aix device set-dev`"
    );
    assert!(should_reapply_layout(false, Some("WIDGET_PLACEMENT_MISSING")));
    assert!(!should_reapply_layout(true, Some("WIDGET_PLACEMENT_MISSING")));
    assert!(!should_reapply_layout(false, Some("")));
    assert_eq!(developer_mode_label(Some("dev")), "enabled");
    assert_eq!(developer_mode_label(Some("prod")), "disabled");
    assert_eq!(developer_mode_label(None), "unknown");
}

#[test]
fn parses_numbers_arrays_and_null() {
    let value = parse_develop_result("{\"n\":12,\"list\":[null,false,\"x\"]}").unwrap();
    assert_eq!(member(&value, "n"), &JsonValue::Number("12".to_string()));
    assert_eq!(
        member(&value, "list"),
        &JsonValue::Array(vec![JsonValue::Null, JsonValue::Bool(false), text("x")])
    );
}

#[test]
fn limits_the_package_size() {
    assert_eq!(check_package_size(0), Ok(()));
    assert_eq!(check_package_size(134217728), Ok(()));
    assert_eq!(
        check_package_size(134217729),
        Err("package is larger than 128 MiB (134217729 bytes)".to_string())
    );
}
