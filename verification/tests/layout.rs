use aix::layout::{
    empty_widget_configuration, is_custom_module_name, upsert_overlay_widget, JsonField,
    LayoutError, WidgetModule,
};

fn text(s: &str) -> JsonField {
    JsonField::Text(s.to_string())
}

fn module(name: &str, start: u64, columns: u64, rows: u64, agent: &str, path: &str) -> WidgetModule {
    WidgetModule {
        name: text(name),
        start_index: JsonField::Count(start),
        column_size: JsonField::Count(columns),
        row_size: JsonField::Count(rows),
        agent_id: text(agent),
        path: text(path),
        rest: "{}".to_string(),
    }
}

fn is_text(f: &JsonField, expected: &str) -> bool {
    matches!(f, JsonField::Text(s) if s == expected)
}

fn is_count(f: &JsonField, expected: u64) -> bool {
    matches!(f, JsonField::Count(n) if *n == expected)
}

#[test]
fn upserts_and_reuses_overlay_widget_position() {
    let mut configuration = empty_widget_configuration();
    assert!(upsert_overlay_widget(
        &mut configuration,
        "develop.rokid.agent.test",
        "widgets/order/index",
        2,
        1,
        None,
    )
    .unwrap());
    let overlays = configuration.overlay_modules.as_ref().unwrap();
    assert!(is_count(&overlays[0].start_index, 0));
    assert!(is_text(&overlays[0].name, "custom_1"));
    assert!(!upsert_overlay_widget(
        &mut configuration,
        "develop.rokid.agent.test",
        "widgets/order/index",
        2,
        1,
        None,
    )
    .unwrap());
}

#[test]
fn replaces_unsupported_widget_module_name() {
    let mut configuration = empty_widget_configuration();
    configuration.overlay_modules = Some(vec![module(
        "aix_widgets_order_index",
        0,
        2,
        1,
        "develop.rokid.agent.test",
        "widgets/order/index",
    )]);
    assert!(upsert_overlay_widget(
        &mut configuration,
        "develop.rokid.agent.test",
        "widgets/order/index",
        2,
        1,
        None,
    )
    .unwrap());
    let overlays = configuration.overlay_modules.as_ref().unwrap();
    assert!(is_text(&overlays[0].name, "custom_1"));
}

#[test]
fn preserves_compatible_widgets_and_clears_them_when_full() {
    let mut configuration = empty_widget_configuration();
    for (agent, widget) in [
        ("develop.rokid.agent.first", "widgets/first/index"),
        ("develop.rokid.agent.second", "widgets/second/index"),
    ] {
        assert!(upsert_overlay_widget(&mut configuration, agent, widget, 2, 1, None).unwrap());
    }
    assert_eq!(configuration.overlay_modules.as_ref().unwrap().len(), 2);

    assert!(upsert_overlay_widget(
        &mut configuration,
        "develop.rokid.agent.third",
        "widgets/third/index",
        2,
        1,
        None,
    )
    .unwrap());
    let overlays = configuration.overlay_modules.as_ref().unwrap();
    assert_eq!(overlays.len(), 1);
    assert!(is_count(&overlays[0].start_index, 0));
    assert!(is_text(&overlays[0].agent_id, "develop.rokid.agent.third"));
}

#[test]
fn replaces_a_conflicting_dynamic_widget_by_default() {
    let mut configuration = empty_widget_configuration();
    configuration.overlay_modules = Some(vec![module(
        "custom_1",
        0,
        2,
        1,
        "develop.rokid.agent.first",
        "widgets/first/index",
    )]);
    assert!(upsert_overlay_widget(
        &mut configuration,
        "develop.rokid.agent.second",
        "widgets/second/index",
        2,
        1,
        Some(0),
    )
    .unwrap());
    let overlays = configuration.overlay_modules.as_ref().unwrap();
    assert_eq!(overlays.len(), 1);
    assert!(is_text(&overlays[0].agent_id, "develop.rokid.agent.second"));
}

#[test]
fn refuses_to_replace_permanent_widget_cells() {
    let mut configuration = empty_widget_configuration();
    configuration.permanent_modules = Some(vec![module(
        "clock",
        0,
        1,
        1,
        "builtin.clock",
        "widgets/clock/index",
    )]);
    assert!(upsert_overlay_widget(
        &mut configuration,
        "develop.rokid.agent.test",
        "widgets/order/index",
        1,
        1,
        Some(0),
    )
    .is_err());
}

#[test]
fn places_second_widget_on_the_next_free_row() {
    let mut configuration = empty_widget_configuration();
    assert!(upsert_overlay_widget(&mut configuration, "a", "w1", 1, 1, None).unwrap());
    assert!(upsert_overlay_widget(&mut configuration, "b", "w2", 1, 1, None).unwrap());
    let overlays = configuration.overlay_modules.as_ref().unwrap();
    assert!(is_count(&overlays[1].start_index, 1));
    assert!(is_text(&overlays[1].name, "custom_2"));
}

#[test]
fn reports_layout_errors() {
    let mut configuration = empty_widget_configuration();
    configuration.total_grid_count = Some(0);
    assert_eq!(
        upsert_overlay_widget(&mut configuration, "a", "w", 1, 1, None),
        Err(LayoutError::EmptyGrid)
    );

    let mut configuration = empty_widget_configuration();
    configuration.overlay_modules = None;
    assert_eq!(
        upsert_overlay_widget(&mut configuration, "a", "w", 1, 1, None),
        Err(LayoutError::OverlaysNotArray)
    );

    let mut configuration = empty_widget_configuration();
    configuration.permanent_modules = Some(vec![module("clock", 0, 1, 1, "a", "w")]);
    assert_eq!(
        upsert_overlay_widget(&mut configuration, "a", "w", 1, 1, None),
        Err(LayoutError::AlreadyPermanent)
    );

    let mut configuration = empty_widget_configuration();
    assert_eq!(
        upsert_overlay_widget(&mut configuration, "a", "w", 3, 1, None),
        Err(LayoutError::NoFreePosition)
    );
    assert_eq!(
        upsert_overlay_widget(&mut configuration, "a", "w", 2, 1, Some(1)),
        Err(LayoutError::ShapeDoesNotFit)
    );
    assert_eq!(
        upsert_overlay_widget(&mut configuration, "a", "w", 2, 1, Some(4)),
        Err(LayoutError::OutsideGrid)
    );
    assert_eq!(
        LayoutError::PermanentConflict.message(),
        "requested Widget position conflicts with a permanent Widget"
    );
}

#[test]
fn recognizes_custom_module_names() {
    assert!(is_custom_module_name("custom_1"));
    assert!(is_custom_module_name("custom_042"));
    assert!(!is_custom_module_name("custom_"));
    assert!(!is_custom_module_name("custom_1a"));
    assert!(!is_custom_module_name("aix_widgets_order_index"));
}

#[test]
fn a_refused_position_has_already_removed_the_old_module() {
    let mut configuration = empty_widget_configuration();
    configuration.permanent_modules = Some(vec![module(
        "clock",
        0,
        1,
        1,
        "builtin.clock",
        "widgets/clock/index",
    )]);
    configuration.overlay_modules = Some(vec![
        module("custom_1", 2, 1, 1, "develop.rokid.agent.test", "widgets/order/index"),
        module("custom_2", 3, 1, 1, "develop.rokid.agent.other", "widgets/other/index"),
    ]);
    let error = upsert_overlay_widget(
        &mut configuration,
        "develop.rokid.agent.test",
        "widgets/order/index",
        1,
        1,
        Some(0),
    )
    .unwrap_err();
    assert!(matches!(error, LayoutError::PermanentConflict));
    let overlays = configuration.overlay_modules.as_ref().unwrap();
    assert_eq!(overlays.len(), 1);
    assert!(is_text(&overlays[0].name, "custom_2"));
}

#[test]
fn a_widget_without_room_leaves_no_dynamic_widgets() {
    let mut configuration = empty_widget_configuration();
    configuration.overlay_modules = Some(vec![module(
        "custom_1",
        0,
        1,
        1,
        "develop.rokid.agent.other",
        "widgets/other/index",
    )]);
    let error = upsert_overlay_widget(
        &mut configuration,
        "develop.rokid.agent.test",
        "widgets/order/index",
        3,
        1,
        None,
    )
    .unwrap_err();
    assert!(matches!(error, LayoutError::NoFreePosition));
    assert!(configuration.overlay_modules.as_ref().unwrap().is_empty());
}
