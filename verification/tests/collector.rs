use aix::collector::{collect_inputs, CollectOptions, InputFile};

fn paths(files: &[InputFile]) -> Vec<&str> {
    files.iter().map(|f| f.path.as_str()).collect()
}

#[test]
fn excludes_files_matched_by_root_aixignore() {
    let collected = collect_inputs(
        vec![
            InputFile::new(".aixignore", b"*.tmp\n"),
            InputFile::new("keep.txt", b"keep"),
            InputFile::new("drop.tmp", b"drop"),
        ],
        &CollectOptions::default(),
    )
    .unwrap();

    assert_eq!(collected.len(), 1);
    assert_eq!(collected[0].path, "keep.txt");
}

#[test]
fn applies_nested_aixignore_rules() {
    let collected = collect_inputs(
        vec![
            InputFile::new("nested/.aixignore", b"*.tmp\n"),
            InputFile::new("nested/keep.txt", b"keep"),
            InputFile::new("nested/drop.tmp", b"drop"),
        ],
        &CollectOptions::default(),
    )
    .unwrap();

    assert_eq!(collected.len(), 1);
    assert_eq!(collected[0].path, "nested/keep.txt");
}

#[test]
fn honors_whitelist_rules() {
    let collected = collect_inputs(
        vec![
            InputFile::new(".aixignore", b"*.tmp\n!keep.tmp\n"),
            InputFile::new("keep.tmp", b"keep"),
            InputFile::new("drop.tmp", b"drop"),
        ],
        &CollectOptions::default(),
    )
    .unwrap();

    assert_eq!(collected.len(), 1);
    assert_eq!(collected[0].path, "keep.tmp");
}

#[test]
fn nested_aixignore_does_not_leak_to_root_or_siblings() {
    let collected = collect_inputs(
        vec![
            InputFile::new("nested/.aixignore", b"*.tmp\n"),
            InputFile::new("nested/keep.txt", b"keep"),
            InputFile::new("nested/drop.tmp", b"drop"),
            InputFile::new("root.tmp", b"root"),
            InputFile::new("sibling/drop.tmp", b"sibling"),
        ],
        &CollectOptions::default(),
    )
    .unwrap();

    assert_eq!(
        paths(&collected),
        vec!["nested/keep.txt", "root.tmp", "sibling/drop.tmp"]
    );
}

#[test]
fn nested_aixignore_anchored_rule_scopes_to_its_directory() {
    let collected = collect_inputs(
        vec![
            InputFile::new("nested/.aixignore", b"/secret.txt\n"),
            InputFile::new("nested/secret.txt", b"nested-secret"),
            InputFile::new("secret.txt", b"root-secret"),
        ],
        &CollectOptions::default(),
    )
    .unwrap();

    assert_eq!(paths(&collected), vec!["secret.txt"]);
}

#[test]
fn nested_aixignore_directory_rule_scopes_to_its_directory() {
    let collected = collect_inputs(
        vec![
            InputFile::new("nested/.aixignore", b"dist/\n"),
            InputFile::new("nested/dist/foo.js", b"foo"),
            InputFile::new("other/dist/foo.js", b"other"),
        ],
        &CollectOptions::default(),
    )
    .unwrap();

    assert_eq!(paths(&collected), vec!["other/dist/foo.js"]);
}

#[test]
fn nested_aixignore_whitelist_does_not_reinclude_root_file() {
    let collected = collect_inputs(
        vec![
            InputFile::new(".aixignore", b"*.tmp\n"),
            InputFile::new("nested/.aixignore", b"!keep.tmp\n"),
            InputFile::new("nested/keep.tmp", b"nested"),
            InputFile::new("keep.tmp", b"root"),
            InputFile::new("drop.tmp", b"drop"),
        ],
        &CollectOptions::default(),
    )
    .unwrap();

    assert_eq!(paths(&collected), vec!["nested/keep.tmp"]);
}

#[test]
fn normalizes_windows_style_paths() {
    let collected = collect_inputs(
        vec![InputFile::new("pages\\index.json", b"{}")],
        &CollectOptions::default(),
    )
    .unwrap();

    assert_eq!(collected[0].path, "pages/index.json");
}

#[test]
fn rejects_duplicate_paths_after_normalization() {
    let error = match collect_inputs(
        vec![
            InputFile::new("pages/index.json", b"{}"),
            InputFile::new("pages\\index.json", b"{}"),
        ],
        &CollectOptions::default(),
    ) {
        Ok(_) => panic!("duplicate paths were accepted"),
        Err(error) => error,
    };

    assert!(error.message().contains("duplicate package path"));
}

#[test]
fn keeps_rule_files_when_asked() {
    let collected = collect_inputs(
        vec![
            InputFile::new("b.txt", b"b"),
            InputFile::new(".aixignore", b"*.tmp\r\n"),
            InputFile::new("a.tmp", b"a"),
        ],
        &CollectOptions { exclude_rule_file: false },
    )
    .unwrap();

    assert_eq!(paths(&collected), vec![".aixignore", "b.txt"]);
}

#[test]
fn sorts_by_path_and_keeps_data() {
    let collected = collect_inputs(
        vec![
            InputFile::new("./z.txt", b"z"),
            InputFile::new("/a/b.txt", b"ab"),
            InputFile::new("a.txt", b"a"),
        ],
        &CollectOptions::default(),
    )
    .unwrap();

    assert_eq!(paths(&collected), vec!["a.txt", "a/b.txt", "z.txt"]);
    assert_eq!(collected[1].data, b"ab".to_vec());
}

#[test]
fn rejects_invalid_source_paths() {
    for bad in ["", "./", "a//b", "a/./b", "a/../b", "dir/"] {
        let error = match collect_inputs(vec![InputFile::new(bad, b"x")], &CollectOptions::default()) {
            Ok(_) => panic!("accepted {bad:?}"),
            Err(error) => error,
        };
        assert!(error.message().starts_with("invalid source path: "), "{bad:?}");
    }
}

#[test]
fn reports_non_utf8_rule_files() {
    let error = match collect_inputs(
        vec![InputFile::new("x/.aixignore", &[0xff, 0xfe, 0x00])],
        &CollectOptions::default(),
    ) {
        Ok(_) => panic!("accepted a non-UTF-8 rule file"),
        Err(error) => error,
    };
    assert_eq!(error.message(), "Failed to decode x/.aixignore as UTF-8");
}

#[test]
fn reports_the_least_duplicate_path() {
    let error = match collect_inputs(
        vec![
            InputFile::new("b", b"1"),
            InputFile::new("a", b"1"),
            InputFile::new("b", b"2"),
            InputFile::new("a", b"2"),
        ],
        &CollectOptions::default(),
    ) {
        Ok(_) => panic!("duplicate paths were accepted"),
        Err(error) => error,
    };
    assert_eq!(error.message(), "duplicate package path: a");
}
