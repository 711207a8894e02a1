use aix::paths::{is_rule_file, normalize_source_path, to_virtual_path};

#[test]
fn normalizing_twice_changes_nothing() {
    for path in ["pages\\index.json", "./a/b", "///x/y.txt", "././c"] {
        let once = normalize_source_path(path).unwrap();
        assert_eq!(normalize_source_path(&once).unwrap(), once);
    }
    assert_eq!(normalize_source_path("pages\\index.json").unwrap(), "pages/index.json");
    assert_eq!(normalize_source_path("././/x").unwrap(), "x");
}

#[test]
fn refuses_paths_with_bad_segments() {
    assert_eq!(normalize_source_path("a/../b").unwrap_err(), "a/../b");
    assert_eq!(normalize_source_path("").unwrap_err(), "");
    assert_eq!(normalize_source_path("a//b").unwrap_err(), "a//b");
    assert_eq!(normalize_source_path("./").unwrap_err(), "");
}

#[test]
fn recognizes_rule_files_and_virtual_paths() {
    assert!(is_rule_file(".aixignore"));
    assert!(is_rule_file("nested/.aixignore"));
    assert!(!is_rule_file("nested.aixignore"));
    assert_eq!(to_virtual_path("a/b"), "__aix_source_root__/a/b");
}
