use aix::installed::installed_packages;

#[test]
fn lists_installed_packages_sorted_by_name() {
    let output = "/sdcard/aiui/package/b.aix|2048\n/sdcard/aiui/package/a.aix|10\r\n/sdcard/aiui/package/notes.txt|5\nbroken line\n/sdcard/aiui/package/c.aix|big\n/sdcard/x|y/z.aix|7\n";
    assert_eq!(
        installed_packages(output),
        vec![
            ("a.aix".to_string(), 10),
            ("b.aix".to_string(), 2048),
            ("z.aix".to_string(), 7)
        ]
    );
    assert!(installed_packages("").is_empty());
    assert!(installed_packages("/..|3\n").is_empty());
}
