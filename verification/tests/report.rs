use aix::report::{
    render_pack_file_line, render_pack_report_lines, FileOptimizeReport, OptimizeReport,
    OptimizeStatus,
};

fn percent(report: &OptimizeReport) -> String {
    format!(
        "{:.2}",
        (report.saved_bytes as f64 / report.original_size as f64) * 100.0
    )
}

#[test]
fn render_pack_report_keeps_script_minification_visible_without_summary() {
    let report = OptimizeReport {
        files: vec![
            FileOptimizeReport {
                path: "VERSION".into(),
                status: OptimizeStatus::Skipped,
                original_size: 36,
                output_size: 36,
                saved_bytes: 0,
                converted_to_utf8: false,
            },
            FileOptimizeReport {
                path: "scripts/app.js".into(),
                status: OptimizeStatus::Optimized,
                original_size: 40,
                output_size: 28,
                saved_bytes: 12,
                converted_to_utf8: false,
            },
        ],
        original_size: 76,
        output_size: 64,
        saved_bytes: 12,
    };

    let lines = render_pack_report_lines(&report, false, &percent(&report));

    assert_eq!(
        lines,
        vec!["Optimized scripts/app.js: 40 bytes -> 28 bytes (saved 12 bytes)".to_string()]
    );
}

#[test]
fn render_pack_report_adds_summary_only_for_optimize_mode() {
    let report = OptimizeReport {
        files: vec![FileOptimizeReport {
            path: "images/cover.png".into(),
            status: OptimizeStatus::Optimized,
            original_size: 4096,
            output_size: 3072,
            saved_bytes: 1024,
            converted_to_utf8: false,
        }],
        original_size: 4096,
        output_size: 3072,
        saved_bytes: 1024,
    };

    let lines = render_pack_report_lines(&report, true, &percent(&report));

    assert_eq!(lines.len(), 2);
    assert_eq!(
        lines[0],
        "Optimized images/cover.png: 4.00 KB -> 3.00 KB (saved 1.00 KB)"
    );
    assert_eq!(
        lines[1],
        "Optimization Summary: Total saved 1.00 KB (25.00%)"
    );
}

#[test]
fn renders_converted_and_added_files() {
    let converted = FileOptimizeReport {
        path: "pages/a.json".into(),
        status: OptimizeStatus::Skipped,
        original_size: 10,
        output_size: 10,
        saved_bytes: 0,
        converted_to_utf8: true,
    };
    assert_eq!(
        render_pack_file_line(&converted).unwrap(),
        "Converted pages/a.json to UTF-8 for packaging\nAdding file: pages/a.json"
    );
    let version = FileOptimizeReport {
        path: "VERSION".into(),
        status: OptimizeStatus::Skipped,
        original_size: 36,
        output_size: 36,
        saved_bytes: 0,
        converted_to_utf8: true,
    };
    assert_eq!(
        render_pack_file_line(&version).unwrap(),
        "Converted VERSION to UTF-8 for packaging"
    );
    let empty = OptimizeReport {
        files: Vec::new(),
        original_size: 0,
        output_size: 0,
        saved_bytes: 0,
    };
    assert!(render_pack_report_lines(&empty, true, "0.00").is_empty());
}
