//! The lines that `aix pack` prints about what the optimizer did to each file
//! of a package.
use vstd::prelude::*;

use crate::launch::string_views;
use crate::sizes::{format_size, size_text};
use vstd::string::StringExecFns;

verus! {

/// What the optimizer did to one file.
#[derive(Debug, Clone, Copy, PartialEq, Eq, Structural)]
pub enum OptimizeStatus {
    Optimized,
    Skipped,
}

/// The optimizer's report on one file of a package.
#[derive(Debug)]
pub struct FileOptimizeReport {
    pub path: String,
    pub status: OptimizeStatus,
    pub original_size: u64,
    pub output_size: u64,
    pub saved_bytes: u64,
    pub converted_to_utf8: bool,
}

/// The optimizer's report on a whole package.
#[derive(Debug)]
pub struct OptimizeReport {
    pub files: Vec<FileOptimizeReport>,
    pub original_size: u64,
    pub output_size: u64,
    pub saved_bytes: u64,
}

/// `Converted <path> to UTF-8 for packaging`
pub open spec fn converted_text(path: Seq<char>) -> Seq<char> {
    "Converted "@ + path + " to UTF-8 for packaging"@
}

/// `Optimized <path>: <original> -> <output> (saved <saved>)`
pub open spec fn optimized_text(f: FileOptimizeReport) -> Seq<char> {
    "Optimized "@ + f.path@ + ": "@ + size_text(f.original_size as nat) + " -> "@ + size_text(
        f.output_size as nat,
    ) + " (saved "@ + size_text(f.saved_bytes as nat) + ")"@
}

/// The second line about a file: how much the optimizer saved, or that the file
/// was added; nothing for the `VERSION` file that the packer writes itself.
pub open spec fn outcome_text(f: FileOptimizeReport) -> Option<Seq<char>> {
    if f.status == OptimizeStatus::Optimized {
        Some(optimized_text(f))
    } else if f.path@ != "VERSION"@ {
        Some("Adding file: "@ + f.path@)
    } else {
        None
    }
}

/// What is printed about one file: its lines joined by a line break, or nothing.
pub open spec fn file_line_text(f: FileOptimizeReport) -> Option<Seq<char>> {
    match (f.converted_to_utf8, outcome_text(f)) {
        (true, Some(o)) => Some(converted_text(f.path@) + "\n"@ + o),
        (true, None) => Some(converted_text(f.path@)),
        (false, o) => o,
    }
}

/// The lines printed about the files, in order, skipping those with nothing to say.
pub open spec fn file_lines(files: Seq<FileOptimizeReport>) -> Seq<Seq<char>>
    decreases files.len(),
{
    if files.len() == 0 {
        Seq::empty()
    } else {
        let rest = file_lines(files.drop_last());
        match file_line_text(files.last()) {
            Some(l) => rest.push(l),
            None => rest,
        }
    }
}

/// The summary line, printed only in optimize mode and for a non-empty
/// package; `percent` is the saved share of the original size, already
/// written with two decimals.
pub open spec fn summary_text(report: OptimizeReport, optimize: bool, percent: Seq<char>) -> Option<
    Seq<char>,
> {
    if optimize && report.original_size > 0 {
        Some(
            "Optimization Summary: Total saved "@ + size_text(report.saved_bytes as nat) + " ("@
                + percent + "%)"@,
        )
    } else {
        None
    }
}

pub open spec fn opt_text(o: Option<String>) -> Option<Seq<char>> {
    match o {
        Some(s) => Some(s@),
        None => None,
    }
}

fn is_version_file(path: &String) -> (r: bool)
    ensures
        r == (path@ == "VERSION"@),
{
    let version = String::from_str("VERSION");
    path.eq(&version)
}

/// What `aix pack` prints about one file of its report.
pub fn render_pack_file_line(file: &FileOptimizeReport) -> (r: Option<String>)
    ensures
        opt_text(r) == file_line_text(*file),
{
    let outcome: Option<String> = if file.status == OptimizeStatus::Optimized {
        let original = format_size(file.original_size);
        let output = format_size(file.output_size);
        let saved = format_size(file.saved_bytes);
        Some(
            String::from_str("Optimized ").concat(file.path.as_str()).concat(": ").concat(
                original.as_str(),
            ).concat(" -> ").concat(output.as_str()).concat(" (saved ").concat(
                saved.as_str(),
            ).concat(")"),
        )
    } else if !is_version_file(&file.path) {
        Some(String::from_str("Adding file: ").concat(file.path.as_str()))
    } else {
        None
    };
    assert(opt_text(outcome) == outcome_text(*file));
    if file.converted_to_utf8 {
        let converted = String::from_str("Converted ").concat(file.path.as_str()).concat(
            " to UTF-8 for packaging",
        );
        match outcome {
            Some(o) => Some(converted.concat("\n").concat(o.as_str())),
            None => Some(converted),
        }
    } else {
        outcome
    }
}

/// The summary line of `aix pack`, given the saved share already written
/// with two decimals.
pub fn render_pack_summary_line(report: &OptimizeReport, optimize: bool, percent: &str) -> (r:
    Option<String>)
    ensures
        opt_text(r) == summary_text(*report, optimize, percent@),
{
    if optimize && report.original_size > 0 {
        let saved = format_size(report.saved_bytes);
        Some(
            String::from_str("Optimization Summary: Total saved ").concat(saved.as_str()).concat(
                " (",
            ).concat(percent).concat("%)"),
        )
    } else {
        None
    }
}

/// Every line that `aix pack` prints about its report: one per file with
/// something to say, then the summary line where there is one.
pub fn render_pack_report_lines(report: &OptimizeReport, optimize: bool, percent: &str) -> (r: Vec<
    String,
>)
    ensures
        string_views(r@) == match summary_text(*report, optimize, percent@) {
            Some(s) => file_lines(report.files@).push(s),
            None => file_lines(report.files@),
        },
{
    let mut lines: Vec<String> = Vec::new();
    let mut i: usize = 0;
    while i < report.files.len()
        invariant
            i <= report.files.len(),
            string_views(lines@) == file_lines(report.files@.take(i as int)),
        decreases report.files.len() - i,
    {
        assert(report.files@.take(i + 1).drop_last() =~= report.files@.take(i as int));
        match render_pack_file_line(&report.files[i]) {
            Some(line) => {
                lines.push(line);
            },
            None => {},
        }
        assert(string_views(lines@) =~= file_lines(report.files@.take(i + 1)));
        i = i + 1;
    }
    assert(report.files@.take(i as int) =~= report.files@);
    match render_pack_summary_line(report, optimize, percent) {
        Some(line) => {
            lines.push(line);
        },
        None => {},
    }
    assert(string_views(lines@) =~= match summary_text(*report, optimize, percent@) {
        Some(s) => file_lines(report.files@).push(s),
        None => file_lines(report.files@),
    });
    lines
}

} // verus!
