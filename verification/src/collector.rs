//! Collection of source-side files into package inputs.
//!
//! Collection normalizes every source path to a package path, sorts the files
//! by path, rejects duplicate paths, compiles the `.aixignore` rule files found
//! among them (gitignore syntax, each anchored at its own directory), and keeps
//! the files that no rule ignores. Rule files themselves are dropped from the
//! result unless [`CollectOptions::exclude_rule_file`] is off.
use vstd::prelude::*;
use vstd::string::StringExecFns;
use vstd::utf8::{decode_utf8, valid_utf8};

use crate::paths::{
    char_vec_views, is_rule_file, is_rule_path, lemma_before_asymmetric, lemma_not_before_transitive,
    lemma_before_irreflexive, lemma_before_total, lemma_before_transitive, lines_of,
    normalize_path, normalize_source_path, path_before, rule_root, rule_root_of, rule_scope,
    string_before, text_lines, to_virtual_path, virtual_path, virtual_root,
};
use crate::text::{chars_of, string_of, trim_end_spaces};

verus! {

broadcast use {
    vstd::seq_lib::group_seq_properties,
    vstd::seq_lib::group_to_multiset_ensures,
    vstd::multiset::group_multiset_axioms,
};

// ---------------------------------------------------------------------------
// Files and options
// ---------------------------------------------------------------------------

/// One file handed to the packer: its package path and its bytes.
#[derive(Debug)]
pub struct InputFile {
    pub path: String,
    pub data: Vec<u8>,
}

/// The mathematical value of an [`InputFile`].
pub struct FileView {
    pub path: Seq<char>,
    pub data: Seq<u8>,
}

impl View for InputFile {
    type V = FileView;

    open spec fn view(&self) -> FileView {
        FileView { path: self.path@, data: self.data@ }
    }
}

pub open spec fn file_views(v: Seq<InputFile>) -> Seq<FileView> {
    v.map_values(|f: InputFile| f@)
}

impl InputFile {
    /// A file with the given path and bytes.
    pub fn new(path: &str, data: &[u8]) -> (f: InputFile)
        ensures
            f@.path == path@,
            f@.data == data@,
    {
        InputFile { path: path.to_owned(), data: vstd::slice::slice_to_vec(data) }
    }
}

/// Options that control how source-side files are collected before packaging.
pub struct CollectOptions {
    /// Leaves `.aixignore` files out of the collected files. They are still
    /// read and applied either way.
    pub exclude_rule_file: bool,
}

impl Default for CollectOptions {
    /// The options for directory packaging: rule files are left out.
    fn default() -> (o: Self)
        ensures
            o.exclude_rule_file,
    {
        CollectOptions { exclude_rule_file: true }
    }
}

// ---------------------------------------------------------------------------
// Errors
// ---------------------------------------------------------------------------

/// Why collection failed.
#[derive(Debug)]
pub enum CollectError {
    /// A source path is not a package path; holds the cleaned path.
    InvalidPath(String),
    /// Two files have the same package path.
    DuplicatePath(String),
    /// A rule file is not UTF-8 text.
    RuleNotUtf8(String),
    /// A line of a rule file is not a valid glob; holds the rule file's path
    /// and the parser's explanation.
    InvalidRule(String, String),
    /// The globs of a rule file could not be compiled together; holds the rule
    /// file's path and the compiler's explanation.
    RulesNotBuilt(String, String),
}


impl CollectError {
    /// The error message that a command line reports.
    pub fn message(&self) -> (m: String)
        ensures
            m@ == match self {
                CollectError::InvalidPath(p) => "invalid source path: "@ + p@,
                CollectError::DuplicatePath(p) => "duplicate package path: "@ + p@,
                CollectError::RuleNotUtf8(p) => "Failed to decode "@ + p@ + " as UTF-8"@,
                CollectError::InvalidRule(p, why) => "Invalid .aixignore in "@ + p@ + ": "@ + why@,
                CollectError::RulesNotBuilt(_, why) => "Failed to build .aixignore matcher: "@ + why@,
            },
    {
        match self {
            CollectError::InvalidPath(p) => String::from_str("invalid source path: ").concat(p.as_str()),
            CollectError::DuplicatePath(p) => String::from_str("duplicate package path: ").concat(p.as_str()),
            CollectError::RuleNotUtf8(p) => String::from_str("Failed to decode ").concat(p.as_str()).concat(" as UTF-8"),
            CollectError::InvalidRule(p, why) => String::from_str("Invalid .aixignore in ").concat(p.as_str()).concat(": ").concat(why.as_str()),
            CollectError::RulesNotBuilt(_, why) => String::from_str("Failed to build .aixignore matcher: ").concat(why.as_str()),
        }
    }
}

/// What a [`CollectError`] says, apart from the explanations of the glob parser.
pub enum CollectFailure {
    InvalidPath(Seq<char>),
    DuplicatePath(Seq<char>),
    RuleNotUtf8(Seq<char>),
    InvalidRule(Seq<char>),
    RulesNotBuilt(Seq<char>),
}

impl View for CollectError {
    type V = CollectFailure;

    open spec fn view(&self) -> CollectFailure {
        match self {
            CollectError::InvalidPath(p) => CollectFailure::InvalidPath(p@),
            CollectError::DuplicatePath(p) => CollectFailure::DuplicatePath(p@),
            CollectError::RuleNotUtf8(p) => CollectFailure::RuleNotUtf8(p@),
            CollectError::InvalidRule(p, _) => CollectFailure::InvalidRule(p@),
            CollectError::RulesNotBuilt(p, _) => CollectFailure::RulesNotBuilt(p@),
        }
    }
}

// ---------------------------------------------------------------------------
// Trusted: UTF-8 decoding and the gitignore matcher of the `ignore` crate
// ---------------------------------------------------------------------------

/// `String::from_utf8`: succeeds exactly on valid UTF-8, with the decoded
/// characters.
#[verifier::external_body]
pub(crate) fn decode_text(data: &Vec<u8>) -> (r: Option<String>)
    ensures
        r is Some <==> valid_utf8(data@),
        r matches Some(s) ==> s@ == decode_utf8(data@),
{
    String::from_utf8(data.clone()).ok()
}

#[verifier::external_type_specification]
#[verifier::external_body]
pub struct ExGitignoreBuilder(ignore::gitignore::GitignoreBuilder);

#[verifier::external_type_specification]
#[verifier::external_body]
pub struct ExGitignore(ignore::gitignore::Gitignore);

/// Whether `GitignoreBuilder::add_line` accepts a line: comments and blank
/// lines are accepted as no-ops, other lines when they parse as globs.
pub uninterp spec fn gitignore_line_accepted(line: Seq<char>) -> bool;

/// The root directory a gitignore builder anchors its globs at (its `root`).
pub uninterp spec fn builder_root(b: ignore::gitignore::GitignoreBuilder) -> Seq<char>;

/// The globs a gitignore builder holds, as their trimmed source lines (the
/// `original` text of its `globs`), in order.
pub uninterp spec fn builder_lines(b: ignore::gitignore::GitignoreBuilder) -> Seq<Seq<char>>;

/// The root directory a gitignore matcher anchors its globs at.
pub uninterp spec fn matcher_root(m: ignore::gitignore::Gitignore) -> Seq<char>;

/// The globs a gitignore matcher holds, as their trimmed source lines, in order.
pub uninterp spec fn matcher_lines(m: ignore::gitignore::Gitignore) -> Seq<Seq<char>>;

/// Whether `GitignoreBuilder::build` compiles globs with these source lines.
pub uninterp spec fn gitignore_builds(lines: Seq<Seq<char>>) -> bool;

/// How a gitignore matcher with this root and these globs judges a file path,
/// or, failing that, the nearest of its parent directories that a glob matches
/// (`Gitignore::matched_path_or_any_parents`, for a file).
pub uninterp spec fn gitignore_verdict(root: Seq<char>, lines: Seq<Seq<char>>, path: Seq<char>) -> RuleMatch;

/// How a rule judges a path.
#[derive(Clone, Copy, PartialEq, Eq, Structural)]
pub enum RuleMatch {
    /// No glob of the rule matches the path or its parents.
    Unmatched,
    /// The last matching glob ignores the path.
    Ignored,
    /// The last matching glob is a `!` whitelist.
    Whitelisted,
}

/// The glob that `GitignoreBuilder::add_line` keeps of a line: none for a
/// `#` comment; otherwise the line without trailing white space (unless it
/// ends with an escaped space `\ `), and none when that is empty.
pub open spec fn glob_line(line: Seq<char>) -> Option<Seq<char>> {
    if line.len() > 0 && line[0] == '#' {
        None
    } else {
        let t = if line.len() >= 2 && line[line.len() - 2] == '\\' && line[line.len() - 1] == ' ' {
            line
        } else {
            trim_end_spaces(line)
        };
        if t.len() == 0 {
            None
        } else {
            Some(t)
        }
    }
}

/// The globs that a sequence of lines adds, in order.
pub open spec fn glob_lines(lines: Seq<Seq<char>>) -> Seq<Seq<char>>
    decreases lines.len(),
{
    if lines.len() == 0 {
        Seq::empty()
    } else {
        let rest = glob_lines(lines.drop_last());
        match glob_line(lines.last()) {
            Some(t) => rest.push(t),
            None => rest,
        }
    }
}

/// `GitignoreBuilder::new`: an empty builder anchored at `root` (which does
/// not begin with `.`, so that the builder keeps it as it is).
#[verifier::external_body]
fn new_rule_builder(root: &str) -> (b: ignore::gitignore::GitignoreBuilder)
    requires
        root@.len() > 0,
        root@[0] != '.',
    ensures
        builder_root(b) == root@,
        builder_lines(b) == Seq::<Seq<char>>::empty(),
{
    ignore::gitignore::GitignoreBuilder::new(std::path::Path::new(root))
}

/// `GitignoreBuilder::add_line`: on success it adds the line's glob, if the
/// line has one (see [`glob_line`]); when the line does not parse it leaves
/// the builder unchanged and returns the parser's message.
#[verifier::external_body]
fn add_rule_line(b: &mut ignore::gitignore::GitignoreBuilder, line: &str) -> (r: Result<(), String>)
    ensures
        r is Ok <==> gitignore_line_accepted(line@),
        builder_root(*final(b)) == builder_root(*old(b)),
        r is Ok ==> builder_lines(*final(b)) == match glob_line(line@) {
            Some(t) => builder_lines(*old(b)).push(t),
            None => builder_lines(*old(b)),
        },
        r is Err ==> builder_lines(*final(b)) == builder_lines(*old(b)),
{
    match b.add_line(None, line) {
        Ok(_) => Ok(()),
        Err(error) => Err(error.to_string()),
    }
}

/// `GitignoreBuilder::build`: compiles the builder's globs into a matcher.
/// Without any glob it gives the empty matcher, whose root is empty and which
/// matches nothing.
#[verifier::external_body]
fn build_rule_matcher(b: &ignore::gitignore::GitignoreBuilder) -> (r: Result<ignore::gitignore::Gitignore, String>)
    ensures
        r is Ok <==> gitignore_builds(builder_lines(*b)),
        r matches Ok(m) ==> matcher_lines(m) == builder_lines(*b),
        r matches Ok(m) ==> (builder_lines(*b).len() > 0 ==> matcher_root(m) == builder_root(*b)),
        r matches Ok(m) ==> (builder_lines(*b).len() == 0 ==> forall|p: Seq<char>|
            #[trigger] gitignore_verdict(matcher_root(m), matcher_lines(m), p) == RuleMatch::Unmatched),
{
    match b.build() {
        Ok(m) => Ok(m),
        Err(error) => Err(error.to_string()),
    }
}

/// Two slashes in a row at `i`.
pub open spec fn slash_pair(s: Seq<char>, i: int) -> bool {
    s[i] == '/' && s[i + 1] == '/'
}

/// `Gitignore::matched_path_or_any_parents` for a file path without a leading
/// `/` and without an empty segment, so that the matcher never sees a rooted
/// path (on which it would panic).
#[verifier::external_body]
fn match_rule(m: &ignore::gitignore::Gitignore, path: &str) -> (r: RuleMatch)
    requires
        path@.len() > 0,
        path@[0] != '/',
        forall|i: int| 0 <= i < path@.len() - 1 ==> !#[trigger] slash_pair(path@, i),
    ensures
        r == gitignore_verdict(matcher_root(*m), matcher_lines(*m), path@),
{
    match m.matched_path_or_any_parents(std::path::Path::new(path), false) {
        ignore::Match::None => RuleMatch::Unmatched,
        ignore::Match::Ignore(_) => RuleMatch::Ignored,
        ignore::Match::Whitelist(_) => RuleMatch::Whitelisted,
    }
}


// ---------------------------------------------------------------------------
// What collection computes
// ---------------------------------------------------------------------------

/// The first file, in input order, whose path does not normalize.
pub open spec fn is_first_invalid(files: Seq<FileView>, i: int) -> bool {
    &&& 0 <= i < files.len()
    &&& normalize_path(files[i].path) is Err
    &&& forall|j: int| 0 <= j < i ==> normalize_path(#[trigger] files[j].path) is Ok
}

/// The files with their paths normalized.
pub open spec fn normalized_files(files: Seq<FileView>) -> Seq<FileView> {
    Seq::new(files.len(), |i: int| FileView { path: normalize_path(files[i].path)->Ok_0, data: files[i].data })
}

/// Two different files have the path `p`.
pub open spec fn duplicated(n: Seq<FileView>, p: Seq<char>) -> bool {
    exists|i: int, j: int| 0 <= i < n.len() && 0 <= j < n.len() && i != j && #[trigger] n[i].path == p && #[trigger] n[j].path == p
}

/// `p` is the least duplicated path.
pub open spec fn is_least_duplicate(n: Seq<FileView>, p: Seq<char>) -> bool {
    &&& duplicated(n, p)
    &&& forall|q: Seq<char>| #[trigger] duplicated(n, q) ==> !path_before(q, p)
}

/// The lines of a rule file.
pub open spec fn rule_lines(f: FileView) -> Seq<Seq<char>> {
    text_lines(decode_utf8(f.data))
}

/// Why a rule file cannot be compiled, if it cannot.
pub open spec fn rule_failure(f: FileView) -> Option<CollectFailure> {
    if !valid_utf8(f.data) {
        Some(CollectFailure::RuleNotUtf8(f.path))
    } else if exists|k: int| 0 <= k < rule_lines(f).len() && !gitignore_line_accepted(#[trigger] rule_lines(f)[k]) {
        Some(CollectFailure::InvalidRule(f.path))
    } else if !gitignore_builds(glob_lines(rule_lines(f))) {
        Some(CollectFailure::RulesNotBuilt(f.path))
    } else {
        None
    }
}

/// A rule file that cannot be compiled.
pub open spec fn failing_rule(f: FileView) -> bool {
    is_rule_path(f.path) && rule_failure(f) is Some
}

/// The failing rule file with the least path.
pub open spec fn is_first_failing_rule(n: Seq<FileView>, i: int) -> bool {
    &&& 0 <= i < n.len()
    &&& failing_rule(n[i])
    &&& forall|j: int| 0 <= j < n.len() && failing_rule(#[trigger] n[j]) ==> !path_before(n[j].path, n[i].path)
}

/// Why collection of these files fails, if it does: the first path that does
/// not normalize; else the least duplicated package path; else the failure of
/// the rule file with the least path among those that fail.
pub open spec fn collect_failure(files: Seq<FileView>) -> Option<CollectFailure> {
    if exists|i: int| is_first_invalid(files, i) {
        let i = choose|i: int| is_first_invalid(files, i);
        Some(CollectFailure::InvalidPath(normalize_path(files[i].path)->Err_0))
    } else {
        let n = normalized_files(files);
        if exists|p: Seq<char>| duplicated(n, p) {
            Some(CollectFailure::DuplicatePath(choose|p: Seq<char>| is_least_duplicate(n, p)))
        } else if exists|i: int| 0 <= i < n.len() && failing_rule(#[trigger] n[i]) {
            rule_failure(n[choose|i: int| is_first_failing_rule(n, i)])
        } else {
            None
        }
    }
}

/// How the rule file `f` judges the package path `p`.
pub open spec fn verdict_of(f: FileView, p: Seq<char>) -> RuleMatch {
    if glob_lines(rule_lines(f)).len() == 0 {
        RuleMatch::Unmatched
    } else {
        gitignore_verdict(rule_root(f.path), glob_lines(rule_lines(f)), virtual_path(p))
    }
}

/// A rule file whose directory contains `p` and whose globs match `p` or one
/// of its parent directories.
pub open spec fn rule_speaks(f: FileView, p: Seq<char>) -> bool {
    &&& is_rule_path(f.path)
    &&& rule_scope(f.path).is_prefix_of(p)
    &&& verdict_of(f, p) != RuleMatch::Unmatched
}

/// `rules[i]` is the deepest rule file that speaks about `p`.
pub open spec fn decides(rules: Seq<FileView>, p: Seq<char>, i: int) -> bool {
    &&& 0 <= i < rules.len()
    &&& rule_speaks(rules[i], p)
    &&& forall|j: int| 0 <= j < rules.len() && rule_speaks(#[trigger] rules[j], p)
        ==> rule_scope(rules[j].path).len() <= rule_scope(rules[i].path).len()
}

/// The deepest rule file that speaks about `p` ignores it: a nested
/// `.aixignore` overrides the ones above it, and a rule never reaches outside
/// its own directory.
pub open spec fn ignored_by(rules: Seq<FileView>, p: Seq<char>) -> bool {
    exists|i: int| decides(rules, p, i) && verdict_of(rules[i], p) == RuleMatch::Ignored
}

/// Whether collection keeps a file.
pub open spec fn kept(n: Seq<FileView>, f: FileView, exclude_rule_file: bool) -> bool {
    &&& !(exclude_rule_file && is_rule_path(f.path))
    &&& !ignored_by(n, f.path)
}

/// `out` holds, in increasing path order, exactly the files of `n` that
/// collection keeps.
pub open spec fn collected_from(n: Seq<FileView>, out: Seq<FileView>, exclude_rule_file: bool) -> bool {
    &&& forall|i: int, j: int| 0 <= i < j < out.len() ==> path_before(#[trigger] out[i].path, #[trigger] out[j].path)
    &&& forall|i: int| 0 <= i < out.len() ==> n.contains(#[trigger] out[i]) && kept(n, out[i], exclude_rule_file)
    &&& forall|i: int| 0 <= i < n.len() && kept(n, #[trigger] n[i], exclude_rule_file) ==> out.contains(n[i])
}


// ---------------------------------------------------------------------------
// Normalizing and sorting
// ---------------------------------------------------------------------------

fn copy_bytes(v: &Vec<u8>) -> (r: Vec<u8>)
    ensures
        r@ == v@,
{
    vstd::slice::slice_to_vec(v.as_slice())
}

/// The files with normalized paths, or the first path that is not a package path.
fn normalize_inputs(files: &Vec<InputFile>) -> (r: Result<Vec<InputFile>, CollectError>)
    ensures
        match r {
            Ok(v) => (forall|i: int| !is_first_invalid(file_views(files@), i)) && file_views(v@)
                == normalized_files(file_views(files@)) && forall|j: int|
                0 <= j < files.len() ==> normalize_path(#[trigger] file_views(files@)[j].path) is Ok,
            Err(e) => exists|i: int|
                is_first_invalid(file_views(files@), i) && e@ == CollectFailure::InvalidPath(
                    normalize_path(file_views(files@)[i].path)->Err_0,
                ),
        },
{
    let ghost fv = file_views(files@);
    let mut out: Vec<InputFile> = Vec::new();
    let mut i: usize = 0;
    while i < files.len()
        invariant
            i <= files.len(),
            fv == file_views(files@),
            forall|j: int| 0 <= j < i ==> normalize_path(#[trigger] fv[j].path) is Ok,
            file_views(out@) =~= normalized_files(fv).take(i as int),
        decreases files.len() - i,
    {
        match normalize_source_path(files[i].path.as_str()) {
            Ok(path) => {
                let data = copy_bytes(&files[i].data);
                let ghost prev = out@;
                out.push(InputFile { path, data });
                assert(file_views(out@) =~= file_views(prev).push(normalized_files(fv)[i as int]));
            },
            Err(path) => {
                assert(is_first_invalid(fv, i as int));
                return Err(CollectError::InvalidPath(path));
            },
        }
        i = i + 1;
    }
    assert(normalized_files(fv).take(i as int) =~= normalized_files(fv));
    proof {
        assert forall|k: int| !is_first_invalid(fv, k) by {}
    }
    Ok(out)
}

/// Paths in non-decreasing order.
pub open spec fn sorted_by_path(s: Seq<FileView>) -> bool {
    forall|i: int, j: int| 0 <= i < j < s.len() ==> !path_before(#[trigger] s[j].path, #[trigger] s[i].path)
}

/// The files sorted by path (insertion sort).
fn sort_by_path(v: Vec<InputFile>) -> (r: Vec<InputFile>)
    ensures
        file_views(r@).to_multiset() == file_views(v@).to_multiset(),
        sorted_by_path(file_views(r@)),
{
    let ghost total = file_views(v@).to_multiset();
    let mut rest = v;
    let mut out: Vec<InputFile> = Vec::new();
    assert(file_views(out@) =~= Seq::<FileView>::empty());
    while rest.len() > 0
        invariant
            file_views(rest@).to_multiset().add(file_views(out@).to_multiset()) == total,
            sorted_by_path(file_views(out@)),
        decreases rest.len(),
    {
        let ghost rest_before = rest@;
        let f = match rest.pop() {
            Some(f) => f,
            None => {
                return out;
            },
        };
        assert(file_views(rest_before) =~= file_views(rest@).push(f@));
        let mut pos: usize = 0;
        while pos < out.len() && string_before(&out[pos].path, &f.path)
            invariant
                pos <= out.len(),
                forall|k: int| 0 <= k < pos ==> path_before(#[trigger] out@[k]@.path, f@.path),
            decreases out.len() - pos,
        {
            pos = pos + 1;
        }
        let ghost out_before = file_views(out@);
        let ghost fview = f@;
        out.insert(pos, f);
        assert(file_views(out@) =~= out_before.insert(pos as int, fview));
        proof {
            let t = file_views(out@);
            assert forall|i: int, j: int| 0 <= i < j < t.len() implies !path_before(#[trigger] t[j].path, #[trigger] t[i].path) by {
                if j < pos {
                    assert(t[i] == out_before[i] && t[j] == out_before[j]);
                } else if j == pos {
                    assert(t[i] == out_before[i]);
                    assert(path_before(out_before[i].path, fview.path));
                    lemma_before_asymmetric(out_before[i].path, fview.path);
                } else if i > pos {
                    assert(t[i] == out_before[i - 1] && t[j] == out_before[j - 1]);
                } else if i == pos {
                    assert(t[j] == out_before[j - 1]);
                    assert(!path_before(out_before[pos as int].path, fview.path));
                    if j - 1 > pos {
                        assert(!path_before(out_before[j - 1].path, out_before[pos as int].path));
                    } else {
                        lemma_before_irreflexive(out_before[pos as int].path);
                    }
                    lemma_not_before_transitive(fview.path, out_before[pos as int].path, out_before[j - 1].path);
                } else {
                    assert(t[i] == out_before[i] && t[j] == out_before[j - 1]);
                }
            }
            vstd::seq_lib::to_multiset_insert(out_before, pos as int, fview);
            assert(file_views(rest@).to_multiset().add(file_views(out@).to_multiset()) =~= total);
        }
    }
    assert(file_views(rest@) =~= Seq::<FileView>::empty());
    assert(file_views(out@).to_multiset() =~= total);
    out
}


// ---------------------------------------------------------------------------
// Duplicates
// ---------------------------------------------------------------------------

proof fn lemma_count_two<A>(s: Seq<A>, i: int, j: int)
    requires
        0 <= i < s.len(),
        0 <= j < s.len(),
        i != j,
        s[i] == s[j],
    ensures
        s.to_multiset().count(s[i]) >= 2,
{
    let r = s.remove(j);
    assert(r.len() == s.len() - 1);
    let k = if i < j { i } else { i - 1 };
    assert(r[k] == s[i]);
    assert(r.contains(s[i]));
    assert(r.to_multiset() == s.to_multiset().remove(s[j]));
    assert(r.to_multiset().count(s[i]) > 0);
}

proof fn lemma_two_indices<A>(s: Seq<A>, x: A)
    requires
        s.to_multiset().count(x) >= 2,
    ensures
        exists|i: int, j: int| 0 <= i < s.len() && 0 <= j < s.len() && i != j && s[i] == x && s[j] == x,
{
    assert(s.contains(x));
    let i = choose|i: int| 0 <= i < s.len() && s[i] == x;
    let r = s.remove(i);
    assert(r.to_multiset().count(x) >= 1);
    assert(r.contains(x));
    let k = choose|k: int| 0 <= k < r.len() && r[k] == x;
    let j = if k < i { k } else { k + 1 };
    assert(s[j] == x);
}

/// Two entries at different indices of one sequence sit at different indices
/// of any rearrangement of it.
proof fn lemma_two_positions<A>(n: Seq<A>, s: Seq<A>, i: int, j: int)
    requires
        n.to_multiset() == s.to_multiset(),
        0 <= i < n.len(),
        0 <= j < n.len(),
        i != j,
    ensures
        exists|a: int, b: int| 0 <= a < s.len() && 0 <= b < s.len() && a != b && s[a] == n[i] && s[b] == n[j],
{
    if n[i] == n[j] {
        lemma_count_two(n, i, j);
        lemma_two_indices(s, n[i]);
    } else {
        assert(n.contains(n[i]));
        assert(n.contains(n[j]));
        assert(n.to_multiset().count(n[i]) > 0);
        assert(n.to_multiset().count(n[j]) > 0);
        assert(s.to_multiset().count(n[i]) > 0);
        assert(s.to_multiset().count(n[j]) > 0);
        assert(s.contains(n[i]));
        assert(s.contains(n[j]));
        let a = choose|a: int| 0 <= a < s.len() && s[a] == n[i];
        let b = choose|b: int| 0 <= b < s.len() && s[b] == n[j];
        assert(a != b);
    }
}

/// In a sorted sequence, two entries with the same path make the first of
/// them equal in path to its successor.
proof fn lemma_sorted_equal_neighbour(s: Seq<FileView>, a: int, b: int)
    requires
        sorted_by_path(s),
        0 <= a < b < s.len(),
        s[a].path == s[b].path,
    ensures
        s[a].path == s[a + 1].path,
{
    lemma_before_total(s[a].path, s[a + 1].path);
    if a + 1 < b {
        assert(!path_before(s[b].path, s[a + 1].path));
    }
    assert(!path_before(s[a + 1].path, s[a].path));
}

/// The first index whose file has the same path as the next one.
fn first_adjacent_duplicate(v: &Vec<InputFile>) -> (r: Option<usize>)
    ensures
        match r {
            Some(k) => k + 1 < v.len() && v@[k as int]@.path == v@[k + 1]@.path && forall|j: int|
                0 <= j < k ==> (#[trigger] v@[j]@).path != v@[j + 1]@.path,
            None => forall|j: int| 0 <= j < v.len() - 1 ==> (#[trigger] v@[j]@).path != v@[j + 1]@.path,
        },
{
    let mut k: usize = 0;
    while v.len() > 0 && k < v.len() - 1
        invariant
            k <= v.len(),
            forall|j: int| 0 <= j < k ==> (#[trigger] v@[j]@).path != v@[j + 1]@.path,
        decreases v.len() - k,
    {
        if v[k].path.eq(&v[k + 1].path) {
            return Some(k);
        }
        k = k + 1;
    }
    None
}

/// Sorted files without equal neighbours are in strictly increasing order.
proof fn lemma_strictly_sorted(s: Seq<FileView>)
    requires
        sorted_by_path(s),
        forall|j: int| 0 <= j < s.len() - 1 ==> (#[trigger] s[j]).path != s[j + 1].path,
    ensures
        forall|i: int, j: int| 0 <= i < j < s.len() ==> path_before(#[trigger] s[i].path, #[trigger] s[j].path),
{
    assert forall|i: int, j: int| 0 <= i < j < s.len() implies path_before(#[trigger] s[i].path, #[trigger] s[j].path) by {
        lemma_before_total(s[i].path, s[j].path);
        if s[i].path == s[j].path {
            lemma_sorted_equal_neighbour(s, i, j);
        }
    }
}

/// The first duplicate of the sorted rearrangement is the least duplicated
/// path of the files; without one, no path is duplicated.
proof fn lemma_duplicates(n: Seq<FileView>, s: Seq<FileView>, k: Option<int>)
    requires
        n.to_multiset() == s.to_multiset(),
        sorted_by_path(s),
        match k {
            Some(k) => 0 <= k && k + 1 < s.len() && s[k].path == s[k + 1].path && forall|j: int|
                0 <= j < k ==> (#[trigger] s[j]).path != s[j + 1].path,
            None => forall|j: int| 0 <= j < s.len() - 1 ==> (#[trigger] s[j]).path != s[j + 1].path,
        },
    ensures
        match k {
            Some(k) => is_least_duplicate(n, s[k].path),
            None => forall|p: Seq<char>| !duplicated(n, p),
        },
{
    assert forall|q: Seq<char>| duplicated(n, q) implies exists|a: int| 0 <= a < s.len() - 1
        && (#[trigger] s[a]).path == q && s[a + 1].path == q by {
        let (i, j) = choose|i: int, j: int| 0 <= i < n.len() && 0 <= j < n.len() && i != j && #[trigger] n[i].path == q && #[trigger] n[j].path == q;
        lemma_two_positions(n, s, i, j);
        let (a, b) = choose|a: int, b: int| 0 <= a < s.len() && 0 <= b < s.len() && a != b && s[a] == n[i] && s[b] == n[j];
        if a < b {
            lemma_sorted_equal_neighbour(s, a, b);
        } else {
            lemma_sorted_equal_neighbour(s, b, a);
        }
    }
    match k {
        Some(k) => {
            lemma_two_positions(s, n, k, k + 1);
            let (a, b) = choose|a: int, b: int| 0 <= a < n.len() && 0 <= b < n.len() && a != b && n[a] == s[k] && n[b] == s[k + 1];
            assert(n[a].path == s[k].path && n[b].path == s[k].path);
            assert(duplicated(n, s[k].path));
            assert forall|q: Seq<char>| #[trigger] duplicated(n, q) implies !path_before(q, s[k].path) by {
                let a = choose|a: int| 0 <= a < s.len() - 1 && (#[trigger] s[a]).path == q && s[a + 1].path == q;
                if a < k {
                    assert(s[a].path != s[a + 1].path);
                } else if a == k {
                    lemma_before_irreflexive(q);
                } else {
                    assert(!path_before(s[a].path, s[k].path));
                }
            }
        },
        None => {
            assert forall|p: Seq<char>| !duplicated(n, p) by {
                if duplicated(n, p) {
                    let a = choose|a: int| 0 <= a < s.len() - 1 && (#[trigger] s[a]).path == p && s[a + 1].path == p;
                }
            }
        },
    }
}


// ---------------------------------------------------------------------------
// Rule files
// ---------------------------------------------------------------------------

/// A compiled `.aixignore` rule file.
struct IgnoreRule {
    /// The directory part of the rule file's path, see [`rule_scope`].
    scope: Vec<char>,
    matcher: ignore::gitignore::Gitignore,
    /// The rule file it was compiled from.
    source: Ghost<FileView>,
}

spec fn rule_ok(r: IgnoreRule) -> bool {
    &&& is_rule_path(r.source@.path)
    &&& r.scope@ == rule_scope(r.source@.path)
    &&& matcher_lines(r.matcher) == glob_lines(rule_lines(r.source@))
    &&& glob_lines(rule_lines(r.source@)).len() > 0 ==> matcher_root(r.matcher) == rule_root(r.source@.path)
    &&& glob_lines(rule_lines(r.source@)).len() == 0 ==> forall|p: Seq<char>|
        #[trigger] gitignore_verdict(matcher_root(r.matcher), matcher_lines(r.matcher), p) == RuleMatch::Unmatched
}

spec fn rule_sources(rules: Seq<IgnoreRule>) -> Seq<FileView> {
    rules.map_values(|r: IgnoreRule| r.source@)
}

fn copy_string(s: &String) -> (r: String)
    ensures
        r@ == s@,
{
    s.clone()
}

/// Compiles one rule file, or says why it cannot be.
fn compile_rule(f: &InputFile) -> (r: Result<IgnoreRule, CollectError>)
    requires
        is_rule_path(f@.path),
    ensures
        match rule_failure(f@) {
            Some(e) => r matches Err(x) && x@ == e,
            None => r matches Ok(rule) && rule_ok(rule) && rule.source@ == f@,
        },
{
    let text = match decode_text(&f.data) {
        Some(t) => t,
        None => {
            return Err(CollectError::RuleNotUtf8(copy_string(&f.path)));
        },
    };
    let cs = chars_of(text.as_str());
    let lines = lines_of(&cs);
    let ghost lv = char_vec_views(lines@);
    assert(lv == rule_lines(f@));
    let root = rule_root_of(f.path.as_str());
    assert(root@[0] == '_');
    let mut builder = new_rule_builder(root.as_str());
    let mut k: usize = 0;
    assert(lv.take(0) =~= Seq::<Seq<char>>::empty());
    while k < lines.len()
        invariant
            k <= lines.len(),
            lv == char_vec_views(lines@),
            lv == rule_lines(f@),
            valid_utf8(f@.data),
            builder_root(builder) == rule_root(f@.path),
            builder_lines(builder) == glob_lines(lv.take(k as int)),
            forall|j: int| 0 <= j < k ==> gitignore_line_accepted(#[trigger] lv[j]),
        decreases lines.len() - k,
    {
        let line = string_of(&lines[k]);
        match add_rule_line(&mut builder, line.as_str()) {
            Ok(()) => {},
            Err(msg) => {
                assert(rule_lines(f@).len() == lines.len());
                assert(!gitignore_line_accepted(rule_lines(f@)[k as int]));
                return Err(CollectError::InvalidRule(copy_string(&f.path), msg));
            },
        }
        assert(lv.take(k + 1).drop_last() =~= lv.take(k as int));
        k = k + 1;
    }
    assert(lv.take(k as int) =~= lv);
    let matcher = match build_rule_matcher(&builder) {
        Ok(m) => m,
        Err(msg) => {
            return Err(CollectError::RulesNotBuilt(copy_string(&f.path), msg));
        },
    };
    let pcs = chars_of(f.path.as_str());
    let scope_len = pcs.len() - 10;
    let mut scope: Vec<char> = Vec::new();
    let mut i: usize = 0;
    while i < scope_len
        invariant
            i <= scope_len,
            scope_len == pcs.len() - 10,
            scope_len <= pcs.len(),
            scope@ =~= pcs@.take(i as int),
        decreases scope_len - i,
    {
        scope.push(pcs[i]);
        i = i + 1;
    }
    Ok(IgnoreRule { scope, matcher, source: Ghost(f@) })
}

/// Compiles the rule files among `s`, in order, stopping at the first that
/// cannot be compiled. Also returns, for each rule, the index of its file.
fn build_rules(s: &Vec<InputFile>) -> (r: Result<(Vec<IgnoreRule>, Ghost<Seq<int>>), CollectError>)
    ensures
        match r {
            Ok((rules, idx)) => {
                &&& forall|j: int| 0 <= j < s.len() ==> !failing_rule(#[trigger] file_views(s@)[j])
                &&& idx@.len() == rules.len()
                &&& forall|t: int| 0 <= t < rules.len() ==> rule_ok(#[trigger] rules@[t])
                &&& forall|t: int| 0 <= t < rules.len() ==> 0 <= #[trigger] idx@[t] < s.len() && rules@[t].source@ == file_views(s@)[idx@[t]]
                &&& forall|a: int, b: int| 0 <= a < b < rules.len() ==> #[trigger] idx@[a] < #[trigger] idx@[b]
                &&& forall|k: int| 0 <= k < s.len() && is_rule_path(#[trigger] file_views(s@)[k].path) ==> exists|t: int| 0 <= t < rules.len() && idx@[t] == k
            },
            Err(e) => exists|i: int|
                0 <= i < s.len() && failing_rule(#[trigger] file_views(s@)[i]) && e@ == rule_failure(file_views(s@)[i])->Some_0
                    && forall|j: int| 0 <= j < i ==> !failing_rule(#[trigger] file_views(s@)[j]),
        },
{
    let ghost sv = file_views(s@);
    let mut rules: Vec<IgnoreRule> = Vec::new();
    let ghost mut idx: Seq<int> = Seq::empty();
    let mut i: usize = 0;
    while i < s.len()
        invariant
            i <= s.len(),
            sv == file_views(s@),
            forall|j: int| 0 <= j < i ==> !failing_rule(#[trigger] sv[j]),
            idx.len() == rules.len(),
            forall|t: int| 0 <= t < rules.len() ==> rule_ok(#[trigger] rules@[t]),
            forall|t: int| 0 <= t < rules.len() ==> 0 <= #[trigger] idx[t] < i && rules@[t].source@ == sv[idx[t]],
            forall|a: int, b: int| 0 <= a < b < rules.len() ==> #[trigger] idx[a] < #[trigger] idx[b],
            forall|k: int| 0 <= k < i && is_rule_path(#[trigger] sv[k].path) ==> exists|t: int| 0 <= t < rules.len() && idx[t] == k,
        decreases s.len() - i,
    {
        if is_rule_file(s[i].path.as_str()) {
            match compile_rule(&s[i]) {
                Ok(rule) => {
                    let ghost old_idx = idx;
                    let ghost old_len = rules.len();
                    rules.push(rule);
                    proof {
                        idx = idx.push(i as int);
                        assert(idx[idx.len() - 1] == i);
                        assert forall|k: int| 0 <= k < i + 1 && is_rule_path(#[trigger] sv[k].path) implies exists|t: int| 0 <= t < rules.len() && idx[t] == k by {
                            if k < i {
                                let t = choose|t: int| 0 <= t < old_len && old_idx[t] == k;
                                assert(idx[t] == k);
                            } else {
                                assert(idx[old_len as int] == k);
                            }
                        }
                    }
                },
                Err(e) => {
                    assert(failing_rule(sv[i as int]));
                    return Err(e);
                },
            }
        }
        i = i + 1;
    }
    Ok((rules, Ghost(idx)))
}

/// Whether `a` begins with `b`.
fn starts_with(a: &Vec<char>, b: &Vec<char>) -> (r: bool)
    ensures
        r == b@.is_prefix_of(a@),
{
    if b.len() > a.len() {
        return false;
    }
    let mut i: usize = 0;
    while i < b.len()
        invariant
            i <= b.len(),
            b.len() <= a.len(),
            forall|j: int| 0 <= j < i ==> a@[j] == b@[j],
        decreases b.len() - i,
    {
        if a[i] != b[i] {
            return false;
        }
        i = i + 1;
    }
    true
}

/// Two rule files whose scopes are prefixes of one path and have the same
/// length are the same rule file.
proof fn lemma_same_scope(a: Seq<char>, b: Seq<char>, p: Seq<char>)
    requires
        is_rule_path(a),
        is_rule_path(b),
        rule_scope(a).is_prefix_of(p),
        rule_scope(b).is_prefix_of(p),
        rule_scope(a).len() == rule_scope(b).len(),
    ensures
        a == b,
{
    crate::paths::lemma_rule_path_parts(a);
    crate::paths::lemma_rule_path_parts(b);
    assert(rule_scope(a) =~= rule_scope(b));
}

/// Whether the deepest rule that speaks about `path` ignores it.
fn is_ignored(rules: &Vec<IgnoreRule>, path: &String) -> (r: bool)
    requires
        forall|t: int| 0 <= t < rules.len() ==> rule_ok(#[trigger] rules@[t]),
        forall|a: int, b: int| 0 <= a < rules.len() && 0 <= b < rules.len() && a != b
            ==> (#[trigger] rules@[a]).source@.path != (#[trigger] rules@[b]).source@.path,
        crate::paths::is_package_path(path@),
    ensures
        r == ignored_by(rule_sources(rules@), path@),
{
    let ghost src = rule_sources(rules@);
    let vpath = to_virtual_path(path.as_str());
    proof {
        crate::paths::lemma_package_path_slashes(path@);
        let v = vpath@;
        assert(v == virtual_root() + seq!['/'] + path@);
        assert forall|i: int| 0 <= i < v.len() - 1 implies !#[trigger] slash_pair(v, i) by {
            if i < 19 {
                assert(v[i] == virtual_root()[i]);
            } else if i == 19 {
                assert(v[i + 1] == path@[0]);
            } else {
                assert(v[i] == path@[i - 20] && v[i + 1] == path@[i - 19]);
            }
        }
        assert(v[0] == '_');
    }
    let pcs = chars_of(path.as_str());
    let mut best: Option<usize> = None;
    let mut best_verdict = RuleMatch::Unmatched;
    let mut t: usize = 0;
    while t < rules.len()
        invariant
            t <= rules.len(),
            src == rule_sources(rules@),
            pcs@ == path@,
            vpath@ == virtual_path(path@),
            vpath@.len() > 0,
            vpath@[0] != '/',
            forall|i: int| 0 <= i < vpath@.len() - 1 ==> !#[trigger] slash_pair(vpath@, i),
            forall|u: int| 0 <= u < rules.len() ==> rule_ok(#[trigger] rules@[u]),
            match best {
                Some(b) => {
                    &&& b < t
                    &&& rule_speaks(src[b as int], path@)
                    &&& best_verdict == verdict_of(src[b as int], path@)
                    &&& forall|j: int| 0 <= j < t && rule_speaks(#[trigger] src[j], path@)
                        ==> rule_scope(src[j].path).len() <= rule_scope(src[b as int].path).len()
                },
                None => forall|j: int| 0 <= j < t ==> !rule_speaks(#[trigger] src[j], path@),
            },
        decreases rules.len() - t,
    {
        let rule = &rules[t];
        assert(src[t as int] == rule.source@);
        if starts_with(&pcs, &rule.scope) {
            let verdict = match_rule(&rule.matcher, vpath.as_str());
            assert(verdict == verdict_of(src[t as int], path@));
            let better = match best {
                Some(b) => rule.scope.len() > rules[b].scope.len(),
                None => true,
            };
            if verdict != RuleMatch::Unmatched && better {
                best = Some(t);
                best_verdict = verdict;
            }
        }
        t = t + 1;
    }
    let r = best.is_some() && best_verdict == RuleMatch::Ignored;
    proof {
        match best {
            Some(b) => {
                assert(decides(src, path@, b as int));
                if ignored_by(src, path@) {
                    let i = choose|i: int| decides(src, path@, i) && verdict_of(src[i], path@) == RuleMatch::Ignored;
                    lemma_same_scope(src[i].path, src[b as int].path, path@);
                    if i != b {
                        assert(rules@[i].source@.path != rules@[b as int].source@.path);
                    }
                }
            },
            None => {},
        }
    }
    r
}

/// Two sequences with the same rule files judge every path alike.
proof fn lemma_same_rules(a: Seq<FileView>, b: Seq<FileView>, p: Seq<char>)
    requires
        forall|f: FileView| is_rule_path(f.path) ==> (a.contains(f) <==> b.contains(f)),
    ensures
        ignored_by(a, p) == ignored_by(b, p),
{
    if ignored_by(a, p) {
        let i = choose|i: int| decides(a, p, i) && verdict_of(a[i], p) == RuleMatch::Ignored;
        assert(a.contains(a[i]));
        let k = choose|k: int| 0 <= k < b.len() && b[k] == a[i];
        assert forall|j: int| 0 <= j < b.len() && rule_speaks(#[trigger] b[j], p)
            implies rule_scope(b[j].path).len() <= rule_scope(b[k].path).len() by {
            assert(b.contains(b[j]));
            let m = choose|m: int| 0 <= m < a.len() && a[m] == b[j];
        }
        assert(decides(b, p, k));
    }
    if ignored_by(b, p) {
        let i = choose|i: int| decides(b, p, i) && verdict_of(b[i], p) == RuleMatch::Ignored;
        assert(b.contains(b[i]));
        let k = choose|k: int| 0 <= k < a.len() && a[k] == b[i];
        assert forall|j: int| 0 <= j < a.len() && rule_speaks(#[trigger] a[j], p)
            implies rule_scope(a[j].path).len() <= rule_scope(a[k].path).len() by {
            assert(a.contains(a[j]));
            let m = choose|m: int| 0 <= m < b.len() && b[m] == a[j];
        }
        assert(decides(a, p, k));
    }
}


// ---------------------------------------------------------------------------
// Collection
// ---------------------------------------------------------------------------

proof fn lemma_first_invalid_unique(files: Seq<FileView>, i: int, j: int)
    requires
        is_first_invalid(files, i),
        is_first_invalid(files, j),
    ensures
        i == j,
{
    if i < j {
        assert(normalize_path(files[i].path) is Ok);
    } else if j < i {
        assert(normalize_path(files[j].path) is Ok);
    }
}

proof fn lemma_least_duplicate_unique(n: Seq<FileView>, p: Seq<char>, q: Seq<char>)
    requires
        is_least_duplicate(n, p),
        is_least_duplicate(n, q),
    ensures
        p == q,
{
    lemma_before_total(p, q);
}

/// Every element of one rearrangement is in the other.
proof fn lemma_contains_rearranged(n: Seq<FileView>, s: Seq<FileView>, f: FileView)
    requires
        n.to_multiset() == s.to_multiset(),
        s.contains(f),
    ensures
        n.contains(f),
{
    assert(s.to_multiset().count(f) > 0);
    assert(n.to_multiset().count(f) > 0);
}

/// The first rule file of the strictly sorted files that fails is the failing
/// rule file with the least path.
proof fn lemma_first_failing(n: Seq<FileView>, s: Seq<FileView>, i: int)
    requires
        n.to_multiset() == s.to_multiset(),
        forall|a: int, b: int| 0 <= a < b < s.len() ==> path_before(#[trigger] s[a].path, #[trigger] s[b].path),
        forall|p: Seq<char>| !duplicated(n, p),
        0 <= i < s.len(),
        failing_rule(s[i]),
        forall|j: int| 0 <= j < i ==> !failing_rule(#[trigger] s[j]),
    ensures
        exists|m: int| 0 <= m < n.len() && failing_rule(#[trigger] n[m]),
        n[choose|m: int| is_first_failing_rule(n, m)] == s[i],
{
    assert(s.contains(s[i]));
    lemma_contains_rearranged(n, s, s[i]);
    let m = choose|m: int| 0 <= m < n.len() && n[m] == s[i];
    assert forall|j: int| 0 <= j < n.len() && failing_rule(#[trigger] n[j]) implies !path_before(n[j].path, n[m].path) by {
        assert(n.contains(n[j]));
        assert(n.to_multiset().count(n[j]) > 0);
        assert(s.to_multiset().count(n[j]) > 0);
        assert(s.contains(n[j]));
        let k = choose|k: int| 0 <= k < s.len() && s[k] == n[j];
        if k < i {
            assert(!failing_rule(s[k]));
        } else if k == i {
            lemma_before_irreflexive(s[i].path);
        } else {
            assert(path_before(s[i].path, s[k].path));
            lemma_before_asymmetric(s[i].path, s[k].path);
        }
    }
    assert(is_first_failing_rule(n, m));
    let c = choose|c: int| is_first_failing_rule(n, c);
    lemma_before_total(n[c].path, n[m].path);
    if c != m {
        assert(n[c].path == n[m].path);
        assert(duplicated(n, n[m].path));
    }
}

/// Collects source files into normalized package inputs.
///
/// Paths are normalized to forward-slash package paths, the files are sorted
/// by path and duplicate paths are rejected; `.aixignore` rule files are
/// compiled (each anchored at its own directory, a deeper one overriding the
/// ones above it) and the files they ignore are dropped, as are the rule files
/// themselves when `options.exclude_rule_file` is set.
pub fn collect_inputs(files: Vec<InputFile>, options: &CollectOptions) -> (r: Result<Vec<InputFile>, CollectError>)
    ensures
        match collect_failure(file_views(files@)) {
            Some(e) => r matches Err(x) && x@ == e,
            None => r matches Ok(out) && collected_from(
                normalized_files(file_views(files@)),
                file_views(out@),
                options.exclude_rule_file,
            ),
        },
{
    let ghost fv = file_views(files@);
    let normalized = match normalize_inputs(&files) {
        Ok(v) => v,
        Err(e) => {
            proof {
                let i = choose|i: int| is_first_invalid(fv, i) && e@ == CollectFailure::InvalidPath(
                    normalize_path(fv[i].path)->Err_0,
                );
                let c = choose|c: int| is_first_invalid(fv, c);
                lemma_first_invalid_unique(fv, i, c);
            }
            return Err(e);
        },
    };
    let ghost n = normalized_files(fv);
    assert(file_views(normalized@) == n);
    let sorted = sort_by_path(normalized);
    let ghost sv = file_views(sorted@);
    match first_adjacent_duplicate(&sorted) {
        Some(k) => {
            proof {
                lemma_duplicates(n, sv, Some(k as int));
                assert(duplicated(n, sv[k as int].path));
                let c = choose|p: Seq<char>| is_least_duplicate(n, p);
                lemma_least_duplicate_unique(n, c, sv[k as int].path);
            }
            return Err(CollectError::DuplicatePath(copy_string(&sorted[k].path)));
        },
        None => {
            proof {
                lemma_duplicates(n, sv, None);
                lemma_strictly_sorted(sv);
            }
        },
    }
    let (rules, idx) = match build_rules(&sorted) {
        Ok(r) => r,
        Err(e) => {
            proof {
                let i = choose|i: int|
                    0 <= i < sv.len() && failing_rule(#[trigger] sv[i]) && e@ == rule_failure(sv[i])->Some_0
                        && forall|j: int| 0 <= j < i ==> !failing_rule(#[trigger] sv[j]);
                lemma_first_failing(n, sv, i);
            }
            return Err(e);
        },
    };
    proof {
        assert forall|m: int| 0 <= m < n.len() implies !failing_rule(#[trigger] n[m]) by {
            assert(n.contains(n[m]));
            lemma_contains_rearranged(sv, n, n[m]);
            let k = choose|k: int| 0 <= k < sv.len() && sv[k] == n[m];
        }
        assert(collect_failure(fv) is None);
        // The compiled rules are exactly the rule files of the input.
        assert forall|f: FileView| is_rule_path(f.path) implies (rule_sources(rules@).contains(f) <==> n.contains(f)) by {
            if rule_sources(rules@).contains(f) {
                let t = choose|t: int| 0 <= t < rule_sources(rules@).len() && rule_sources(rules@)[t] == f;
                assert(sv.contains(sv[idx@[t]]));
                lemma_contains_rearranged(n, sv, f);
            }
            if n.contains(f) {
                lemma_contains_rearranged(sv, n, f);
                let k = choose|k: int| 0 <= k < sv.len() && sv[k] == f;
                let t = choose|t: int| 0 <= t < rules.len() && idx@[t] == k;
                assert(rule_sources(rules@)[t] == f);
            }
        }
        assert forall|a: int, b: int| 0 <= a < rules.len() && 0 <= b < rules.len() && a != b
            implies (#[trigger] rules@[a]).source@.path != (#[trigger] rules@[b]).source@.path by {
            if a < b {
                assert(idx@[a] < idx@[b]);
                lemma_before_irreflexive(sv[idx@[a]].path);
            } else {
                assert(idx@[b] < idx@[a]);
                lemma_before_irreflexive(sv[idx@[b]].path);
            }
        }
    }
    let exclude = options.exclude_rule_file;
    let mut out: Vec<InputFile> = Vec::new();
    let ghost mut oidx: Seq<int> = Seq::empty();
    let mut i: usize = 0;
    while i < sorted.len()
        invariant
            i <= sorted.len(),
            sv == file_views(sorted@),
            n.to_multiset() == sv.to_multiset(),
            exclude == options.exclude_rule_file,
            forall|a: int, b: int| 0 <= a < b < sv.len() ==> path_before(#[trigger] sv[a].path, #[trigger] sv[b].path),
            forall|m: int| 0 <= m < n.len() ==> crate::paths::is_package_path(#[trigger] n[m].path),
            forall|t: int| 0 <= t < rules.len() ==> rule_ok(#[trigger] rules@[t]),
            forall|a: int, b: int| 0 <= a < rules.len() && 0 <= b < rules.len() && a != b
                ==> (#[trigger] rules@[a]).source@.path != (#[trigger] rules@[b]).source@.path,
            forall|f: FileView| is_rule_path(f.path) ==> (rule_sources(rules@).contains(f) <==> n.contains(f)),
            oidx.len() == out.len(),
            forall|a: int| 0 <= a < out.len() ==> 0 <= #[trigger] oidx[a] < i && file_views(out@)[a] == sv[oidx[a]],
            forall|a: int, b: int| 0 <= a < b < out.len() ==> #[trigger] oidx[a] < #[trigger] oidx[b],
            forall|a: int| 0 <= a < out.len() ==> kept(n, #[trigger] file_views(out@)[a], exclude),
            forall|k: int| 0 <= k < i && kept(n, #[trigger] sv[k], exclude) ==> file_views(out@).contains(sv[k]),
        decreases sorted.len() - i,
    {
        let f = &sorted[i];
        let ghost fview = sv[i as int];
        assert(f@ == fview);
        assert(sv.contains(fview));
        proof {
            lemma_contains_rearranged(n, sv, fview);
        }
        let rule_file = is_rule_file(f.path.as_str());
        let skip = if rule_file && exclude {
            true
        } else {
            proof {
                let m = choose|m: int| 0 <= m < n.len() && n[m] == fview;
                assert(crate::paths::is_package_path(n[m].path));
                lemma_same_rules(rule_sources(rules@), n, fview.path);
            }
            is_ignored(&rules, &f.path)
        };
        assert(skip == !kept(n, fview, exclude));
        if !skip {
            let ghost before = file_views(out@);
            let copy = InputFile { path: copy_string(&f.path), data: copy_bytes(&f.data) };
            out.push(copy);
            proof {
                oidx = oidx.push(i as int);
                assert(file_views(out@) =~= before.push(fview));
                assert forall|k: int| 0 <= k < i + 1 && kept(n, #[trigger] sv[k], exclude) implies file_views(out@).contains(sv[k]) by {
                    if k < i {
                        assert(before.contains(sv[k]));
                        let a = choose|a: int| 0 <= a < before.len() && before[a] == sv[k];
                        assert(file_views(out@)[a] == sv[k]);
                    } else {
                        assert(file_views(out@)[before.len() as int] == sv[k]);
                    }
                }
            }
        }
        i = i + 1;
    }
    proof {
        let ov = file_views(out@);
        assert forall|a: int, b: int| 0 <= a < b < ov.len() implies path_before(#[trigger] ov[a].path, #[trigger] ov[b].path) by {
            assert(oidx[a] < oidx[b]);
        }
        assert forall|a: int| 0 <= a < ov.len() implies n.contains(#[trigger] ov[a]) && kept(n, ov[a], exclude) by {
            assert(sv.contains(sv[oidx[a]]));
            lemma_contains_rearranged(n, sv, ov[a]);
        }
        assert forall|m: int| 0 <= m < n.len() && kept(n, #[trigger] n[m], exclude) implies ov.contains(n[m]) by {
            assert(n.contains(n[m]));
            lemma_contains_rearranged(sv, n, n[m]);
            let k = choose|k: int| 0 <= k < sv.len() && sv[k] == n[m];
        }
    }
    Ok(out)
}

} // verus!
