//! Laws that relate the functions of the library: what one call guarantees of
//! another's input or output, and what holds of every result.
use vstd::prelude::*;

use crate::collector::{collected_from, decides, ignored_by, rule_speaks, FileView};
use crate::definition::{first_description, is_description};
use crate::develop::{develop_json_text, first_close, object_text};
use crate::installed::{has_aix_extension, installed_entries};
use crate::launch::{
    agent_char, agent_prefix, family_size, is_develop_agent_id, normalized_agent_id, open_route,
    quote_body, trim_dashes_end, trim_dashes_start, OpenTarget,
};
use crate::paths::{
    lemma_before_asymmetric, lemma_before_irreflexive, path_before, bad_segment, cleaned_path, forward_slashes, is_package_path, normalize_path, rule_scope,
    split_on, trim_dot_slash, trim_slashes,
};
use crate::reader::{
    decoded, directory_ok, entry_contents, inflated, normalized_zip_path, zip_crc32, zip_directory,
    EntryView,
};
use crate::report::{summary_text, OptimizeReport};
use crate::develop::JsonValue;
use crate::tools::{tool_target, ToolTarget};

verus! {

// ---------------------------------------------------------------------------
// Splitting
// ---------------------------------------------------------------------------

/// A text without the separator is one piece.
pub proof fn lemma_split_no_sep(s: Seq<char>, sep: char)
    requires
        forall|i: int| 0 <= i < s.len() ==> s[i] != sep,
    ensures
        split_on(s, sep) == seq![s],
    decreases s.len(),
{
    if s.len() > 0 {
        lemma_split_no_sep(s.drop_last(), sep);
        assert(s.drop_last().push(s.last()) =~= s);
        assert(split_on(s, sep) =~= seq![s]);
    } else {
        assert(s =~= Seq::<char>::empty());
    }
}

/// Appending a text without the separator extends the last piece.
pub proof fn lemma_split_append_no_sep(a: Seq<char>, b: Seq<char>, sep: char)
    requires
        forall|i: int| 0 <= i < b.len() ==> b[i] != sep,
    ensures
        split_on(a + b, sep) == split_on(a, sep).update(
            split_on(a, sep).len() - 1,
            split_on(a, sep).last() + b,
        ),
    decreases b.len(),
{
    crate::paths::lemma_split_nonempty(a, sep);
    if b.len() == 0 {
        assert(a + b =~= a);
        assert(split_on(a, sep).last() + b =~= split_on(a, sep).last());
        assert(split_on(a, sep).update(split_on(a, sep).len() - 1, split_on(a, sep).last())
            =~= split_on(a, sep));
    } else {
        let b0 = b.drop_last();
        lemma_split_append_no_sep(a, b0, sep);
        assert((a + b).drop_last() =~= a + b0);
        assert((a + b).last() == b.last());
        let pa = split_on(a, sep);
        assert(split_on(a + b, sep) =~= pa.update(pa.len() - 1, pa.last() + b)) by {
            assert((pa.last() + b0).push(b.last()) =~= pa.last() + b);
        }
    }
}

/// Appending the separator starts a new, empty piece.
pub proof fn lemma_split_push_sep(a: Seq<char>, sep: char)
    ensures
        split_on(a.push(sep), sep) == split_on(a, sep).push(Seq::<char>::empty()),
{
    assert(a.push(sep).drop_last() =~= a);
}

// ---------------------------------------------------------------------------
// Agent identities
// ---------------------------------------------------------------------------

proof fn lemma_trim_start_keeps(s: Seq<char>, c: char)
    requires
        forall|i: int| 0 <= i < s.len() ==> s[i] != c,
    ensures
        forall|i: int| 0 <= i < trim_dashes_start(s).len() ==> trim_dashes_start(s)[i] != c,
    decreases s.len(),
{
    if s.len() > 0 && s[0] == '-' {
        lemma_trim_start_keeps(s.drop_first(), c);
        assert(trim_dashes_start(s) == trim_dashes_start(s.drop_first()));
    } else {
        assert(trim_dashes_start(s) == s);
    }
}

proof fn lemma_trim_end_keeps(s: Seq<char>, c: char)
    requires
        forall|i: int| 0 <= i < s.len() ==> s[i] != c,
    ensures
        forall|i: int| 0 <= i < trim_dashes_end(s).len() ==> trim_dashes_end(s)[i] != c,
    decreases s.len(),
{
    if s.len() > 0 && s.last() == '-' {
        lemma_trim_end_keeps(s.drop_last(), c);
        assert(trim_dashes_end(s) == trim_dashes_end(s.drop_last()));
    } else {
        assert(trim_dashes_end(s) == s);
    }
}

/// A normalized identity holds no `.`.
pub proof fn lemma_normalized_has_no_dot(id: Seq<char>)
    ensures
        forall|i: int|
            0 <= i < normalized_agent_id(id).len() ==> normalized_agent_id(id)[i] != '.',
{
    let mapped = Seq::new(id.len(), |i: int| agent_char(id[i]));
    assert forall|i: int| 0 <= i < mapped.len() implies mapped[i] != '.' by {
        let c = id[i];
        if 'A' <= c && c <= 'Z' {
            assert((c as u32) + 32 >= 97);
        }
    }
    lemma_trim_start_keeps(mapped, '.');
    lemma_trim_end_keeps(trim_dashes_start(mapped), '.');
}

/// Every Agent ID that [`crate::launch::format_agent_id`] makes passes the
/// check of [`crate::launch::validate_definition`]: it is
/// `develop.rokid.agent.<id>` with an identity that holds no `.`.
pub proof fn law_formatted_agent_id_is_valid(id: Seq<char>)
    requires
        normalized_agent_id(id).len() > 0,
    ensures
        is_develop_agent_id(agent_prefix() + normalized_agent_id(id)),
{
    let n = normalized_agent_id(id);
    lemma_normalized_has_no_dot(id);
    let d = seq!['d', 'e', 'v', 'e', 'l', 'o', 'p'];
    let r = seq!['r', 'o', 'k', 'i', 'd'];
    let a = seq!['a', 'g', 'e', 'n', 't'];
    let e = Seq::<char>::empty();
    lemma_split_no_sep(d, '.');
    let s1 = d.push('.');
    lemma_split_push_sep(d, '.');
    assert(split_on(s1, '.') =~= seq![d, e]);
    lemma_split_append_no_sep(s1, r, '.');
    let s2 = s1 + r;
    assert(split_on(s2, '.') =~= seq![d, r]) by {
        assert(e + r =~= r);
    }
    let s3 = s2.push('.');
    lemma_split_push_sep(s2, '.');
    lemma_split_append_no_sep(s3, a, '.');
    let s4 = s3 + a;
    assert(split_on(s4, '.') =~= seq![d, r, a]) by {
        assert(e + a =~= a);
    }
    let s5 = s4.push('.');
    lemma_split_push_sep(s4, '.');
    assert(s5 =~= agent_prefix());
    lemma_split_append_no_sep(s5, n, '.');
    let parts = split_on(agent_prefix() + n, '.');
    assert(parts =~= seq![d, r, a, n]) by {
        assert(e + n =~= n);
    }
}

// ---------------------------------------------------------------------------
// Shell quoting
// ---------------------------------------------------------------------------

/// The reading of a shell word by POSIX quote removal, as far as it goes
/// without expansions: the mode (0 outside quotes, 1 inside `'...'`, 2 inside
/// `"..."`) and the characters read so far; `None` once the word holds
/// something that this reading does not cover (an unquoted character other
/// than a quote, or `\`, `$` or a backquote inside double quotes).
pub open spec fn shell_step(st: Option<(int, Seq<char>)>, c: char) -> Option<(int, Seq<char>)> {
    match st {
        None => None,
        Some((mode, out)) => if mode == 0 {
            if c == '\'' {
                Some((1, out))
            } else if c == '"' {
                Some((2, out))
            } else {
                None
            }
        } else if mode == 1 {
            if c == '\'' {
                Some((0, out))
            } else {
                Some((1, out.push(c)))
            }
        } else if c == '"' {
            Some((0, out))
        } else if c == '\\' || c == '$' || c == '`' {
            None
        } else {
            Some((2, out.push(c)))
        },
    }
}

/// The reading state after the characters of `s`.
pub open spec fn shell_read(s: Seq<char>) -> Option<(int, Seq<char>)>
    decreases s.len(),
{
    if s.len() == 0 {
        Some((0, Seq::empty()))
    } else {
        shell_step(shell_read(s.drop_last()), s.last())
    }
}

/// The value of a shell word whose quotes are all closed.
pub open spec fn shell_word_value(s: Seq<char>) -> Option<Seq<char>> {
    match shell_read(s) {
        Some((mode, out)) => if mode == 0 {
            Some(out)
        } else {
            None
        },
        None => None,
    }
}

proof fn lemma_read_push(s: Seq<char>, c: char)
    ensures
        shell_read(s.push(c)) == shell_step(shell_read(s), c),
{
    assert(s.push(c).drop_last() =~= s);
}

proof fn lemma_read_quoted_body(t: Seq<char>)
    ensures
        shell_read(seq!['\''] + quote_body(t)) == Some((1int, t)),
    decreases t.len(),
{
    if t.len() == 0 {
        assert(seq!['\''] + quote_body(t) =~= Seq::<char>::empty().push('\''));
        lemma_read_push(Seq::<char>::empty(), '\'');
        assert(t =~= Seq::<char>::empty());
    } else {
        let u = t.drop_last();
        let c = t.last();
        lemma_read_quoted_body(u);
        let w = seq!['\''] + quote_body(u);
        if c == '\'' {
            let w1 = w.push('\'');
            let w2 = w1.push('"');
            let w3 = w2.push('\'');
            let w4 = w3.push('"');
            let w5 = w4.push('\'');
            lemma_read_push(w, '\'');
            lemma_read_push(w1, '"');
            lemma_read_push(w2, '\'');
            lemma_read_push(w3, '"');
            lemma_read_push(w4, '\'');
            assert(seq!['\''] + quote_body(t) =~= w5);
            assert(u.push('\'') =~= t);
        } else {
            lemma_read_push(w, c);
            assert(seq!['\''] + quote_body(t) =~= w.push(c));
            assert(u.push(c) =~= t);
        }
    }
}

/// A POSIX shell reads the word that [`crate::launch::shell_quote`] makes as
/// exactly the quoted text, whatever the text holds.
pub proof fn law_shell_quote_reads_back(t: Seq<char>)
    ensures
        shell_word_value(seq!['\''] + quote_body(t) + seq!['\'']) == Some(t),
{
    lemma_read_quoted_body(t);
    let w = seq!['\''] + quote_body(t);
    lemma_read_push(w, '\'');
    assert(w + seq!['\''] =~= w.push('\''));
}

// ---------------------------------------------------------------------------
// Source paths
// ---------------------------------------------------------------------------

proof fn lemma_trim_dot_slash_keeps(s: Seq<char>)
    requires
        forall|i: int| 0 <= i < s.len() ==> s[i] != '\\',
    ensures
        forall|i: int| 0 <= i < trim_dot_slash(s).len() ==> trim_dot_slash(s)[i] != '\\',
    decreases s.len(),
{
    if s.len() >= 2 && s[0] == '.' && s[1] == '/' {
        lemma_trim_dot_slash_keeps(s.skip(2));
        assert(trim_dot_slash(s) == trim_dot_slash(s.skip(2)));
    } else {
        assert(trim_dot_slash(s) == s);
    }
}

proof fn lemma_trim_slashes_keeps(s: Seq<char>)
    requires
        forall|i: int| 0 <= i < s.len() ==> s[i] != '\\',
    ensures
        forall|i: int| 0 <= i < trim_slashes(s).len() ==> trim_slashes(s)[i] != '\\',
    decreases s.len(),
{
    if s.len() >= 1 && s[0] == '/' {
        lemma_trim_slashes_keeps(s.skip(1));
        assert(trim_slashes(s) == trim_slashes(s.skip(1)));
    } else {
        assert(trim_slashes(s) == s);
    }
}

/// The first piece of a split ends at the first separator.
pub proof fn lemma_split_first(s: Seq<char>, sep: char, k: int)
    requires
        0 <= k < s.len(),
        s[k] == sep,
        forall|j: int| 0 <= j < k ==> s[j] != sep,
    ensures
        split_on(s, sep)[0] == s.take(k),
    decreases s.len(),
{
    let u = s.drop_last();
    if k == s.len() - 1 {
        lemma_split_no_sep(u, sep);
        assert(u =~= s.take(k));
    } else {
        lemma_split_first(u, sep, k);
        assert(u.take(k) =~= s.take(k));
        lemma_split_at_least_two(u, sep, k);
    }
}

/// A text that holds the separator splits into at least two pieces.
pub proof fn lemma_split_at_least_two(s: Seq<char>, sep: char, k: int)
    requires
        0 <= k < s.len(),
        s[k] == sep,
    ensures
        split_on(s, sep).len() >= 2,
    decreases s.len(),
{
    crate::paths::lemma_split_nonempty(s.drop_last(), sep);
    if k < s.len() - 1 {
        lemma_split_at_least_two(s.drop_last(), sep, k);
    }
}

/// Normalizing a source path twice gives what normalizing it once gives: a
/// package path is its own normalization.
pub proof fn law_normalize_is_idempotent(p: Seq<char>)
    requires
        normalize_path(p) is Ok,
    ensures
        normalize_path(cleaned_path(p)) == Ok::<Seq<char>, Seq<char>>(cleaned_path(p)),
{
    let q = cleaned_path(p);
    let f = forward_slashes(p);
    assert forall|i: int| 0 <= i < f.len() implies f[i] != '\\' by {}
    lemma_trim_dot_slash_keeps(f);
    lemma_trim_slashes_keeps(trim_dot_slash(f));
    assert(forward_slashes(q) =~= q);
    assert(is_package_path(q));
    crate::paths::lemma_split_nonempty(q, '/');
    if q.len() >= 2 && q[0] == '.' && q[1] == '/' {
        lemma_split_first(q, '/', 1);
        assert(q.take(1) =~= seq!['.']);
        assert(bad_segment(split_on(q, '/')[0]));
        assert(false);
    }
    assert(trim_dot_slash(q) == q);
    if q.len() >= 1 && q[0] == '/' {
        lemma_split_first(q, '/', 0);
        assert(q.take(0) =~= Seq::<char>::empty());
        assert(bad_segment(split_on(q, '/')[0]));
        assert(false);
    }
    assert(trim_slashes(q) == q);
    assert(cleaned_path(q) == q);
}

// ---------------------------------------------------------------------------
// Ignore rules
// ---------------------------------------------------------------------------

/// A rule file reaches only into its own directory: adding one whose
/// directory does not contain a path leaves unchanged whether the path is
/// ignored.
pub proof fn law_rule_outside_scope_is_silent(rules: Seq<FileView>, f: FileView, p: Seq<char>)
    requires
        !rule_scope(f.path).is_prefix_of(p),
    ensures
        ignored_by(rules.push(f), p) == ignored_by(rules, p),
{
    let more = rules.push(f);
    assert(!rule_speaks(f, p));
    assert forall|i: int| decides(more, p, i) <==> decides(rules, p, i) by {
        if 0 <= i < rules.len() {
            assert(more[i] == rules[i]);
            if decides(rules, p, i) {
                assert forall|j: int| 0 <= j < more.len() && rule_speaks(#[trigger] more[j], p) implies
                    rule_scope(more[j].path).len() <= rule_scope(more[i].path).len() by {
                    if j < rules.len() {
                        assert(more[j] == rules[j]);
                    }
                }
            }
            if decides(more, p, i) {
                assert forall|j: int| 0 <= j < rules.len() && rule_speaks(#[trigger] rules[j], p) implies
                    rule_scope(rules[j].path).len() <= rule_scope(rules[i].path).len() by {
                    assert(more[j] == rules[j]);
                }
            }
        } else if i == rules.len() {
            assert(more[i] == f);
        }
    }
    if ignored_by(more, p) {
        let i = choose|i: int| decides(more, p, i) && crate::collector::verdict_of(more[i], p)
            == crate::collector::RuleMatch::Ignored;
        assert(decides(rules, p, i));
        assert(more[i] == rules[i]);
    }
    if ignored_by(rules, p) {
        let i = choose|i: int| decides(rules, p, i) && crate::collector::verdict_of(rules[i], p)
            == crate::collector::RuleMatch::Ignored;
        assert(decides(more, p, i));
        assert(more[i] == rules[i]);
    }
}

// ---------------------------------------------------------------------------
// Launch routes, families, replies, tools and reports
// ---------------------------------------------------------------------------

/// A resolved route opens a declared Widget with the `_widget` target and a
/// declared Page with the others.
pub proof fn law_route_matches_declaration(
    pages: Seq<Seq<char>>,
    widgets: Seq<Seq<char>>,
    requested_path: Option<Seq<char>>,
    requested_target: Option<Seq<char>>,
)
    ensures
        open_route(pages, widgets, requested_path, requested_target) matches Ok((p, t)) ==> (if t
            == OpenTarget::Widget {
            widgets.contains(p)
        } else {
            pages.contains(p)
        }),
{
}

/// A Widget family that is accepted has at least one column and one row.
pub proof fn law_family_size_is_positive(family: Seq<char>)
    ensures
        family_size(family) matches Ok((c, r)) ==> c >= 1 && r >= 1,
{
}

/// The JSON text taken from a `result_data` entry is a brace-delimited object.
pub proof fn law_result_data_is_braced(text: Seq<char>)
    ensures
        develop_json_text(text) matches Ok((bundled, o)) ==> (bundled ==> (o.len() >= 2 && o[0]
            == '{' && o.last() == '}')),
{
    match develop_json_text(text) {
        Ok((true, o)) => {
        let t = crate::text::trim_spaces(text);
        let i = choose|i: int| crate::develop::single_marker(text, i);
        let t1 = crate::text::trim_start_spaces(text.skip(i + 11));
        let t2 = crate::text::trim_start_spaces(t1.drop_first());
        assert(object_text(t2) == Some(o));
        let k = choose|k: int| first_close(t2, k);
        assert(o == t2.take(k + 1));
        assert(t2[k] == '}');
        assert(t2[0] == '{');
        assert(k != 0);
        },
        _ => {},
    }
}

/// Only the first Page can open in a fresh context; every other Page's tool
/// opens in the current one.
pub proof fn law_only_first_tool_opens_blank(index: int, schema: JsonValue)
    requires
        index != 0,
    ensures
        tool_target(index, schema) == ToolTarget::Current,
{
}

/// The paragraph that describes an Agent is never empty and starts neither
/// with `#` nor with `<`.
pub proof fn law_description_is_plain_text(paragraphs: Seq<Seq<char>>)
    ensures
        first_description(paragraphs) matches Some(t) ==> is_description(t),
    decreases paragraphs.len(),
{
    if paragraphs.len() > 0 {
        law_description_is_plain_text(paragraphs.drop_first());
    }
}

/// Every installed package that the device lists is an `.aix` file.
pub proof fn law_installed_packages_are_aix_files(lines: Seq<Seq<char>>, names: Seq<Option<Seq<char>>>)
    ensures
        forall|i: int|
            0 <= i < installed_entries(lines, names).len() ==> has_aix_extension(
                #[trigger] installed_entries(lines, names)[i].0,
            ),
    decreases lines.len(),
{
    if lines.len() > 0 {
        let rest = installed_entries(lines.drop_last(), names.drop_last());
        law_installed_packages_are_aix_files(lines.drop_last(), names.drop_last());
        match crate::installed::installed_entry(lines.last(), names.last()) {
            Some(e) => {
                assert(installed_entries(lines, names) == rest.push(e));
                assert forall|i: int| 0 <= i < rest.push(e).len() implies has_aix_extension(
                    #[trigger] rest.push(e)[i].0,
                ) by {
                    if i < rest.len() {
                        assert(rest.push(e)[i] == rest[i]);
                    }
                }
            },
            None => {
                assert(installed_entries(lines, names) == rest);
            },
        }
    }
}

/// Outside optimize mode, the pack report has no summary line.
pub proof fn law_no_summary_without_optimize(report: OptimizeReport, percent: Seq<char>)
    ensures
        summary_text(report, false, percent) is None,
{
}

// ---------------------------------------------------------------------------
// Reading packages
// ---------------------------------------------------------------------------

/// An archive in which two records of the central directory have the same
/// normalized name is not read.
pub proof fn law_duplicate_names_are_refused(data: Seq<u8>, i: int, j: int)
    requires
        0 <= i < zip_directory(data).len(),
        0 <= j < zip_directory(data).len(),
        i != j,
        normalized_zip_path(zip_directory(data)[i].raw_path) == normalized_zip_path(
            zip_directory(data)[j].raw_path,
        ),
    ensures
        !directory_ok(data),
{
}

/// An entry stored without compression reads back as exactly the bytes that
/// the archive holds where its data was located, when they have the recorded
/// size and CRC-32.
pub proof fn law_stored_entry_reads_its_bytes(e: EntryView, data: Seq<u8>, start: u64, end: u64)
    requires
        e.method == 0,
        e.located == Some((start, end)),
        e.size <= usize::MAX,
        data.subrange(start as int, end as int).len() == e.size,
        zip_crc32(data.subrange(start as int, end as int)) == e.crc,
    ensures
        entry_contents(e, data) == Some(data.subrange(start as int, end as int)),
{
}

/// A deflated entry reads back as what its stored data inflates to, within
/// its recorded size, when that has the recorded size and CRC-32; otherwise
/// the read fails.
pub proof fn law_deflated_entry_reads_inflated(e: EntryView, data: Seq<u8>, start: u64, end: u64)
    requires
        e.method == 8,
        e.located == Some((start, end)),
        e.size <= usize::MAX,
    ensures
        entry_contents(e, data) == match inflated(data.subrange(start as int, end as int), e.size as nat) {
            Some(out) => if out.len() == e.size && zip_crc32(out) == e.crc {
                Some(out)
            } else {
                None
            },
            None => None,
        },
{
    assert(decoded(e.method, data.subrange(start as int, end as int), e.size as nat) == Some(
        inflated(data.subrange(start as int, end as int), e.size as nat),
    ));
}

// ---------------------------------------------------------------------------
// Collecting source files
// ---------------------------------------------------------------------------

/// The files in strictly increasing path order.
pub open spec fn sorted_by_path(s: Seq<FileView>) -> bool {
    forall|i: int, j: int| 0 <= i < j < s.len() ==> path_before(#[trigger] s[i].path, #[trigger] s[j].path)
}

/// Two sequences of files, each in strictly increasing path order, that hold
/// the same files are the same sequence.
pub proof fn lemma_sorted_same_files(a: Seq<FileView>, b: Seq<FileView>)
    requires
        sorted_by_path(a),
        sorted_by_path(b),
        forall|x: FileView| a.contains(x) <==> b.contains(x),
    ensures
        a == b,
    decreases a.len(),
{
    if a.len() == 0 {
        if b.len() > 0 {
            assert(b.contains(b[0]));
        }
        assert(a =~= b);
    } else if b.len() == 0 {
        assert(a.contains(a[0]));
    } else {
        assert(a.contains(a[0]));
        assert(b.contains(b[0]));
        let k = choose|k: int| 0 <= k < b.len() && b[k] == a[0];
        let m = choose|m: int| 0 <= m < a.len() && a[m] == b[0];
        if k > 0 {
            assert(path_before(b[0].path, b[k].path));
            if m == 0 {
                lemma_before_irreflexive(b[0].path);
            } else {
                assert(path_before(a[0].path, a[m].path));
                lemma_before_asymmetric(a[0].path, a[m].path);
            }
        }
        assert(a[0] == b[0]);
        let ta = a.drop_first();
        let tb = b.drop_first();
        assert forall|x: FileView| ta.contains(x) implies tb.contains(x) by {
            let i = choose|i: int| 0 <= i < ta.len() && ta[i] == x;
            assert(a[i + 1] == x);
            assert(path_before(a[0].path, a[i + 1].path));
            lemma_before_irreflexive(a[0].path);
            assert(b.contains(x));
            let j = choose|j: int| 0 <= j < b.len() && b[j] == x;
            assert(j != 0);
            assert(tb[j - 1] == x);
        }
        assert forall|x: FileView| tb.contains(x) implies ta.contains(x) by {
            let j = choose|j: int| 0 <= j < tb.len() && tb[j] == x;
            assert(b[j + 1] == x);
            assert(path_before(b[0].path, b[j + 1].path));
            lemma_before_irreflexive(b[0].path);
            assert(a.contains(x));
            let i = choose|i: int| 0 <= i < a.len() && a[i] == x;
            assert(i != 0);
            assert(ta[i - 1] == x);
        }
        lemma_sorted_same_files(ta, tb);
        assert(a =~= seq![a[0]] + ta);
        assert(b =~= seq![b[0]] + tb);
    }
}

/// Collection has one outcome: any two results that collect the same files
/// with the same option are the same files in the same order. So the files
/// that the packing functions hand to the engine are exactly those that
/// `collect_inputs` returns for the same input.
pub proof fn law_collection_is_determined(
    n: Seq<FileView>,
    a: Seq<FileView>,
    b: Seq<FileView>,
    exclude_rule_file: bool,
)
    requires
        collected_from(n, a, exclude_rule_file),
        collected_from(n, b, exclude_rule_file),
    ensures
        a == b,
{
    assert forall|x: FileView| a.contains(x) implies b.contains(x) by {
        let i = choose|i: int| 0 <= i < a.len() && a[i] == x;
        assert(n.contains(a[i]));
        let j = choose|j: int| 0 <= j < n.len() && n[j] == x;
        assert(b.contains(n[j]));
    }
    assert forall|x: FileView| b.contains(x) implies a.contains(x) by {
        let i = choose|i: int| 0 <= i < b.len() && b[i] == x;
        assert(n.contains(b[i]));
        let j = choose|j: int| 0 <= j < n.len() && n[j] == x;
        assert(a.contains(n[j]));
    }
    lemma_sorted_same_files(a, b);
}

} // verus!
