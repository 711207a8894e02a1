//! Package paths: normalization of source-side paths to forward-slash package
//! paths, splitting text, the `.aixignore` rule files, and the order in which
//! package paths are sorted.
use vstd::prelude::*;

use crate::text::{chars_of, string_of};

verus! {

broadcast use vstd::seq_lib::group_seq_properties;

// ---------------------------------------------------------------------------
// Splitting
// ---------------------------------------------------------------------------

/// The pieces of `s` between occurrences of `sep`, as `str::split` yields them:
/// one piece more than there are separators.
pub open spec fn split_on(s: Seq<char>, sep: char) -> Seq<Seq<char>>
    decreases s.len(),
{
    if s.len() == 0 {
        seq![Seq::<char>::empty()]
    } else {
        let p = split_on(s.drop_last(), sep);
        if s.last() == sep {
            p.push(Seq::<char>::empty())
        } else {
            p.update(p.len() - 1, p.last().push(s.last()))
        }
    }
}

pub proof fn lemma_split_nonempty(s: Seq<char>, sep: char)
    ensures
        split_on(s, sep).len() >= 1,
    decreases s.len(),
{
    if s.len() > 0 {
        lemma_split_nonempty(s.drop_last(), sep);
    }
}

pub open spec fn char_vec_views(v: Seq<Vec<char>>) -> Seq<Seq<char>> {
    v.map_values(|x: Vec<char>| x@)
}

/// Splits `s` at every `sep`.
pub fn split_chars(s: &Vec<char>, sep: char) -> (r: Vec<Vec<char>>)
    ensures
        char_vec_views(r@) == split_on(s@, sep),
{
    let mut parts: Vec<Vec<char>> = Vec::new();
    let mut cur: Vec<char> = Vec::new();
    let mut i: usize = 0;
    assert(s@.take(0) =~= Seq::<char>::empty());
    assert(char_vec_views(parts@).push(cur@) =~= split_on(s@.take(0), sep));
    while i < s.len()
        invariant
            i <= s.len(),
            char_vec_views(parts@).push(cur@) == split_on(s@.take(i as int), sep),
        decreases s.len() - i,
    {
        let c = s[i];
        let ghost before = s@.take(i as int);
        assert(s@.take(i + 1).drop_last() =~= before);
        assert(s@.take(i + 1).last() == c);
        proof {
            lemma_split_nonempty(before, sep);
        }
        if c == sep {
            let done = cur;
            parts.push(done);
            cur = Vec::new();
            assert(char_vec_views(parts@).push(cur@) =~= split_on(before, sep).push(Seq::<char>::empty()));
        } else {
            let ghost old_parts = char_vec_views(parts@);
            cur.push(c);
            assert(char_vec_views(parts@).push(cur@) =~= split_on(before, sep).update(
                split_on(before, sep).len() - 1,
                split_on(before, sep).last().push(c),
            ));
        }
        i = i + 1;
    }
    assert(s@.take(i as int) =~= s@);
    parts.push(cur);
    parts
}

// ---------------------------------------------------------------------------
// Lines of a text
// ---------------------------------------------------------------------------

/// A line without the carriage return of a `\r\n` ending.
pub open spec fn strip_cr(line: Seq<char>) -> Seq<char> {
    if line.len() > 0 && line.last() == '\r' {
        line.drop_last()
    } else {
        line
    }
}

/// The lines of a text as `str::lines` yields them: split at `\n`, without a
/// final empty line after a trailing `\n`, and with the `\r` of a `\r\n`
/// ending removed.
pub open spec fn text_lines(s: Seq<char>) -> Seq<Seq<char>> {
    let parts = split_on(s, '\n');
    let n = if s.len() == 0 || s.last() == '\n' {
        parts.len() - 1
    } else {
        parts.len() as int
    };
    Seq::new(
        n as nat,
        |i: int|
            if i < parts.len() - 1 {
                strip_cr(parts[i])
            } else {
                parts[i]
            },
    )
}

/// The lines of a text, as [`text_lines`] describes them.
pub fn lines_of(s: &Vec<char>) -> (r: Vec<Vec<char>>)
    ensures
        char_vec_views(r@) == text_lines(s@),
{
    let parts = split_chars(s, '\n');
    proof {
        lemma_split_nonempty(s@, '\n');
    }
    let n = if s.len() == 0 || s[s.len() - 1] == '\n' {
        parts.len() - 1
    } else {
        parts.len()
    };
    let mut out: Vec<Vec<char>> = Vec::new();
    let mut i: usize = 0;
    while i < n
        invariant
            i <= n,
            n <= parts.len(),
            parts.len() >= 1,
            char_vec_views(parts@) == split_on(s@, '\n'),
            char_vec_views(out@) =~= text_lines(s@).take(i as int),
            text_lines(s@).len() == n,
        decreases n - i,
    {
        let part = &parts[i];
        let mut line: Vec<char> = Vec::new();
        let mut len = part.len();
        if i + 1 < parts.len() && len > 0 && part[len - 1] == '\r' {
            len = len - 1;
        }
        let mut k: usize = 0;
        while k < len
            invariant
                k <= len,
                len <= part.len(),
                line@ =~= part@.take(k as int),
            decreases len - k,
        {
            line.push(part[k]);
            k = k + 1;
        }
        let ghost expected = text_lines(s@)[i as int];
        assert(line@ =~= expected);
        let ghost prev = out@;
        out.push(line);
        assert(char_vec_views(out@) =~= char_vec_views(prev).push(expected));
        assert(text_lines(s@).take(i + 1) =~= text_lines(s@).take(i as int).push(expected));
        i = i + 1;
    }
    assert(text_lines(s@).take(n as int) =~= text_lines(s@));
    out
}

// ---------------------------------------------------------------------------
// Normalization of source paths
// ---------------------------------------------------------------------------

/// Every `\` replaced by `/`.
pub open spec fn forward_slashes(s: Seq<char>) -> Seq<char> {
    Seq::new(s.len(), |i: int| if s[i] == '\\' { '/' } else { s[i] })
}

/// Leading `./` prefixes removed, as often as they occur.
pub open spec fn trim_dot_slash(s: Seq<char>) -> Seq<char>
    decreases s.len(),
{
    if s.len() >= 2 && s[0] == '.' && s[1] == '/' {
        trim_dot_slash(s.skip(2))
    } else {
        s
    }
}

/// Leading `/` characters removed.
pub open spec fn trim_slashes(s: Seq<char>) -> Seq<char>
    decreases s.len(),
{
    if s.len() >= 1 && s[0] == '/' {
        trim_slashes(s.skip(1))
    } else {
        s
    }
}

/// A source path with forward slashes and without leading `./` or `/`.
pub open spec fn cleaned_path(p: Seq<char>) -> Seq<char> {
    trim_slashes(trim_dot_slash(forward_slashes(p)))
}

/// A path segment that a package path may not hold: empty, `.` or `..`.
pub open spec fn bad_segment(seg: Seq<char>) -> bool {
    seg.len() == 0 || seg == seq!['.'] || seg == seq!['.', '.']
}

/// A non-empty path whose `/`-separated segments are all proper names.
pub open spec fn is_package_path(p: Seq<char>) -> bool {
    &&& p.len() > 0
    &&& forall|i: int| 0 <= i < split_on(p, '/').len() ==> !bad_segment(#[trigger] split_on(p, '/')[i])
}

/// The package path of a source path, or the cleaned path that is not one.
pub open spec fn normalize_path(p: Seq<char>) -> Result<Seq<char>, Seq<char>> {
    if is_package_path(cleaned_path(p)) {
        Ok(cleaned_path(p))
    } else {
        Err(cleaned_path(p))
    }
}

fn trim_leading(v: Vec<char>) -> (r: Vec<char>)
    ensures
        r@ == trim_slashes(trim_dot_slash(v@)),
{
    let mut start: usize = 0;
    while v.len() - start >= 2 && v[start] == '.' && v[start + 1] == '/'
        invariant
            start <= v.len(),
            trim_dot_slash(v@) == trim_dot_slash(v@.skip(start as int)),
        decreases v.len() - start,
    {
        assert(v@.skip(start as int).skip(2) =~= v@.skip(start + 2));
        start = start + 2;
    }
    assert(trim_dot_slash(v@.skip(start as int)) == v@.skip(start as int));
    let ghost mid = v@.skip(start as int);
    while start < v.len() && v[start] == '/'
        invariant
            start <= v.len(),
            trim_slashes(mid) == trim_slashes(v@.skip(start as int)),
        decreases v.len() - start,
    {
        assert(v@.skip(start as int).skip(1) =~= v@.skip(start + 1));
        start = start + 1;
    }
    assert(trim_slashes(v@.skip(start as int)) == v@.skip(start as int));
    let mut r: Vec<char> = Vec::new();
    let mut k: usize = start;
    while k < v.len()
        invariant
            start <= k <= v.len(),
            r@ =~= v@.subrange(start as int, k as int),
        decreases v.len() - k,
    {
        r.push(v[k]);
        k = k + 1;
    }
    assert(r@ =~= v@.skip(start as int));
    r
}

fn is_bad_segment(seg: &Vec<char>) -> (r: bool)
    ensures
        r == bad_segment(seg@),
{
    let r = seg.len() == 0 || (seg.len() == 1 && seg[0] == '.') || (seg.len() == 2 && seg[0] == '.'
        && seg[1] == '.');
    if seg.len() == 1 && seg[0] == '.' {
        assert(seg@ =~= seq!['.']);
    }
    if seg.len() == 2 && seg[0] == '.' && seg[1] == '.' {
        assert(seg@ =~= seq!['.', '.']);
    }
    if !r && seg.len() == 1 {
        assert(seg@ != seq!['.']) by {
            assert(seq!['.'][0] == '.');
        }
    }
    if !r && seg.len() == 2 {
        assert(seg@ != seq!['.', '.']) by {
            assert(seq!['.', '.'][0] == '.');
            assert(seq!['.', '.'][1] == '.');
        }
    }
    r
}

/// Whether `p` is a package path: non-empty, with no empty, `.` or `..` segment.
pub fn is_valid_package_path(p: &Vec<char>) -> (r: bool)
    ensures
        r == is_package_path(p@),
{
    if p.len() == 0 {
        return false;
    }
    let parts = split_chars(p, '/');
    let mut i: usize = 0;
    while i < parts.len()
        invariant
            i <= parts.len(),
            char_vec_views(parts@) == split_on(p@, '/'),
            forall|j: int| 0 <= j < i ==> !bad_segment(#[trigger] split_on(p@, '/')[j]),
        decreases parts.len() - i,
    {
        if is_bad_segment(&parts[i]) {
            assert(bad_segment(split_on(p@, '/')[i as int]));
            return false;
        }
        i = i + 1;
    }
    true
}

/// Normalizes a source path to a package path: `\` becomes `/`, leading `./`
/// and `/` are removed, and the result must be non-empty with no empty, `.` or
/// `..` segment. On failure the cleaned path is returned as the error.
pub fn normalize_source_path(path: &str) -> (r: Result<String, String>)
    ensures
        match normalize_path(path@) {
            Ok(p) => r matches Ok(s) && s@ == p,
            Err(p) => r matches Err(s) && s@ == p,
        },
{
    let cs = chars_of(path);
    let mut slashed: Vec<char> = Vec::new();
    let mut i: usize = 0;
    while i < cs.len()
        invariant
            i <= cs.len(),
            slashed@ =~= forward_slashes(cs@).take(i as int),
        decreases cs.len() - i,
    {
        if cs[i] == '\\' {
            slashed.push('/');
        } else {
            slashed.push(cs[i]);
        }
        i = i + 1;
    }
    assert(forward_slashes(cs@).take(i as int) =~= forward_slashes(cs@));
    let cleaned = trim_leading(slashed);
    let s = string_of(&cleaned);
    if is_valid_package_path(&cleaned) {
        Ok(s)
    } else {
        Err(s)
    }
}

// ---------------------------------------------------------------------------
// Rule files and virtual paths
// ---------------------------------------------------------------------------

/// `.aixignore`.
pub open spec fn rule_file_name() -> Seq<char> {
    seq!['.', 'a', 'i', 'x', 'i', 'g', 'n', 'o', 'r', 'e']
}

/// A path names a rule file: `.aixignore` at the root or `<dir>/.aixignore`.
pub open spec fn is_rule_path(p: Seq<char>) -> bool {
    p == rule_file_name() || (p.len() > 10 && p.skip(p.len() - 11) == seq!['/'] + rule_file_name())
}

/// Whether a package path names a `.aixignore` rule file.
pub fn is_rule_file(path: &str) -> (r: bool)
    ensures
        r == is_rule_path(path@),
{
    let cs = chars_of(path);
    let name: Vec<char> = vec!['.', 'a', 'i', 'x', 'i', 'g', 'n', 'o', 'r', 'e'];
    assert(name@ =~= rule_file_name());
    let n = cs.len();
    if n < 10 {
        return false;
    }
    let mut k: usize = 0;
    while k < 10
        invariant
            k <= 10,
            n == cs.len(),
            cs@ == path@,
            n >= 10,
            name@ == rule_file_name(),
            forall|j: int| 0 <= j < k ==> cs@[n - 10 + j] == name@[j],
        decreases 10 - k,
    {
        if cs[n - 10 + k] != name[k] {
            assert(cs@.skip(n - 10)[k as int] != rule_file_name()[k as int]);
            assert(cs@ != rule_file_name());
            if n > 10 {
                assert(cs@.skip(n - 11)[k + 1] != (seq!['/'] + rule_file_name())[k + 1]);
            }
            return false;
        }
        k = k + 1;
    }
    assert(cs@.skip(n - 10) =~= rule_file_name());
    if n == 10 {
        assert(cs@ =~= rule_file_name());
        return true;
    }
    let slash = cs[n - 11] == '/';
    if slash {
        assert(cs@.skip(n - 11) =~= seq!['/'] + rule_file_name());
    } else {
        assert(cs@.skip(n - 11)[0] != (seq!['/'] + rule_file_name())[0]);
    }
    slash
}

/// The directory part of a rule file's path: empty at the root, otherwise the
/// directory followed by `/`. The rule applies to the paths that begin with it.
pub open spec fn rule_scope(p: Seq<char>) -> Seq<char> {
    p.take(p.len() - 10)
}

/// The root under which collection matches package paths.
pub open spec fn virtual_root() -> Seq<char> {
    seq![
        '_', '_', 'a', 'i', 'x', '_', 's', 'o', 'u', 'r', 'c', 'e', '_', 'r', 'o', 'o', 't', '_', '_',
    ]
}

/// The path under the virtual root at which a package path is matched.
pub open spec fn virtual_path(p: Seq<char>) -> Seq<char> {
    virtual_root() + seq!['/'] + p
}

/// The directory, under the virtual root, that a rule file's globs are
/// anchored at.
pub open spec fn rule_root(p: Seq<char>) -> Seq<char> {
    if rule_scope(p).len() == 0 {
        virtual_root()
    } else {
        virtual_root() + seq!['/'] + rule_scope(p).drop_last()
    }
}

fn virtual_root_chars() -> (r: Vec<char>)
    ensures
        r@ == virtual_root(),
{
    let r: Vec<char> = vec![
        '_', '_', 'a', 'i', 'x', '_', 's', 'o', 'u', 'r', 'c', 'e', '_', 'r', 'o', 'o', 't', '_', '_',
    ];
    assert(r@ =~= virtual_root());
    r
}

/// The path under the virtual root at which a package path is matched.
pub fn to_virtual_path(path: &str) -> (r: String)
    ensures
        r@ == virtual_path(path@),
{
    let mut v = virtual_root_chars();
    v.push('/');
    let cs = chars_of(path);
    let mut i: usize = 0;
    let ghost base = v@;
    while i < cs.len()
        invariant
            i <= cs.len(),
            v@ =~= base + cs@.take(i as int),
        decreases cs.len() - i,
    {
        v.push(cs[i]);
        i = i + 1;
    }
    assert(cs@.take(i as int) =~= path@);
    string_of(&v)
}

/// The directory, under the virtual root, that a rule file's globs are
/// anchored at.
pub fn rule_root_of(path: &str) -> (r: String)
    requires
        is_rule_path(path@),
    ensures
        r@ == rule_root(path@),
{
    let mut v = virtual_root_chars();
    let cs = chars_of(path);
    let scope_len = cs.len() - 10;
    if scope_len > 0 {
        v.push('/');
        let ghost base = v@;
        let mut i: usize = 0;
        while i + 1 < scope_len
            invariant
                i + 1 <= scope_len,
                scope_len <= cs.len(),
                v@ =~= base + cs@.take(i as int),
            decreases scope_len - i,
        {
            v.push(cs[i]);
            i = i + 1;
        }
        assert(rule_scope(path@).drop_last() =~= cs@.take(i as int));
    }
    string_of(&v)
}


/// No two separators are adjacent in `s`, and `s` does not begin with one.
pub open spec fn no_empty_inner(s: Seq<char>, sep: char) -> bool {
    &&& (s.len() > 0 ==> s[0] != sep)
    &&& forall|i: int| 0 <= i < s.len() - 1 ==> !(#[trigger] s[i] == sep && s[i + 1] == sep)
}

/// All pieces but the last are non-empty exactly when no separator begins `s`
/// or follows another; the last piece is empty exactly when `s` is empty or
/// ends with the separator.
pub proof fn lemma_split_pieces(s: Seq<char>, sep: char)
    ensures
        split_on(s, sep).len() >= 1,
        (forall|k: int| 0 <= k < split_on(s, sep).len() - 1 ==> (#[trigger] split_on(s, sep)[k]).len() > 0)
            <==> no_empty_inner(s, sep),
        (split_on(s, sep).last().len() == 0) <==> (s.len() == 0 || s.last() == sep),
    decreases s.len(),
{
    lemma_split_nonempty(s, sep);
    if s.len() > 0 {
        let u = s.drop_last();
        lemma_split_pieces(u, sep);
        lemma_split_nonempty(u, sep);
        let pu = split_on(u, sep);
        let ps = split_on(s, sep);
        if s.last() == sep {
            assert(ps == pu.push(Seq::<char>::empty()));
            if no_empty_inner(s, sep) {
                assert forall|k: int| 0 <= k < ps.len() - 1 implies (#[trigger] ps[k]).len() > 0 by {
                    if k < pu.len() - 1 {
                        assert(no_empty_inner(u, sep)) by {
                            assert forall|i: int| 0 <= i < u.len() - 1 implies !(#[trigger] u[i] == sep && u[i + 1] == sep) by {
                                assert(u[i] == s[i] && u[i + 1] == s[i + 1]);
                            }
                        }
                    } else {
                        assert(u.len() > 0);
                        assert(!(s[u.len() - 1] == sep && s[u.len() as int] == sep));
                    }
                }
            }
            if forall|k: int| 0 <= k < ps.len() - 1 ==> (#[trigger] ps[k]).len() > 0 {
                assert(forall|k: int| 0 <= k < pu.len() - 1 ==> (#[trigger] pu[k]).len() > 0) by {
                    assert forall|k: int| 0 <= k < pu.len() - 1 implies (#[trigger] pu[k]).len() > 0 by {
                        assert(ps[k] == pu[k]);
                    }
                }
                assert(ps[pu.len() - 1] == pu.last());
                assert forall|i: int| 0 <= i < s.len() - 1 implies !(#[trigger] s[i] == sep && s[i + 1] == sep) by {
                    if i < u.len() - 1 {
                        assert(u[i] == s[i] && u[i + 1] == s[i + 1]);
                    }
                }
                if s.len() > 0 && u.len() == 0 {
                    assert(pu.last().len() == 0);
                }
            }
        } else {
            let last = pu.last().push(s.last());
            assert(ps == pu.update(pu.len() - 1, last));
            assert((forall|k: int| 0 <= k < ps.len() - 1 ==> (#[trigger] ps[k]).len() > 0)
                <==> (forall|k: int| 0 <= k < pu.len() - 1 ==> (#[trigger] pu[k]).len() > 0)) by {
                assert forall|k: int| 0 <= k < ps.len() - 1 implies ps[k] == pu[k] by {}
            }
            assert(no_empty_inner(s, sep) <==> no_empty_inner(u, sep)) by {
                if no_empty_inner(u, sep) {
                    assert forall|i: int| 0 <= i < s.len() - 1 implies !(#[trigger] s[i] == sep && s[i + 1] == sep) by {
                        if i < u.len() - 1 {
                            assert(u[i] == s[i] && u[i + 1] == s[i + 1]);
                        }
                    }
                }
                if no_empty_inner(s, sep) {
                    assert forall|i: int| 0 <= i < u.len() - 1 implies !(#[trigger] u[i] == sep && u[i + 1] == sep) by {
                        assert(u[i] == s[i] && u[i + 1] == s[i + 1]);
                    }
                }
            }
        }
    }
}

/// A package path neither begins nor ends with `/` and has no `//`.
pub proof fn lemma_package_path_slashes(p: Seq<char>)
    requires
        is_package_path(p),
    ensures
        p[0] != '/',
        p.last() != '/',
        forall|i: int| 0 <= i < p.len() - 1 ==> !(#[trigger] p[i] == '/' && p[i + 1] == '/'),
{
    lemma_split_pieces(p, '/');
    let ps = split_on(p, '/');
    assert forall|k: int| 0 <= k < ps.len() - 1 implies (#[trigger] ps[k]).len() > 0 by {
        assert(!bad_segment(ps[k]));
    }
    assert(!bad_segment(ps[ps.len() - 1]));
}

/// A rule file's path is its scope followed by `.aixignore`.
pub proof fn lemma_rule_path_parts(p: Seq<char>)
    requires
        is_rule_path(p),
    ensures
        p.len() >= 10,
        p == rule_scope(p) + rule_file_name(),
        rule_scope(p).len() == 0 || rule_scope(p).last() == '/',
{
    if p != rule_file_name() {
        assert(p.skip(p.len() - 10) =~= p.skip(p.len() - 11).skip(1));
        assert((seq!['/'] + rule_file_name()).skip(1) =~= rule_file_name());
        assert(rule_scope(p).last() == p.skip(p.len() - 11)[0]);
    } else {
        assert(rule_scope(p) =~= Seq::<char>::empty());
    }
    assert(p =~= rule_scope(p) + p.skip(p.len() - 10));
}

// ---------------------------------------------------------------------------
// Order of package paths
// ---------------------------------------------------------------------------

/// Strict lexicographic order by character, which is the byte order of the
/// paths' UTF-8 encodings.
pub open spec fn path_before(a: Seq<char>, b: Seq<char>) -> bool
    decreases a.len(),
{
    if a.len() == 0 {
        b.len() > 0
    } else if b.len() == 0 {
        false
    } else if a[0] != b[0] {
        a[0] < b[0]
    } else {
        path_before(a.drop_first(), b.drop_first())
    }
}

pub proof fn lemma_before_irreflexive(a: Seq<char>)
    ensures
        !path_before(a, a),
    decreases a.len(),
{
    if a.len() > 0 {
        lemma_before_irreflexive(a.drop_first());
    }
}

pub proof fn lemma_before_asymmetric(a: Seq<char>, b: Seq<char>)
    requires
        path_before(a, b),
    ensures
        !path_before(b, a),
    decreases a.len(),
{
    if a.len() > 0 && b.len() > 0 && a[0] == b[0] {
        lemma_before_asymmetric(a.drop_first(), b.drop_first());
    }
}

pub proof fn lemma_before_transitive(a: Seq<char>, b: Seq<char>, c: Seq<char>)
    requires
        path_before(a, b),
        path_before(b, c),
    ensures
        path_before(a, c),
    decreases a.len(),
{
    if a.len() > 0 && b.len() > 0 && c.len() > 0 && a[0] == b[0] && b[0] == c[0] {
        lemma_before_transitive(a.drop_first(), b.drop_first(), c.drop_first());
    }
}

pub proof fn lemma_before_total(a: Seq<char>, b: Seq<char>)
    ensures
        a == b || path_before(a, b) || path_before(b, a),
    decreases a.len(),
{
    if a.len() > 0 && b.len() > 0 && a[0] == b[0] {
        lemma_before_total(a.drop_first(), b.drop_first());
        if a.drop_first() == b.drop_first() {
            assert(a =~= seq![a[0]] + a.drop_first());
            assert(b =~= seq![b[0]] + b.drop_first());
        }
    } else if a.len() == 0 && b.len() == 0 {
        assert(a =~= b);
    }
}

/// `path_before` negated is transitive.
pub proof fn lemma_not_before_transitive(a: Seq<char>, b: Seq<char>, c: Seq<char>)
    requires
        !path_before(b, a),
        !path_before(c, b),
    ensures
        !path_before(c, a),
{
    lemma_before_total(a, b);
    if path_before(c, a) {
        if a == b {
        } else {
            lemma_before_transitive(c, a, b);
        }
    }
}

/// Whether `a` sorts before `b`.
pub fn string_before(a: &String, b: &String) -> (r: bool)
    ensures
        r == path_before(a@, b@),
{
    let x = chars_of(a.as_str());
    let y = chars_of(b.as_str());
    let mut i: usize = 0;
    while i < x.len() && i < y.len() && x[i] == y[i]
        invariant
            i <= x.len(),
            i <= y.len(),
            path_before(x@, y@) == path_before(x@.skip(i as int), y@.skip(i as int)),
        decreases x.len() - i,
    {
        assert(x@.skip(i as int).drop_first() =~= x@.skip(i + 1));
        assert(y@.skip(i as int).drop_first() =~= y@.skip(i + 1));
        i = i + 1;
    }
    if i == x.len() {
        i < y.len()
    } else if i == y.len() {
        false
    } else {
        x[i] < y[i]
    }
}

} // verus!
