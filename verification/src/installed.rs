//! The Agent packages installed on a device, as `find ... -exec stat -c
//! '%n|%s'` lists them: one `<path>|<size>` line per `.aix` file.
use vstd::prelude::*;

use crate::launch::{opt_view, parse_unsigned_within, parse_within};
use crate::paths::{
    char_vec_views, lemma_before_asymmetric, lemma_before_irreflexive,
    lemma_not_before_transitive, lines_of, path_before, string_before, text_lines,
};
use crate::text::{chars_of, string_of};

verus! {

broadcast use {
    vstd::seq_lib::group_seq_properties,
    vstd::seq_lib::group_to_multiset_ensures,
    vstd::multiset::group_multiset_axioms,
};

/// The index of the last `c` in `s`.
pub open spec fn last_index(s: Seq<char>, c: char) -> Option<nat>
    decreases s.len(),
{
    if s.len() == 0 {
        None
    } else if s.last() == c {
        Some((s.len() - 1) as nat)
    } else {
        last_index(s.drop_last(), c)
    }
}

/// What follows the last `/` of a path (the whole path when it has none).
pub open spec fn last_component(p: Seq<char>) -> Seq<char> {
    match last_index(p, '/') {
        Some(k) => p.skip(k + 1int),
        None => p,
    }
}

/// A path that every platform splits at `/` alone, without a drive, share or
/// verbatim prefix, and whose last component is a normal name: no `\`, no
/// `:`, no leading `//`, and a last component that is neither empty nor `.`
/// nor `..`.
pub open spec fn plain_path(p: Seq<char>) -> bool {
    let c = last_component(p);
    &&& c.len() > 0
    &&& c != seq!['.']
    &&& c != seq!['.', '.']
    &&& !p.contains('\\')
    &&& !p.contains(':')
    &&& !(p.len() >= 2 && p[0] == '/' && p[1] == '/')
}

/// `std::path::Path::file_name`, as text: the final component of the path
/// when it is a normal name. On a plain path (see [`plain_path`]) every
/// platform gives the text after the last `/`; on other paths, which
/// characters separate components depends on the platform, so only this is
/// stated: the name is not empty and holds no `/`.
#[verifier::external_body]
fn file_name_of(path: &str) -> (r: Option<String>)
    ensures
        r matches Some(name) ==> name@.len() > 0 && !name@.contains('/'),
        plain_path(path@) ==> opt_view(r) == Some(last_component(path@)),
{
    std::path::Path::new(path).file_name().and_then(|name| name.to_str()).map(|name| name.to_string())
}

/// `s` ends with `.aix`.
pub open spec fn has_aix_extension(s: Seq<char>) -> bool {
    s.len() >= 4 && s.skip(s.len() - 4) == seq!['.', 'a', 'i', 'x']
}

/// The file name and size on a `<path>|<size>` line of a `.aix` file, given
/// the file name that the platform finds in the path before the last `|`.
pub open spec fn installed_entry(line: Seq<char>, file_name: Option<Seq<char>>) -> Option<(Seq<char>, nat)> {
    match last_index(line, '|') {
        None => None,
        Some(k) => match file_name {
            None => None,
            Some(name) => match parse_unsigned_within(line.skip(k + 1int), u64::MAX as nat) {
                None => None,
                Some(size) => if has_aix_extension(name) {
                    Some((name, size))
                } else {
                    None
                },
            },
        },
    }
}

/// A file name as the platform may find it in the path of a line: not empty,
/// without `/`, and the last component itself when the path is plain.
pub open spec fn plausible_file_name(line: Seq<char>, name: Option<Seq<char>>) -> bool {
    match last_index(line, '|') {
        None => true,
        Some(k) => {
            &&& (name matches Some(n) ==> n.len() > 0 && !n.contains('/'))
            &&& (plain_path(line.take(k as int)) ==> name == Some(last_component(line.take(k as int))))
        },
    }
}

/// The package that a line names when its path is plain: the last component
/// of the path, when it ends with `.aix`, and the size after the last `|`.
pub open spec fn listed_entry(line: Seq<char>) -> Option<(Seq<char>, nat)> {
    match last_index(line, '|') {
        Some(k) => if plain_path(line.take(k as int)) {
            installed_entry(line, Some(last_component(line.take(k as int))))
        } else {
            None
        },
        None => None,
    }
}

proof fn lemma_entries_contain(lines: Seq<Seq<char>>, names: Seq<Option<Seq<char>>>, i: int, e: (Seq<char>, nat))
    requires
        names.len() == lines.len(),
        0 <= i < lines.len(),
        installed_entry(lines[i], names[i]) == Some(e),
    ensures
        installed_entries(lines, names).contains(e),
    decreases lines.len(),
{
    let rest = installed_entries(lines.drop_last(), names.drop_last());
    if i == lines.len() - 1 {
        assert(installed_entries(lines, names) == rest.push(e));
        assert(rest.push(e)[rest.len() as int] == e);
    } else {
        lemma_entries_contain(lines.drop_last(), names.drop_last(), i, e);
        let w = choose|w: int| 0 <= w < rest.len() && rest[w] == e;
        match installed_entry(lines.last(), names.last()) {
            Some(x) => {
                assert(installed_entries(lines, names)[w] == e);
            },
            None => {},
        }
    }
}

/// The packages on the lines, in order, skipping the lines that name none,
/// given the file name found on each line.
pub open spec fn installed_entries(lines: Seq<Seq<char>>, names: Seq<Option<Seq<char>>>) -> Seq<(Seq<char>, nat)>
    decreases lines.len(),
{
    if lines.len() == 0 {
        Seq::empty()
    } else {
        let rest = installed_entries(lines.drop_last(), names.drop_last());
        match installed_entry(lines.last(), names.last()) {
            Some(e) => rest.push(e),
            None => rest,
        }
    }
}

pub open spec fn package_views(v: Seq<(String, u64)>) -> Seq<(Seq<char>, nat)> {
    v.map_values(|p: (String, u64)| (p.0@, p.1 as nat))
}

/// The packages are sorted by file name.
pub open spec fn sorted_by_name(s: Seq<(Seq<char>, nat)>) -> bool {
    forall|i: int, j: int| 0 <= i < j < s.len() ==> !path_before(#[trigger] s[j].0, #[trigger] s[i].0)
}

fn last_bar(cs: &Vec<char>) -> (r: Option<usize>)
    ensures
        match last_index(cs@, '|') {
            Some(k) => r == Some(k as usize),
            None => r is None,
        },
        r matches Some(k) ==> k < cs.len() && last_index(cs@, '|') == Some(k as nat),
{
    let mut end = cs.len();
    assert(cs@.take(end as int) =~= cs@);
    while end > 0
        invariant
            end <= cs.len(),
            last_index(cs@, '|') == last_index(cs@.take(end as int), '|'),
        decreases end,
    {
        if cs[end - 1] == '|' {
            assert(last_index(cs@.take(end as int), '|') == Some((end - 1) as nat));
            return Some(end - 1);
        }
        assert(cs@.take(end as int).drop_last() =~= cs@.take(end - 1));
        end = end - 1;
    }
    None
}

fn ends_with_aix(s: &String) -> (r: bool)
    ensures
        r == has_aix_extension(s@),
{
    let cs = chars_of(s.as_str());
    let n = cs.len();
    if n < 4 {
        return false;
    }
    let r = cs[n - 4] == '.' && cs[n - 3] == 'a' && cs[n - 2] == 'i' && cs[n - 1] == 'x';
    assert(r == (cs@.skip(n - 4) =~= seq!['.', 'a', 'i', 'x']));
    r
}

fn installed_entry_of(line: &Vec<char>) -> (r: (Option<(String, u64)>, Ghost<Option<Seq<char>>>))
    ensures
        plausible_file_name(line@, r.1@),
        match installed_entry(line@, r.1@) {
            Some((name, size)) => r.0 matches Some((n, s)) && n@ == name && s == size,
            None => r.0 is None,
        },
{
    let k = match last_bar(line) {
        Some(k) => k,
        None => {
            return (None, Ghost(None));
        },
    };
    let mut head: Vec<char> = Vec::new();
    let mut i: usize = 0;
    while i < k
        invariant
            i <= k,
            k < line.len(),
            head@ =~= line@.take(i as int),
        decreases k - i,
    {
        head.push(line[i]);
        i = i + 1;
    }
    let path = string_of(&head);
    assert(last_index(line@, '|') == Some(k as nat));
    let found = file_name_of(path.as_str());
    let ghost seen = opt_view(found);
    let name = match found {
        Some(n) => n,
        None => {
            return (None, Ghost(seen));
        },
    };
    assert(line@.subrange(k + 1, line.len() as int) =~= line@.skip(k + 1));
    let size = match parse_within(line, k + 1, line.len(), u64::MAX) {
        Some(s) => s,
        None => {
            return (None, Ghost(seen));
        },
    };
    if ends_with_aix(&name) {
        (Some((name, size)), Ghost(seen))
    } else {
        (None, Ghost(seen))
    }
}

/// The `.aix` packages that the output of `find ... -exec stat` lists, with
/// their sizes, sorted by file name: for some file names that the platform
/// finds in the lines' paths, exactly the packages that the lines name.
pub fn installed_packages(output: &str) -> (r: Vec<(String, u64)>)
    ensures
        exists|names: Seq<Option<Seq<char>>>|
            names.len() == text_lines(output@).len() && (forall|i: int|
                0 <= i < names.len() ==> plausible_file_name(text_lines(output@)[i], #[trigger] names[i]))
                && package_views(r@).to_multiset() == installed_entries(text_lines(output@), names).to_multiset(),
        sorted_by_name(package_views(r@)),
        forall|i: int|
            0 <= i < text_lines(output@).len() ==> (#[trigger] listed_entry(text_lines(output@)[i]) matches Some(e)
                ==> package_views(r@).contains(e)),
{
    let cs = chars_of(output);
    let lines = lines_of(&cs);
    let ghost lv = char_vec_views(lines@);
    let mut found: Vec<(String, u64)> = Vec::new();
    let ghost mut names: Seq<Option<Seq<char>>> = Seq::empty();
    let mut i: usize = 0;
    while i < lines.len()
        invariant
            i <= lines.len(),
            lv == char_vec_views(lines@),
            lv == text_lines(output@),
            names.len() == i,
            forall|j: int| 0 <= j < names.len() ==> plausible_file_name(lv[j], #[trigger] names[j]),
            package_views(found@) == installed_entries(lv.take(i as int), names),
        decreases lines.len() - i,
    {
        assert(lv.take(i + 1).drop_last() =~= lv.take(i as int));
        assert(lv[i as int] == lines@[i as int]@);
        let (entry, seen) = installed_entry_of(&lines[i]);
        let ghost before = names;
        proof {
            names = names.push(seen@);
            assert(names.drop_last() =~= before);
        }
        match entry {
            Some(e) => {
                found.push(e);
            },
            None => {},
        }
        assert(package_views(found@) =~= installed_entries(lv.take(i + 1), names));
        i = i + 1;
    }
    assert(lv.take(i as int) =~= lv);
    let sorted = sort_by_name(found);
    assert(package_views(sorted@).to_multiset() == installed_entries(text_lines(output@), names).to_multiset());
    proof {
        assert forall|i: int|
            0 <= i < lv.len() implies (#[trigger] listed_entry(lv[i]) matches Some(e)
                ==> package_views(sorted@).contains(e)) by {
            match listed_entry(lv[i]) {
                Some(e) => {
                    assert(plausible_file_name(lv[i], names[i]));
                    assert(installed_entry(lv[i], names[i]) == Some(e));
                    lemma_entries_contain(lv, names, i, e);
                    assert(installed_entries(lv, names).to_multiset().count(e) > 0);
                    assert(package_views(sorted@).to_multiset().count(e) > 0);
                },
                None => {},
            }
        }
    }
    sorted
}

/// The packages sorted by file name (insertion sort).
fn sort_by_name(v: Vec<(String, u64)>) -> (r: Vec<(String, u64)>)
    ensures
        package_views(r@).to_multiset() == package_views(v@).to_multiset(),
        sorted_by_name(package_views(r@)),
{
    let ghost total = package_views(v@).to_multiset();
    let mut rest = v;
    let mut out: Vec<(String, u64)> = Vec::new();
    assert(package_views(out@) =~= Seq::<(Seq<char>, nat)>::empty());
    while rest.len() > 0
        invariant
            package_views(rest@).to_multiset().add(package_views(out@).to_multiset()) == total,
            sorted_by_name(package_views(out@)),
        decreases rest.len(),
    {
        let ghost rest_before = rest@;
        let f = match rest.pop() {
            Some(f) => f,
            None => {
                return out;
            },
        };
        let ghost fview = (f.0@, f.1 as nat);
        assert(package_views(rest_before) =~= package_views(rest@).push(fview));
        let mut pos: usize = 0;
        while pos < out.len() && string_before(&out[pos].0, &f.0)
            invariant
                pos <= out.len(),
                forall|k: int| 0 <= k < pos ==> path_before(#[trigger] out@[k].0@, f.0@),
            decreases out.len() - pos,
        {
            pos = pos + 1;
        }
        let ghost out_before = package_views(out@);
        out.insert(pos, f);
        assert(package_views(out@) =~= out_before.insert(pos as int, fview));
        proof {
            let t = package_views(out@);
            assert forall|i: int, j: int| 0 <= i < j < t.len() implies !path_before(
                #[trigger] t[j].0,
                #[trigger] t[i].0,
            ) by {
                if j < pos {
                    assert(t[i] == out_before[i] && t[j] == out_before[j]);
                } else if j == pos {
                    assert(t[i] == out_before[i]);
                    assert(path_before(out_before[i].0, fview.0));
                    lemma_before_asymmetric(out_before[i].0, fview.0);
                } else if i > pos {
                    assert(t[i] == out_before[i - 1] && t[j] == out_before[j - 1]);
                } else if i == pos {
                    assert(t[j] == out_before[j - 1]);
                    assert(!path_before(out_before[pos as int].0, fview.0));
                    if j - 1 > pos {
                        assert(!path_before(out_before[j - 1].0, out_before[pos as int].0));
                    } else {
                        lemma_before_irreflexive(out_before[pos as int].0);
                    }
                    lemma_not_before_transitive(fview.0, out_before[pos as int].0, out_before[j - 1].0);
                } else {
                    assert(t[i] == out_before[i] && t[j] == out_before[j - 1]);
                }
            }
            vstd::seq_lib::to_multiset_insert(out_before, pos as int, fview);
            assert(package_views(rest@).to_multiset().add(package_views(out@).to_multiset()) =~= total);
        }
    }
    assert(package_views(rest@) =~= Seq::<(Seq<char>, nat)>::empty());
    assert(package_views(out@).to_multiset() =~= total);
    out
}

} // verus!
