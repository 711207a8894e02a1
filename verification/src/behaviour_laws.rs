//! Laws that say what the launch, definition, installation and size
//! operations give, stated over their inputs in their own terms.
use vstd::arithmetic::power2::{lemma2_to64, lemma2_to64_rest, lemma_pow2_strictly_increases, pow2};
use vstd::prelude::*;

use crate::definition::{
    definition_desc, definition_name, ink_keys, logo_keys, member_text, native_keys, prompt_keys,
    string_field, text_or,
};
use crate::develop::{apply_result, ApplyReply};
use crate::launch::{open_route, opt_view, OpenTarget};
use crate::sizes::{bit_len, div_round_even, file_size_text, lemma_bit_len, size_text, to_binary64};
use crate::text::{decimal, digit_char, trim_spaces};

verus! {

broadcast use vstd::seq_lib::group_seq_properties;

// ---------------------------------------------------------------------------
// Launch routes
// ---------------------------------------------------------------------------

/// A resolved route opens the path that was asked for; with no path asked
/// for, it opens the first Page.
pub proof fn law_route_opens_requested_path(
    pages: Seq<Seq<char>>,
    widgets: Seq<Seq<char>>,
    requested_path: Option<Seq<char>>,
    requested_target: Option<Seq<char>>,
)
    ensures
        open_route(pages, widgets, requested_path, requested_target) matches Ok((q, _)) ==> q
            == match requested_path {
            Some(p) => p,
            None => pages[0],
        },
        requested_path is None && open_route(pages, widgets, requested_path, requested_target) is Ok
            ==> pages.len() > 0,
{
}

/// A declared Page that is not a Widget opens full screen (`_blank`) when no
/// target, `blank` or `_blank` is asked for, and as a card (`_current`) for
/// `current` or `_current`.
pub proof fn law_page_targets(pages: Seq<Seq<char>>, widgets: Seq<Seq<char>>, p: Seq<char>)
    requires
        pages.contains(p),
        !widgets.contains(p),
    ensures
        open_route(pages, widgets, Some(p), None) == Ok::<(Seq<char>, OpenTarget), crate::launch::RouteFailure>(
            (p, OpenTarget::Blank),
        ),
        open_route(pages, widgets, Some(p), Some("blank"@)) == Ok::<
            (Seq<char>, OpenTarget),
            crate::launch::RouteFailure,
        >((p, OpenTarget::Blank)),
        open_route(pages, widgets, Some(p), Some("_blank"@)) == Ok::<
            (Seq<char>, OpenTarget),
            crate::launch::RouteFailure,
        >((p, OpenTarget::Blank)),
        open_route(pages, widgets, Some(p), Some("current"@)) == Ok::<
            (Seq<char>, OpenTarget),
            crate::launch::RouteFailure,
        >((p, OpenTarget::Current)),
        open_route(pages, widgets, Some(p), Some("_current"@)) == Ok::<
            (Seq<char>, OpenTarget),
            crate::launch::RouteFailure,
        >((p, OpenTarget::Current)),
{
    reveal_strlit("blank");
    reveal_strlit("_blank");
    reveal_strlit("current");
    reveal_strlit("_current");
    assert(crate::launch::trim_underscores("blank"@) =~= crate::launch::blank_word());
    assert(crate::launch::trim_underscores("_blank"@) =~= crate::launch::blank_word()) by {
        assert("_blank"@.drop_first() =~= "blank"@);
        assert(crate::launch::trim_underscores("blank"@) =~= crate::launch::blank_word());
    }
    assert(crate::launch::trim_underscores("current"@) =~= crate::launch::current_word());
    assert(crate::launch::trim_underscores("_current"@) =~= crate::launch::current_word()) by {
        assert("_current"@.drop_first() =~= "current"@);
        assert(crate::launch::trim_underscores("current"@) =~= crate::launch::current_word());
    }
}

/// A declared Widget that is not a Page opens as a Widget (`_widget`) when no
/// target, `widget` or `_widget` is asked for, and refuses a Page target.
pub proof fn law_widget_targets(pages: Seq<Seq<char>>, widgets: Seq<Seq<char>>, p: Seq<char>)
    requires
        widgets.contains(p),
        !pages.contains(p),
    ensures
        open_route(pages, widgets, Some(p), None) == Ok::<(Seq<char>, OpenTarget), crate::launch::RouteFailure>(
            (p, OpenTarget::Widget),
        ),
        open_route(pages, widgets, Some(p), Some("widget"@)) == Ok::<
            (Seq<char>, OpenTarget),
            crate::launch::RouteFailure,
        >((p, OpenTarget::Widget)),
        open_route(pages, widgets, Some(p), Some("_widget"@)) == Ok::<
            (Seq<char>, OpenTarget),
            crate::launch::RouteFailure,
        >((p, OpenTarget::Widget)),
        open_route(pages, widgets, Some(p), Some("blank"@)) is Err,
        open_route(pages, widgets, Some(p), Some("current"@)) is Err,
{
    reveal_strlit("widget");
    reveal_strlit("_widget");
    reveal_strlit("blank");
    reveal_strlit("current");
    assert(crate::launch::trim_underscores("widget"@) =~= crate::launch::widget_word());
    assert(crate::launch::trim_underscores("_widget"@) =~= crate::launch::widget_word()) by {
        assert("_widget"@.drop_first() =~= "widget"@);
        assert(crate::launch::trim_underscores("widget"@) =~= crate::launch::widget_word());
    }
    assert(crate::launch::trim_underscores("blank"@) =~= crate::launch::blank_word());
    assert(crate::launch::trim_underscores("current"@) =~= crate::launch::current_word());
}

/// A path that is neither a declared Page nor a declared Widget is refused.
pub proof fn law_undeclared_path_is_refused(
    pages: Seq<Seq<char>>,
    widgets: Seq<Seq<char>>,
    p: Seq<char>,
    requested_target: Option<Seq<char>>,
)
    requires
        !pages.contains(p),
        !widgets.contains(p),
    ensures
        open_route(pages, widgets, Some(p), requested_target) is Err,
{
}

// ---------------------------------------------------------------------------
// Agent Definitions
// ---------------------------------------------------------------------------

/// A member given as a non-empty string.
pub open spec fn nonempty_member(app: Seq<(String, String)>, key: Seq<char>) -> Option<Seq<char>> {
    match member_text(app, key) {
        Some(t) => if t.len() > 0 {
            Some(t)
        } else {
            None
        },
        None => None,
    }
}

/// The Agent's name is `agentName` when that is a non-empty string, else
/// `name` when that is one, else `AIX Agent`.
pub proof fn law_definition_name(app: Seq<(String, String)>)
    ensures
        definition_name(app) == match nonempty_member(app, "agentName"@) {
            Some(n) => n,
            None => match nonempty_member(app, "name"@) {
                Some(n) => n,
                None => "AIX Agent"@,
            },
        },
{
    reveal_with_fuel(crate::definition::string_field, 3);
    assert(crate::definition::name_keys().drop_first() =~= seq!["name"@]);
    assert(seq!["name"@].drop_first() =~= Seq::<Seq<char>>::empty());
}

/// The Agent's description is `agentDesc` when that is a non-empty string,
/// else `description` when that is one; only without both does it come from
/// `AGENTS.md` or the name.
pub proof fn law_definition_description(app: Seq<(String, String)>, agents: Option<Seq<char>>)
    ensures
        nonempty_member(app, "agentDesc"@) matches Some(d) ==> definition_desc(app, agents) == d,
        nonempty_member(app, "agentDesc"@) is None ==> (nonempty_member(app, "description"@) matches Some(
            d,
        ) ==> definition_desc(app, agents) == d),
        nonempty_member(app, "agentDesc"@) is None && nonempty_member(app, "description"@) is None
            && agents is None ==> definition_desc(app, agents) == definition_name(app),
{
    reveal_with_fuel(crate::definition::string_field, 3);
    assert(crate::definition::desc_keys().drop_first() =~= seq!["description"@]);
    assert(seq!["description"@].drop_first() =~= Seq::<Seq<char>>::empty());
}

/// The first non-empty string among the members `k1`, `k2` and `k3`, in
/// that order, or `fallback`.
pub open spec fn first_of_three(app: Seq<(String, String)>, k1: Seq<char>, k2: Seq<char>, k3: Seq<char>, fallback: Seq<char>) -> Seq<char> {
    match nonempty_member(app, k1) {
        Some(t) => t,
        None => match nonempty_member(app, k2) {
            Some(t) => t,
            None => match nonempty_member(app, k3) {
                Some(t) => t,
                None => fallback,
            },
        },
    }
}

/// The other fields of a definition: `agentPrompt` (else empty), `agentLogo`,
/// `logo` or `icon` (else empty), `nativeVersion` or `version` (else
/// `1.0.0`), and `inkVersion` or `engine` (else `>=0.17.0`), each the first
/// of its members that is a non-empty string.
pub proof fn law_definition_fields(app: Seq<(String, String)>)
    ensures
        text_or(string_field(app, prompt_keys()), ""@) == match nonempty_member(app, "agentPrompt"@) {
            Some(t) => t,
            None => ""@,
        },
        text_or(string_field(app, logo_keys()), ""@) == first_of_three(app, "agentLogo"@, "logo"@, "icon"@, ""@),
        text_or(string_field(app, native_keys()), "1.0.0"@) == match nonempty_member(app, "nativeVersion"@) {
            Some(t) => t,
            None => match nonempty_member(app, "version"@) {
                Some(t) => t,
                None => "1.0.0"@,
            },
        },
        text_or(string_field(app, ink_keys()), ">=0.17.0"@) == match nonempty_member(app, "inkVersion"@) {
            Some(t) => t,
            None => match nonempty_member(app, "engine"@) {
                Some(t) => t,
                None => ">=0.17.0"@,
            },
        },
{
    reveal_with_fuel(crate::definition::string_field, 4);
    assert(prompt_keys().drop_first() =~= Seq::<Seq<char>>::empty());
    assert(logo_keys().drop_first() =~= seq!["logo"@, "icon"@]);
    assert(seq!["logo"@, "icon"@].drop_first() =~= seq!["icon"@]);
    assert(seq!["icon"@].drop_first() =~= Seq::<Seq<char>>::empty());
    assert(native_keys().drop_first() =~= seq!["version"@]);
    assert(seq!["version"@].drop_first() =~= Seq::<Seq<char>>::empty());
    assert(ink_keys().drop_first() =~= seq!["engine"@]);
    assert(seq!["engine"@].drop_first() =~= Seq::<Seq<char>>::empty());
}

// ---------------------------------------------------------------------------
// Installation replies
// ---------------------------------------------------------------------------

/// The outcomes of `apply` that mean the package is in place.
pub open spec fn installed_outcome(o: Seq<char>) -> bool {
    o == "CREATED"@ || o == "UPDATED"@ || o == "UNCHANGED"@ || o == "REPAIRED"@
}

/// An `apply` reply with an empty `errorCode`, the Agent's id, an outcome of
/// `CREATED`, `UPDATED`, `UNCHANGED` or `REPAIRED`, and an operation id that
/// is not blank is accepted with that outcome and operation id; a reply is
/// accepted with no other outcome.
pub proof fn law_apply_accepts_installed_outcomes(a: ApplyReply, agent_id: Seq<char>)
    ensures
        opt_view(a.reply.error_code) == Some(Seq::<char>::empty()) && opt_view(a.agent_id) == Some(agent_id)
            && (opt_view(a.outcome) matches Some(o) && installed_outcome(o)) && (opt_view(a.operation_id) matches Some(op)
            && trim_spaces(op).len() > 0) ==> apply_result(a, agent_id) == Ok::<
            (Seq<char>, Seq<char>),
            Seq<char>,
        >((opt_view(a.outcome)->0, opt_view(a.operation_id)->0)),
        apply_result(a, agent_id) matches Ok((o, op)) ==> installed_outcome(o) && opt_view(a.outcome) == Some(o)
            && opt_view(a.operation_id) == Some(op),
        apply_result(a, agent_id) is Ok ==> opt_view(a.reply.error_code) == Some(Seq::<char>::empty())
            && opt_view(a.agent_id) == Some(agent_id) && trim_spaces(opt_view(a.operation_id)->0).len() > 0,
{
}

// ---------------------------------------------------------------------------
// Byte sizes
// ---------------------------------------------------------------------------

/// Rounding to the nearest integer errs by at most one half.
proof fn lemma_round_is_nearest(a: nat, d: nat)
    requires
        d > 0,
    ensures
        2 * a <= 2 * div_round_even(a, d) * d + d,
        2 * div_round_even(a, d) * d <= 2 * a + d,
{
    let q = a / d;
    let r = a % d;
    assert(a == q * d + r && 0 <= r < d) by (nonlinear_arith)
        requires
            d > 0,
            q == a / d,
            r == a % d,
    ;
    let h = div_round_even(a, d);
    if h == q + 1 {
        assert(2 * r >= d);
        assert(2 * a <= 2 * h * d + d && 2 * h * d <= 2 * a + d) by (nonlinear_arith)
            requires
                a == q * d + r,
                h == q + 1,
                2 * r >= d,
                r < d,
                d > 0,
        ;
    } else {
        assert(h == q);
        assert(2 * r <= d);
        assert(2 * a <= 2 * h * d + d && 2 * h * d <= 2 * a + d) by (nonlinear_arith)
            requires
                a == q * d + r,
                h == q,
                2 * r <= d,
                r >= 0,
                d > 0,
        ;
    }
}

/// A byte count below 2^53 is a binary64 value itself.
proof fn lemma_small_is_binary64(bytes: nat)
    requires
        bytes < 0x20_0000_0000_0000,
    ensures
        to_binary64(bytes) == bytes,
{
    lemma2_to64();
    lemma2_to64_rest();
    lemma_bit_len(bytes);
    if bit_len(bytes) > 53 {
        if bit_len(bytes) > 54 {
            lemma_pow2_strictly_increases(53, (bit_len(bytes) - 1) as nat);
        }
        assert(pow2(53) <= bytes);
        assert(false);
    }
}

/// The text of a size in a unit of `unit` bytes: the number of units with two
/// decimals, `h / 100`, where `h` is the nearest integer to `bytes * 100 / unit`.
/// `prefix` is the letter of the unit: `K`, `M` or `G`.
pub open spec fn unit_text(bytes: nat, unit: nat, h: nat, prefix: char) -> bool {
    &&& 2 * bytes * 100 <= 2 * h * unit + unit
    &&& 2 * h * unit <= 2 * bytes * 100 + unit
    &&& size_text(bytes) == decimal(h / 100) + seq![
        '.',
        digit_char((h % 100) / 10),
        digit_char(h % 10),
        ' ',
        prefix,
        'B',
    ]
}

proof fn lemma_unit_text(bytes: nat, k: nat, prefix: char)
    requires
        bytes < 0x20_0000_0000_0000,
        pow2(k) > 0,
        size_text(bytes) == crate::sizes::fixed2(to_binary64(bytes), k) + seq![' ', prefix, 'B'],
    ensures
        unit_text(bytes, pow2(k), div_round_even(bytes * 100, pow2(k)), prefix),
{
    lemma_small_is_binary64(bytes);
    lemma_round_is_nearest(bytes * 100, pow2(k));
    let h = div_round_even(bytes * 100, pow2(k));
    assert(crate::sizes::fixed2(bytes, k) + seq![' ', prefix, 'B'] =~= decimal(h / 100) + seq![
        '.',
        digit_char((h % 100) / 10),
        digit_char(h % 10),
        ' ',
        prefix,
        'B',
    ]);
}

/// Below 1024 bytes a size is the byte count followed by ` bytes`.
pub proof fn law_size_in_bytes(bytes: nat)
    requires
        bytes < 1024,
    ensures
        size_text(bytes) == decimal(bytes) + seq![' ', 'b', 'y', 't', 'e', 's'],
{
    lemma2_to64();
}

/// From 1024 bytes up to 1 MiB, a size is the number of KiB, rounded to two
/// decimals, followed by ` KB`.
pub proof fn law_size_in_kilobytes(bytes: nat)
    requires
        1024 <= bytes < 1048576,
    ensures
        exists|h: nat| #[trigger] unit_text(bytes, 1024, h, 'K') && 100 <= h <= 102400,
{
    lemma2_to64();
    assert(size_text(bytes) =~= crate::sizes::fixed2(to_binary64(bytes), 10) + seq![' ', 'K', 'B']);
    lemma_unit_text(bytes, 10, 'K');
    let h = div_round_even(bytes * 100, 1024);
    assert(unit_text(bytes, 1024, h, 'K'));
    assert(100 <= h <= 102400) by (nonlinear_arith)
        requires
            1024 <= bytes < 1048576,
            2 * bytes * 100 <= 2 * h * 1024 + 1024,
            2 * h * 1024 <= 2 * bytes * 100 + 1024,
    ;
}

/// From 1 MiB up to 1 GiB, a size is the number of MiB, rounded to two
/// decimals, followed by ` MB`; the number printed is at most 1024.
pub proof fn law_size_in_megabytes(bytes: nat)
    requires
        1048576 <= bytes < 1073741824,
    ensures
        exists|h: nat| #[trigger] unit_text(bytes, 1048576, h, 'M') && 100 <= h <= 102400,
{
    lemma2_to64();
    assert(size_text(bytes) =~= crate::sizes::fixed2(to_binary64(bytes), 20) + seq![' ', 'M', 'B']);
    lemma_unit_text(bytes, 20, 'M');
    let h = div_round_even(bytes * 100, 1048576);
    assert(unit_text(bytes, 1048576, h, 'M'));
    assert(100 <= h <= 102400) by (nonlinear_arith)
        requires
            1048576 <= bytes < 1073741824,
            2 * bytes * 100 <= 2 * h * 1048576 + 1048576,
            2 * h * 1048576 <= 2 * bytes * 100 + 1048576,
    ;
}

/// From 1 GiB up to 2^53 bytes, a size is the number of GiB, rounded to two
/// decimals, followed by ` GB`.
pub proof fn law_size_in_gigabytes(bytes: nat)
    requires
        1073741824 <= bytes < 0x20_0000_0000_0000,
    ensures
        exists|h: nat| #[trigger] unit_text(bytes, 1073741824, h, 'G') && 100 <= h,
{
    lemma2_to64();
    assert(size_text(bytes) =~= crate::sizes::fixed2(to_binary64(bytes), 30) + seq![' ', 'G', 'B']);
    lemma_unit_text(bytes, 30, 'G');
    let h = div_round_even(bytes * 100, 1073741824);
    assert(unit_text(bytes, 1073741824, h, 'G'));
    assert(100 <= h) by (nonlinear_arith)
        requires
            1073741824 <= bytes,
            2 * bytes * 100 <= 2 * h * 1073741824 + 1073741824,
    ;
}

/// With one decimal, `v / unit` rounded to the nearest tenth: `t` tenths.
pub open spec fn tenths_text(bytes: nat, unit: nat, t: nat, suffix: Seq<char>) -> bool {
    &&& 2 * bytes * 10 <= 2 * t * unit + unit
    &&& 2 * t * unit <= 2 * bytes * 10 + unit
    &&& file_size_text(bytes) == decimal(t / 10) + seq!['.', digit_char(t % 10), ' '] + suffix
}

/// A file size is the byte count with ` B` below 1024 bytes, the number of
/// KiB with one decimal and ` KiB` below 1 MiB, and the number of MiB with
/// one decimal and ` MiB` from there up to 2^53 bytes.
pub proof fn law_file_size_units(bytes: nat)
    requires
        bytes < 0x20_0000_0000_0000,
    ensures
        bytes < 1024 ==> file_size_text(bytes) == decimal(bytes) + seq![' ', 'B'],
        1024 <= bytes < 1048576 ==> tenths_text(bytes, 1024, div_round_even(bytes * 10, 1024), "KiB"@),
        1048576 <= bytes ==> tenths_text(bytes, 1048576, div_round_even(bytes * 10, 1048576), "MiB"@),
{
    lemma2_to64();
    lemma_small_is_binary64(bytes);
    reveal_strlit("KiB");
    reveal_strlit("MiB");
    if 1024 <= bytes < 1048576 {
        let t = div_round_even(bytes * 10, 1024);
        lemma_round_is_nearest(bytes * 10, 1024);
        assert(file_size_text(bytes) =~= decimal(t / 10) + seq!['.', digit_char(t % 10), ' '] + "KiB"@);
    }
    if 1048576 <= bytes {
        let t = div_round_even(bytes * 10, 1048576);
        lemma_round_is_nearest(bytes * 10, 1048576);
        assert(file_size_text(bytes) =~= decimal(t / 10) + seq!['.', digit_char(t % 10), ' '] + "MiB"@);
    }
}

} // verus!
