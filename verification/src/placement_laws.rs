//! Laws of Widget placement: what every successful placement guarantees, that
//! it only ever removes other dynamic Widgets, and that placing the same
//! Widget again changes nothing.
use vstd::prelude::*;

use crate::layout::{
    at, chosen_name, chosen_position, clear_of, clear_of_fn, custom_name, existing_custom_name,
    existing_start, finish_placement, first_free_custom, first_target, grid_columns, grid_total,
    inside, is_custom_name, is_first_free_custom, is_first_target, lemma_custom_name_is_custom,
    lemma_some_custom_free, name_taken, not_target, permanent_of, placed_module, placement_of,
    targets, text_field, count_field, upsert_result, FieldView, LayoutError, LayoutView, ModuleView,
};

verus! {

broadcast use {vstd::seq_lib::group_seq_properties, vstd::seq_lib::group_filter_ensures};

// ---------------------------------------------------------------------------
// Laws of placement
// ---------------------------------------------------------------------------

/// Filtering a sequence whose elements all pass keeps it whole.
proof fn lemma_filter_all<A>(s: Seq<A>, f: spec_fn(A) -> bool)
    requires
        forall|i: int| 0 <= i < s.len() ==> f(#[trigger] s[i]),
    ensures
        s.filter(f) == s,
    decreases s.len(),
{
    if s.len() > 0 {
        lemma_filter_all(s.drop_last(), f);
        s.drop_last().lemma_filter_push(s.last(), f);
        assert(s.drop_last().push(s.last()) =~= s);
    } else {
        reveal(Seq::filter);
    }
}

/// Some least free `custom_<k>` exists, so [`first_free_custom`] is one.
proof fn lemma_first_free_custom(mods: Seq<ModuleView>)
    ensures
        is_first_free_custom(mods, first_free_custom(mods)),
        !name_taken(mods, custom_name(first_free_custom(mods))),
{
    lemma_some_custom_free(mods);
    let k = choose|k: nat| 1 <= k <= mods.len() + 1 && !name_taken(mods, #[trigger] custom_name(k));
    lemma_least_free_below(mods, k);
}

proof fn lemma_least_free_below(mods: Seq<ModuleView>, k: nat)
    requires
        k >= 1,
        !name_taken(mods, custom_name(k)),
    ensures
        exists|j: nat| is_first_free_custom(mods, j),
    decreases k,
{
    if forall|j: nat| 1 <= j < k ==> name_taken(mods, #[trigger] custom_name(j)) {
        assert(is_first_free_custom(mods, k));
    } else {
        let j = choose|j: nat| 1 <= j < k && !name_taken(mods, #[trigger] custom_name(j));
        lemma_least_free_below(mods, j);
    }
}

/// The chosen name is not used by any other module.
proof fn lemma_chosen_name_free(existing_name: Option<Seq<char>>, others: Seq<ModuleView>)
    ensures
        !name_taken(others, chosen_name(existing_name, others)),
        existing_name matches Some(n) && is_custom_name(n) ==> is_custom_name(
            chosen_name(existing_name, others),
        ),
        is_custom_name(chosen_name(existing_name, others)) || existing_name is Some,
{
    lemma_first_free_custom(others);
    lemma_custom_name_is_custom(first_free_custom(others));
}

/// Whatever a successful placement returns: the placed Widget is the last
/// dynamic module and the only one of its Agent and path; it lies inside the
/// grid; and it shares no cell with any permanent or other dynamic module.
pub proof fn law_placed_widget_is_clear(
    l: LayoutView,
    agent: Seq<char>,
    path: Seq<char>,
    columns: u64,
    rows: u64,
    requested: Option<u64>,
)
    requires
        upsert_result(l, agent, path, columns, rows, requested) is Ok,
    ensures
        ({
            let mods = upsert_result(l, agent, path, columns, rows, requested)->Ok_0;
            let gc = grid_columns(l);
            let w = mods.last();
            &&& mods.len() >= 1
            &&& targets(w, agent, path)
            &&& w.column_size == FieldView::Count(columns)
            &&& w.row_size == FieldView::Count(rows)
            &&& is_custom_name(text_field(w.name)->0)
            &&& w == placed_module(
                text_field(w.name)->0,
                count_field(w.start_index)->0,
                columns,
                rows,
                agent,
                path,
            )
            &&& !name_taken(permanent_of(l) + mods.drop_last(), text_field(w.name)->0)
            &&& forall|i: int| 0 <= i < permanent_of(l).len() ==> !targets(#[trigger] permanent_of(l)[i], agent, path)
            &&& placement_of(w, gc) matches Some(p) && {
                &&& inside(p, gc, grid_total(l))
                &&& forall|i: int|
                    0 <= i < permanent_of(l).len() ==> clear_of(p, #[trigger] permanent_of(l)[i], gc)
                &&& forall|i: int|
                    0 <= i < mods.len() - 1 ==> clear_of(p, #[trigger] mods[i], gc) && !targets(
                        mods[i],
                        agent,
                        path,
                    )
            }
        }),
{
    let gc = grid_columns(l);
    let total = grid_total(l);
    let permanent = permanent_of(l);
    let overlays = l.overlays->0;
    let existing = first_target(overlays, agent, path);
    let kept = overlays.filter(not_target(agent, path));
    let (pos, base) = chosen_position(
        requested,
        existing_start(overlays, existing),
        kept,
        permanent,
        columns,
        rows,
        gc,
        total,
    )->0;
    let cand = at(pos, columns, rows);
    let remaining = base.filter(clear_of_fn(cand, gc));
    let en = existing_custom_name(overlays, existing);
    let name = chosen_name(en, permanent + remaining);
    lemma_chosen_name_free(en, permanent + remaining);
    let mods = remaining.push(placed_module(name, pos, columns, rows, agent, path));
    assert(upsert_result(l, agent, path, columns, rows, requested) == Ok::<Seq<ModuleView>, LayoutError>(mods));
    assert(placement_of(mods.last(), gc) == Some(cand));
    assert(mods.drop_last() =~= remaining);
    assert forall|i: int| 0 <= i < mods.len() - 1 implies clear_of(cand, #[trigger] mods[i], gc)
        && !targets(mods[i], agent, path) by {
        assert(mods[i] == remaining[i]);
        assert(remaining.contains(remaining[i]));
        base.lemma_filter_contains_rev(clear_of_fn(cand, gc), remaining[i]);
        assert(base.contains(remaining[i]));
        assert(base == kept || base.len() == 0);
        let k = choose|k: int| 0 <= k < kept.len() && kept[k] == remaining[i];
        assert(not_target(agent, path)(kept[k]));
    }
}

/// Placing a Widget a second time, without a requested position, changes
/// nothing: it keeps its position and its name.
pub proof fn law_upsert_is_idempotent(
    l: LayoutView,
    agent: Seq<char>,
    path: Seq<char>,
    columns: u64,
    rows: u64,
    requested: Option<u64>,
)
    requires
        upsert_result(l, agent, path, columns, rows, requested) is Ok,
    ensures
        ({
            let mods = upsert_result(l, agent, path, columns, rows, requested)->Ok_0;
            upsert_result(LayoutView { overlays: Some(mods), ..l }, agent, path, columns, rows, None)
                == Ok::<Seq<ModuleView>, LayoutError>(mods)
        }),
{
    law_placed_widget_is_clear(l, agent, path, columns, rows, requested);
    let mods = upsert_result(l, agent, path, columns, rows, requested)->Ok_0;
    let gc = grid_columns(l);
    let total = grid_total(l);
    let permanent = permanent_of(l);
    let n = mods.len() - 1;
    let w = mods.last();
    let pos = count_field(w.start_index)->0;
    let name = text_field(w.name)->0;
    let cand = at(pos, columns, rows);
    let remaining = mods.drop_last();
    assert(mods =~= remaining.push(w));
    assert(placement_of(w, gc) == Some(cand));
    assert(is_first_target(mods, agent, path, n));
    let c = choose|i: int| is_first_target(mods, agent, path, i);
    assert(c == n);
    assert(first_target(mods, agent, path) == Some(n));
    assert forall|i: int| 0 <= i < remaining.len() implies not_target(agent, path)(#[trigger] remaining[i]) by {
        assert(remaining[i] == mods[i]);
    }
    lemma_filter_all(remaining, not_target(agent, path));
    remaining.lemma_filter_push(w, not_target(agent, path));
    assert(mods.filter(not_target(agent, path)) == remaining);
    assert(existing_start(mods, Some(n)) == Some(pos));
    assert(existing_custom_name(mods, Some(n)) == Some(name));
    assert(chosen_position(None, Some(pos), remaining, permanent, columns, rows, gc, total) == Some((pos, remaining)));
    assert forall|i: int| 0 <= i < remaining.len() implies clear_of_fn(cand, gc)(#[trigger] remaining[i]) by {
        assert(remaining[i] == mods[i]);
    }
    lemma_filter_all(remaining, clear_of_fn(cand, gc));
    assert(chosen_name(Some(name), permanent + remaining) == name);
    assert(finish_placement(pos, remaining, permanent, Some(name), agent, path, columns, rows, gc, total)
        == Ok::<Seq<ModuleView>, LayoutError>(mods));
}

/// A placement only removes dynamic Widgets, never adds or alters one: every
/// module before the placed Widget was already in `overlayModules`.
pub proof fn law_kept_widgets_come_from_the_layout(
    l: LayoutView,
    agent: Seq<char>,
    path: Seq<char>,
    columns: u64,
    rows: u64,
    requested: Option<u64>,
)
    requires
        upsert_result(l, agent, path, columns, rows, requested) is Ok,
    ensures
        ({
            let mods = upsert_result(l, agent, path, columns, rows, requested)->Ok_0;
            forall|i: int| 0 <= i < mods.len() - 1 ==> l.overlays->0.contains(#[trigger] mods[i])
        }),
{
    let overlays = l.overlays->0;
    let permanent = permanent_of(l);
    let gc = grid_columns(l);
    let total = grid_total(l);
    let existing = first_target(overlays, agent, path);
    let kept = overlays.filter(not_target(agent, path));
    let mods = upsert_result(l, agent, path, columns, rows, requested)->Ok_0;
    match chosen_position(requested, existing_start(overlays, existing), kept, permanent, columns, rows, gc, total) {
        None => {},
        Some((pos, base)) => {
            let cand = at(pos, columns, rows);
            let remaining = base.filter(clear_of_fn(cand, gc));
            assert forall|i: int| 0 <= i < base.len() implies overlays.contains(#[trigger] base[i]) by {
                assert(base == kept);
                assert(kept.contains(base[i]));
                overlays.lemma_filter_contains_rev(not_target(agent, path), base[i]);
            }
            assert forall|i: int| 0 <= i < mods.len() - 1 implies overlays.contains(#[trigger] mods[i]) by {
                assert(mods[i] == remaining[i]);
                assert(remaining.contains(remaining[i]));
                base.lemma_filter_contains_rev(clear_of_fn(cand, gc), remaining[i]);
                let j = choose|j: int| 0 <= j < base.len() && base[j] == remaining[i];
                assert(overlays.contains(base[j]));
            }
        },
    }
}

} // verus!
