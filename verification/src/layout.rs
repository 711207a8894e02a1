//! The device Widget grid: which cells a Widget module occupies, and how a
//! dynamic (overlay) Widget is placed into an existing layout.
//!
//! A layout is the JSON object that the device reports as
//! `configurationJson`. Only the parts that placement reads are modelled here:
//! the grid size, and the two module lists. Each module keeps the six keys that
//! placement reads, and the rest of its JSON object as text, so that two modules
//! are equal exactly when their JSON values are.
use vstd::prelude::*;

use crate::text::{
    chars_of, decimal, is_digit, lemma_decimal_digits, lemma_decimal_injective, push_decimal,
    string_of,
};

verus! {

broadcast use vstd::seq_lib::group_seq_properties;

/// The value of one module key, as far as placement reads it.
pub enum JsonField {
    /// The key is absent.
    Missing,
    /// A JSON string.
    Text(String),
    /// A JSON number that is a non-negative integer.
    Count(u64),
    /// Any other JSON value, kept as its compact JSON text.
    Other(String),
}

/// The mathematical value of a [`JsonField`].
pub enum FieldView {
    Missing,
    Text(Seq<char>),
    Count(u64),
    Other(Seq<char>),
}

impl View for JsonField {
    type V = FieldView;

    open spec fn view(&self) -> FieldView {
        match self {
            JsonField::Missing => FieldView::Missing,
            JsonField::Text(s) => FieldView::Text(s@),
            JsonField::Count(n) => FieldView::Count(*n),
            JsonField::Other(s) => FieldView::Other(s@),
        }
    }
}

/// One entry of `permanentModules` or `overlayModules`.
pub struct WidgetModule {
    pub name: JsonField,
    pub start_index: JsonField,
    pub column_size: JsonField,
    pub row_size: JsonField,
    pub agent_id: JsonField,
    pub path: JsonField,
    /// The remaining JSON of the module: for an object, the compact JSON text of
    /// the object without the six keys above; `{}` when there are none.
    pub rest: String,
}

/// The mathematical value of a [`WidgetModule`].
pub struct ModuleView {
    pub name: FieldView,
    pub start_index: FieldView,
    pub column_size: FieldView,
    pub row_size: FieldView,
    pub agent_id: FieldView,
    pub path: FieldView,
    pub rest: Seq<char>,
}

impl View for WidgetModule {
    type V = ModuleView;

    open spec fn view(&self) -> ModuleView {
        ModuleView {
            name: self.name@,
            start_index: self.start_index@,
            column_size: self.column_size@,
            row_size: self.row_size@,
            agent_id: self.agent_id@,
            path: self.path@,
            rest: self.rest@,
        }
    }
}

/// The parts of a Widget layout that placement reads and writes.
pub struct WidgetLayout {
    /// `totalGridCount`, when it is a non-negative integer.
    pub total_grid_count: Option<u64>,
    /// `totalColumnCount`, when it is a non-negative integer.
    pub total_column_count: Option<u64>,
    /// `permanentModules`, when it is an array.
    pub permanent_modules: Option<Vec<WidgetModule>>,
    /// `overlayModules`, when it is an array.
    pub overlay_modules: Option<Vec<WidgetModule>>,
}

/// The mathematical value of a [`WidgetLayout`].
pub struct LayoutView {
    pub total_grid_count: Option<u64>,
    pub total_column_count: Option<u64>,
    pub permanent: Option<Seq<ModuleView>>,
    pub overlays: Option<Seq<ModuleView>>,
}

/// The views of a list of modules.
pub open spec fn module_views(v: Seq<WidgetModule>) -> Seq<ModuleView> {
    v.map_values(|m: WidgetModule| m@)
}

pub open spec fn option_views(v: Option<Vec<WidgetModule>>) -> Option<Seq<ModuleView>> {
    match v {
        Some(v) => Some(module_views(v@)),
        None => None,
    }
}

impl View for WidgetLayout {
    type V = LayoutView;

    open spec fn view(&self) -> LayoutView {
        LayoutView {
            total_grid_count: self.total_grid_count,
            total_column_count: self.total_column_count,
            permanent: option_views(self.permanent_modules),
            overlays: option_views(self.overlay_modules),
        }
    }
}

/// Why a dynamic Widget could not be placed.
#[derive(Debug, Clone, Copy, PartialEq, Eq, Structural)]
pub enum LayoutError {
    /// The grid has no cells or no columns.
    EmptyGrid,
    /// The Widget is already placed as a permanent Widget.
    AlreadyPermanent,
    /// `overlayModules` is absent or not an array.
    OverlaysNotArray,
    /// No position is free even after clearing the dynamic Widgets.
    NoFreePosition,
    /// The Widget is empty or wider than the grid from its start column.
    ShapeDoesNotFit,
    /// The Widget extends past the last cell of the grid.
    OutsideGrid,
    /// The Widget would cover a permanent Widget.
    PermanentConflict,
}

impl LayoutError {
    /// The message that a command line reports for this error.
    pub fn message(&self) -> (m: &'static str)
        ensures
            m@ == self.spec_message(),
    {
        match self {
            LayoutError::EmptyGrid => "Widget grid dimensions must be greater than zero",
            LayoutError::AlreadyPermanent => "Widget is already configured as permanent and cannot be launched dynamically",
            LayoutError::OverlaysNotArray => "overlayModules must be an array",
            LayoutError::NoFreePosition => "no position can fit this Widget without removing a permanent Widget",
            LayoutError::ShapeDoesNotFit => "Widget module does not fit the configured grid",
            LayoutError::OutsideGrid => "requested Widget position does not fit the configured grid",
            LayoutError::PermanentConflict => "requested Widget position conflicts with a permanent Widget",
        }
    }

    pub open spec fn spec_message(&self) -> Seq<char> {
        match self {
            LayoutError::EmptyGrid => "Widget grid dimensions must be greater than zero"@,
            LayoutError::AlreadyPermanent => "Widget is already configured as permanent and cannot be launched dynamically"@,
            LayoutError::OverlaysNotArray => "overlayModules must be an array"@,
            LayoutError::NoFreePosition => "no position can fit this Widget without removing a permanent Widget"@,
            LayoutError::ShapeDoesNotFit => "Widget module does not fit the configured grid"@,
            LayoutError::OutsideGrid => "requested Widget position does not fit the configured grid"@,
            LayoutError::PermanentConflict => "requested Widget position conflicts with a permanent Widget"@,
        }
    }
}

// ---------------------------------------------------------------------------
// Grid geometry
// ---------------------------------------------------------------------------

/// A rectangle of grid cells: the first cell, and the width and height in cells.
#[derive(Clone, Copy)]
pub struct Placement {
    pub start: u64,
    pub columns: u64,
    pub rows: u64,
}

/// The string of a field, when it is a JSON string.
pub open spec fn text_field(f: FieldView) -> Option<Seq<char>> {
    match f {
        FieldView::Text(t) => Some(t),
        _ => None,
    }
}

/// The number of a field, when it is a non-negative integer.
pub open spec fn count_field(f: FieldView) -> Option<u64> {
    match f {
        FieldView::Count(n) => Some(n),
        _ => None,
    }
}

/// A placement is non-empty and does not run past the right edge of a grid
/// with `grid_columns` columns.
pub open spec fn shape_fits(p: Placement, grid_columns: u64) -> bool {
    &&& p.columns > 0
    &&& p.rows > 0
    &&& (p.start % grid_columns) + p.columns <= grid_columns
}

/// The placement that a module declares, when its three numbers are present and
/// describe a rectangle that fits the grid's width.
pub open spec fn placement_of(m: ModuleView, grid_columns: u64) -> Option<Placement> {
    match (count_field(m.start_index), count_field(m.column_size), count_field(m.row_size)) {
        (Some(s), Some(w), Some(h)) => {
            let p = Placement { start: s, columns: w, rows: h };
            if shape_fits(p, grid_columns) {
                Some(p)
            } else {
                None
            }
        },
        _ => None,
    }
}

/// The cell in row `r` and column `c` of a placement.
pub open spec fn cell_at(p: Placement, grid_columns: u64, r: int, c: int) -> int {
    p.start + r * grid_columns + c
}

/// The cells that a placement covers: `start + row * grid_columns + column`
/// for every row and column inside it.
pub open spec fn cells(p: Placement, grid_columns: u64) -> Set<int> {
    Set::new(
        |x: int|
            exists|r: int, c: int|
                0 <= r < p.rows && 0 <= c < p.columns && x == #[trigger] cell_at(p, grid_columns, r, c),
    )
}

/// Two placements share a cell.
pub open spec fn overlap(p: Placement, q: Placement, grid_columns: u64) -> bool {
    exists|x: int| cells(p, grid_columns).contains(x) && cells(q, grid_columns).contains(x)
}

/// Every cell of a placement is below `total` (the grid's cell count).
pub open spec fn inside(p: Placement, grid_columns: u64, total: u64) -> bool {
    forall|x: int| cells(p, grid_columns).contains(x) ==> x < total
}

/// A module is well formed and shares no cell with the placement.
pub open spec fn clear_of(p: Placement, m: ModuleView, grid_columns: u64) -> bool {
    match placement_of(m, grid_columns) {
        Some(q) => !overlap(p, q, grid_columns),
        None => false,
    }
}

/// A placement can stand on the grid beside the given modules.
pub open spec fn fits_beside(
    p: Placement,
    grid_columns: u64,
    total: u64,
    others: Seq<ModuleView>,
) -> bool {
    &&& shape_fits(p, grid_columns)
    &&& inside(p, grid_columns, total)
    &&& forall|i: int| 0 <= i < others.len() ==> clear_of(p, #[trigger] others[i], grid_columns)
}

pub open spec fn at(pos: u64, columns: u64, rows: u64) -> Placement {
    Placement { start: pos, columns, rows }
}

/// `pos` is the least position below `total` at which a `columns` by `rows`
/// Widget fits beside `others`.
pub open spec fn is_first_fit(
    pos: u64,
    columns: u64,
    rows: u64,
    grid_columns: u64,
    total: u64,
    others: Seq<ModuleView>,
) -> bool {
    &&& pos < total
    &&& fits_beside(at(pos, columns, rows), grid_columns, total, others)
    &&& forall|q: u64|
        q < pos ==> !fits_beside(#[trigger] at(q, columns, rows), grid_columns, total, others)
}

/// The least free position, if there is one.
pub open spec fn first_fit(
    columns: u64,
    rows: u64,
    grid_columns: u64,
    total: u64,
    others: Seq<ModuleView>,
) -> Option<u64> {
    if exists|p: u64| is_first_fit(p, columns, rows, grid_columns, total, others) {
        Some(choose|p: u64| is_first_fit(p, columns, rows, grid_columns, total, others))
    } else {
        None
    }
}

// ---------------------------------------------------------------------------
// Module names
// ---------------------------------------------------------------------------

pub open spec fn custom_prefix() -> Seq<char> {
    seq!['c', 'u', 's', 't', 'o', 'm', '_']
}

/// `custom_` followed by the decimal notation of `k`.
pub open spec fn custom_name(k: nat) -> Seq<char> {
    custom_prefix() + decimal(k)
}

/// `custom_` followed by one or more ASCII digits.
pub open spec fn is_custom_name(s: Seq<char>) -> bool {
    &&& s.len() > 7
    &&& s.take(7) == custom_prefix()
    &&& forall|i: int| 7 <= i < s.len() ==> is_digit(#[trigger] s[i])
}

/// Some module in the list is named `n` (by a JSON string).
pub open spec fn name_taken(mods: Seq<ModuleView>, n: Seq<char>) -> bool {
    exists|i: int| 0 <= i < mods.len() && (#[trigger] mods[i]).name == FieldView::Text(n)
}

pub open spec fn is_first_free_custom(mods: Seq<ModuleView>, k: nat) -> bool {
    &&& k >= 1
    &&& !name_taken(mods, custom_name(k))
    &&& forall|j: nat| 1 <= j < k ==> name_taken(mods, #[trigger] custom_name(j))
}

/// The least `k >= 1` such that no module is named `custom_k`.
pub open spec fn first_free_custom(mods: Seq<ModuleView>) -> nat {
    choose|k: nat| is_first_free_custom(mods, k)
}

// ---------------------------------------------------------------------------
// Placement of a dynamic Widget
// ---------------------------------------------------------------------------

/// The module belongs to the given Agent and Widget path.
pub open spec fn targets(m: ModuleView, agent: Seq<char>, path: Seq<char>) -> bool {
    m.agent_id == FieldView::Text(agent) && m.path == FieldView::Text(path)
}

pub open spec fn grid_total(l: LayoutView) -> u64 {
    match l.total_grid_count {
        Some(n) => n,
        None => 4,
    }
}

pub open spec fn grid_columns(l: LayoutView) -> u64 {
    match l.total_column_count {
        Some(n) => n,
        None => 2,
    }
}

pub open spec fn permanent_of(l: LayoutView) -> Seq<ModuleView> {
    match l.permanent {
        Some(p) => p,
        None => Seq::empty(),
    }
}

pub open spec fn is_first_target(mods: Seq<ModuleView>, agent: Seq<char>, path: Seq<char>, i: int) -> bool {
    &&& 0 <= i < mods.len()
    &&& targets(mods[i], agent, path)
    &&& forall|j: int| 0 <= j < i ==> !targets(#[trigger] mods[j], agent, path)
}

/// The index of the first module of the given Widget.
pub open spec fn first_target(mods: Seq<ModuleView>, agent: Seq<char>, path: Seq<char>) -> Option<int> {
    if exists|i: int| is_first_target(mods, agent, path, i) {
        Some(choose|i: int| is_first_target(mods, agent, path, i))
    } else {
        None
    }
}

pub open spec fn not_target(agent: Seq<char>, path: Seq<char>) -> spec_fn(ModuleView) -> bool {
    |m: ModuleView| !targets(m, agent, path)
}

pub open spec fn clear_of_fn(p: Placement, grid_columns: u64) -> spec_fn(ModuleView) -> bool {
    |m: ModuleView| clear_of(p, m, grid_columns)
}

pub open spec fn empty_rest() -> Seq<char> {
    seq!['{', '}']
}

/// The module that placement writes for the Widget.
pub open spec fn placed_module(
    name: Seq<char>,
    pos: u64,
    columns: u64,
    rows: u64,
    agent: Seq<char>,
    path: Seq<char>,
) -> ModuleView {
    ModuleView {
        name: FieldView::Text(name),
        start_index: FieldView::Count(pos),
        column_size: FieldView::Count(columns),
        row_size: FieldView::Count(rows),
        agent_id: FieldView::Text(agent),
        path: FieldView::Text(path),
        rest: empty_rest(),
    }
}

/// The position chosen for the Widget, with the dynamic modules it is placed
/// among: the requested or current position, else the first free one, else the
/// first free one once all dynamic modules are cleared.
pub open spec fn chosen_position(
    requested: Option<u64>,
    existing_position: Option<u64>,
    kept: Seq<ModuleView>,
    permanent: Seq<ModuleView>,
    columns: u64,
    rows: u64,
    grid_columns: u64,
    total: u64,
) -> Option<(u64, Seq<ModuleView>)> {
    match requested {
        Some(p) => Some((p, kept)),
        None => match existing_position {
            Some(p) => Some((p, kept)),
            None => match first_fit(columns, rows, grid_columns, total, kept + permanent) {
                Some(p) => Some((p, kept)),
                None => match first_fit(columns, rows, grid_columns, total, permanent) {
                    Some(p) => Some((p, Seq::empty())),
                    None => None,
                },
            },
        },
    }
}

/// The name of the placed module: its previous `custom_<n>` name when no other
/// module uses it, else the first free `custom_<k>`.
pub open spec fn chosen_name(existing_name: Option<Seq<char>>, others: Seq<ModuleView>) -> Seq<char> {
    match existing_name {
        Some(n) => if name_taken(others, n) {
            custom_name(first_free_custom(others))
        } else {
            n
        },
        None => custom_name(first_free_custom(others)),
    }
}

/// The name a module of the given Widget already has, when it is a custom name.
pub open spec fn existing_custom_name(overlays: Seq<ModuleView>, existing: Option<int>) -> Option<Seq<char>> {
    match existing {
        Some(i) => match text_field(overlays[i].name) {
            Some(n) => if is_custom_name(n) {
                Some(n)
            } else {
                None
            },
            None => None,
        },
        None => None,
    }
}

/// The position a module of the given Widget already has.
pub open spec fn existing_start(overlays: Seq<ModuleView>, existing: Option<int>) -> Option<u64> {
    match existing {
        Some(i) => count_field(overlays[i].start_index),
        None => None,
    }
}

/// The dynamic modules once the Widget is placed at `pos` among `base`: the
/// modules of `base` it does not cover, then the Widget itself.
pub open spec fn finish_placement(
    pos: u64,
    base: Seq<ModuleView>,
    permanent: Seq<ModuleView>,
    existing_name: Option<Seq<char>>,
    agent: Seq<char>,
    path: Seq<char>,
    columns: u64,
    rows: u64,
    gc: u64,
    total: u64,
) -> Result<Seq<ModuleView>, LayoutError> {
    let cand = at(pos, columns, rows);
    if !shape_fits(cand, gc) {
        Err(LayoutError::ShapeDoesNotFit)
    } else if !inside(cand, gc, total) {
        Err(LayoutError::OutsideGrid)
    } else if exists|i: int| 0 <= i < permanent.len() && !clear_of(cand, #[trigger] permanent[i], gc) {
        Err(LayoutError::PermanentConflict)
    } else {
        let remaining = base.filter(clear_of_fn(cand, gc));
        let name = chosen_name(existing_name, permanent + remaining);
        Ok(remaining.push(placed_module(name, pos, columns, rows, agent, path)))
    }
}

/// Placement among an `overlayModules` array and the permanent modules.
pub open spec fn place_among(
    overlays: Seq<ModuleView>,
    permanent: Seq<ModuleView>,
    agent: Seq<char>,
    path: Seq<char>,
    columns: u64,
    rows: u64,
    requested: Option<u64>,
    gc: u64,
    total: u64,
) -> Result<Seq<ModuleView>, LayoutError> {
    let existing = first_target(overlays, agent, path);
    let kept = overlays.filter(not_target(agent, path));
    match chosen_position(requested, existing_start(overlays, existing), kept, permanent, columns, rows, gc, total) {
        None => Err(LayoutError::NoFreePosition),
        Some((pos, base)) => finish_placement(
            pos,
            base,
            permanent,
            existing_custom_name(overlays, existing),
            agent,
            path,
            columns,
            rows,
            gc,
            total,
        ),
    }
}

/// The dynamic modules that are left when the Widget of `agent` and `path`
/// cannot be placed among them: the others, or none where they were cleared
/// to make room.
pub open spec fn failed_placement_base(
    overlays: Seq<ModuleView>,
    permanent: Seq<ModuleView>,
    agent: Seq<char>,
    path: Seq<char>,
    columns: u64,
    rows: u64,
    requested: Option<u64>,
    gc: u64,
    total: u64,
) -> Seq<ModuleView> {
    let existing = first_target(overlays, agent, path);
    let kept = overlays.filter(not_target(agent, path));
    match chosen_position(requested, existing_start(overlays, existing), kept, permanent, columns, rows, gc, total) {
        None => Seq::empty(),
        Some((_, base)) => base,
    }
}

/// What `overlayModules` holds after a placement that failed: unchanged
/// where the grid, a permanent Widget or `overlayModules` itself refused it;
/// otherwise the modules left when the Widget could not be placed among them.
pub open spec fn overlays_after_failure(
    l: LayoutView,
    agent: Seq<char>,
    path: Seq<char>,
    columns: u64,
    rows: u64,
    requested: Option<u64>,
) -> Option<Seq<ModuleView>> {
    let total = grid_total(l);
    let gc = grid_columns(l);
    let permanent = permanent_of(l);
    if total == 0 || gc == 0 || l.overlays is None || exists|i: int|
        0 <= i < permanent.len() && targets(#[trigger] permanent[i], agent, path) {
        l.overlays
    } else {
        Some(failed_placement_base(l.overlays->0, permanent, agent, path, columns, rows, requested, gc, total))
    }
}

/// The dynamic modules after placing the Widget of `agent` and `path`, with
/// `columns` by `rows` cells, at `requested` or wherever it fits; or why it
/// cannot be placed.
pub open spec fn upsert_result(
    l: LayoutView,
    agent: Seq<char>,
    path: Seq<char>,
    columns: u64,
    rows: u64,
    requested: Option<u64>,
) -> Result<Seq<ModuleView>, LayoutError> {
    let total = grid_total(l);
    let gc = grid_columns(l);
    let permanent = permanent_of(l);
    if total == 0 || gc == 0 {
        Err(LayoutError::EmptyGrid)
    } else if exists|i: int| 0 <= i < permanent.len() && targets(#[trigger] permanent[i], agent, path) {
        Err(LayoutError::AlreadyPermanent)
    } else if l.overlays is None {
        Err(LayoutError::OverlaysNotArray)
    } else {
        place_among(l.overlays->0, permanent, agent, path, columns, rows, requested, gc, total)
    }
}

// ---------------------------------------------------------------------------
// Geometry lemmas
// ---------------------------------------------------------------------------

/// Row and column of a covered cell: row `start / grid_columns + r`, column
/// `start % grid_columns + c`.
pub proof fn lemma_cell_coordinates(p: Placement, gc: u64, r: int, c: int)
    requires
        gc > 0,
        shape_fits(p, gc),
        0 <= r < p.rows,
        0 <= c < p.columns,
    ensures
        cell_at(p, gc, r, c) / (gc as int) == (p.start as int) / (gc as int) + r,
        cell_at(p, gc, r, c) % (gc as int) == (p.start as int) % (gc as int) + c,
{
    let g = gc as int;
    let s = p.start as int;
    let q = s / g;
    let m = s % g;
    vstd::arithmetic::div_mod::lemma_fundamental_div_mod(s, g);
    assert(s == g * q + m);
    let x = cell_at(p, gc, r, c);
    assert(x == (q + r) * g + (m + c)) by (nonlinear_arith)
        requires
            x == s + r * g + c,
            s == g * q + m,
    ;
    assert(0 <= m + c < g);
    vstd::arithmetic::div_mod::lemma_fundamental_div_mod_converse(x, g, q + r, m + c);
}

/// Two placements overlap exactly when their row ranges and their column
/// ranges both intersect.
pub proof fn lemma_overlap_iff(p: Placement, q: Placement, gc: u64)
    requires
        gc > 0,
        shape_fits(p, gc),
        shape_fits(q, gc),
    ensures
        overlap(p, q, gc) <==> {
            let g = gc as int;
            &&& (p.start as int) / g < (q.start as int) / g + q.rows
            &&& (q.start as int) / g < (p.start as int) / g + p.rows
            &&& (p.start as int) % g < (q.start as int) % g + q.columns
            &&& (q.start as int) % g < (p.start as int) % g + p.columns
        },
{
    let g = gc as int;
    let pr = (p.start as int) / g;
    let pc = (p.start as int) % g;
    let qr = (q.start as int) / g;
    let qc = (q.start as int) % g;
    if overlap(p, q, gc) {
        let x = choose|x: int| cells(p, gc).contains(x) && cells(q, gc).contains(x);
        let (r1, c1) = choose|r: int, c: int|
            0 <= r < p.rows && 0 <= c < p.columns && x == #[trigger] cell_at(p, gc, r, c);
        let (r2, c2) = choose|r: int, c: int|
            0 <= r < q.rows && 0 <= c < q.columns && x == #[trigger] cell_at(q, gc, r, c);
        lemma_cell_coordinates(p, gc, r1, c1);
        lemma_cell_coordinates(q, gc, r2, c2);
    }
    if pr < qr + q.rows && qr < pr + p.rows && pc < qc + q.columns && qc < pc + p.columns {
        let row = if pr < qr { qr } else { pr };
        let col = if pc < qc { qc } else { pc };
        vstd::arithmetic::div_mod::lemma_fundamental_div_mod(p.start as int, g);
        vstd::arithmetic::div_mod::lemma_fundamental_div_mod(q.start as int, g);
        let x = row * g + col;
        assert(x == cell_at(p, gc, row - pr, col - pc)) by (nonlinear_arith)
            requires
                p.start == g * pr + pc,
                cell_at(p, gc, row - pr, col - pc) == p.start + (row - pr) * g + (col - pc),
                x == row * g + col,
        ;
        assert(x == cell_at(q, gc, row - qr, col - qc)) by (nonlinear_arith)
            requires
                q.start == g * qr + qc,
                cell_at(q, gc, row - qr, col - qc) == q.start + (row - qr) * g + (col - qc),
                x == row * g + col,
        ;
        assert(cells(p, gc).contains(x));
        assert(cells(q, gc).contains(x));
    }
}

/// A placement lies inside the grid exactly when its last cell does.
pub proof fn lemma_inside_iff(p: Placement, gc: u64, total: u64)
    requires
        gc > 0,
        shape_fits(p, gc),
    ensures
        inside(p, gc, total) <==> cell_at(p, gc, p.rows - 1, p.columns - 1) < total,
{
    let last = cell_at(p, gc, p.rows - 1, p.columns - 1);
    assert(cells(p, gc).contains(last));
    if last < total {
        assert forall|x: int| cells(p, gc).contains(x) implies x < total by {
            let (r, c) = choose|r: int, c: int|
                0 <= r < p.rows && 0 <= c < p.columns && x == #[trigger] cell_at(p, gc, r, c);
            assert(r * gc <= (p.rows - 1) * gc) by (nonlinear_arith)
                requires
                    0 <= r <= p.rows - 1,
                    gc > 0,
            ;
        }
    }
}

// ---------------------------------------------------------------------------
// Executable geometry
// ---------------------------------------------------------------------------

fn field_count(f: &JsonField) -> (r: Option<u64>)
    ensures
        r == count_field(f@),
{
    match f {
        JsonField::Count(n) => Some(*n),
        _ => None,
    }
}

fn placement(m: &WidgetModule, gc: u64) -> (r: Option<Placement>)
    requires
        gc > 0,
    ensures
        r == placement_of(m@, gc),
{
    match (field_count(&m.start_index), field_count(&m.column_size), field_count(&m.row_size)) {
        (Some(s), Some(w), Some(h)) => {
            if w > 0 && h > 0 && w <= gc - s % gc {
                Some(Placement { start: s, columns: w, rows: h })
            } else {
                None
            }
        },
        _ => None,
    }
}

fn overlaps(p: Placement, q: Placement, gc: u64) -> (r: bool)
    requires
        gc > 0,
        shape_fits(p, gc),
        shape_fits(q, gc),
    ensures
        r == overlap(p, q, gc),
{
    proof {
        lemma_overlap_iff(p, q, gc);
    }
    let pr = (p.start / gc) as u128;
    let pc = (p.start % gc) as u128;
    let qr = (q.start / gc) as u128;
    let qc = (q.start % gc) as u128;
    pr < qr + q.rows as u128 && qr < pr + p.rows as u128 && pc < qc + q.columns as u128 && qc < pc
        + p.columns as u128
}

fn within(p: Placement, gc: u64, total: u64) -> (r: bool)
    requires
        gc > 0,
        shape_fits(p, gc),
    ensures
        r == inside(p, gc, total),
{
    proof {
        lemma_inside_iff(p, gc, total);
    }
    let h = (p.rows - 1) as u128;
    let g = gc as u128;
    assert(h * g <= 0xFFFF_FFFF_FFFF_FFFE_0000_0000_0000_0001u128) by (nonlinear_arith)
        requires
            h <= 0xFFFF_FFFF_FFFF_FFFFu128,
            g <= 0xFFFF_FFFF_FFFF_FFFFu128,
    ;
    let last = p.start as u128 + h * g + (p.columns - 1) as u128;
    last < total as u128
}

fn clear(p: Placement, m: &WidgetModule, gc: u64) -> (r: bool)
    requires
        gc > 0,
        shape_fits(p, gc),
    ensures
        r == clear_of(p, m@, gc),
{
    match placement(m, gc) {
        Some(q) => !overlaps(p, q, gc),
        None => false,
    }
}

/// Whether `p` fits the grid beside the modules of `first` and `second`.
fn fits(p: Placement, gc: u64, total: u64, first: &Vec<WidgetModule>, second: &Vec<WidgetModule>) -> (r: bool)
    requires
        gc > 0,
    ensures
        r == fits_beside(p, gc, total, module_views(first@) + module_views(second@)),
{
    let ghost others = module_views(first@) + module_views(second@);
    if !(p.columns > 0 && p.rows > 0 && p.columns <= gc - p.start % gc) {
        return false;
    }
    if !within(p, gc, total) {
        return false;
    }
    let mut i: usize = 0;
    while i < first.len()
        invariant
            gc > 0,
            shape_fits(p, gc),
            i <= first.len(),
            others == module_views(first@) + module_views(second@),
            forall|j: int| 0 <= j < i ==> clear_of(p, #[trigger] others[j], gc),
        decreases first.len() - i,
    {
        if !clear(p, &first[i], gc) {
            assert(others[i as int] == first@[i as int]@);
            return false;
        }
        i = i + 1;
    }
    let mut k: usize = 0;
    while k < second.len()
        invariant
            gc > 0,
            shape_fits(p, gc),
            others == module_views(first@) + module_views(second@),
            k <= second.len(),
            forall|j: int| 0 <= j < first.len() + k ==> clear_of(p, #[trigger] others[j], gc),
        decreases second.len() - k,
    {
        if !clear(p, &second[k], gc) {
            assert(others[first.len() + k] == second@[k as int]@);
            return false;
        }
        k = k + 1;
    }
    true
}

pub(crate) proof fn lemma_first_fit_unique(
    a: u64,
    b: u64,
    columns: u64,
    rows: u64,
    gc: u64,
    total: u64,
    others: Seq<ModuleView>,
)
    requires
        is_first_fit(a, columns, rows, gc, total, others),
        is_first_fit(b, columns, rows, gc, total, others),
    ensures
        a == b,
{
    if a < b {
        assert(!fits_beside(at(a, columns, rows), gc, total, others));
    } else if b < a {
        assert(!fits_beside(at(b, columns, rows), gc, total, others));
    }
}

/// The least position below `total` where the Widget fits beside the modules.
fn find_first_fit(
    columns: u64,
    rows: u64,
    gc: u64,
    total: u64,
    first: &Vec<WidgetModule>,
    second: &Vec<WidgetModule>,
) -> (r: Option<u64>)
    requires
        gc > 0,
    ensures
        r == first_fit(columns, rows, gc, total, module_views(first@) + module_views(second@)),
{
    let ghost others = module_views(first@) + module_views(second@);
    let mut pos: u64 = 0;
    while pos < total
        invariant
            gc > 0,
            pos <= total,
            others == module_views(first@) + module_views(second@),
            forall|q: u64| q < pos ==> !fits_beside(#[trigger] at(q, columns, rows), gc, total, others),
        decreases total - pos,
    {
        if fits(Placement { start: pos, columns, rows }, gc, total, first, second) {
            proof {
                assert(is_first_fit(pos, columns, rows, gc, total, others));
                let c = choose|p: u64| is_first_fit(p, columns, rows, gc, total, others);
                lemma_first_fit_unique(pos, c, columns, rows, gc, total, others);
            }
            return Some(pos);
        }
        pos = pos + 1;
    }
    proof {
        assert forall|p: u64| !is_first_fit(p, columns, rows, gc, total, others) by {
            if p < total {
                assert(!fits_beside(at(p, columns, rows), gc, total, others));
            }
        }
    }
    None
}


// ---------------------------------------------------------------------------
// Executable module helpers
// ---------------------------------------------------------------------------

fn string_eq(a: &String, b: &String) -> (r: bool)
    ensures
        r == (a@ == b@),
{
    a.eq(b)
}

fn copy_string(s: &String) -> (r: String)
    ensures
        r@ == s@,
{
    s.clone()
}

fn copy_field(f: &JsonField) -> (r: JsonField)
    ensures
        r@ == f@,
{
    match f {
        JsonField::Missing => JsonField::Missing,
        JsonField::Text(s) => JsonField::Text(copy_string(s)),
        JsonField::Count(n) => JsonField::Count(*n),
        JsonField::Other(s) => JsonField::Other(copy_string(s)),
    }
}

/// A copy of a module with the same value.
pub fn copy_module(m: &WidgetModule) -> (r: WidgetModule)
    ensures
        r@ == m@,
{
    WidgetModule {
        name: copy_field(&m.name),
        start_index: copy_field(&m.start_index),
        column_size: copy_field(&m.column_size),
        row_size: copy_field(&m.row_size),
        agent_id: copy_field(&m.agent_id),
        path: copy_field(&m.path),
        rest: copy_string(&m.rest),
    }
}

/// A copy of a list of modules with the same value.
pub fn copy_modules(v: &Vec<WidgetModule>) -> (r: Vec<WidgetModule>)
    ensures
        module_views(r@) == module_views(v@),
{
    let mut r: Vec<WidgetModule> = Vec::new();
    let mut i: usize = 0;
    while i < v.len()
        invariant
            i <= v.len(),
            r@.len() == i,
            module_views(r@) == module_views(v@).take(i as int),
        decreases v.len() - i,
    {
        let ghost prev = r@;
        r.push(copy_module(&v[i]));
        assert forall|j: int| 0 <= j < i implies r@[j]@ == v@[j]@ by {
            assert(r@[j] == prev[j]);
            assert(module_views(prev)[j] == module_views(v@).take(i as int)[j]);
        }
        i = i + 1;
        assert(module_views(r@) =~= module_views(v@).take(i as int));
    }
    assert(module_views(v@).take(i as int) =~= module_views(v@));
    r
}

fn field_eq(a: &JsonField, b: &JsonField) -> (r: bool)
    ensures
        r == (a@ == b@),
{
    match (a, b) {
        (JsonField::Missing, JsonField::Missing) => true,
        (JsonField::Text(x), JsonField::Text(y)) => string_eq(x, y),
        (JsonField::Count(x), JsonField::Count(y)) => *x == *y,
        (JsonField::Other(x), JsonField::Other(y)) => string_eq(x, y),
        _ => false,
    }
}

fn module_eq(a: &WidgetModule, b: &WidgetModule) -> (r: bool)
    ensures
        r == (a@ == b@),
{
    field_eq(&a.name, &b.name) && field_eq(&a.start_index, &b.start_index) && field_eq(
        &a.column_size,
        &b.column_size,
    ) && field_eq(&a.row_size, &b.row_size) && field_eq(&a.agent_id, &b.agent_id) && field_eq(
        &a.path,
        &b.path,
    ) && string_eq(&a.rest, &b.rest)
}

/// Whether two lists of modules have the same value.
fn same_modules(a: &Vec<WidgetModule>, b: &Vec<WidgetModule>) -> (r: bool)
    ensures
        r == (module_views(a@) == module_views(b@)),
{
    if a.len() != b.len() {
        assert(module_views(a@).len() != module_views(b@).len());
        return false;
    }
    let mut i: usize = 0;
    while i < a.len()
        invariant
            a.len() == b.len(),
            i <= a.len(),
            forall|j: int| 0 <= j < i ==> a@[j]@ == b@[j]@,
        decreases a.len() - i,
    {
        if !module_eq(&a[i], &b[i]) {
            assert(module_views(a@)[i as int] != module_views(b@)[i as int]);
            return false;
        }
        i = i + 1;
    }
    assert(module_views(a@) =~= module_views(b@));
    true
}

fn module_targets(m: &WidgetModule, agent: &String, path: &String) -> (r: bool)
    ensures
        r == targets(m@, agent@, path@),
{
    let a = match &m.agent_id {
        JsonField::Text(s) => string_eq(s, agent),
        _ => false,
    };
    let p = match &m.path {
        JsonField::Text(s) => string_eq(s, path),
        _ => false,
    };
    a && p
}

/// The index of the first module of the given Widget, if any.
fn find_target(mods: &Vec<WidgetModule>, agent: &String, path: &String) -> (r: Option<usize>)
    ensures
        match r {
            Some(i) => first_target(module_views(mods@), agent@, path@) == Some(i as int),
            None => first_target(module_views(mods@), agent@, path@) is None,
        },
        r is None <==> forall|i: int|
            0 <= i < mods.len() ==> !targets(#[trigger] module_views(mods@)[i], agent@, path@),
{
    let ghost views = module_views(mods@);
    let mut i: usize = 0;
    while i < mods.len()
        invariant
            i <= mods.len(),
            views == module_views(mods@),
            forall|j: int| 0 <= j < i ==> !targets(#[trigger] views[j], agent@, path@),
        decreases mods.len() - i,
    {
        if module_targets(&mods[i], agent, path) {
            proof {
                assert(is_first_target(views, agent@, path@, i as int));
                let c = choose|k: int| is_first_target(views, agent@, path@, k);
                if c < i {
                    assert(!targets(views[c], agent@, path@));
                } else if i < c {
                    assert(!targets(views[i as int], agent@, path@));
                }
            }
            return Some(i);
        }
        i = i + 1;
    }
    None
}

/// Whether any module belongs to the given Widget.
fn has_target(mods: &Vec<WidgetModule>, agent: &String, path: &String) -> (r: bool)
    ensures
        r == exists|i: int|
            0 <= i < mods.len() && targets(#[trigger] module_views(mods@)[i], agent@, path@),
{
    match find_target(mods, agent, path) {
        Some(i) => {
            assert(targets(module_views(mods@)[i as int], agent@, path@));
            true
        },
        None => false,
    }
}

/// The modules that do not belong to the given Widget, in order.
fn without_target(mods: &Vec<WidgetModule>, agent: &String, path: &String) -> (r: Vec<WidgetModule>)
    ensures
        module_views(r@) == module_views(mods@).filter(not_target(agent@, path@)),
{
    let ghost f = not_target(agent@, path@);
    let mut out: Vec<WidgetModule> = Vec::new();
    let mut i: usize = 0;
    while i < mods.len()
        invariant
            i <= mods.len(),
            f == not_target(agent@, path@),
            module_views(out@) == module_views(mods@).take(i as int).filter(f),
        decreases mods.len() - i,
    {
        let ghost before = module_views(mods@).take(i as int);
        assert(module_views(mods@).take(i + 1) =~= before.push(mods@[i as int]@));
        proof {
            before.lemma_filter_push(mods@[i as int]@, f);
        }
        if !module_targets(&mods[i], agent, path) {
            out.push(copy_module(&mods[i]));
            assert(module_views(out@) =~= before.filter(f).push(mods@[i as int]@));
        }
        i = i + 1;
    }
    assert(module_views(mods@).take(i as int) =~= module_views(mods@));
    out
}

/// The modules that are well formed and share no cell with `p`, in order.
fn clear_modules(p: Placement, gc: u64, mods: Vec<WidgetModule>) -> (r: Vec<WidgetModule>)
    requires
        gc > 0,
        shape_fits(p, gc),
    ensures
        module_views(r@) == module_views(mods@).filter(clear_of_fn(p, gc)),
{
    let ghost f = clear_of_fn(p, gc);
    let mut out: Vec<WidgetModule> = Vec::new();
    let mut i: usize = 0;
    while i < mods.len()
        invariant
            gc > 0,
            shape_fits(p, gc),
            i <= mods.len(),
            f == clear_of_fn(p, gc),
            module_views(out@) == module_views(mods@).take(i as int).filter(f),
        decreases mods.len() - i,
    {
        let ghost before = module_views(mods@).take(i as int);
        assert(module_views(mods@).take(i + 1) =~= before.push(mods@[i as int]@));
        proof {
            before.lemma_filter_push(mods@[i as int]@, f);
        }
        if clear(p, &mods[i], gc) {
            out.push(copy_module(&mods[i]));
            assert(module_views(out@) =~= before.filter(f).push(mods@[i as int]@));
        }
        i = i + 1;
    }
    assert(module_views(mods@).take(i as int) =~= module_views(mods@));
    out
}

/// Whether every module is well formed and shares no cell with `p`.
fn all_clear(p: Placement, gc: u64, mods: &Vec<WidgetModule>) -> (r: bool)
    requires
        gc > 0,
        shape_fits(p, gc),
    ensures
        r == forall|i: int| 0 <= i < mods.len() ==> clear_of(p, #[trigger] module_views(mods@)[i], gc),
{
    let mut i: usize = 0;
    while i < mods.len()
        invariant
            gc > 0,
            shape_fits(p, gc),
            i <= mods.len(),
            forall|j: int| 0 <= j < i ==> clear_of(p, #[trigger] module_views(mods@)[j], gc),
        decreases mods.len() - i,
    {
        if !clear(p, &mods[i], gc) {
            assert(!clear_of(p, module_views(mods@)[i as int], gc));
            return false;
        }
        i = i + 1;
    }
    true
}

// ---------------------------------------------------------------------------
// Names
// ---------------------------------------------------------------------------

/// Whether a module name has the form `custom_<digits>` that the device
/// accepts for dynamic Widgets.
pub fn is_custom_module_name(name: &str) -> (r: bool)
    ensures
        r == is_custom_name(name@),
{
    let cs = chars_of(name);
    if cs.len() <= 7 {
        return false;
    }
    if !(cs[0] == 'c' && cs[1] == 'u' && cs[2] == 's' && cs[3] == 't' && cs[4] == 'o' && cs[5] == 'm'
        && cs[6] == '_') {
        assert(cs@.take(7)[0] == cs@[0] && cs@.take(7)[1] == cs@[1] && cs@.take(7)[2] == cs@[2]);
        assert(cs@.take(7)[3] == cs@[3] && cs@.take(7)[4] == cs@[4] && cs@.take(7)[5] == cs@[5]);
        assert(cs@.take(7)[6] == cs@[6]);
        assert(cs@.take(7) != custom_prefix());
        return false;
    }
    assert(cs@.take(7) =~= custom_prefix());
    let mut i: usize = 7;
    while i < cs.len()
        invariant
            7 <= i <= cs.len(),
            cs@ == name@,
            forall|j: int| 7 <= j < i ==> is_digit(#[trigger] cs@[j]),
        decreases cs.len() - i,
    {
        if !('0' <= cs[i] && cs[i] <= '9') {
            assert(!is_digit(name@[i as int]));
            return false;
        }
        i = i + 1;
    }
    true
}

/// `custom_<k>`.
pub fn custom_module_name(k: u128) -> (r: String)
    ensures
        r@ == custom_name(k as nat),
{
    let mut v: Vec<char> = vec!['c', 'u', 's', 't', 'o', 'm', '_'];
    assert(v@ =~= custom_prefix());
    push_decimal(&mut v, k);
    string_of(&v)
}

proof fn lemma_custom_name_injective(a: nat, b: nat)
    requires
        custom_name(a) == custom_name(b),
    ensures
        a == b,
{
    assert(custom_name(a).skip(7) =~= decimal(a));
    assert(custom_name(b).skip(7) =~= decimal(b));
    lemma_decimal_injective(a, b);
}

/// A `custom_<k>` name is a custom module name.
pub proof fn lemma_custom_name_is_custom(k: nat)
    ensures
        is_custom_name(custom_name(k)),
{
    lemma_decimal_digits(k);
    let n = custom_name(k);
    assert(n.take(7) =~= custom_prefix());
    assert forall|i: int| 7 <= i < n.len() implies is_digit(#[trigger] n[i]) by {
        assert(n[i] == decimal(k)[i - 7]);
    }
}

/// Among `k` in `1..=mods.len() + 1` some `custom_<k>` is unused.
pub(crate) proof fn lemma_some_custom_free(mods: Seq<ModuleView>)
    ensures
        exists|k: nat| 1 <= k <= mods.len() + 1 && !name_taken(mods, #[trigger] custom_name(k)),
{
    let n = mods.len() as int;
    if forall|k: nat| 1 <= k <= mods.len() + 1 ==> name_taken(mods, #[trigger] custom_name(k)) {
        let f = |k: int|
            choose|i: int| 0 <= i < mods.len() && mods[i].name == FieldView::Text(custom_name(k as nat));
        let dom = vstd::set_lib::set_int_range(1, n + 2);
        let img = dom.map(f);
        vstd::set_lib::lemma_int_range(1, n + 2);
        vstd::set_lib::lemma_int_range(0, n);
        assert forall|k: int| dom.contains(k) implies 0 <= #[trigger] f(k) < n
            && mods[f(k)].name == FieldView::Text(custom_name(k as nat)) by {
            assert(name_taken(mods, custom_name(k as nat)));
        }
        assert(vstd::relations::injective_on(f, dom)) by {
            assert forall|a: int, b: int|
                dom.contains(a) && dom.contains(b) && #[trigger] f(a) == #[trigger] f(b) implies a == b by {
                lemma_custom_name_injective(a as nat, b as nat);
            }
        }
        vstd::set_lib::lemma_map_size(dom, img, f);
        assert(img.subset_of(vstd::set_lib::set_int_range(0, n)));
        vstd::set_lib::lemma_len_subset(img, vstd::set_lib::set_int_range(0, n));
        assert(false);
    }
}

/// Whether a module of `first` or `second` is named `n`.
fn name_in_use(first: &Vec<WidgetModule>, second: &Vec<WidgetModule>, n: &String) -> (r: bool)
    ensures
        r == name_taken(module_views(first@) + module_views(second@), n@),
{
    let ghost mods = module_views(first@) + module_views(second@);
    let mut i: usize = 0;
    while i < first.len()
        invariant
            i <= first.len(),
            mods == module_views(first@) + module_views(second@),
            forall|j: int| 0 <= j < i ==> (#[trigger] mods[j]).name != FieldView::Text(n@),
        decreases first.len() - i,
    {
        if let JsonField::Text(s) = &first[i].name {
            if string_eq(s, n) {
                assert(mods[i as int].name == FieldView::Text(n@));
                return true;
            }
        }
        i = i + 1;
    }
    let mut k: usize = 0;
    while k < second.len()
        invariant
            k <= second.len(),
            mods == module_views(first@) + module_views(second@),
            forall|j: int| 0 <= j < first.len() + k ==> (#[trigger] mods[j]).name != FieldView::Text(n@),
        decreases second.len() - k,
    {
        if let JsonField::Text(s) = &second[k].name {
            if string_eq(s, n) {
                assert(mods[first.len() + k].name == FieldView::Text(n@));
                return true;
            }
        }
        k = k + 1;
    }
    false
}

/// The first `custom_<k>` with `k >= 1` that no module of `first` or `second` uses.
fn first_free_custom_name(first: &Vec<WidgetModule>, second: &Vec<WidgetModule>) -> (r: String)
    ensures
        r@ == custom_name(first_free_custom(module_views(first@) + module_views(second@))),
{
    let ghost mods = module_views(first@) + module_views(second@);
    let ghost n = mods.len();
    assert(mods.len() == first.len() + second.len());
    proof {
        lemma_some_custom_free(mods);
    }
    let mut k: u128 = 1;
    loop
        invariant
            mods == module_views(first@) + module_views(second@),
            n == mods.len(),
            1 <= k <= n + 1,
            n < 0xFFFF_FFFF_FFFF_FFFF_FFFF_FFFF_FFFF_FFF0u128,
            exists|j: nat| 1 <= j <= n + 1 && !name_taken(mods, #[trigger] custom_name(j)),
            forall|j: nat| 1 <= j < k ==> name_taken(mods, #[trigger] custom_name(j)),
        decreases n + 1 - k,
    {
        let name = custom_module_name(k);
        if !name_in_use(first, second, &name) {
            proof {
                assert(is_first_free_custom(mods, k as nat));
                let c = choose|j: nat| is_first_free_custom(mods, j);
                if c < k {
                    assert(name_taken(mods, custom_name(c)));
                } else if k < c {
                    assert(name_taken(mods, custom_name(k as nat)));
                }
            }
            return name;
        }
        proof {
            if k == n + 1 {
                let j = choose|j: nat| 1 <= j <= n + 1 && !name_taken(mods, #[trigger] custom_name(j));
                if j < k {
                    assert(name_taken(mods, custom_name(j)));
                }
            }
        }
        k = k + 1;
    }
}


// ---------------------------------------------------------------------------
// Placing a dynamic Widget
// ---------------------------------------------------------------------------

/// The layout that a device without a saved configuration starts from:
/// four cells in two columns and no modules.
pub fn empty_widget_configuration() -> (l: WidgetLayout)
    ensures
        l@ == (LayoutView {
            total_grid_count: Some(4),
            total_column_count: Some(2),
            permanent: Some(Seq::empty()),
            overlays: Some(Seq::empty()),
        }),
{
    let l = WidgetLayout {
        total_grid_count: Some(4),
        total_column_count: Some(2),
        permanent_modules: Some(Vec::new()),
        overlay_modules: Some(Vec::new()),
    };
    assert(module_views(Seq::<WidgetModule>::empty()) =~= Seq::<ModuleView>::empty());
    l
}

fn finish(
    pos: u64,
    base: Vec<WidgetModule>,
    permanent: &Vec<WidgetModule>,
    existing_name: Option<String>,
    agent: String,
    widget: String,
    columns: u64,
    rows: u64,
    gc: u64,
    total: u64,
) -> (r: Result<Vec<WidgetModule>, LayoutError>)
    requires
        gc > 0,
    ensures
        match finish_placement(
            pos,
            module_views(base@),
            module_views(permanent@),
            match existing_name {
                Some(n) => Some(n@),
                None => None,
            },
            agent@,
            widget@,
            columns,
            rows,
            gc,
            total,
        ) {
            Ok(mods) => r matches Ok(v) && module_views(v@) == mods,
            Err(e) => r == Err::<Vec<WidgetModule>, LayoutError>(e),
        },
{
    let cand = Placement { start: pos, columns, rows };
    if !(columns > 0 && rows > 0 && columns <= gc - pos % gc) {
        return Err(LayoutError::ShapeDoesNotFit);
    }
    if !within(cand, gc, total) {
        return Err(LayoutError::OutsideGrid);
    }
    if !all_clear(cand, gc, permanent) {
        return Err(LayoutError::PermanentConflict);
    }
    let remaining = clear_modules(cand, gc, base);
    let name = match existing_name {
        Some(n) => if name_in_use(permanent, &remaining, &n) {
            first_free_custom_name(permanent, &remaining)
        } else {
            n
        },
        None => first_free_custom_name(permanent, &remaining),
    };
    let rest_chars: Vec<char> = vec!['{', '}'];
    let rest = string_of(&rest_chars);
    assert(rest@ =~= empty_rest());
    let placed = WidgetModule {
        name: JsonField::Text(name),
        start_index: JsonField::Count(pos),
        column_size: JsonField::Count(columns),
        row_size: JsonField::Count(rows),
        agent_id: JsonField::Text(agent),
        path: JsonField::Text(widget),
        rest,
    };
    let mut result = remaining;
    let ghost before = result@;
    result.push(placed);
    assert(module_views(result@) =~= module_views(before).push(placed@));
    Ok(result)
}

fn choose_position(
    requested: Option<u64>,
    existing_position: Option<u64>,
    kept: Vec<WidgetModule>,
    permanent: &Vec<WidgetModule>,
    columns: u64,
    rows: u64,
    gc: u64,
    total: u64,
) -> (r: Option<(u64, Vec<WidgetModule>)>)
    requires
        gc > 0,
    ensures
        match chosen_position(
            requested,
            existing_position,
            module_views(kept@),
            module_views(permanent@),
            columns,
            rows,
            gc,
            total,
        ) {
            Some((p, base)) => r matches Some((q, v)) && q == p && module_views(v@) == base,
            None => r is None,
        },
{
    match requested {
        Some(p) => Some((p, kept)),
        None => match existing_position {
            Some(p) => Some((p, kept)),
            None => match find_first_fit(columns, rows, gc, total, &kept, permanent) {
                Some(p) => Some((p, kept)),
                None => {
                    let empty: Vec<WidgetModule> = Vec::new();
                    let found = find_first_fit(columns, rows, gc, total, &empty, permanent);
                    assert(module_views(empty@) + module_views(permanent@) =~= module_views(permanent@));
                    assert(module_views(empty@) =~= Seq::<ModuleView>::empty());
                    match found {
                        Some(p) => Some((p, empty)),
                        None => None,
                    }
                },
            },
        },
    }
}

fn place(
    overlays: &Vec<WidgetModule>,
    permanent: &Vec<WidgetModule>,
    agent: String,
    widget: String,
    columns: u64,
    rows: u64,
    requested: Option<u64>,
    gc: u64,
    total: u64,
) -> (r: Result<Vec<WidgetModule>, (LayoutError, Vec<WidgetModule>)>)
    requires
        gc > 0,
    ensures
        match place_among(
            module_views(overlays@),
            module_views(permanent@),
            agent@,
            widget@,
            columns,
            rows,
            requested,
            gc,
            total,
        ) {
            Ok(mods) => r matches Ok(v) && module_views(v@) == mods,
            Err(e) => r matches Err((x, left)) && x == e && module_views(left@) == failed_placement_base(
                module_views(overlays@),
                module_views(permanent@),
                agent@,
                widget@,
                columns,
                rows,
                requested,
                gc,
                total,
            ),
        },
{
    let ghost ov = module_views(overlays@);
    let existing = find_target(overlays, &agent, &widget);
    let existing_position = match existing {
        Some(i) => field_count(&overlays[i].start_index),
        None => None,
    };
    assert(existing_position == existing_start(ov, first_target(ov, agent@, widget@)));
    let existing_name: Option<String> = match existing {
        Some(i) => match &overlays[i].name {
            JsonField::Text(n) => if is_custom_module_name(n.as_str()) {
                Some(copy_string(n))
            } else {
                None
            },
            _ => None,
        },
        None => None,
    };
    assert(match existing_name {
        Some(n) => Some(n@),
        None => None,
    } == existing_custom_name(ov, first_target(ov, agent@, widget@)));
    let kept = without_target(overlays, &agent, &widget);
    match choose_position(requested, existing_position, kept, permanent, columns, rows, gc, total) {
        Some((pos, base)) => {
            let left = copy_modules(&base);
            match finish(pos, base, permanent, existing_name, agent, widget, columns, rows, gc, total) {
                Ok(v) => Ok(v),
                Err(e) => Err((e, left)),
            }
        },
        None => {
            let left: Vec<WidgetModule> = Vec::new();
            assert(module_views(left@) =~= Seq::<ModuleView>::empty());
            Err((LayoutError::NoFreePosition, left))
        },
    }
}

/// Places the dynamic Widget of `agent_id` and `path`, `columns` by `rows`
/// cells, into the layout, and reports whether `overlayModules` changed.
///
/// The Widget keeps its current position unless `requested_position` is given;
/// a new Widget takes the first free position, and when none is free all
/// dynamic Widgets are cleared first. Dynamic Widgets that the Widget would
/// cover are removed; permanent Widgets are never touched. When the Widget
/// cannot be placed, its old dynamic module is already removed (and all
/// dynamic Widgets, where they were cleared to make room); when the grid, a
/// permanent Widget or `overlayModules` refuses it, the layout is unchanged.
pub fn upsert_overlay_widget(
    configuration: &mut WidgetLayout,
    agent_id: &str,
    path: &str,
    columns: u64,
    rows: u64,
    requested_position: Option<u64>,
) -> (r: Result<bool, LayoutError>)
    ensures
        match upsert_result(old(configuration)@, agent_id@, path@, columns, rows, requested_position) {
            Ok(mods) => {
                &&& r == Ok::<bool, LayoutError>(mods != old(configuration)@.overlays->0)
                &&& final(configuration)@ == (LayoutView {
                    overlays: Some(mods),
                    ..old(configuration)@
                })
            },
            Err(e) => {
                &&& r == Err::<bool, LayoutError>(e)
                &&& final(configuration)@ == (LayoutView {
                    overlays: overlays_after_failure(
                        old(configuration)@,
                        agent_id@,
                        path@,
                        columns,
                        rows,
                        requested_position,
                    ),
                    ..old(configuration)@
                })
            },
        },
{
    let ghost l = configuration@;
    let total = match configuration.total_grid_count {
        Some(n) => n,
        None => 4,
    };
    let gc = match configuration.total_column_count {
        Some(n) => n,
        None => 2,
    };
    if total == 0 || gc == 0 {
        return Err(LayoutError::EmptyGrid);
    }
    let agent = agent_id.to_owned();
    let widget = path.to_owned();
    let permanent = match &configuration.permanent_modules {
        Some(p) => copy_modules(p),
        None => Vec::new(),
    };
    assert(module_views(permanent@) =~= permanent_of(l));
    if has_target(&permanent, &agent, &widget) {
        return Err(LayoutError::AlreadyPermanent);
    }
    let overlays = match &configuration.overlay_modules {
        Some(o) => copy_modules(o),
        None => {
            return Err(LayoutError::OverlaysNotArray);
        },
    };
    assert(module_views(overlays@) == l.overlays->0);
    let result = place(&overlays, &permanent, agent, widget, columns, rows, requested_position, gc, total);
    match result {
        Ok(v) => {
            let changed = !same_modules(&v, &overlays);
            configuration.overlay_modules = Some(v);
            Ok(changed)
        },
        Err((e, left)) => {
            configuration.overlay_modules = Some(left);
            Err(e)
        },
    }
}


} // verus!
