//! The workbook as edits see it: what edits do to the storage, to hidden rows and waiting formulas,
//! and what formula spans and caches have to hear of.
use crate::coord::{CellRef, SheetId, VertexId, spec_cell_key};
use crate::coordinator::{demote_cyclic_spans, regions_of};
use crate::ingest::FormulaPlaneMode;
use crate::overlay::{Axis, OverlayValue, is_deleted_from, is_inserted, keyed_by_cells, literal_of, outside};
use crate::reference_type::SheetLocator;
use crate::region::{AxisRange, PlacementDomain, Region, StructuralScope, formula_plane_region_from_cells, scope_of_cells};
use crate::resolve::{read_sheet, resolve_sheet_locator_for_read, resolve_sheet_locator_for_write, written_sheet};
use crate::rollback::{a_rolled_back_action_leaves_the_hidden_rows, are_followed};
use crate::schedule::{CacheView, Schedule, ScheduleCache, built_meta, cache_after, cached_for};
use crate::staged::{EntryView, SheetsView, StagedFormulaEntry, StagedFormulas, entries_of, entries_view, entry_count, has_cell, place_of, restaged, staged, unstaged};
use crate::store::{CellStore, Extent, StoreView, at_1_based, edits_folded, is_blank_sheet, is_sheet_copy, read, has_room, stopped, store_has_room, without_sheet};
use crate::structural::StructuralOp;
use crate::telemetry::ScheduleBuildMeta;
use crate::text::{formula_text, with_equals};
use crate::undo::{ArrowOp, ChangeEvent, apply_arrow_undo_batch, batch_done, between, change_redone, change_undone, edited, event_addressable, is_possible, lines_inserted, mirror_forward_change_to_arrow, mirror_inverse_change_to_arrow, nth_op, op_addressable};
use crate::value::{ErrorKind, ExcelError, LiteralValue, ValueView, bare_error, error_with};
use crate::visibility::{EditorError, EditorErrorView, HiddenRows, RowVisibility, RowVisibilitySource, SetRowVisibility, counted_up, ensure_known_sheet_id, is_counted, is_hidden, is_marked, lemma_counted, normalize_row_1based, normalize_row_range_1based, unknown_sheet, version_of, versions_with_rows, visibility_change, with_new_rows, with_row, with_rows, without_rows};
use vstd::prelude::*;

verus! {

/// Something that formula spans have to hear of.
#[derive(Clone, Copy, Debug, PartialEq, Eq, Structural)]
pub enum PlaneChange {
    /// The cells of the region changed.
    Region(Region),
    /// The spans of the sheet are gone, and all others are dirty.
    RemovedSheet(SheetId),
    /// All spans are dirty.
    AllDirty,
}

/// What formula spans hear of a change with the scope.
pub open spec fn plane_change(scope: StructuralScope) -> PlaneChange {
    match scope {
        StructuralScope::Cell(c) => PlaneChange::Region(
            Region {
                sheet_id: c.sheet_id,
                rows: AxisRange::Point(c.row),
                cols: AxisRange::Point(c.col),
            },
        ),
        StructuralScope::Region(r) => PlaneChange::Region(r),
        StructuralScope::Sheet(sheet_id) => PlaneChange::Region(whole_sheet(sheet_id)),
        StructuralScope::RemovedSheet(sheet_id) => PlaneChange::RemovedSheet(sheet_id),
        StructuralScope::AllSheets => PlaneChange::AllDirty,
    }
}

pub open spec fn whole_sheet(sheet_id: SheetId) -> Region {
    Region { sheet_id, rows: AxisRange::All, cols: AxisRange::All }
}

/// What formula spans hear of a change, unless there are none.
pub open spec fn heard(
    changes: Seq<PlaneChange>,
    mode: FormulaPlaneMode,
    scope: Option<StructuralScope>,
) -> Seq<PlaneChange> {
    match scope {
        Some(s) if mode != FormulaPlaneMode::Off => changes.push(plane_change(s)),
        _ => changes,
    }
}

/// The scope of an entry of the change log.
pub open spec fn event_scope(ev: ChangeEvent) -> Option<StructuralScope> {
    match ev {
        ChangeEvent::SetValue { cell, .. } => Some(StructuralScope::Cell(cell)),
        ChangeEvent::SetFormula { cell, .. } => Some(StructuralScope::Cell(cell)),
        ChangeEvent::SpillCommitted { after, .. } => scope_of_cells(after.target_cells@),
        ChangeEvent::SpillCleared { before } => scope_of_cells(before.target_cells@),
        ChangeEvent::SetRowVisibility(e) => Some(
            StructuralScope::Region(
                Region {
                    sheet_id: e.sheet_id,
                    rows: AxisRange::Point(e.row),
                    cols: AxisRange::All,
                },
            ),
        ),
        ChangeEvent::Rewired => Some(StructuralScope::AllSheets),
        ChangeEvent::RowsInserted { .. } => None,
        ChangeEvent::StagedFormulaCellChanged { .. } => None,
        ChangeEvent::Other => None,
    }
}

/// What formula spans hear of the first `n` entries of the change log.
pub open spec fn heard_all(
    changes: Seq<PlaneChange>,
    mode: FormulaPlaneMode,
    events: Seq<ChangeEvent>,
    n: nat,
) -> Seq<PlaneChange>
    decreases n,
{
    if n == 0 {
        changes
    } else {
        heard(heard_all(changes, mode, events, (n - 1) as nat), mode, event_scope(events[n - 1]))
    }
}

/// The region of the span that a write into it takes apart: the cell, where spans are in use and
/// one of them covers it.
pub fn demote_span_containing_cell_for_write(mode: FormulaPlaneMode, inside_span: bool, cell: CellRef) -> (r:
    Option<Region>)
    ensures
        r == (if mode != FormulaPlaneMode::Off && inside_span {
            Some(
                Region {
                    sheet_id: cell.sheet_id,
                    rows: AxisRange::Point(cell.row),
                    cols: AxisRange::Point(cell.col),
                },
            )
        } else {
            None
        }),
{
    if mode != FormulaPlaneMode::Off && inside_span {
        Some(Region::point(cell.sheet_id, cell.row, cell.col))
    } else {
        None
    }
}

/// The regions whose spans are demoted before a name changes: the results of those that depend on
/// it, none where there are no spans. `domains` holds where these spans lie, as far as they exist.
pub fn invalidate_formula_plane_spans_for_name(
    mode: FormulaPlaneMode,
    domains: &Vec<Option<PlacementDomain>>,
) -> (r: Vec<Region>)
    ensures
        r@ == (if mode == FormulaPlaneMode::Off {
            Seq::empty()
        } else {
            regions_of(domains@, domains@.len())
        }),
{
    if mode == FormulaPlaneMode::Off {
        Vec::new()
    } else {
        demote_cyclic_spans(domains)
    }
}

/// What an error of the editor is reported as; `text` is what the error says.
pub fn editor_error_to_excel(error: EditorError, text: &str) -> (e: ExcelError)
    ensures
        e@ == (match error@ {
            EditorErrorView::Excel(x) => x,
            _ => error_with(ErrorKind::Value, text@),
        }),
{
    match error {
        EditorError::Excel(x) => x,
        _ => ExcelError::new(ErrorKind::Value).with_message(text),
    }
}

/// The workbook.
#[derive(Debug)]
pub struct Engine {
    store: CellStore,
    visibility: RowVisibility,
    staged: StagedFormulas,
    schedules: ScheduleCache,
    mode: FormulaPlaneMode,
    changes: Vec<PlaneChange>,
    snapshot_id: u64,
    topology_epoch: u64,
    has_edited: bool,
    action_active: bool,
    recalc_epoch: u64,
}

/// The model of an [`Engine`], but for waiting formulas.
#[verifier::ext_equal]
pub struct EngineView {
    pub store: StoreView,
    pub hidden: HiddenRows,
    /// The numbers of the hidden rows of the sheets as they are.
    pub row_versions: Map<u16, u64>,
    /// The schedule that is kept.
    pub kept: Option<CacheView>,
    pub mode: FormulaPlaneMode,
    /// What formula spans have not heard of yet.
    pub changes: Seq<PlaneChange>,
    /// The number of the data as they are.
    pub snapshot_id: u64,
    /// The number of the dependencies as they are.
    pub topology_epoch: u64,
    pub has_edited: bool,
    /// Whether an action is under way.
    pub action_active: bool,
    /// The number of the recalculation that comes next.
    pub recalc_epoch: u64,
}

/// Whether the numbers of the hidden rows follow them from one workbook to another.
pub open spec fn rows_counted(v: EngineView, w: EngineView) -> bool {
    is_counted(v.hidden, v.row_versions, w.hidden, w.row_versions)
}

/// The number behind the given one; after the largest comes zero.
pub open spec fn next(n: u64) -> u64 {
    if n == u64::MAX {
        0
    } else {
        (n + 1) as u64
    }
}

impl EngineView {
    /// The workbook once its data changed.
    pub open spec fn data_edited(self) -> EngineView {
        EngineView { snapshot_id: next(self.snapshot_id), has_edited: true, ..self }
    }

    /// The workbook once its dependencies changed: no schedule is kept.
    pub open spec fn topology_edited(self) -> EngineView {
        EngineView {
            snapshot_id: next(self.snapshot_id),
            topology_epoch: next(self.topology_epoch),
            kept: None,
            has_edited: true,
            ..self
        }
    }

    /// The workbook once formula spans have to hear of a change.
    pub open spec fn hearing(self, scope: Option<StructuralScope>) -> EngineView {
        EngineView { changes: heard(self.changes, self.mode, scope), ..self }
    }
}

/// The waiting formulas of a sheet once an event is undone or done over again.
pub open spec fn staged_step(
    entries: Seq<EntryView>,
    ev: ChangeEvent,
    name: Seq<char>,
    undo: bool,
) -> Seq<EntryView> {
    match ev {
        ChangeEvent::StagedFormulaCellChanged { sheet, row, col, old_text, new_text } => if sheet@
            == name {
            match (if undo {
                old_text
            } else {
                new_text
            }) {
                Some(t) => staged(entries, row, col, t@),
                None => unstaged(entries, row, col),
            }
        } else {
            entries
        },
        _ => entries,
    }
}

/// The waiting formulas of a sheet once the events from the last one down to number `n` are undone.
pub open spec fn staged_undone(
    entries: Seq<EntryView>,
    events: Seq<ChangeEvent>,
    name: Seq<char>,
    n: nat,
) -> Seq<EntryView>
    decreases events.len() - n,
{
    if n >= events.len() {
        entries
    } else {
        staged_step(staged_undone(entries, events, name, n + 1), events[n as int], name, true)
    }
}

/// The waiting formulas of a sheet once the first `n` events are done over again.
pub open spec fn staged_redone(
    entries: Seq<EntryView>,
    events: Seq<ChangeEvent>,
    name: Seq<char>,
    n: nat,
) -> Seq<EntryView>
    decreases n,
{
    if n == 0 {
        entries
    } else {
        staged_step(
            staged_redone(entries, events, name, (n - 1) as nat),
            events[n - 1],
            name,
            false,
        )
    }
}

/// The hidden rows once an event is undone or done over again. Rows that were inserted are deleted
/// again; inserting them once more needs room behind the last hidden row.
pub open spec fn hidden_step(h: HiddenRows, ev: ChangeEvent, undo: bool) -> HiddenRows {
    match ev {
        ChangeEvent::SetRowVisibility(e) => with_row(
            h,
            e.sheet_id,
            e.row,
            e.source,
            if undo {
                e.old_hidden
            } else {
                e.new_hidden
            },
        ),
        ChangeEvent::RowsInserted { sheet_id, before, count } => if undo {
            without_rows(h, sheet_id, before, count)
        } else if has_room(h, sheet_id, Axis::Rows, before, count) {
            with_new_rows(h, sheet_id, before, count)
        } else {
            h
        },
        _ => h,
    }
}

/// The hidden rows once the events from the last one down to number `n` are undone.
pub open spec fn hidden_undone(h: HiddenRows, events: Seq<ChangeEvent>, n: nat) -> HiddenRows
    decreases events.len() - n,
{
    if n >= events.len() {
        h
    } else {
        hidden_step(hidden_undone(h, events, n + 1), events[n as int], true)
    }
}

/// The hidden rows once the first `n` events are done over again.
pub open spec fn hidden_redone(h: HiddenRows, events: Seq<ChangeEvent>, n: nat) -> HiddenRows
    decreases n,
{
    if n == 0 {
        h
    } else {
        hidden_step(hidden_redone(h, events, (n - 1) as nat), events[n - 1], false)
    }
}

/// The numbers of the hidden rows once an event is undone or done over again: that of a sheet whose
/// rows are hidden, shown or moved by it is counted up.
pub open spec fn versions_step(h: HiddenRows, versions: Map<u16, u64>, ev: ChangeEvent, undo: bool) -> Map<
    u16,
    u64,
> {
    match ev {
        ChangeEvent::SetRowVisibility(e) => if is_hidden(h, e.sheet_id, e.row, e.source) == (if undo {
            e.old_hidden
        } else {
            e.new_hidden
        }) {
            versions
        } else {
            counted_up(versions, e.sheet_id)
        },
        ChangeEvent::RowsInserted { sheet_id, before, count } => if undo || has_room(
            h,
            sheet_id,
            Axis::Rows,
            before,
            count,
        ) {
            counted_up(versions, sheet_id)
        } else {
            versions
        },
        _ => versions,
    }
}

/// The numbers of the hidden rows once the events from the last one down to number `n` are undone.
pub open spec fn versions_undone(
    h: HiddenRows,
    versions: Map<u16, u64>,
    events: Seq<ChangeEvent>,
    n: nat,
) -> Map<u16, u64>
    decreases events.len() - n,
{
    if n >= events.len() {
        versions
    } else {
        versions_step(
            hidden_undone(h, events, n + 1),
            versions_undone(h, versions, events, n + 1),
            events[n as int],
            true,
        )
    }
}

/// The numbers of the hidden rows once the first `n` events are done over again.
pub open spec fn versions_redone(
    h: HiddenRows,
    versions: Map<u16, u64>,
    events: Seq<ChangeEvent>,
    n: nat,
) -> Map<u16, u64>
    decreases n,
{
    if n == 0 {
        versions
    } else {
        versions_step(
            hidden_redone(h, events, (n - 1) as nat),
            versions_redone(h, versions, events, (n - 1) as nat),
            events[n - 1],
            false,
        )
    }
}

/// Whether `t` is the storage with the events from the last one down to number `n` undone.
pub open spec fn store_undone(s: StoreView, events: Seq<ChangeEvent>, n: nat, t: StoreView) -> bool
    decreases events.len() - n,
{
    if n >= events.len() {
        t == s
    } else {
        exists|mid: StoreView|
            {
                &&& #[trigger] between(mid)
                &&& store_undone(s, events, n + 1, mid)
                &&& change_undone(mid, events[n as int], t)
            }
    }
}

/// Whether `t` is the storage with the first `n` events done over again.
pub open spec fn store_redone(s: StoreView, events: Seq<ChangeEvent>, n: nat, t: StoreView) -> bool
    decreases n,
{
    if n == 0 {
        t == s
    } else {
        exists|mid: StoreView|
            {
                &&& #[trigger] between(mid)
                &&& store_redone(s, events, (n - 1) as nat, mid)
                &&& change_redone(mid, events[n - 1], t)
            }
    }
}

/// The axis that a structural edit works on, its sheet, where it begins, and how many lines it has.
pub open spec fn op_lines(op: StructuralOp) -> (SheetId, Axis, u32, u32) {
    match op {
        StructuralOp::InsertRows { sheet_id, before, count } => (
            sheet_id,
            Axis::Rows,
            before,
            count,
        ),
        StructuralOp::DeleteRows { sheet_id, start, count } => (sheet_id, Axis::Rows, start, count),
        StructuralOp::InsertColumns { sheet_id, before, count } => (
            sheet_id,
            Axis::Columns,
            before,
            count,
        ),
        StructuralOp::DeleteColumns { sheet_id, start, count } => (
            sheet_id,
            Axis::Columns,
            start,
            count,
        ),
    }
}

pub open spec fn is_insertion(op: StructuralOp) -> bool {
    op is InsertRows || op is InsertColumns
}

/// Every cell that a structural edit can move: those from its first line on.
pub open spec fn affected_region(op: StructuralOp) -> Region {
    let (sheet_id, axis, start, _) = op_lines(op);
    match axis {
        Axis::Rows => Region { sheet_id, rows: AxisRange::From(start), cols: AxisRange::All },
        Axis::Columns => Region { sheet_id, rows: AxisRange::All, cols: AxisRange::From(start) },
    }
}

/// Whether the lanes moved by a structural edit.
pub open spec fn lane_moved(
    a: Map<u128, OverlayValue>,
    b: Map<u128, OverlayValue>,
    op: StructuralOp,
) -> bool {
    let (sheet_id, axis, start, count) = op_lines(op);
    if is_insertion(op) {
        is_inserted(a, b, sheet_id, axis, start, count)
    } else {
        is_deleted_from(a, b, sheet_id, axis, start, count)
    }
}

/// Whether `t` is the storage after a structural edit: what lies behind it has moved, and the
/// computed values there are gone.
pub open spec fn store_moved(s: StoreView, op: StructuralOp, t: StoreView) -> bool {
    &&& lane_moved(s.base, t.base, op)
    &&& lane_moved(s.delta, t.delta, op)
    &&& exists|m: Map<u128, OverlayValue>| #[trigger]
        lane_moved(s.computed, m, op) && t.computed == outside(m, affected_region(op))
    &&& t.max_bytes == s.max_bytes
}

/// Whether `h` are the hidden rows after a structural edit: they move with their rows.
pub open spec fn hidden_moved(from: HiddenRows, op: StructuralOp, to: HiddenRows) -> bool {
    match op {
        StructuralOp::InsertRows { sheet_id, before, count } => is_inserted(
            from,
            to,
            sheet_id,
            Axis::Rows,
            before,
            count,
        ),
        StructuralOp::DeleteRows { sheet_id, start, count } => is_deleted_from(
            from,
            to,
            sheet_id,
            Axis::Rows,
            start,
            count,
        ),
        _ => to == from,
    }
}

/// The numbers of the hidden rows after a structural edit: that of a sheet whose rows are moved is
/// counted up.
pub open spec fn versions_moved(versions: Map<u16, u64>, op: StructuralOp) -> Map<u16, u64> {
    match op {
        StructuralOp::InsertRows { sheet_id, .. } => counted_up(versions, sheet_id),
        StructuralOp::DeleteRows { sheet_id, .. } => counted_up(versions, sheet_id),
        _ => versions,
    }
}

/// Whether a structural edit moves nothing beyond the last line.
pub open spec fn op_has_room(v: EngineView, op: StructuralOp) -> bool {
    let (sheet_id, axis, start, count) = op_lines(op);
    is_insertion(op) ==> {
        &&& store_has_room(v.store, sheet_id, axis, start, count)
        &&& op is InsertRows ==> crate::store::has_room(v.hidden, sheet_id, axis, start, count)
    }
}

impl Engine {
    pub closed spec fn view(&self) -> EngineView {
        EngineView {
            store: self.store@,
            hidden: self.visibility@,
            row_versions: self.visibility.versions(),
            kept: self.schedules@,
            mode: self.mode,
            changes: self.changes@,
            snapshot_id: self.snapshot_id,
            topology_epoch: self.topology_epoch,
            has_edited: self.has_edited,
            action_active: self.action_active,
            recalc_epoch: self.recalc_epoch,
        }
    }

    /// The waiting formulas of all sheets.
    pub closed spec fn sheets(&self) -> SheetsView {
        self.staged@
    }

    /// The waiting formulas of a sheet.
    pub open spec fn waiting(&self, name: Seq<char>) -> Seq<EntryView> {
        entries_of(self.sheets(), name, self.sheets().len())
    }

    pub closed spec fn wf(&self) -> bool {
        self.store.wf() && self.visibility.wf() && self.staged.wf()
    }

    /// Whether the waiting formulas of both are the same.
    pub open spec fn waits_like(&self, other: &Engine) -> bool {
        self.sheets() == other.sheets()
    }

    /// A workbook over a storage, with the first number for its data.
    pub fn new(store: CellStore, mode: FormulaPlaneMode) -> (e: Engine)
        requires
            store.wf(),
        ensures
            e.wf(),
            e@ == (EngineView {
                store: store@,
                hidden: HiddenRows::empty(),
                row_versions: Map::empty(),
                kept: None,
                mode,
                changes: Seq::empty(),
                snapshot_id: 1,
                topology_epoch: 0,
                has_edited: false,
                action_active: false,
                recalc_epoch: 0,
            }),
            forall|name: Seq<char>| #[trigger] e.waiting(name) == Seq::<EntryView>::empty(),
    {
        let e = Engine {
            store,
            visibility: RowVisibility::new(),
            staged: StagedFormulas::new(),
            schedules: ScheduleCache::new(),
            mode,
            changes: Vec::new(),
            snapshot_id: 1,
            topology_epoch: 0,
            has_edited: false,
            action_active: false,
            recalc_epoch: 0,
        };
        assert(e@.changes =~= Seq::empty());
        e
    }

    /// Hands the storage out, for an evaluation to work on; an empty one takes its place.
    pub fn lend_store(&mut self) -> (store: CellStore)
        requires
            old(self).wf(),
        ensures
            store.wf(),
            store@ == old(self)@.store,
            final(self).wf(),
            final(self).waits_like(old(self)),
            final(self)@.store.max_bytes == old(self)@.store.max_bytes,
            final(self)@ == (EngineView { store: final(self)@.store, ..old(self)@ }),
    {
        let mut store = CellStore::new(self.store.budget());
        std::mem::swap(&mut store, &mut self.store);
        store
    }

    /// Takes the storage back that an evaluation worked on.
    pub fn return_store(&mut self, store: CellStore)
        requires
            old(self).wf(),
            store.wf(),
        ensures
            final(self).wf(),
            final(self).waits_like(old(self)),
            final(self)@ == (EngineView { store: store@, ..old(self)@ }),
    {
        self.store = store;
    }

    /// The data changed.
    pub fn mark_data_edited(&mut self)
        requires
            old(self).wf(),
        ensures
            final(self).wf(),
            final(self)@ == old(self)@.data_edited(),
            final(self).waits_like(old(self)),
    {
        self.snapshot_id = self.snapshot_id.wrapping_add(1);
        self.has_edited = true;
    }

    /// The dependencies changed.
    pub fn mark_topology_edited(&mut self)
        requires
            old(self).wf(),
        ensures
            final(self).wf(),
            final(self)@ == old(self)@.topology_edited(),
            final(self).waits_like(old(self)),
    {
        self.snapshot_id = self.snapshot_id.wrapping_add(1);
        self.topology_epoch = self.topology_epoch.wrapping_add(1);
        self.schedules.clear();
        self.has_edited = true;
    }

    /// The number of the data as they are.
    pub fn data_snapshot_id(&self) -> (n: u64)
        ensures
            n == self@.snapshot_id,
    {
        self.snapshot_id
    }

    /// Formula spans have to hear of a change.
    pub fn record_formula_plane_structural_change(&mut self, scope: StructuralScope)
        requires
            old(self).wf(),
        ensures
            final(self).wf(),
            final(self)@ == old(self)@.hearing(Some(scope)),
            final(self).waits_like(old(self)),
    {
        if self.mode == FormulaPlaneMode::Off {
            return;
        }
        let change = match scope {
            StructuralScope::Cell(c) => PlaneChange::Region(
                Region::point(c.sheet_id, c.row, c.col),
            ),
            StructuralScope::Region(r) => PlaneChange::Region(r),
            StructuralScope::Sheet(sheet_id) => PlaneChange::Region(
                Region { sheet_id, rows: AxisRange::All, cols: AxisRange::All },
            ),
            StructuralScope::RemovedSheet(sheet_id) => PlaneChange::RemovedSheet(sheet_id),
            StructuralScope::AllSheets => PlaneChange::AllDirty,
        };
        self.changes.push(change);
    }

    /// Formula spans have to hear of a change to a cell with a one-based address.
    pub fn record_formula_plane_changed_cell(&mut self, sheet_id: SheetId, row: u32, col: u32)
        requires
            old(self).wf(),
        ensures
            final(self).wf(),
            final(self)@ == old(self)@.hearing(
                Some(StructuralScope::Cell(at_1_based(sheet_id, row, col))),
            ),
            final(self).waits_like(old(self)),
    {
        let cell = crate::store::cell_at(sheet_id, row, col);
        self.record_formula_plane_structural_change(StructuralScope::Cell(cell));
    }

    /// Formula spans have to hear of an entry of the change log.
    pub fn record_formula_plane_change_for_event(&mut self, event: &ChangeEvent)
        requires
            old(self).wf(),
        ensures
            final(self).wf(),
            final(self)@ == old(self)@.hearing(event_scope(*event)),
            final(self).waits_like(old(self)),
    {
        let scope = match event {
            ChangeEvent::SetValue { cell, .. } => Some(StructuralScope::Cell(*cell)),
            ChangeEvent::SetFormula { cell, .. } => Some(StructuralScope::Cell(*cell)),
            ChangeEvent::SpillCommitted { after, .. } => formula_plane_region_from_cells(
                &after.target_cells,
            ),
            ChangeEvent::SpillCleared { before } => formula_plane_region_from_cells(
                &before.target_cells,
            ),
            ChangeEvent::SetRowVisibility(e) => Some(
                StructuralScope::Region(Region::whole_row(e.sheet_id, e.row)),
            ),
            ChangeEvent::Rewired => Some(StructuralScope::AllSheets),
            _ => None,
        };
        if let Some(s) = scope {
            self.record_formula_plane_structural_change(s);
        }
    }

    fn record_events(&mut self, events: &Vec<ChangeEvent>)
        requires
            old(self).wf(),
        ensures
            final(self).wf(),
            final(self)@ == (EngineView {
                changes: heard_all(
                    old(self)@.changes,
                    old(self)@.mode,
                    events@,
                    events@.len(),
                ),
                ..old(self)@
            }),
            final(self).waits_like(old(self)),
    {
        let ghost before = self@;
        let mut i: usize = 0;
        while i < events.len()
            invariant
                self.wf(),
                before == old(self)@,
                i <= events@.len(),
                self@ == (EngineView {
                    changes: heard_all(before.changes, before.mode, events@, i as nat),
                    ..before
                }),
                self.waits_like(old(self)),
            decreases events@.len() - i,
        {
            self.record_formula_plane_change_for_event(&events[i]);
            i = i + 1;
        }
    }

    /// What formula spans have not heard of yet; it counts as heard from now on.
    pub fn take_plane_changes(&mut self) -> (r: Vec<PlaneChange>)
        requires
            old(self).wf(),
        ensures
            final(self).wf(),
            r@ == old(self)@.changes,
            final(self)@ == (EngineView { changes: Seq::empty(), ..old(self)@ }),
            final(self).waits_like(old(self)),
    {
        let mut out: Vec<PlaneChange> = Vec::new();
        std::mem::swap(&mut out, &mut self.changes);
        out
    }

    /// What a cell with a one-based address shows; nothing where it is empty.
    pub fn get_cell_value(&self, sheet_id: SheetId, row: u32, col: u32) -> (r: Option<LiteralValue>)
        requires
            self.wf(),
        ensures
            match r {
                Some(v) => v@ == read(self@.store, at_1_based(sheet_id, row, col)) && v@
                    != ValueView::Empty,
                None => read(self@.store, at_1_based(sheet_id, row, col)) == ValueView::Empty,
            },
    {
        self.store.get_cell_value(sheet_id, row, col)
    }

    /// Sets the value of a cell, once the graph has taken it; a refusal of the graph is handed back
    /// and changes nothing here.
    pub fn set_cell_value(
        &mut self,
        sheet_id: SheetId,
        row: u32,
        col: u32,
        value: &LiteralValue,
        graph: Result<(), ExcelError>,
    ) -> (r: Result<(), ExcelError>)
        requires
            old(self).wf(),
        ensures
            final(self).wf(),
            final(self).waits_like(old(self)),
            (match graph {
                Ok(()) => r is Ok,
                Err(e) => r == Err::<(), ExcelError>(e),
            }),
            ({
                let cell = at_1_based(sheet_id, row, col);
                match graph {
                    Ok(()) => exists|s: StoreView|
                        {
                            &&& #[trigger] between(s)
                            &&& edited(old(self)@.store, cell, value@, s)
                            &&& final(self)@ == (EngineView { store: s, ..old(self)@ }).hearing(
                                Some(StructuralScope::Cell(cell)),
                            ).data_edited()
                        },
                    Err(_) => final(self)@ == old(self)@,
                }
            }),
    {
        if let Err(e) = graph {
            return Err(e);
        }
        self.record_formula_plane_changed_cell(sheet_id, row, col);
        self.store.mirror_value_to_overlay(sheet_id, row, col, value);
        self.mark_data_edited();
        assert(between(self@.store));
        Ok(())
    }

    /// Sets the formula of a cell, once the graph has taken it: an edit that lay over the cell is
    /// taken away, so that it does not mask the result.
    pub fn set_cell_formula(
        &mut self,
        sheet_id: SheetId,
        row: u32,
        col: u32,
        graph: Result<(), ExcelError>,
    ) -> (r: Result<(), ExcelError>)
        requires
            old(self).wf(),
        ensures
            final(self).wf(),
            final(self).waits_like(old(self)),
            (match graph {
                Ok(()) => r is Ok,
                Err(e) => r == Err::<(), ExcelError>(e),
            }),
            ({
                let cell = at_1_based(sheet_id, row, col);
                let s = old(self)@.store;
                match graph {
                    Ok(()) => final(self)@ == (EngineView {
                        store: StoreView { delta: s.delta.remove(spec_cell_key(cell)), ..s },
                        ..old(self)@
                    }).hearing(Some(StructuralScope::Cell(cell))).topology_edited(),
                    Err(_) => final(self)@ == old(self)@,
                }
            }),
    {
        if let Err(e) = graph {
            return Err(e);
        }
        self.record_formula_plane_changed_cell(sheet_id, row, col);
        self.store.clear_delta_overlay_cell(sheet_id, row, col);
        self.mark_topology_edited();
        Ok(())
    }

    /// Folds the user edits of a region into the base values, as the surroundings may decide after an
    /// edit there.
    pub fn fold_edits(&mut self, region: &Region)
        requires
            old(self).wf(),
        ensures
            final(self).wf(),
            final(self).waits_like(old(self)),
            final(self)@ == (EngineView {
                store: edits_folded(old(self)@.store, *region),
                ..old(self)@
            }),
    {
        self.store.fold_edits(region);
    }

    /// Reads a cell by a locator of its sheet and its place counted from zero. The answer is nothing
    /// where the cell shows nothing.
    pub fn get_cell_value_ref(
        &self,
        loc: &SheetLocator,
        current_id: Option<SheetId>,
        named_id: Option<SheetId>,
        row: u32,
        col: u32,
    ) -> (r: Result<Option<LiteralValue>, ExcelError>)
        requires
            self.wf(),
            row < u32::MAX,
            col < u32::MAX,
        ensures
            match read_sheet(*loc, current_id, named_id) {
                Some(sheet_id) => {
                    let shown = read(self@.store, CellRef { sheet_id, row, col });
                    match r {
                        Ok(Some(v)) => v@ == shown && shown != ValueView::Empty,
                        Ok(None) => shown == ValueView::Empty,
                        Err(_) => false,
                    }
                },
                None => r matches Err(e) && e@ == bare_error(ErrorKind::Ref),
            },
    {
        match resolve_sheet_locator_for_read(loc, current_id, named_id) {
            Ok(sheet_id) => Ok(self.get_cell_value(sheet_id, row + 1, col + 1)),
            Err(e) => Err(e),
        }
    }

    /// Sets the value of a cell by a locator of its sheet and its place counted from zero.
    pub fn set_cell_value_ref(
        &mut self,
        loc: &SheetLocator,
        current_id: SheetId,
        named_id: SheetId,
        row: u32,
        col: u32,
        value: &LiteralValue,
        graph: Result<(), ExcelError>,
    ) -> (r: Result<(), ExcelError>)
        requires
            old(self).wf(),
            row < u32::MAX,
            col < u32::MAX,
        ensures
            final(self).wf(),
            final(self).waits_like(old(self)),
            (match graph {
                Ok(()) => r is Ok,
                Err(e) => r == Err::<(), ExcelError>(e),
            }),
            ({
                let sheet_id = written_sheet(*loc, current_id, named_id);
                let cell = CellRef { sheet_id, row, col };
                match graph {
                    Ok(()) => exists|s: StoreView|
                        {
                            &&& #[trigger] between(s)
                            &&& edited(old(self)@.store, cell, value@, s)
                            &&& final(self)@ == (EngineView { store: s, ..old(self)@ }).hearing(
                                Some(StructuralScope::Cell(cell)),
                            ).data_edited()
                        },
                    Err(_) => final(self)@ == old(self)@,
                }
            }),
    {
        let sheet_id = resolve_sheet_locator_for_write(loc, current_id, named_id);
        self.set_cell_value(sheet_id, row + 1, col + 1, value, graph)
    }

    /// Sets the formula of a cell by a locator of its sheet and its place counted from zero.
    pub fn set_cell_formula_ref(
        &mut self,
        loc: &SheetLocator,
        current_id: SheetId,
        named_id: SheetId,
        row: u32,
        col: u32,
        graph: Result<(), ExcelError>,
    ) -> (r: Result<(), ExcelError>)
        requires
            old(self).wf(),
            row < u32::MAX,
            col < u32::MAX,
        ensures
            final(self).wf(),
            final(self).waits_like(old(self)),
            (match graph {
                Ok(()) => r is Ok,
                Err(e) => r == Err::<(), ExcelError>(e),
            }),
            ({
                let sheet_id = written_sheet(*loc, current_id, named_id);
                let cell = CellRef { sheet_id, row, col };
                let s = old(self)@.store;
                match graph {
                    Ok(()) => final(self)@ == (EngineView {
                        store: StoreView { delta: s.delta.remove(spec_cell_key(cell)), ..s },
                        ..old(self)@
                    }).hearing(Some(StructuralScope::Cell(cell))).topology_edited(),
                    Err(_) => final(self)@ == old(self)@,
                }
            }),
    {
        let sheet_id = resolve_sheet_locator_for_write(loc, current_id, named_id);
        self.set_cell_formula(sheet_id, row + 1, col + 1, graph)
    }

    /// Takes note of formulas that the graph has taken in one go: `n` of them were new or different.
    pub fn bulk_set_formulas(&mut self, sheet_id: SheetId, cells: &Vec<(u32, u32)>, n: usize)
        requires
            old(self).wf(),
        ensures
            final(self).wf(),
            final(self).waits_like(old(self)),
            ({
                let told = EngineView {
                    changes: heard_cells(
                        old(self)@.changes,
                        old(self)@.mode,
                        sheet_id,
                        cells@,
                        cells@.len(),
                    ),
                    ..old(self)@
                };
                final(self)@ == (if n > 0 {
                    told.topology_edited()
                } else {
                    told
                })
            }),
    {
        let ghost before = self@;
        let mut i: usize = 0;
        while i < cells.len()
            invariant
                self.wf(),
                before == old(self)@,
                i <= cells@.len(),
                self.waits_like(old(self)),
                self@ == (EngineView {
                    changes: heard_cells(before.changes, before.mode, sheet_id, cells@, i as nat),
                    ..before
                }),
            decreases cells@.len() - i,
        {
            self.record_formula_plane_changed_cell(sheet_id, cells[i].0, cells[i].1);
            i = i + 1;
        }
        if n > 0 {
            self.mark_topology_edited();
        }
    }

    /// Whether a structural edit moves nothing beyond the last line.
    pub fn has_room_for(&self, op: StructuralOp) -> (b: bool)
        requires
            self.wf(),
        ensures
            b == op_has_room(self@, op),
    {
        match op {
            StructuralOp::InsertRows { sheet_id, before, count } => self.store.has_room_for_lines(
                sheet_id,
                Axis::Rows,
                before,
                count,
            ) && self.visibility.has_room(sheet_id, before, count),
            StructuralOp::InsertColumns { sheet_id, before, count } => {
                self.store.has_room_for_lines(sheet_id, Axis::Columns, before, count)
            },
            _ => true,
        }
    }

    /// Inserts or deletes rows or columns, once the graph has done so: the storage and hidden rows
    /// move, and the computed values from there on are dropped.
    fn move_lines(&mut self, op: StructuralOp)
        requires
            old(self).wf(),
            op_has_room(old(self)@, op),
        ensures
            final(self).wf(),
            final(self).waits_like(old(self)),
            lines_edited(old(self)@, op, final(self)@),
    {
        let ghost s0 = self.store@;
        let ghost h0 = self.visibility@;
        let region = match op {
            StructuralOp::InsertRows { sheet_id, before, count } => {
                self.store.insert_lines(sheet_id, Axis::Rows, before, count);
                let ghost m = self.store@.computed;
                assert(lane_moved(s0.computed, m, op));
                self.store.clear_computed_overlay_after_row(sheet_id, before);
                self.visibility.shift_row_visibility_insert(sheet_id, before, count);
                Region::rows_from(sheet_id, before)
            },
            StructuralOp::DeleteRows { sheet_id, start, count } => {
                self.store.delete_lines(sheet_id, Axis::Rows, start, count);
                let ghost m = self.store@.computed;
                assert(lane_moved(s0.computed, m, op));
                self.store.clear_computed_overlay_after_row(sheet_id, start);
                self.visibility.shift_row_visibility_delete(sheet_id, start, count);
                Region::rows_from(sheet_id, start)
            },
            StructuralOp::InsertColumns { sheet_id, before, count } => {
                self.store.insert_lines(sheet_id, Axis::Columns, before, count);
                let ghost m = self.store@.computed;
                assert(lane_moved(s0.computed, m, op));
                self.store.clear_computed_overlay_after_col(sheet_id, before);
                Region::cols_from(sheet_id, before)
            },
            StructuralOp::DeleteColumns { sheet_id, start, count } => {
                self.store.delete_lines(sheet_id, Axis::Columns, start, count);
                let ghost m = self.store@.computed;
                assert(lane_moved(s0.computed, m, op));
                self.store.clear_computed_overlay_after_col(sheet_id, start);
                Region::cols_from(sheet_id, start)
            },
        };
        assert(region == affected_region(op));
        assert(store_moved(s0, op, self.store@));
        assert(hidden_moved(h0, op, self.visibility@));
        let ghost s1 = self.store@;
        let ghost h1 = self.visibility@;
        self.record_formula_plane_structural_change(StructuralScope::Region(region));
        self.mark_topology_edited();
        proof {
            let goal = (EngineView {
                store: s1,
                hidden: h1,
                row_versions: versions_moved(old(self)@.row_versions, op),
                ..old(self)@
            }).hearing(Some(StructuralScope::Region(affected_region(op)))).topology_edited();
            assert(self@ =~= goal);
            assert(store_moved(old(self)@.store, op, s1));
            assert(hidden_moved(old(self)@.hidden, op, h1));
        }
    }

    /// Adds a sheet, once the graph has.
    pub fn add_sheet(&mut self, graph: Result<SheetId, ExcelError>) -> (r: Result<SheetId, ExcelError>)
        requires
            old(self).wf(),
        ensures
            final(self).wf(),
            final(self).waits_like(old(self)),
            r == graph,
            match graph {
                Ok(id) => {
                    let s = old(self)@.store;
                    final(self)@ == (EngineView {
                        store: StoreView {
                            extents: if s.extents.contains_key(id) {
                                s.extents
                            } else {
                                s.extents.insert(id, Extent { rows: 0, cols: 0 })
                            },
                            ..s
                        },
                        ..old(self)@
                    }).topology_edited()
                },
                Err(_) => final(self)@ == old(self)@,
            },
    {
        match graph {
            Ok(id) => {
                self.store.ensure_arrow_sheet(id);
                self.mark_topology_edited();
                Ok(id)
            },
            Err(e) => Err(e),
        }
    }

    /// Copies a sheet, once the graph has: all computed values are dropped, so that everything is
    /// computed again. An unknown source is refused.
    pub fn duplicate_sheet(&mut self, source: Option<SheetId>, graph: Result<SheetId, ExcelError>) -> (r:
        Result<SheetId, ExcelError>)
        requires
            old(self).wf(),
            (source, graph) matches (Some(from), Ok(to)) ==> from != to && is_blank_sheet(
                old(self)@.store,
                to,
            ),
        ensures
            final(self).wf(),
            final(self).waits_like(old(self)),
            match source {
                None => {
                    &&& r matches Err(e) && e@ == error_with(
                        ErrorKind::Value,
                        "Source sheet does not exist"@,
                    )
                    &&& final(self)@ == old(self)@
                },
                Some(from) => {
                    &&& r == graph
                    &&& match graph {
                        Ok(to) => exists|s: StoreView|
                            {
                                &&& #[trigger] between(s)
                                &&& is_sheet_copy(old(self)@.store, from, to, s)
                                &&& final(self)@ == (EngineView {
                                    store: s,
                                    ..old(self)@
                                }).topology_edited()
                            },
                        Err(_) => final(self)@ == old(self)@,
                    }
                },
            },
    {
        let from = match source {
            Some(id) => id,
            None => {
                return Err(
                    ExcelError::new(ErrorKind::Value).with_message("Source sheet does not exist"),
                );
            },
        };
        match graph {
            Ok(to) => {
                self.store.duplicate_sheet(from, to);
                self.mark_topology_edited();
                assert(between(self@.store));
                Ok(to)
            },
            Err(e) => Err(e),
        }
    }

    /// Drops a sheet, once the graph has: its cells, its waiting formulas and its hidden rows go,
    /// and all computed values are dropped.
    pub fn remove_sheet(&mut self, sheet_id: SheetId, name: &str, graph: Result<(), ExcelError>) -> (r:
        Result<(), ExcelError>)
        requires
            old(self).wf(),
        ensures
            final(self).wf(),
            match graph {
                Ok(()) => {
                    &&& r is Ok
                    &&& final(self)@ == (EngineView {
                        store: without_sheet(old(self)@.store, sheet_id),
                        hidden: outside(old(self)@.hidden, whole_sheet(sheet_id)),
                        row_versions: counted_up(old(self)@.row_versions, sheet_id),
                        ..old(self)@
                    }).hearing(Some(StructuralScope::RemovedSheet(sheet_id))).topology_edited()
                    &&& rows_counted(old(self)@, final(self)@)
                    &&& final(self).waiting(name@) == Seq::<EntryView>::empty()
                    &&& forall|other: Seq<char>|
                        other != name@ ==> #[trigger] final(self).waiting(other) == old(
                            self,
                        ).waiting(other)
                },
                Err(e) => {
                    &&& r == Err::<(), ExcelError>(e)
                    &&& final(self)@ == old(self)@
                    &&& final(self).waits_like(old(self))
                },
            },
    {
        if let Err(e) = graph {
            return Err(e);
        }
        self.store.remove_sheet(sheet_id);
        self.staged.clear_staged_formulas_for_sheet(name);
        self.visibility.remove_sheet(sheet_id);
        let ghost e1 = *self;
        self.record_formula_plane_structural_change(StructuralScope::RemovedSheet(sheet_id));
        self.mark_topology_edited();
        proof {
            assert(self.waiting(name@) == e1.staged.of(name@));
            assert forall|other: Seq<char>| other != name@ implies #[trigger] self.waiting(other)
                == old(self).waiting(other) by {
                assert(e1.staged.of(other) == old(self).staged.of(other));
            }
        }
        Ok(())
    }

    /// Renames a sheet, once the graph has: its waiting formulas go with it.
    pub fn rename_sheet(&mut self, from: &str, to: &str, graph: Result<(), ExcelError>) -> (r: Result<
        (),
        ExcelError,
    >)
        requires
            old(self).wf(),
        ensures
            final(self).wf(),
            match graph {
                Ok(()) => {
                    &&& r is Ok
                    &&& final(self)@ == old(self)@.topology_edited()
                    &&& from@ != to@ ==> final(self).waiting(from@) == Seq::<EntryView>::empty()
                    &&& from@ != to@ ==> final(self).waiting(to@) == restaged(
                        old(self).waiting(to@),
                        old(self).waiting(from@),
                        old(self).waiting(from@).len(),
                    )
                    &&& from@ == to@ ==> final(self).waiting(to@) == restaged(
                        Seq::empty(),
                        old(self).waiting(from@),
                        old(self).waiting(from@).len(),
                    )
                    &&& forall|other: Seq<char>|
                        other != from@ && other != to@ ==> #[trigger] final(self).waiting(other)
                            == old(self).waiting(other)
                },
                Err(e) => {
                    &&& r == Err::<(), ExcelError>(e)
                    &&& final(self)@ == old(self)@
                    &&& final(self).waits_like(old(self))
                },
            },
    {
        if let Err(e) = graph {
            return Err(e);
        }
        self.staged.rename_staged_formula_sheet(from, to);
        let ghost e1 = *self;
        self.mark_topology_edited();
        proof {
            assert(self.waiting(from@) == e1.staged.of(from@));
            assert(self.waiting(to@) == e1.staged.of(to@));
            assert(old(self).waiting(from@) == old(self).staged.of(from@));
            assert(old(self).waiting(to@) == old(self).staged.of(to@));
            assert forall|other: Seq<char>| other != from@ && other != to@ implies
                #[trigger] self.waiting(other) == old(self).waiting(other) by {
                assert(e1.staged.of(other) == old(self).staged.of(other));
            }
        }
        Ok(())
    }

    /// Takes note of a new name, once the graph has taken it.
    pub fn define_name(&mut self, graph: Result<(), ExcelError>) -> (r: Result<(), ExcelError>)
        requires
            old(self).wf(),
        ensures
            final(self).wf(),
            final(self).waits_like(old(self)),
            is_definition(old(self)@, true, graph, r, final(self)@),
    {
        self.definition_changed(true, graph)
    }

    /// Takes note of a changed name, once the graph has taken it.
    pub fn update_name(&mut self, graph: Result<(), ExcelError>) -> (r: Result<(), ExcelError>)
        requires
            old(self).wf(),
        ensures
            final(self).wf(),
            final(self).waits_like(old(self)),
            is_definition(old(self)@, true, graph, r, final(self)@),
    {
        self.definition_changed(true, graph)
    }

    /// Takes note of a deleted name, once the graph has.
    pub fn delete_name(&mut self, graph: Result<(), ExcelError>) -> (r: Result<(), ExcelError>)
        requires
            old(self).wf(),
        ensures
            final(self).wf(),
            final(self).waits_like(old(self)),
            is_definition(old(self)@, true, graph, r, final(self)@),
    {
        self.definition_changed(true, graph)
    }

    /// Takes note of a new table, once the graph has taken it.
    pub fn define_table(&mut self, graph: Result<(), ExcelError>) -> (r: Result<(), ExcelError>)
        requires
            old(self).wf(),
        ensures
            final(self).wf(),
            final(self).waits_like(old(self)),
            is_definition(old(self)@, true, graph, r, final(self)@),
    {
        self.definition_changed(true, graph)
    }

    /// Takes note of a new outside value, once the graph has taken it.
    pub fn define_source_scalar(&mut self, graph: Result<(), ExcelError>) -> (r: Result<(), ExcelError>)
        requires
            old(self).wf(),
        ensures
            final(self).wf(),
            final(self).waits_like(old(self)),
            is_definition(old(self)@, true, graph, r, final(self)@),
    {
        self.definition_changed(true, graph)
    }

    /// Takes note of a new outside table, once the graph has taken it.
    pub fn define_source_table(&mut self, graph: Result<(), ExcelError>) -> (r: Result<(), ExcelError>)
        requires
            old(self).wf(),
        ensures
            final(self).wf(),
            final(self).waits_like(old(self)),
            is_definition(old(self)@, true, graph, r, final(self)@),
    {
        self.definition_changed(true, graph)
    }

    /// Takes note of a new version of an outside value, once the graph has.
    pub fn set_source_scalar_version(&mut self, graph: Result<(), ExcelError>) -> (r: Result<(), ExcelError>)
        requires
            old(self).wf(),
        ensures
            final(self).wf(),
            final(self).waits_like(old(self)),
            is_definition(old(self)@, false, graph, r, final(self)@),
    {
        self.definition_changed(false, graph)
    }

    /// Takes note of a new version of an outside table, once the graph has.
    pub fn set_source_table_version(&mut self, graph: Result<(), ExcelError>) -> (r: Result<(), ExcelError>)
        requires
            old(self).wf(),
        ensures
            final(self).wf(),
            final(self).waits_like(old(self)),
            is_definition(old(self)@, false, graph, r, final(self)@),
    {
        self.definition_changed(false, graph)
    }

    /// Takes note of an outside source that changed, once the graph has.
    pub fn invalidate_source(&mut self, graph: Result<(), ExcelError>) -> (r: Result<(), ExcelError>)
        requires
            old(self).wf(),
        ensures
            final(self).wf(),
            final(self).waits_like(old(self)),
            is_definition(old(self)@, false, graph, r, final(self)@),
    {
        self.definition_changed(false, graph)
    }

    fn definition_changed(&mut self, rewires: bool, graph: Result<(), ExcelError>) -> (r: Result<
        (),
        ExcelError,
    >)
        requires
            old(self).wf(),
        ensures
            final(self).wf(),
            final(self).waits_like(old(self)),
            is_definition(old(self)@, rewires, graph, r, final(self)@),
    {
        if let Err(e) = graph {
            return Err(e);
        }
        self.record_formula_plane_structural_change(StructuralScope::AllSheets);
        if rewires {
            self.mark_topology_edited();
        }
        Ok(())
    }

    /// The formula text of a cell: what waits for it, with an equals sign in front, and else the
    /// text of the formula that the graph has, if any. A sheet without a name is refused.
    pub fn formula_text_at_cell(&self, sheet: &str, cell: CellRef, built: Option<String>) -> (r: Result<
        Option<String>,
        ExcelError,
    >)
        requires
            self.wf(),
            cell.row < u32::MAX,
            cell.col < u32::MAX,
        ensures
            ({
                let row = (cell.row + 1) as u32;
                let col = (cell.col + 1) as u32;
                let entries = self.waiting(sheet@);
                if sheet@.len() == 0 {
                    r matches Err(e) && e@ == bare_error(ErrorKind::Ref)
                } else if has_cell(entries, row, col) {
                    r matches Ok(Some(t)) && t@ == with_equals(
                        entries[place_of(entries, row, col)].2,
                    )
                } else {
                    r == Ok::<Option<String>, ExcelError>(built)
                }
            }),
    {
        if sheet.unicode_len() == 0 {
            return Err(ExcelError::new(ErrorKind::Ref));
        }
        match self.staged.get_staged_formula_text(sheet, cell.row + 1, cell.col + 1) {
            Some(t) => Ok(Some(formula_text(t.as_str()))),
            None => Ok(built),
        }
    }

    /// The schedule that is kept for the vertices, if it still holds.
    pub fn kept_schedule(&self, eligible: bool, to_evaluate: &Vec<VertexId>) -> (r: Option<
        (Schedule, ScheduleBuildMeta),
    >)
        ensures
            match r {
                Some((s, _)) => cached_for(
                    self@.kept,
                    eligible,
                    self@.topology_epoch,
                    to_evaluate@,
                ) == Some(s@),
                None => cached_for(
                    self@.kept,
                    eligible,
                    self@.topology_epoch,
                    to_evaluate@,
                ) is None,
            },
    {
        self.schedules.lookup(eligible, self.topology_epoch, to_evaluate)
    }

    /// Takes over a schedule that was just built, and describes it.
    pub fn schedule_built(
        &mut self,
        eligible: bool,
        telemetry: bool,
        to_evaluate: &Vec<VertexId>,
        schedule: &Schedule,
        vdeps_vertices: usize,
        vdeps_edges: usize,
        elapsed_ms: u128,
    ) -> (meta: ScheduleBuildMeta)
        requires
            old(self).wf(),
        ensures
            final(self).wf(),
            final(self).waits_like(old(self)),
            meta == built_meta(
                to_evaluate@.len() as usize,
                vdeps_vertices,
                vdeps_edges,
                elapsed_ms,
                eligible,
                telemetry,
            ),
            final(self)@ == (EngineView {
                kept: cache_after(
                    old(self)@.kept,
                    eligible,
                    old(self)@.topology_epoch,
                    to_evaluate@,
                    schedule@,
                    vdeps_vertices,
                ),
                ..old(self)@
            }),
    {
        self.schedules.built(
            eligible,
            telemetry,
            self.topology_epoch,
            to_evaluate,
            schedule,
            vdeps_vertices,
            vdeps_edges,
            elapsed_ms,
        )
    }

    /// What the cells with the one-based addresses show.
    pub fn evaluated_values(&self, targets: &Vec<(SheetId, u32, u32)>) -> (r: Vec<
        Option<LiteralValue>,
    >)
        requires
            self.wf(),
        ensures
            r@.len() == targets@.len(),
            forall|i: int|
                0 <= i < r@.len() ==> shows(
                    self@.store,
                    at_1_based(targets@[i].0, targets@[i].1, targets@[i].2),
                    #[trigger] r@[i],
                ),
    {
        let mut out: Vec<Option<LiteralValue>> = Vec::new();
        let mut i: usize = 0;
        while i < targets.len()
            invariant
                self.wf(),
                i <= targets@.len(),
                out@.len() == i,
                forall|k: int|
                    0 <= k < i ==> shows(
                        self@.store,
                        at_1_based(targets@[k].0, targets@[k].1, targets@[k].2),
                        #[trigger] out@[k],
                    ),
            decreases targets@.len() - i,
        {
            let (sheet_id, row, col) = targets[i];
            out.push(self.get_cell_value(sheet_id, row, col));
            i = i + 1;
        }
        out
    }

    /// Inserts rows before the one with the one-based number, once the graph has done so.
    pub fn insert_rows(
        &mut self,
        sheet: &str,
        sheet_id: Option<SheetId>,
        before: u32,
        count: u32,
        graph: Result<(), EditorError>,
    ) -> (r: Result<(), EditorError>)
        requires
            old(self).wf(),
            lines_fit(old(self)@, sheet_id, before, count, graph is Ok, Axis::Rows, true),
        ensures
            final(self).wf(),
            final(self).waits_like(old(self)),
            is_line_edit(
                old(self)@,
                sheet@,
                sheet_id,
                line_op(sheet_id, before, count, Axis::Rows, true),
                graph,
                r,
                final(self)@,
            ),
    {
        self.edit_lines(sheet, sheet_id, before, count, graph, Axis::Rows, true)
    }

    /// Deletes rows from the one with the one-based number on, once the graph has done so.
    pub fn delete_rows(
        &mut self,
        sheet: &str,
        sheet_id: Option<SheetId>,
        start: u32,
        count: u32,
        graph: Result<(), EditorError>,
    ) -> (r: Result<(), EditorError>)
        requires
            old(self).wf(),
        ensures
            final(self).wf(),
            final(self).waits_like(old(self)),
            is_line_edit(
                old(self)@,
                sheet@,
                sheet_id,
                line_op(sheet_id, start, count, Axis::Rows, false),
                graph,
                r,
                final(self)@,
            ),
    {
        self.edit_lines(sheet, sheet_id, start, count, graph, Axis::Rows, false)
    }

    /// Inserts columns before the one with the one-based number, once the graph has done so.
    pub fn insert_columns(
        &mut self,
        sheet: &str,
        sheet_id: Option<SheetId>,
        before: u32,
        count: u32,
        graph: Result<(), EditorError>,
    ) -> (r: Result<(), EditorError>)
        requires
            old(self).wf(),
            lines_fit(old(self)@, sheet_id, before, count, graph is Ok, Axis::Columns, true),
        ensures
            final(self).wf(),
            final(self).waits_like(old(self)),
            is_line_edit(
                old(self)@,
                sheet@,
                sheet_id,
                line_op(sheet_id, before, count, Axis::Columns, true),
                graph,
                r,
                final(self)@,
            ),
    {
        self.edit_lines(sheet, sheet_id, before, count, graph, Axis::Columns, true)
    }

    /// Deletes columns from the one with the one-based number on, once the graph has done so.
    pub fn delete_columns(
        &mut self,
        sheet: &str,
        sheet_id: Option<SheetId>,
        start: u32,
        count: u32,
        graph: Result<(), EditorError>,
    ) -> (r: Result<(), EditorError>)
        requires
            old(self).wf(),
        ensures
            final(self).wf(),
            final(self).waits_like(old(self)),
            is_line_edit(
                old(self)@,
                sheet@,
                sheet_id,
                line_op(sheet_id, start, count, Axis::Columns, false),
                graph,
                r,
                final(self)@,
            ),
    {
        self.edit_lines(sheet, sheet_id, start, count, graph, Axis::Columns, false)
    }

    fn edit_lines(
        &mut self,
        sheet: &str,
        sheet_id: Option<SheetId>,
        start: u32,
        count: u32,
        graph: Result<(), EditorError>,
        axis: Axis,
        insert: bool,
    ) -> (r: Result<(), EditorError>)
        requires
            old(self).wf(),
            lines_fit(old(self)@, sheet_id, start, count, graph is Ok, axis, insert),
        ensures
            final(self).wf(),
            final(self).waits_like(old(self)),
            is_line_edit(
                old(self)@,
                sheet@,
                sheet_id,
                line_op(sheet_id, start, count, axis, insert),
                graph,
                r,
                final(self)@,
            ),
    {
        let id = match ensure_known_sheet_id(sheet_id, sheet) {
            Ok(id) => id,
            Err(e) => {
                return Err(e);
            },
        };
        if let Err(e) = graph {
            return Err(e);
        }
        let first = start.saturating_sub(1);
        let op = match axis {
            Axis::Rows => if insert {
                StructuralOp::InsertRows { sheet_id: id, before: first, count }
            } else {
                StructuralOp::DeleteRows { sheet_id: id, start: first, count }
            },
            Axis::Columns => if insert {
                StructuralOp::InsertColumns { sheet_id: id, before: first, count }
            } else {
                StructuralOp::DeleteColumns { sheet_id: id, start: first, count }
            },
        };
        self.move_lines(op);
        Ok(())
    }

    /// Hides or shows a row by its one-based number.
    pub fn set_row_hidden(
        &mut self,
        sheet: &str,
        sheet_id: Option<SheetId>,
        row_1based: u32,
        hidden: bool,
        source: RowVisibilitySource,
    ) -> (r: Result<(), EditorError>)
        requires
            old(self).wf(),
        ensures
            final(self).wf(),
            final(self).waits_like(old(self)),
            is_row_hiding(
                old(self)@,
                sheet@,
                sheet_id,
                row_1based,
                hidden,
                source,
                r,
                final(self)@,
            ),
    {
        let id = match ensure_known_sheet_id(sheet_id, sheet) {
            Ok(id) => id,
            Err(e) => {
                return Err(e);
            },
        };
        let row = match normalize_row_1based(row_1based) {
            Ok(row) => row,
            Err(e) => {
                return Err(e);
            },
        };
        let changed = self.visibility.set_row_hidden_by_sheet_id(id, row, hidden, source);
        if let Some(scope) = visibility_change(changed, id, row, row) {
            self.record_formula_plane_structural_change(scope);
            self.mark_data_edited();
        }
        Ok(())
    }

    /// Hides or shows the rows from one to another by their one-based numbers.
    pub fn set_rows_hidden(
        &mut self,
        sheet: &str,
        sheet_id: Option<SheetId>,
        start_row_1based: u32,
        end_row_1based: u32,
        hidden: bool,
        source: RowVisibilitySource,
    ) -> (r: Result<(), EditorError>)
        requires
            old(self).wf(),
        ensures
            final(self).wf(),
            final(self).waits_like(old(self)),
            is_rows_hiding(
                old(self)@,
                sheet@,
                sheet_id,
                start_row_1based,
                end_row_1based,
                hidden,
                source,
                r,
                final(self)@,
            ),
    {
        let id = match ensure_known_sheet_id(sheet_id, sheet) {
            Ok(id) => id,
            Err(e) => {
                return Err(e);
            },
        };
        let (start, end) = match normalize_row_range_1based(start_row_1based, end_row_1based) {
            Ok(rows) => rows,
            Err(e) => {
                return Err(e);
            },
        };
        let changed = self.visibility.set_rows_hidden_by_sheet_id(id, start, end, hidden, source);
        if let Some(scope) = visibility_change(changed, id, start, end) {
            self.record_formula_plane_structural_change(scope);
            self.mark_data_edited();
        }
        Ok(())
    }

    /// The number of the hidden rows of a sheet as they are: it changes whenever they do. Nothing is
    /// known of an unknown sheet.
    pub fn row_visibility_version(&self, sheet_id: Option<SheetId>) -> (r: Option<u64>)
        ensures
            r == (match sheet_id {
                Some(id) => Some(version_of(self@.row_versions, id)),
                None => None,
            }),
    {
        match sheet_id {
            Some(id) => Some(self.visibility.version(id)),
            None => None,
        }
    }

    /// The number of the recalculation that comes next.
    pub fn recalc_epoch(&self) -> (n: u64)
        ensures
            n == self@.recalc_epoch,
    {
        self.recalc_epoch
    }

    /// Takes note of the end of a recalculation.
    pub fn recalculated(&mut self)
        requires
            old(self).wf(),
        ensures
            final(self).wf(),
            final(self).waits_like(old(self)),
            final(self)@ == (EngineView { recalc_epoch: next(old(self)@.recalc_epoch), ..old(self)@ }),
    {
        self.recalc_epoch = self.recalc_epoch.wrapping_add(1);
    }

    /// Whether the row with the one-based number is hidden.
    pub fn is_row_hidden(
        &self,
        sheet_id: Option<SheetId>,
        row_1based: u32,
        source: Option<RowVisibilitySource>,
    ) -> (r: Option<bool>)
        requires
            self.wf(),
        ensures
            match (sheet_id, r) {
                (Some(id), Some(b)) => row_1based > 0 && b == ({
                    let row = (row_1based - 1) as u32;
                    match source {
                        Some(s) => is_hidden(self@.hidden, id, row, s),
                        None => is_hidden(self@.hidden, id, row, RowVisibilitySource::Manual)
                            || is_hidden(self@.hidden, id, row, RowVisibilitySource::Filter),
                    }
                }),
                (Some(_), None) => row_1based == 0,
                (None, Some(_)) => false,
                (None, None) => true,
            },
    {
        self.visibility.is_row_hidden(sheet_id, row_1based, source)
    }

    /// Stages a formula text for a cell.
    pub fn stage_formula_text(&mut self, sheet: &str, row: u32, col: u32, text: String)
        requires
            old(self).wf(),
        ensures
            final(self).wf(),
            final(self)@ == old(self)@,
            final(self).waiting(sheet@) == staged(old(self).waiting(sheet@), row, col, text@),
            forall|name: Seq<char>|
                name != sheet@ ==> #[trigger] final(self).waiting(name) == old(self).waiting(name),
    {
        self.staged.stage_formula_text(sheet, row, col, text);
        proof {
            assert forall|name: Seq<char>| name != sheet@ implies #[trigger] self.waiting(name)
                == old(self).waiting(name) by {
                assert(self.staged.of(name) == old(self).staged.of(name));
            }
        }
    }

    /// Takes a staged text back.
    pub fn clear_staged_formula_text(&mut self, sheet: &str, row: u32, col: u32) -> (r: Option<String>)
        requires
            old(self).wf(),
        ensures
            final(self).wf(),
            final(self)@ == old(self)@,
            final(self).waiting(sheet@) == unstaged(old(self).waiting(sheet@), row, col),
            forall|name: Seq<char>|
                name != sheet@ ==> #[trigger] final(self).waiting(name) == old(self).waiting(name),
            match r {
                Some(t) => has_cell(old(self).waiting(sheet@), row, col) && t@ == old(
                    self,
                ).waiting(sheet@)[place_of(old(self).waiting(sheet@), row, col)].2,
                None => !has_cell(old(self).waiting(sheet@), row, col),
            },
    {
        let r = self.staged.clear_staged_formula_text(sheet, row, col);
        proof {
            assert forall|name: Seq<char>| name != sheet@ implies #[trigger] self.waiting(name)
                == old(self).waiting(name) by {
                assert(self.staged.of(name) == old(self).staged.of(name));
            }
        }
        r
    }

    /// The staged text of a cell.
    pub fn get_staged_formula_text(&self, sheet: &str, row: u32, col: u32) -> (r: Option<String>)
        requires
            self.wf(),
        ensures
            match r {
                Some(t) => has_cell(self.waiting(sheet@), row, col) && t@ == self.waiting(
                    sheet@,
                )[place_of(self.waiting(sheet@), row, col)].2,
                None => !has_cell(self.waiting(sheet@), row, col),
            },
    {
        self.staged.get_staged_formula_text(sheet, row, col)
    }

    /// Whether any formula waits.
    pub fn has_staged_formulas(&self) -> (b: bool)
        requires
            self.wf(),
        ensures
            b == exists|i: int|
                0 <= i < self.sheets().len() && (#[trigger] self.sheets()[i]).1.len() > 0,
    {
        let b = self.staged.has_staged_formulas();
        proof {
            let v = self.staged@;
            if b {
                let i = choose|i: int| 0 <= i < v.len() && (#[trigger] v[i]).1.len() > 0;
                assert(self.sheets()[i].1.len() > 0);
            } else {
                assert forall|i: int| 0 <= i < self.sheets().len() implies (
                #[trigger] self.sheets()[i]).1.len() == 0 by {
                    assert(v[i].1.len() == 0);
                }
            }
        }
        b
    }

    /// How many formulas wait; the count stops at the largest machine integer.
    pub fn staged_formula_count(&self) -> (n: usize)
        requires
            self.wf(),
        ensures
            n == stopped(entry_count(self.sheets(), self.sheets().len())),
    {
        self.staged.staged_formula_count()
    }

    /// The sheets on which formulas wait, each once.
    pub fn waiting_sheets(&self) -> (r: Vec<String>)
        requires
            self.wf(),
        ensures
            forall|name: Seq<char>| #[trigger]
                self.waiting(name).len() > 0 ==> exists|i: int|
                    0 <= i < r@.len() && (#[trigger] r@[i])@ == name,
            forall|i: int| 0 <= i < r@.len() ==> self.waiting((#[trigger] r@[i])@).len() > 0,
            forall|i: int, j: int|
                0 <= i < j < r@.len() ==> (#[trigger] r@[i])@ != (#[trigger] r@[j])@,
    {
        let r = self.staged.waiting_sheets();
        proof {
            assert forall|name: Seq<char>| #[trigger] self.waiting(name).len()
                > 0 implies exists|i: int| 0 <= i < r@.len() && (#[trigger] r@[i])@ == name by {
                assert(self.staged.of(name).len() > 0);
            }
        }
        r
    }

    /// Takes the waiting formulas of a sheet out, in the order in which they came.
    pub fn take_staged_sheet(&mut self, sheet: &str) -> (r: Vec<StagedFormulaEntry>)
        requires
            old(self).wf(),
        ensures
            final(self).wf(),
            final(self)@ == old(self)@,
            entries_view(r@) == old(self).waiting(sheet@),
            final(self).waiting(sheet@) == Seq::<EntryView>::empty(),
            forall|name: Seq<char>|
                name != sheet@ ==> #[trigger] final(self).waiting(name) == old(self).waiting(name),
    {
        let r = self.staged.take_sheet(sheet);
        proof {
            assert forall|name: Seq<char>| name != sheet@ implies #[trigger] self.waiting(name)
                == old(self).waiting(name) by {
                assert(self.staged.of(name) == old(self).staged.of(name));
            }
        }
        r
    }

    /// Forgets the waiting formulas of a sheet.
    pub fn clear_staged_formulas_for_sheet(&mut self, sheet: &str)
        requires
            old(self).wf(),
        ensures
            final(self).wf(),
            final(self)@ == old(self)@,
            final(self).waiting(sheet@) == Seq::<EntryView>::empty(),
            forall|name: Seq<char>|
                name != sheet@ ==> #[trigger] final(self).waiting(name) == old(self).waiting(name),
    {
        self.take_staged_sheet(sheet);
    }

    fn step_hidden(&mut self, ev: &ChangeEvent, undo: bool)
        requires
            old(self).wf(),
        ensures
            final(self).wf(),
            final(self).waits_like(old(self)),
            final(self).staged == old(self).staged,
            final(self)@ == (EngineView {
                hidden: hidden_step(old(self)@.hidden, *ev, undo),
                row_versions: versions_step(
                    old(self)@.hidden,
                    old(self)@.row_versions,
                    *ev,
                    undo,
                ),
                ..old(self)@
            }),
            rows_counted(old(self)@, final(self)@),
    {
        match ev {
            ChangeEvent::SetRowVisibility(e) => {
                let hidden = if undo {
                    e.old_hidden
                } else {
                    e.new_hidden
                };
                self.visibility.set_row_hidden_by_sheet_id(e.sheet_id, e.row, hidden, e.source);
            },
            ChangeEvent::RowsInserted { sheet_id, before, count } => {
                if undo {
                    self.visibility.shift_row_visibility_delete(*sheet_id, *before, *count);
                } else if self.visibility.has_room(*sheet_id, *before, *count) {
                    self.visibility.shift_row_visibility_insert(*sheet_id, *before, *count);
                }
            },
            _ => {},
        }
    }

    fn step_sidecars(&mut self, ev: &ChangeEvent, undo: bool)
        requires
            old(self).wf(),
        ensures
            final(self).wf(),
            final(self)@ == (EngineView {
                hidden: hidden_step(old(self)@.hidden, *ev, undo),
                row_versions: versions_step(
                    old(self)@.hidden,
                    old(self)@.row_versions,
                    *ev,
                    undo,
                ),
                ..old(self)@
            }),
            rows_counted(old(self)@, final(self)@),
            forall|name: Seq<char>| #[trigger]
                final(self).waiting(name) == staged_step(
                    old(self).waiting(name),
                    *ev,
                    name,
                    undo,
                ),
    {
        self.step_hidden(ev, undo);
        match ev {
            ChangeEvent::StagedFormulaCellChanged { sheet, row, col, old_text, new_text } => {
                let target = if undo {
                    old_text
                } else {
                    new_text
                };
                match target {
                    Some(t) => {
                        self.staged.stage_formula_text(sheet.as_str(), *row, *col, t.clone());
                    },
                    None => {
                        self.staged.clear_staged_formula_text(sheet.as_str(), *row, *col);
                    },
                }
                proof {
                    assert forall|name: Seq<char>| #[trigger] self.waiting(name) == staged_step(
                        old(self).waiting(name),
                        *ev,
                        name,
                        undo,
                    ) by {
                        if name != sheet@ {
                            assert(self.staged.of(name) == old(self).staged.of(name));
                        }
                    }
                }
            },
            _ => {},
        }
    }

    /// Undoes entries of the change log, once the graph has: hidden rows, waiting formulas and the
    /// storage go back from the last entry to the first, and formula spans hear of all of them.
    pub fn undo_logged(&mut self, events: &Vec<ChangeEvent>)
        requires
            old(self).wf(),
            forall|i: int| 0 <= i < events@.len() ==> event_addressable(#[trigger] events@[i]),
        ensures
            final(self).wf(),
            forall|name: Seq<char>| #[trigger]
                final(self).waiting(name) == staged_undone(
                    old(self).waiting(name),
                    events@,
                    name,
                    0,
                ),
            exists|s: StoreView|
                {
                    &&& #[trigger] between(s)
                    &&& store_undone(old(self)@.store, events@, 0, s)
                    &&& final(self)@ == (EngineView {
                        store: s,
                        hidden: hidden_undone(old(self)@.hidden, events@, 0),
                        row_versions: versions_undone(
                            old(self)@.hidden,
                            old(self)@.row_versions,
                            events@,
                            0,
                        ),
                        changes: heard_all(
                            old(self)@.changes,
                            old(self)@.mode,
                            events@,
                            events@.len(),
                        ),
                        ..old(self)@
                    })
                },
            rows_counted(old(self)@, final(self)@),
    {
        let ghost v0 = self@;
        let mut i: usize = events.len();
        while i > 0
            invariant
                self.wf(),
                v0 == old(self)@,
                i <= events@.len(),
                self@ == (EngineView {
                    hidden: hidden_undone(v0.hidden, events@, i as nat),
                    row_versions: versions_undone(
                        v0.hidden,
                        v0.row_versions,
                        events@,
                        i as nat,
                    ),
                    ..v0
                }),
                rows_counted(v0, self@),
                forall|name: Seq<char>| #[trigger]
                    self.waiting(name) == staged_undone(
                        old(self).waiting(name),
                        events@,
                        name,
                        i as nat,
                    ),
            decreases i,
        {
            i = i - 1;
            let ghost prior = self@;
            self.step_sidecars(&events[i], true);
            proof {
                lemma_rows_counted(v0, prior, self@);
            }
        }
        let ghost e1 = *self;
        self.mirror_back(events);
        let ghost e2 = *self;
        self.record_events(events);
        proof {
            assert(between(self@.store));
            assert forall|name: Seq<char>| #[trigger] self.waiting(name) == staged_undone(
                old(self).waiting(name),
                events@,
                name,
                0,
            ) by {
                assert(self.waiting(name) == e2.waiting(name));
                assert(e2.waiting(name) == e1.waiting(name));
            }
        }
    }

    /// Does entries of the change log over again, once the graph has.
    pub fn redo_logged(&mut self, events: &Vec<ChangeEvent>)
        requires
            old(self).wf(),
            forall|i: int| 0 <= i < events@.len() ==> event_addressable(#[trigger] events@[i]),
        ensures
            final(self).wf(),
            forall|name: Seq<char>| #[trigger]
                final(self).waiting(name) == staged_redone(
                    old(self).waiting(name),
                    events@,
                    name,
                    events@.len(),
                ),
            exists|s: StoreView|
                {
                    &&& #[trigger] between(s)
                    &&& store_redone(old(self)@.store, events@, events@.len(), s)
                    &&& final(self)@ == (EngineView {
                        store: s,
                        hidden: hidden_redone(old(self)@.hidden, events@, events@.len()),
                        row_versions: versions_redone(
                            old(self)@.hidden,
                            old(self)@.row_versions,
                            events@,
                            events@.len(),
                        ),
                        changes: heard_all(
                            old(self)@.changes,
                            old(self)@.mode,
                            events@,
                            events@.len(),
                        ),
                        ..old(self)@
                    })
                },
            rows_counted(old(self)@, final(self)@),
    {
        let ghost v0 = self@;
        let mut i: usize = 0;
        while i < events.len()
            invariant
                self.wf(),
                v0 == old(self)@,
                i <= events@.len(),
                self@ == (EngineView {
                    hidden: hidden_redone(v0.hidden, events@, i as nat),
                    row_versions: versions_redone(
                        v0.hidden,
                        v0.row_versions,
                        events@,
                        i as nat,
                    ),
                    ..v0
                }),
                rows_counted(v0, self@),
                forall|name: Seq<char>| #[trigger]
                    self.waiting(name) == staged_redone(
                        old(self).waiting(name),
                        events@,
                        name,
                        i as nat,
                    ),
            decreases events@.len() - i,
        {
            let ghost prior = self@;
            self.step_sidecars(&events[i], false);
            proof {
                lemma_rows_counted(v0, prior, self@);
            }
            i = i + 1;
        }
        let ghost e1 = *self;
        self.mirror_forward(events);
        let ghost e2 = *self;
        self.record_events(events);
        proof {
            assert(between(self@.store));
            assert forall|name: Seq<char>| #[trigger] self.waiting(name) == staged_redone(
                old(self).waiting(name),
                events@,
                name,
                events@.len(),
            ) by {
                assert(self.waiting(name) == e2.waiting(name));
                assert(e2.waiting(name) == e1.waiting(name));
            }
        }
    }

    fn step_visibility(&mut self, events: &Vec<ChangeEvent>, undo: bool)
        requires
            old(self).wf(),
        ensures
            final(self).wf(),
            final(self).waits_like(old(self)),
            final(self)@ == (EngineView {
                hidden: if undo {
                    hidden_undone(old(self)@.hidden, events@, 0)
                } else {
                    hidden_redone(old(self)@.hidden, events@, events@.len())
                },
                row_versions: if undo {
                    versions_undone(old(self)@.hidden, old(self)@.row_versions, events@, 0)
                } else {
                    versions_redone(
                        old(self)@.hidden,
                        old(self)@.row_versions,
                        events@,
                        events@.len(),
                    )
                },
                ..old(self)@
            }),
            rows_counted(old(self)@, final(self)@),
    {
        let ghost v0 = self@;
        let ghost st = self.staged;
        if undo {
            let mut i: usize = events.len();
            while i > 0
                invariant
                    self.wf(),
                    i <= events@.len(),
                    self.staged == st,
                    self@ == (EngineView {
                        hidden: hidden_undone(v0.hidden, events@, i as nat),
                        row_versions: versions_undone(
                            v0.hidden,
                            v0.row_versions,
                            events@,
                            i as nat,
                        ),
                        ..v0
                    }),
                    rows_counted(v0, self@),
                decreases i,
            {
                i = i - 1;
                let ghost prior = self@;
                self.step_hidden(&events[i], true);
                proof {
                    lemma_rows_counted(v0, prior, self@);
                }
            }
        } else {
            let mut i: usize = 0;
            while i < events.len()
                invariant
                    self.wf(),
                    i <= events@.len(),
                    self.staged == st,
                    self@ == (EngineView {
                        hidden: hidden_redone(v0.hidden, events@, i as nat),
                        row_versions: versions_redone(
                            v0.hidden,
                            v0.row_versions,
                            events@,
                            i as nat,
                        ),
                        ..v0
                    }),
                    rows_counted(v0, self@),
                decreases events@.len() - i,
            {
                let ghost prior = self@;
                self.step_hidden(&events[i], false);
                proof {
                    lemma_rows_counted(v0, prior, self@);
                }
                i = i + 1;
            }
        }
    }

    /// Takes entries of the change log back, once the graph has: hidden rows and the storage go back
    /// from the last entry to the first.
    pub fn rollback_from_change_events(&mut self, events: &Vec<ChangeEvent>)
        requires
            old(self).wf(),
            forall|i: int| 0 <= i < events@.len() ==> event_addressable(#[trigger] events@[i]),
        ensures
            final(self).wf(),
            final(self).waits_like(old(self)),
            exists|s: StoreView|
                {
                    &&& #[trigger] between(s)
                    &&& store_undone(old(self)@.store, events@, 0, s)
                    &&& final(self)@ == (EngineView {
                        store: s,
                        hidden: hidden_undone(old(self)@.hidden, events@, 0),
                        row_versions: versions_undone(
                            old(self)@.hidden,
                            old(self)@.row_versions,
                            events@,
                            0,
                        ),
                        ..old(self)@
                    })
                },
            rows_counted(old(self)@, final(self)@),
    {
        self.step_visibility(events, true);
        self.mirror_back(events);
        assert(between(self@.store));
    }

    /// Brings the storage forward by the entries of the change log.
    fn mirror_forward(&mut self, events: &Vec<ChangeEvent>)
        requires
            old(self).wf(),
            forall|i: int| 0 <= i < events@.len() ==> event_addressable(#[trigger] events@[i]),
        ensures
            final(self).wf(),
            final(self).waits_like(old(self)),
            store_redone(old(self)@.store, events@, events@.len(), final(self)@.store),
            final(self)@ == (EngineView { store: final(self)@.store, ..old(self)@ }),
    {
        let ghost v0 = self@;
        let ghost st = self.staged;
        let mut k: usize = 0;
        assert(store_redone(v0.store, events@, 0, self.store@));
        while k < events.len()
            invariant
                self.wf(),
                forall|i: int| 0 <= i < events@.len() ==> event_addressable(#[trigger] events@[i]),
                k <= events@.len(),
                self@ == (EngineView { store: self.store@, ..v0 }),
                self.staged == st,
                store_redone(v0.store, events@, k as nat, self.store@),
            decreases events@.len() - k,
        {
            let ghost mid = self.store@;
            assert(event_addressable(events@[k as int]));
            mirror_forward_change_to_arrow(&mut self.store, &events[k]);
            assert(between(mid));
            assert(store_redone(v0.store, events@, (k + 1) as nat, self.store@));
            k = k + 1;
        }
    }

    /// Follows an edit of the graph by the entries that it left in the change log: the storage is
    /// brought forward by them, and formula spans hear of them.
    pub fn edit_with_logger(&mut self, events: &Vec<ChangeEvent>)
        requires
            old(self).wf(),
            forall|i: int| 0 <= i < events@.len() ==> event_addressable(#[trigger] events@[i]),
        ensures
            final(self).wf(),
            final(self).waits_like(old(self)),
            store_redone(old(self)@.store, events@, events@.len(), final(self)@.store),
            final(self)@ == (EngineView {
                store: final(self)@.store,
                changes: heard_all(
                    old(self)@.changes,
                    old(self)@.mode,
                    events@,
                    events@.len(),
                ),
                ..old(self)@
            }),
    {
        self.mirror_forward(events);
        self.record_events(events);
    }

    /// Every hidden row has the same mark, under its key.
    pub proof fn hidden_rows_are_marked(&self)
        requires
            self.wf(),
        ensures
            is_marked(self@.hidden),
            keyed_by_cells(self@.hidden),
    {
        self.visibility.rows_are_marked();
    }

    /// The computed value of a cell with a one-based address.
    pub fn read_computed_overlay_cell(&self, sheet_id: SheetId, row: u32, col: u32) -> (r: Option<
        LiteralValue,
    >)
        requires
            self.wf(),
        ensures
            is_computed(self@.store, at_1_based(sheet_id, row, col), r),
    {
        self.store.read_computed_overlay_cell(sheet_id, row, col)
    }

    /// Inserts lines into the storage inside an action; hidden rows move with their rows.
    pub(crate) fn insert_in_action(&mut self, sheet_id: SheetId, axis: Axis, before: u32, count: u32)
        requires
            old(self).wf(),
            store_has_room(old(self)@.store, sheet_id, axis, before, count),
            axis == Axis::Rows ==> has_room(old(self)@.hidden, sheet_id, axis, before, count),
        ensures
            final(self).wf(),
            final(self).waits_like(old(self)),
            lines_inserted(
                old(self)@.store,
                sheet_id,
                axis,
                before,
                count,
                final(self)@.store,
            ),
            axis == Axis::Rows ==> is_inserted(
                old(self)@.hidden,
                final(self)@.hidden,
                sheet_id,
                axis,
                before,
                count,
            ),
            axis == Axis::Rows ==> final(self)@.hidden == with_new_rows(
                old(self)@.hidden,
                sheet_id,
                before,
                count,
            ),
            axis == Axis::Columns ==> final(self)@.hidden == old(self)@.hidden,
            final(self)@ == (EngineView {
                store: final(self)@.store,
                hidden: final(self)@.hidden,
                row_versions: if axis == Axis::Rows {
                    counted_up(old(self)@.row_versions, sheet_id)
                } else {
                    old(self)@.row_versions
                },
                ..old(self)@
            }),
            rows_counted(old(self)@, final(self)@),
    {
        self.store.ensure_arrow_sheet(sheet_id);
        self.store.insert_lines(sheet_id, axis, before, count);
        if axis == Axis::Rows {
            self.visibility.shift_row_visibility_insert(sheet_id, before, count);
        }
    }

    /// Hides or shows a row inside an action. The answer tells whether that changed anything.
    pub(crate) fn hide_in_action(
        &mut self,
        sheet_id: SheetId,
        row: u32,
        hidden: bool,
        source: RowVisibilitySource,
    ) -> (changed: bool)
        requires
            old(self).wf(),
        ensures
            final(self).wf(),
            final(self).waits_like(old(self)),
            changed == (is_hidden(old(self)@.hidden, sheet_id, row, source) != hidden),
            final(self)@ == (EngineView {
                hidden: if changed {
                    with_row(old(self)@.hidden, sheet_id, row, source, hidden)
                } else {
                    old(self)@.hidden
                },
                row_versions: if changed {
                    counted_up(old(self)@.row_versions, sheet_id)
                } else {
                    old(self)@.row_versions
                },
                ..old(self)@
            }),
            rows_counted(old(self)@, final(self)@),
    {
        if self.visibility.row_hidden(sheet_id, row, Some(source)) == hidden {
            return false;
        }
        self.visibility.set_row_hidden_by_sheet_id(sheet_id, row, hidden, source)
    }

    /// Takes the storage back from the last entry of the change log to the first.
    fn mirror_back(&mut self, events: &Vec<ChangeEvent>)
        requires
            old(self).wf(),
            forall|i: int| 0 <= i < events@.len() ==> event_addressable(#[trigger] events@[i]),
        ensures
            final(self).wf(),
            final(self).waits_like(old(self)),
            store_undone(old(self)@.store, events@, 0, final(self)@.store),
            final(self)@ == (EngineView { store: final(self)@.store, ..old(self)@ }),
    {
        let ghost v0 = self@;
        let ghost st = self.staged;
        let mut k: usize = events.len();
        assert(store_undone(v0.store, events@, k as nat, self.store@));
        while k > 0
            invariant
                self.wf(),
                forall|i: int| 0 <= i < events@.len() ==> event_addressable(#[trigger] events@[i]),
                k <= events@.len(),
                self@ == (EngineView { store: self.store@, ..v0 }),
                self.staged == st,
                store_undone(v0.store, events@, k as nat, self.store@),
            decreases k,
        {
            k = k - 1;
            let ghost mid = self.store@;
            assert(event_addressable(events@[k as int]));
            mirror_inverse_change_to_arrow(&mut self.store, &events[k]);
            assert(between(mid));
            assert(store_undone(v0.store, events@, k as nat, self.store@));
        }
    }

    /// Undoes the last action from its journal, once the graph has: hidden rows by the entries of
    /// the change log, the storage by the changes that were taken down. The answer is how many of
    /// these were undone.
    pub fn undo_action(&mut self, events: &Vec<ChangeEvent>, ops: &Vec<ArrowOp>) -> (n: usize)
        requires
            old(self).wf(),
            forall|i: int| 0 <= i < ops@.len() ==> op_addressable(#[trigger] ops@[i]),
        ensures
            final(self).wf(),
            final(self).waits_like(old(self)),
            n == ops@.len(),
            is_replayed(old(self)@, events@, ops@, true, n, final(self)@),
            forall|h: HiddenRows| #[trigger]
                are_followed(h, events@, old(self)@.hidden) && is_marked(h) && keyed_by_cells(h)
                    ==> final(self)@.hidden == h,
    {
        let ghost before = self@.hidden;
        let n = self.replay_action(events, ops, true);
        proof {
            lemma_hidden_rows_come_back(before, events@);
        }
        n
    }

    /// Does the last undone action over again, once the graph has. The answer is how many changes
    /// of the storage were made; it stops at one that cannot be.
    pub fn redo_action(&mut self, events: &Vec<ChangeEvent>, ops: &Vec<ArrowOp>) -> (n: usize)
        requires
            old(self).wf(),
            forall|i: int| 0 <= i < ops@.len() ==> op_addressable(#[trigger] ops@[i]),
        ensures
            final(self).wf(),
            final(self).waits_like(old(self)),
            n <= ops@.len(),
            n < ops@.len() ==> !is_possible(final(self)@.store, ops@[n as int], false),
            is_replayed(old(self)@, events@, ops@, false, n, final(self)@),
    {
        self.replay_action(events, ops, false)
    }

    fn replay_action(&mut self, events: &Vec<ChangeEvent>, ops: &Vec<ArrowOp>, undo: bool) -> (n: usize)
        requires
            old(self).wf(),
            forall|i: int| 0 <= i < ops@.len() ==> op_addressable(#[trigger] ops@[i]),
        ensures
            final(self).wf(),
            final(self).waits_like(old(self)),
            n <= ops@.len(),
            n < ops@.len() ==> !is_possible(
                final(self)@.store,
                nth_op(ops@, undo, n as int),
                undo,
            ),
            is_replayed(old(self)@, events@, ops@, undo, n, final(self)@),
    {
        self.step_visibility(events, undo);
        let n = apply_arrow_undo_batch(&mut self.store, ops, undo);
        if events.len() > 0 || ops.len() > 0 {
            self.record_events(events);
            self.mark_data_edited();
        }
        assert(between(self@.store));
        n
    }

    /// Begins an action; there is only one at a time.
    pub fn begin_action(&mut self, atomic: bool) -> (r: Result<(), EditorError>)
        requires
            old(self).wf(),
        ensures
            final(self).wf(),
            final(self).waits_like(old(self)),
            if old(self)@.action_active {
                &&& r matches Err(e) && e@ == (EditorErrorView::TransactionFailed {
                    reason: if atomic {
                        "Nested Engine::action calls are not supported (deterministic rule)"@
                    } else {
                        "Nested Engine::action calls are not supported (ticket 614: commit-only surface)"@
                    },
                })
                &&& final(self)@ == old(self)@
            } else {
                r is Ok && final(self)@ == (EngineView { action_active: true, ..old(self)@ })
            },
    {
        if self.action_active {
            let reason = if atomic {
                "Nested Engine::action calls are not supported (deterministic rule)"
            } else {
                "Nested Engine::action calls are not supported (ticket 614: commit-only surface)"
            };
            return Err(EditorError::TransactionFailed { reason: reason.to_string() });
        }
        self.action_active = true;
        Ok(())
    }

    /// Ends the action.
    pub fn end_action(&mut self)
        requires
            old(self).wf(),
        ensures
            final(self).wf(),
            final(self).waits_like(old(self)),
            final(self)@ == (EngineView { action_active: false, ..old(self)@ }),
    {
        self.action_active = false;
    }

    /// Commits an atomic action: formula spans and caches hear of it where its journal is not empty.
    pub fn commit_action(&mut self, events: &Vec<ChangeEvent>, ops: &Vec<ArrowOp>)
        requires
            old(self).wf(),
        ensures
            final(self).wf(),
            final(self).waits_like(old(self)),
            final(self)@ == (if events@.len() == 0 && ops@.len() == 0 {
                old(self)@
            } else {
                (EngineView {
                    changes: heard_all(
                        old(self)@.changes,
                        old(self)@.mode,
                        events@,
                        events@.len(),
                    ),
                    ..old(self)@
                }).data_edited()
            }),
    {
        if events.len() > 0 || ops.len() > 0 {
            self.record_events(events);
            self.mark_data_edited();
        }
    }

    /// Rolls an atomic action back, once the graph has: hidden rows and the storage go back, and
    /// formula spans hear of the entries of the change log. The answer is how many changes of the
    /// storage were undone.
    pub fn rollback_from_action_journal(&mut self, events: &Vec<ChangeEvent>, ops: &Vec<ArrowOp>) -> (n:
        usize)
        requires
            old(self).wf(),
            forall|i: int| 0 <= i < ops@.len() ==> op_addressable(#[trigger] ops@[i]),
        ensures
            final(self).wf(),
            final(self).waits_like(old(self)),
            n == ops@.len(),
            exists|s: StoreView|
                {
                    &&& #[trigger] between(s)
                    &&& batch_done(old(self)@.store, ops@, true, n as nat, s)
                    &&& final(self)@ == (EngineView {
                        store: s,
                        hidden: hidden_undone(old(self)@.hidden, events@, 0),
                        row_versions: versions_undone(
                            old(self)@.hidden,
                            old(self)@.row_versions,
                            events@,
                            0,
                        ),
                        changes: heard_all(
                            old(self)@.changes,
                            old(self)@.mode,
                            events@,
                            events@.len(),
                        ),
                        ..old(self)@
                    })
                },
            rows_counted(old(self)@, final(self)@),
            forall|h: HiddenRows| #[trigger]
                are_followed(h, events@, old(self)@.hidden) && is_marked(h) && keyed_by_cells(h)
                    ==> final(self)@.hidden == h,
    {
        proof {
            lemma_hidden_rows_come_back(self@.hidden, events@);
        }
        self.step_visibility(events, true);
        let n = apply_arrow_undo_batch(&mut self.store, ops, true);
        self.record_events(events);
        assert(between(self@.store));
        n
    }
}

/// Numbers that follow the hidden rows twice follow them all the way.
pub proof fn lemma_rows_counted(a: EngineView, b: EngineView, c: EngineView)
    requires
        rows_counted(a, b),
        rows_counted(b, c),
    ensures
        rows_counted(a, c),
{
    lemma_counted(
        a.hidden,
        a.row_versions,
        b.hidden,
        b.row_versions,
        c.hidden,
        c.row_versions,
    );
}

/// Undoing entries that were taken down as they happened gives back the hidden rows before them.
proof fn lemma_hidden_rows_come_back(after: HiddenRows, events: Seq<ChangeEvent>)
    ensures
        forall|h: HiddenRows| #[trigger]
            are_followed(h, events, after) && is_marked(h) && keyed_by_cells(h) ==> hidden_undone(
                after,
                events,
                0,
            ) == h,
{
    assert forall|h: HiddenRows| #[trigger]
        are_followed(h, events, after) && is_marked(h) && keyed_by_cells(h) implies hidden_undone(
        after,
        events,
        0,
    ) == h by {
        a_rolled_back_action_leaves_the_hidden_rows(h, events, after);
    }
}

/// Whether `after` is the workbook with an action undone or done over again, as far as its first `n`
/// changes of the storage go. Formula spans and caches hear of it where the journal is not empty.
pub open spec fn is_replayed(
    v: EngineView,
    events: Seq<ChangeEvent>,
    ops: Seq<ArrowOp>,
    undo: bool,
    n: usize,
    after: EngineView,
) -> bool {
    exists|s: StoreView|
        {
            &&& #[trigger] between(s)
            &&& batch_done(v.store, ops, undo, n as nat, s)
            &&& rows_counted(v, after)
            &&& after == ({
                let moved = EngineView {
                    store: s,
                    hidden: if undo {
                        hidden_undone(v.hidden, events, 0)
                    } else {
                        hidden_redone(v.hidden, events, events.len())
                    },
                    row_versions: if undo {
                        versions_undone(v.hidden, v.row_versions, events, 0)
                    } else {
                        versions_redone(v.hidden, v.row_versions, events, events.len())
                    },
                    ..v
                };
                if events.len() == 0 && ops.len() == 0 {
                    moved
                } else {
                    (EngineView {
                        changes: heard_all(moved.changes, moved.mode, events, events.len()),
                        ..moved
                    }).data_edited()
                }
            })
        }
}

/// Whether the answer and the workbook after it are those of a definition that changed: a refusal of
/// the graph changes nothing.
pub open spec fn is_definition(
    v: EngineView,
    rewires: bool,
    graph: Result<(), ExcelError>,
    r: Result<(), ExcelError>,
    after: EngineView,
) -> bool {
    match graph {
        Ok(()) => {
            let told = v.hearing(Some(StructuralScope::AllSheets));
            r is Ok && after == (if rewires {
                told.topology_edited()
            } else {
                told
            })
        },
        Err(e) => r == Err::<(), ExcelError>(e) && after == v,
    }
}

/// Whether the answer and the workbook after it are those of hiding or showing a row.
pub open spec fn is_row_hiding(
    v: EngineView,
    sheet: Seq<char>,
    sheet_id: Option<SheetId>,
    row_1based: u32,
    hidden: bool,
    source: RowVisibilitySource,
    r: Result<(), EditorError>,
    after: EngineView,
) -> bool {
    match sheet_id {
        None => r matches Err(e) && e@ == unknown_sheet(sheet) && after == v,
        Some(id) => if row_1based == 0 {
            &&& r matches Err(e) && e@ == (EditorErrorView::OutOfBounds { row: 0, col: 0 })
            &&& after == v
        } else {
            let row = (row_1based - 1) as u32;
            let set = EngineView {
                hidden: with_row(v.hidden, id, row, source, hidden),
                row_versions: if is_hidden(v.hidden, id, row, source) == hidden {
                    v.row_versions
                } else {
                    counted_up(v.row_versions, id)
                },
                ..v
            };
            &&& r is Ok
            &&& rows_counted(v, after)
            &&& after == (if is_hidden(v.hidden, id, row, source)
                == hidden {
                set
            } else {
                set.hearing(
                    Some(
                        StructuralScope::Region(
                            Region {
                                sheet_id: id,
                                rows: AxisRange::Point(row),
                                cols: AxisRange::All,
                            },
                        ),
                    ),
                ).data_edited()
            })
        },
    }
}

/// Whether the answer and the workbook after it are those of hiding or showing rows.
pub open spec fn is_rows_hiding(
    v: EngineView,
    sheet: Seq<char>,
    sheet_id: Option<SheetId>,
    start_row_1based: u32,
    end_row_1based: u32,
    hidden: bool,
    source: RowVisibilitySource,
    r: Result<(), EditorError>,
    after: EngineView,
) -> bool {
    match sheet_id {
        None => r matches Err(e) && e@ == unknown_sheet(sheet) && after == v,
        Some(id) => if start_row_1based == 0 || end_row_1based == 0 {
            &&& r matches Err(e) && e@ == (EditorErrorView::OutOfBounds { row: 0, col: 0 })
            &&& after == v
        } else if start_row_1based > end_row_1based {
            &&& r matches Err(e) && e@ == (EditorErrorView::TransactionFailed {
                reason: "Row range start is greater than end"@,
            })
            &&& after == v
        } else {
            let start = (start_row_1based - 1) as u32;
            let end = (end_row_1based - 1) as u32;
            let set = EngineView {
                hidden: with_rows(
                    v.hidden,
                    id,
                    start,
                    source,
                    hidden,
                    (end - start + 1) as nat,
                ),
                row_versions: versions_with_rows(
                    v.hidden,
                    v.row_versions,
                    id,
                    start,
                    source,
                    hidden,
                    (end - start + 1) as nat,
                ),
                ..v
            };
            let changed = exists|row: u32|
                start <= row <= end && #[trigger] is_hidden(
                    v.hidden,
                    id,
                    row,
                    source,
                ) != hidden;
            &&& r is Ok
            &&& rows_counted(v, after)
            &&& after == (if !changed {
                set
            } else if start == end {
                set.hearing(
                    Some(
                        StructuralScope::Region(
                            Region {
                                sheet_id: id,
                                rows: AxisRange::Point(start),
                                cols: AxisRange::All,
                            },
                        ),
                    ),
                ).data_edited()
            } else {
                set.hearing(Some(StructuralScope::Sheet(id))).data_edited()
            })
        },
    }
}

/// Whether the answer is the computed value of the cell.
pub open spec fn is_computed(s: StoreView, cell: CellRef, r: Option<LiteralValue>) -> bool {
    let k = spec_cell_key(cell);
    match r {
        Some(v) => s.computed.contains_key(k) && v@ == literal_of(s.computed[k]),
        None => !s.computed.contains_key(k),
    }
}

/// Whether the answer is what the cell shows; nothing where it is empty.
pub open spec fn shows(s: StoreView, cell: CellRef, r: Option<LiteralValue>) -> bool {
    match r {
        Some(v) => v@ == read(s, cell) && v@ != ValueView::Empty,
        None => read(s, cell) == ValueView::Empty,
    }
}

/// The structural edit of a sheet that begins at the line with the one-based number.
pub open spec fn line_op(
    sheet_id: Option<SheetId>,
    start: u32,
    count: u32,
    axis: Axis,
    insert: bool,
) -> Option<StructuralOp> {
    let first = crate::used_bounds::zero_based(start);
    match sheet_id {
        Some(id) => Some(
            match axis {
                Axis::Rows => if insert {
                    StructuralOp::InsertRows { sheet_id: id, before: first, count }
                } else {
                    StructuralOp::DeleteRows { sheet_id: id, start: first, count }
                },
                Axis::Columns => if insert {
                    StructuralOp::InsertColumns { sheet_id: id, before: first, count }
                } else {
                    StructuralOp::DeleteColumns { sheet_id: id, start: first, count }
                },
            },
        ),
        None => None,
    }
}

/// Whether a structural edit that the graph has taken moves nothing beyond the last line.
pub open spec fn lines_fit(
    v: EngineView,
    sheet_id: Option<SheetId>,
    start: u32,
    count: u32,
    taken: bool,
    axis: Axis,
    insert: bool,
) -> bool {
    line_op(sheet_id, start, count, axis, insert) matches Some(op) ==> taken ==> op_has_room(v, op)
}

/// Whether the answer and the workbook after it are those of a structural edit: an unknown sheet and
/// a refusal of the graph change nothing.
pub open spec fn is_line_edit(
    v: EngineView,
    sheet: Seq<char>,
    sheet_id: Option<SheetId>,
    op: Option<StructuralOp>,
    graph: Result<(), EditorError>,
    r: Result<(), EditorError>,
    after: EngineView,
) -> bool {
    match op {
        None => r matches Err(e) && e@ == unknown_sheet(sheet) && after == v,
        Some(op) => match graph {
            Err(e) => r == Err::<(), EditorError>(e) && after == v,
            Ok(()) => r is Ok && lines_edited(v, op, after),
        },
    }
}

/// Whether `after` is the workbook with the structural edit made.
pub open spec fn lines_edited(v: EngineView, op: StructuralOp, after: EngineView) -> bool {
    exists|s: StoreView, h: HiddenRows|
        {
            &&& #[trigger] store_moved(v.store, op, s)
            &&& #[trigger] hidden_moved(v.hidden, op, h)
            &&& rows_counted(v, after)
            &&& after == (EngineView {
                store: s,
                hidden: h,
                row_versions: versions_moved(v.row_versions, op),
                ..v
            }).hearing(Some(StructuralScope::Region(affected_region(op)))).topology_edited()
        }
}

/// What formula spans hear of edits of the first `n` cells with one-based addresses.
pub open spec fn heard_cells(
    changes: Seq<PlaneChange>,
    mode: FormulaPlaneMode,
    sheet_id: SheetId,
    cells: Seq<(u32, u32)>,
    n: nat,
) -> Seq<PlaneChange>
    decreases n,
{
    if n == 0 {
        changes
    } else {
        heard(
            heard_cells(changes, mode, sheet_id, cells, (n - 1) as nat),
            mode,
            Some(
                StructuralScope::Cell(at_1_based(sheet_id, cells[n - 1].0, cells[n - 1].1)),
            ),
        )
    }
}

/// What an edit inside an action is.
#[derive(Clone, Copy, Debug, PartialEq, Eq, Structural)]
pub enum ActionEdit {
    DeleteRows,
    DeleteColumns,
    Other,
}

/// Whether an edit is allowed inside an action: an atomic one refuses what it could not take back.
pub fn check_action_edit(atomic_policy: bool, edit: ActionEdit) -> (r: Option<&'static str>)
    ensures
        (match r {
            Some(reason) => Some(reason@),
            None => None,
        }) == (if !atomic_policy {
            None
        } else {
            match edit {
                ActionEdit::DeleteRows => Some(
                    "delete_rows is not supported inside atomic actions (conservative rollback policy)"@,
                ),
                ActionEdit::DeleteColumns => Some(
                    "delete_columns is not supported inside atomic actions (conservative rollback policy)"@,
                ),
                ActionEdit::Other => None,
            }
        }),
{
    if !atomic_policy {
        return None;
    }
    match edit {
        ActionEdit::DeleteRows => Some(
            "delete_rows is not supported inside atomic actions (conservative rollback policy)",
        ),
        ActionEdit::DeleteColumns => Some(
            "delete_columns is not supported inside atomic actions (conservative rollback policy)",
        ),
        ActionEdit::Other => None,
    }
}

/// What an edit inside an atomic action leaves in the journal about the user edit of its cell: what
/// was there, which is nothing where the cell had a formula, and what is there now, which is nothing
/// where it has one.
pub fn journal_delta(
    cell: CellRef,
    old_value: &Option<LiteralValue>,
    old_formula: bool,
    new_value: &Option<LiteralValue>,
) -> (op: ArrowOp)
    ensures
        op matches ArrowOp::SetDeltaCell { cell: c, old, new } && c == cell && (match old {
            Some(v) => !old_formula && v@ == (match *old_value {
                Some(x) => x@,
                None => ValueView::Empty,
            }),
            None => old_formula,
        }) && (match (new, *new_value) {
            (Some(v), Some(x)) => v@ == x@,
            (None, None) => true,
            _ => false,
        }),
{
    let old = if old_formula {
        None
    } else {
        match old_value {
            Some(v) => Some(v.duplicate()),
            None => Some(LiteralValue::Empty),
        }
    };
    let new = match new_value {
        Some(v) => Some(v.duplicate()),
        None => None,
    };
    ArrowOp::SetDeltaCell { cell, old, new }
}

/// An edit of data or dependencies makes what was found for the old data unfindable: the number of
/// the data is another one.
pub proof fn edits_renumber_the_data(v: EngineView)
    ensures
        v.data_edited().snapshot_id != v.snapshot_id,
        v.topology_edited().snapshot_id != v.snapshot_id,
        v.topology_edited().topology_epoch != v.topology_epoch,
        v.topology_edited().kept is None,
        v.data_edited().kept == v.kept,
{
}

/// What is in a cell: its formula and what it shows. A cell without a vertex and without the formula
/// of a span is nothing unless it shows something.
pub fn get_cell<A>(has_vertex: bool, formula: Option<A>, value: Option<LiteralValue>) -> (r: Option<
    (Option<A>, Option<LiteralValue>),
>)
    ensures
        r == (if has_vertex || formula is Some || value is Some {
            Some((formula, value))
        } else {
            None
        }),
{
    if has_vertex || formula.is_some() || value.is_some() {
        Some((formula, value))
    } else {
        None
    }
}

/// Whether the spans that read the cell learn of the change.
pub open spec fn tells_of(change: PlaneChange, cell: CellRef) -> bool {
    match change {
        PlaneChange::Region(r) => r.has_cell(cell),
        PlaneChange::RemovedSheet(_) => true,
        PlaneChange::AllDirty => true,
    }
}

/// Spans hear of every change: of a cell, of the cells of a region, of each cell of a sheet, or of
/// everything. Where there are no spans, nothing is told.
pub proof fn spans_hear_of_every_change(
    changes: Seq<PlaneChange>,
    mode: FormulaPlaneMode,
    scope: StructuralScope,
    cell: CellRef,
)
    ensures
        mode == FormulaPlaneMode::Off ==> heard(changes, mode, Some(scope)) == changes,
        heard(changes, mode, None) == changes,
        mode != FormulaPlaneMode::Off ==> {
            let after = heard(changes, mode, Some(scope));
            &&& after.len() == changes.len() + 1
            &&& after.drop_last() == changes
            &&& scope matches StructuralScope::Cell(c) ==> (tells_of(after.last(), cell) <==> cell == c)
            &&& scope matches StructuralScope::Region(r) ==> (tells_of(after.last(), cell) <==> r.has_cell(
                cell,
            ))
            &&& scope matches StructuralScope::Sheet(id) ==> (tells_of(after.last(), cell)
                <==> cell.sheet_id == id)
            &&& scope matches StructuralScope::RemovedSheet(id) ==> after.last()
                == PlaneChange::RemovedSheet(id)
            &&& scope is AllSheets ==> after.last() == PlaneChange::AllDirty
        },
{
    if mode != FormulaPlaneMode::Off {
        assert(heard(changes, mode, Some(scope)).drop_last() =~= changes);
    }
}

/// What a journaled change is told as: the cell that was set, the cells of the array, the row that was
/// hidden or shown, and everything where names or vertices were rewired.
pub proof fn journaled_changes_tell_of_their_cells(ev: ChangeEvent, cell: CellRef)
    ensures
        ev matches ChangeEvent::SetValue { cell: c, .. } ==> event_scope(ev) == Some(
            StructuralScope::Cell(c),
        ),
        ev matches ChangeEvent::SetFormula { cell: c, .. } ==> event_scope(ev) == Some(
            StructuralScope::Cell(c),
        ),
        ev matches ChangeEvent::SetRowVisibility(e) ==> (event_scope(ev) matches Some(
            StructuralScope::Region(r),
        ) && (r.has_cell(cell) <==> cell.sheet_id == e.sheet_id && cell.row == e.row)),
        ev matches ChangeEvent::SpillCommitted { after, .. } ==> event_scope(ev) == scope_of_cells(
            after.target_cells@,
        ),
        ev matches ChangeEvent::SpillCleared { before } ==> event_scope(ev) == scope_of_cells(
            before.target_cells@,
        ),
        ev is Rewired ==> event_scope(ev) == Some(StructuralScope::AllSheets),
{
}

/// What was told of is kept, and each journaled change with a scope is told of once.
pub proof fn each_journaled_change_is_told(
    changes: Seq<PlaneChange>,
    mode: FormulaPlaneMode,
    events: Seq<ChangeEvent>,
    n: nat,
    i: int,
)
    requires
        mode != FormulaPlaneMode::Off,
        n <= events.len(),
        0 <= i < n,
        event_scope(events[i]) is Some,
    ensures
        exists|k: int|
            changes.len() <= k < heard_all(changes, mode, events, n).len() && #[trigger] heard_all(
                changes,
                mode,
                events,
                n,
            )[k] == plane_change(event_scope(events[i])->Some_0),
        heard_all(changes, mode, events, n).len() >= changes.len(),
    decreases n,
{
    let m = (n - 1) as nat;
    let before = heard_all(changes, mode, events, m);
    let after = heard_all(changes, mode, events, n);
    lemma_heard_grows(changes, mode, events, m);
    if i == m {
        assert(after[before.len() as int] == plane_change(event_scope(events[i])->Some_0));
    } else {
        each_journaled_change_is_told(changes, mode, events, m, i);
        let k = choose|k: int|
            changes.len() <= k < before.len() && #[trigger] before[k] == plane_change(
                event_scope(events[i])->Some_0,
            );
        assert(after[k] == before[k]);
    }
}

proof fn lemma_heard_grows(
    changes: Seq<PlaneChange>,
    mode: FormulaPlaneMode,
    events: Seq<ChangeEvent>,
    n: nat,
)
    requires
        n <= events.len(),
    ensures
        heard_all(changes, mode, events, n).len() >= changes.len(),
    decreases n,
{
    if n > 0 {
        lemma_heard_grows(changes, mode, events, (n - 1) as nat);
    }
}

/// An edit of data changes the number of the data and that something was edited, and nothing else; one
/// of dependencies also the number of the topology and drops the kept schedule.
pub proof fn edits_change_the_numbers_alone(v: EngineView)
    ensures
        ({
            let w = v.data_edited();
            &&& w.has_edited && w.topology_epoch == v.topology_epoch
            &&& w.store == v.store && w.hidden == v.hidden && w.row_versions == v.row_versions
            &&& w.changes == v.changes && w.mode == v.mode && w.action_active == v.action_active
            &&& w.recalc_epoch == v.recalc_epoch
        }),
        ({
            let w = v.topology_edited();
            &&& w.has_edited
            &&& w.store == v.store && w.hidden == v.hidden && w.row_versions == v.row_versions
            &&& w.changes == v.changes && w.mode == v.mode && w.action_active == v.action_active
            &&& w.recalc_epoch == v.recalc_epoch
        }),
        v.snapshot_id < u64::MAX ==> v.data_edited().snapshot_id == v.snapshot_id + 1
            && v.topology_edited().snapshot_id == v.snapshot_id + 1,
        v.topology_epoch < u64::MAX ==> v.topology_edited().topology_epoch == v.topology_epoch + 1,
{
}

/// Hiding or showing a row is undone to what it was and redone to what it became; the rows of the sheet
/// get another number exactly where this makes a difference. No other row is touched.
pub proof fn row_changes_are_undone_and_redone(
    h: HiddenRows,
    versions: Map<u16, u64>,
    e: SetRowVisibility,
    undo: bool,
    other: (SheetId, u32, RowVisibilitySource),
)
    ensures
        ({
            let ev = ChangeEvent::SetRowVisibility(e);
            let to = hidden_step(h, ev, undo);
            let wanted = if undo {
                e.old_hidden
            } else {
                e.new_hidden
            };
            let was = is_hidden(h, e.sheet_id, e.row, e.source);
            &&& is_hidden(to, e.sheet_id, e.row, e.source) == wanted
            &&& other != (e.sheet_id, e.row, e.source) ==> is_hidden(to, other.0, other.1, other.2)
                == is_hidden(h, other.0, other.1, other.2)
            &&& was == wanted ==> versions_step(h, versions, ev, undo) == versions
            &&& was != wanted && version_of(versions, e.sheet_id) < u64::MAX ==> version_of(
                versions_step(h, versions, ev, undo),
                e.sheet_id,
            ) == version_of(versions, e.sheet_id) + 1
        }),
{
    crate::visibility::row_keys_are_distinct((e.sheet_id, e.row, e.source), other);
}

/// A staged text that was changed is undone to the old text and redone to the new one, on its sheet and
/// no other.
pub proof fn staged_changes_are_undone_and_redone(
    entries: Seq<EntryView>,
    sheet: String,
    row: u32,
    col: u32,
    old_text: Option<String>,
    new_text: Option<String>,
    name: Seq<char>,
    undo: bool,
)
    requires
        crate::staged::distinct_cells(entries),
    ensures
        ({
            let ev = ChangeEvent::StagedFormulaCellChanged { sheet, row, col, old_text, new_text };
            let to = staged_step(entries, ev, name, undo);
            let wanted = if undo {
                old_text
            } else {
                new_text
            };
            &&& sheet@ != name ==> to == entries
            &&& sheet@ == name ==> match wanted {
                Some(t) => has_cell(to, row, col) && to[place_of(to, row, col)].2 == t@,
                None => !has_cell(to, row, col),
            }
        }),
{
    if let Some(t) = old_text {
        crate::staged::staged_texts_are_read_back(entries, row, col, t@, (row, col));
    }
    if let Some(t) = new_text {
        crate::staged::staged_texts_are_read_back(entries, row, col, t@, (row, col));
    }
    crate::staged::unstaged_texts_are_gone(entries, row, col, (row, col));
}

/// Lines are counted from one by the caller and from zero in the operation, which is along the axis
/// asked for, and there is none where the sheet is unknown.
pub proof fn lines_are_counted_from_zero(id: SheetId, start: u32, count: u32, insert: bool)
    requires
        start > 0,
    ensures
        line_op(None, start, count, Axis::Rows, insert) is None,
        line_op(None, start, count, Axis::Columns, insert) is None,
        line_op(Some(id), start, count, Axis::Rows, true) == Some(
            StructuralOp::InsertRows { sheet_id: id, before: (start - 1) as u32, count },
        ),
        line_op(Some(id), start, count, Axis::Rows, false) == Some(
            StructuralOp::DeleteRows { sheet_id: id, start: (start - 1) as u32, count },
        ),
        line_op(Some(id), start, count, Axis::Columns, true) == Some(
            StructuralOp::InsertColumns { sheet_id: id, before: (start - 1) as u32, count },
        ),
        line_op(Some(id), start, count, Axis::Columns, false) == Some(
            StructuralOp::DeleteColumns { sheet_id: id, start: (start - 1) as u32, count },
        ),
{
}

/// Inserting rows: what lies at or behind the place moves by as many rows; the
/// computed values there are dropped, since they are to be computed anew; everything in front and on
/// other sheets stays. The spans hear of the rows from the place on, and the schedule is not used again.
pub proof fn inserted_rows_push_the_values_on(
    v: EngineView,
    sheet_id: SheetId,
    before: u32,
    count: u32,
    after: EngineView,
    c: CellRef,
)
    requires
        lines_edited(v, StructuralOp::InsertRows { sheet_id, before, count }, after),
        op_has_room(v, StructuralOp::InsertRows { sheet_id, before, count }),
    ensures
        ({
            let k = spec_cell_key(c);
            let there = spec_cell_key(CellRef { row: (c.row + count) as u32, ..c });
            let (s, t) = (v.store, after.store);
            &&& c.sheet_id != sheet_id || c.row < before ==> {
                &&& t.base.contains_key(k) == s.base.contains_key(k) && (s.base.contains_key(k)
                    ==> t.base[k] == s.base[k])
                &&& t.delta.contains_key(k) == s.delta.contains_key(k) && (s.delta.contains_key(k)
                    ==> t.delta[k] == s.delta[k])
                &&& t.computed.contains_key(k) == s.computed.contains_key(k) && (s.computed.contains_key(k)
                    ==> t.computed[k] == s.computed[k])
            }
            &&& c.sheet_id == sheet_id && c.row >= before && c.row + count <= u32::MAX ==> {
                &&& t.base.contains_key(there) == s.base.contains_key(k) && (s.base.contains_key(k)
                    ==> t.base[there] == s.base[k])
                &&& t.delta.contains_key(there) == s.delta.contains_key(k) && (s.delta.contains_key(k)
                    ==> t.delta[there] == s.delta[k])
            }
            &&& c.sheet_id == sheet_id && c.row >= before ==> !t.computed.contains_key(k)
            &&& c.sheet_id == sheet_id && before <= c.row < before + count ==> !t.base.contains_key(k)
                && !t.delta.contains_key(k)
            &&& after.kept is None
            &&& after.snapshot_id != v.snapshot_id && after.topology_epoch != v.topology_epoch
            &&& v.mode != FormulaPlaneMode::Off ==> after.changes.len() == v.changes.len() + 1 && (tells_of(
                after.changes.last(),
                c,
            ) <==> c.sheet_id == sheet_id && c.row >= before)
        }),
{
    let op = StructuralOp::InsertRows { sheet_id, before, count };
    let (s, h) = choose|s: StoreView, h: HiddenRows|
        {
            &&& #[trigger] store_moved(v.store, op, s)
            &&& #[trigger] hidden_moved(v.hidden, op, h)
            &&& rows_counted(v, after)
            &&& after == (EngineView {
                store: s,
                hidden: h,
                row_versions: versions_moved(v.row_versions, op),
                ..v
            }).hearing(Some(StructuralScope::Region(affected_region(op)))).topology_edited()
        };
    crate::overlay::inserted_lines_push_the_others_on(
        v.store.base,
        s.base,
        sheet_id,
        Axis::Rows,
        before,
        count,
        c,
    );
    crate::overlay::inserted_lines_push_the_others_on(
        v.store.delta,
        s.delta,
        sheet_id,
        Axis::Rows,
        before,
        count,
        c,
    );
    let m = choose|m: Map<u128, OverlayValue>| #[trigger]
        lane_moved(v.store.computed, m, op) && s.computed == outside(m, affected_region(op));
    crate::overlay::inserted_lines_push_the_others_on(
        v.store.computed,
        m,
        sheet_id,
        Axis::Rows,
        before,
        count,
        c,
    );
    crate::coord::keys_name_their_cells(c);
}

/// Deleting rows: what lies on them is gone, what lies behind them moves back by as many rows; the
/// computed values from the place on are dropped; everything in front and on other sheets stays.
pub proof fn deleted_rows_pull_the_values_back(
    v: EngineView,
    sheet_id: SheetId,
    start: u32,
    count: u32,
    after: EngineView,
    c: CellRef,
)
    requires
        lines_edited(v, StructuralOp::DeleteRows { sheet_id, start, count }, after),
    ensures
        ({
            let k = spec_cell_key(c);
            let source = spec_cell_key(CellRef { row: (c.row + count) as u32, ..c });
            let (s, t) = (v.store, after.store);
            &&& c.sheet_id != sheet_id || c.row < start ==> {
                &&& t.base.contains_key(k) == s.base.contains_key(k) && (s.base.contains_key(k)
                    ==> t.base[k] == s.base[k])
                &&& t.delta.contains_key(k) == s.delta.contains_key(k) && (s.delta.contains_key(k)
                    ==> t.delta[k] == s.delta[k])
                &&& t.computed.contains_key(k) == s.computed.contains_key(k) && (s.computed.contains_key(k)
                    ==> t.computed[k] == s.computed[k])
            }
            &&& c.sheet_id == sheet_id && c.row >= start && c.row + count <= u32::MAX ==> {
                &&& t.base.contains_key(k) == s.base.contains_key(source) && (t.base.contains_key(k)
                    ==> t.base[k] == s.base[source])
                &&& t.delta.contains_key(k) == s.delta.contains_key(source) && (t.delta.contains_key(k)
                    ==> t.delta[k] == s.delta[source])
            }
            &&& c.sheet_id == sheet_id && c.row >= start ==> !t.computed.contains_key(k)
            &&& after.kept is None
            &&& after.snapshot_id != v.snapshot_id && after.topology_epoch != v.topology_epoch
            &&& v.mode != FormulaPlaneMode::Off ==> after.changes.len() == v.changes.len() + 1 && (tells_of(
                after.changes.last(),
                c,
            ) <==> c.sheet_id == sheet_id && c.row >= start)
        }),
{
    let op = StructuralOp::DeleteRows { sheet_id, start, count };
    let (s, h) = choose|s: StoreView, h: HiddenRows|
        {
            &&& #[trigger] store_moved(v.store, op, s)
            &&& #[trigger] hidden_moved(v.hidden, op, h)
            &&& rows_counted(v, after)
            &&& after == (EngineView {
                store: s,
                hidden: h,
                row_versions: versions_moved(v.row_versions, op),
                ..v
            }).hearing(Some(StructuralScope::Region(affected_region(op)))).topology_edited()
        };
    crate::overlay::deleted_lines_pull_the_others_back(
        v.store.base,
        s.base,
        sheet_id,
        Axis::Rows,
        start,
        count,
        c,
    );
    crate::overlay::deleted_lines_pull_the_others_back(
        v.store.delta,
        s.delta,
        sheet_id,
        Axis::Rows,
        start,
        count,
        c,
    );
    let m = choose|m: Map<u128, OverlayValue>| #[trigger]
        lane_moved(v.store.computed, m, op) && s.computed == outside(m, affected_region(op));
    crate::overlay::deleted_lines_pull_the_others_back(
        v.store.computed,
        m,
        sheet_id,
        Axis::Rows,
        start,
        count,
        c,
    );
    crate::coord::keys_name_their_cells(c);
}

/// A row that is hidden or shown reads so from then on, every other row as before. Where this makes no
/// difference nothing is told and the data keep their number; where it does, the cells of the row are
/// told of. Unknown sheets and the row zero are refused, and then nothing is changed.
pub proof fn hidden_rows_read_as_hidden(
    v: EngineView,
    sheet: Seq<char>,
    id: SheetId,
    row_1based: u32,
    hidden: bool,
    source: RowVisibilitySource,
    r: Result<(), EditorError>,
    after: EngineView,
    other: (SheetId, u32, RowVisibilitySource),
)
    requires
        is_row_hiding(v, sheet, Some(id), row_1based, hidden, source, r, after),
        row_1based > 0,
    ensures
        r is Ok,
        is_hidden(after.hidden, id, (row_1based - 1) as u32, source) == hidden,
        other != (id, (row_1based - 1) as u32, source) ==> is_hidden(
            after.hidden,
            other.0,
            other.1,
            other.2,
        ) == is_hidden(v.hidden, other.0, other.1, other.2),
        is_hidden(v.hidden, id, (row_1based - 1) as u32, source) == hidden ==> after.snapshot_id
            == v.snapshot_id && after.changes == v.changes,
        is_hidden(v.hidden, id, (row_1based - 1) as u32, source) != hidden ==> after.snapshot_id
            != v.snapshot_id && after.has_edited && (v.mode != FormulaPlaneMode::Off
            ==> after.changes.len() == v.changes.len() + 1 && (after.changes.last() matches
            PlaneChange::Region(region) && forall|c: CellRef|
            #[trigger] region.has_cell(c) <==> c.sheet_id == id && c.row == row_1based - 1)),
        after.store == v.store,
{
    crate::visibility::row_keys_are_distinct((id, (row_1based - 1) as u32, source), other);
}

/// Rows that are hidden or shown together read so from then on, every other row as before; nothing is
/// told exactly where no row was different before.
pub proof fn hidden_row_ranges_read_as_hidden(
    v: EngineView,
    sheet: Seq<char>,
    id: SheetId,
    start_1based: u32,
    end_1based: u32,
    hidden: bool,
    source: RowVisibilitySource,
    r: Result<(), EditorError>,
    after: EngineView,
    other: (SheetId, u32, RowVisibilitySource),
)
    requires
        is_rows_hiding(v, sheet, Some(id), start_1based, end_1based, hidden, source, r, after),
        1 <= start_1based <= end_1based,
    ensures
        r is Ok,
        is_hidden(after.hidden, other.0, other.1, other.2) == (if other.0 == id && other.2 == source
            && start_1based <= other.1 + 1 <= end_1based {
            hidden
        } else {
            is_hidden(v.hidden, other.0, other.1, other.2)
        }),
        other.0 == id && other.2 == source && start_1based <= other.1 + 1 <= end_1based && is_hidden(
            v.hidden,
            id,
            other.1,
            source,
        ) != hidden ==> after.snapshot_id != v.snapshot_id && (v.mode != FormulaPlaneMode::Off
            ==> after.changes.len() == v.changes.len() + 1 && forall|c: CellRef|
            c.sheet_id == id && start_1based <= c.row + 1 <= end_1based ==> #[trigger] tells_of(
                after.changes.last(),
                c,
            )),
        (forall|row: u32|
            start_1based <= row + 1 <= end_1based ==> #[trigger] is_hidden(v.hidden, id, row, source)
                == hidden) ==> after.snapshot_id == v.snapshot_id && after.changes == v.changes,
        after.store == v.store,
{
    let start = (start_1based - 1) as u32;
    crate::visibility::hidden_ranges_are_read_back(
        v.hidden,
        id,
        start,
        source,
        hidden,
        (end_1based - start_1based + 1) as nat,
        other,
    );
}

/// Rows that cannot be hidden or shown: on an unknown sheet, the row zero, or in reverse order. Nothing
/// is changed then.
pub proof fn rows_that_are_not_there_are_refused(
    v: EngineView,
    sheet: Seq<char>,
    sheet_id: Option<SheetId>,
    start_1based: u32,
    end_1based: u32,
    hidden: bool,
    source: RowVisibilitySource,
    r: Result<(), EditorError>,
    after: EngineView,
)
    ensures
        is_row_hiding(v, sheet, sheet_id, start_1based, hidden, source, r, after) ==> (r is Err
            <==> sheet_id is None || start_1based == 0) && (r is Err ==> after == v),
        is_rows_hiding(v, sheet, sheet_id, start_1based, end_1based, hidden, source, r, after) ==> (r is Err
            <==> sheet_id is None || start_1based == 0 || end_1based == 0 || start_1based > end_1based) && (
        r is Err ==> after == v),
{
}

/// A name, table or source that the graph takes makes all spans dirty, and a refused one changes
/// nothing.
pub proof fn definitions_make_all_spans_dirty(
    v: EngineView,
    rewires: bool,
    graph: Result<(), ExcelError>,
    r: Result<(), ExcelError>,
    after: EngineView,
)
    requires
        is_definition(v, rewires, graph, r, after),
    ensures
        r is Ok <==> graph is Ok,
        graph is Err ==> after == v && r == graph,
        graph is Ok && v.mode != FormulaPlaneMode::Off ==> after.changes == v.changes.push(
            PlaneChange::AllDirty,
        ),
        graph is Ok && rewires ==> after.topology_epoch != v.topology_epoch && after.kept is None
            && after.snapshot_id != v.snapshot_id,
        graph is Ok && !rewires ==> after.topology_epoch == v.topology_epoch && after.kept == v.kept,
        after.store == v.store,
{
}

/// Inserting columns: what lies at or behind the place moves by as many columns; the
/// computed values there are dropped, since they are to be computed anew; everything in front and on
/// other sheets stays. The spans hear of the columns from the place on, and the schedule is not used again.
pub proof fn inserted_columns_push_the_values_on(
    v: EngineView,
    sheet_id: SheetId,
    before: u32,
    count: u32,
    after: EngineView,
    c: CellRef,
)
    requires
        lines_edited(v, StructuralOp::InsertColumns { sheet_id, before, count }, after),
        op_has_room(v, StructuralOp::InsertColumns { sheet_id, before, count }),
    ensures
        ({
            let k = spec_cell_key(c);
            let there = spec_cell_key(CellRef { col: (c.col + count) as u32, ..c });
            let (s, t) = (v.store, after.store);
            &&& c.sheet_id != sheet_id || c.col < before ==> {
                &&& t.base.contains_key(k) == s.base.contains_key(k) && (s.base.contains_key(k)
                    ==> t.base[k] == s.base[k])
                &&& t.delta.contains_key(k) == s.delta.contains_key(k) && (s.delta.contains_key(k)
                    ==> t.delta[k] == s.delta[k])
                &&& t.computed.contains_key(k) == s.computed.contains_key(k) && (s.computed.contains_key(k)
                    ==> t.computed[k] == s.computed[k])
            }
            &&& c.sheet_id == sheet_id && c.col >= before && c.col + count <= u32::MAX ==> {
                &&& t.base.contains_key(there) == s.base.contains_key(k) && (s.base.contains_key(k)
                    ==> t.base[there] == s.base[k])
                &&& t.delta.contains_key(there) == s.delta.contains_key(k) && (s.delta.contains_key(k)
                    ==> t.delta[there] == s.delta[k])
            }
            &&& c.sheet_id == sheet_id && c.col >= before ==> !t.computed.contains_key(k)
            &&& c.sheet_id == sheet_id && before <= c.col < before + count ==> !t.base.contains_key(k)
                && !t.delta.contains_key(k)
            &&& after.kept is None
            &&& after.snapshot_id != v.snapshot_id && after.topology_epoch != v.topology_epoch
            &&& v.mode != FormulaPlaneMode::Off ==> after.changes.len() == v.changes.len() + 1 && (tells_of(
                after.changes.last(),
                c,
            ) <==> c.sheet_id == sheet_id && c.col >= before)
        }),
{
    let op = StructuralOp::InsertColumns { sheet_id, before, count };
    let (s, h) = choose|s: StoreView, h: HiddenRows|
        {
            &&& #[trigger] store_moved(v.store, op, s)
            &&& #[trigger] hidden_moved(v.hidden, op, h)
            &&& rows_counted(v, after)
            &&& after == (EngineView {
                store: s,
                hidden: h,
                row_versions: versions_moved(v.row_versions, op),
                ..v
            }).hearing(Some(StructuralScope::Region(affected_region(op)))).topology_edited()
        };
    crate::overlay::inserted_lines_push_the_others_on(
        v.store.base,
        s.base,
        sheet_id,
        Axis::Columns,
        before,
        count,
        c,
    );
    crate::overlay::inserted_lines_push_the_others_on(
        v.store.delta,
        s.delta,
        sheet_id,
        Axis::Columns,
        before,
        count,
        c,
    );
    let m = choose|m: Map<u128, OverlayValue>| #[trigger]
        lane_moved(v.store.computed, m, op) && s.computed == outside(m, affected_region(op));
    crate::overlay::inserted_lines_push_the_others_on(
        v.store.computed,
        m,
        sheet_id,
        Axis::Columns,
        before,
        count,
        c,
    );
    crate::coord::keys_name_their_cells(c);
}

/// Deleting columns: what lies on them is gone, what lies behind them moves back by as many columns; the
/// computed values from the place on are dropped; everything in front and on other sheets stays.
pub proof fn deleted_columns_pull_the_values_back(
    v: EngineView,
    sheet_id: SheetId,
    start: u32,
    count: u32,
    after: EngineView,
    c: CellRef,
)
    requires
        lines_edited(v, StructuralOp::DeleteColumns { sheet_id, start, count }, after),
    ensures
        ({
            let k = spec_cell_key(c);
            let source = spec_cell_key(CellRef { col: (c.col + count) as u32, ..c });
            let (s, t) = (v.store, after.store);
            &&& c.sheet_id != sheet_id || c.col < start ==> {
                &&& t.base.contains_key(k) == s.base.contains_key(k) && (s.base.contains_key(k)
                    ==> t.base[k] == s.base[k])
                &&& t.delta.contains_key(k) == s.delta.contains_key(k) && (s.delta.contains_key(k)
                    ==> t.delta[k] == s.delta[k])
                &&& t.computed.contains_key(k) == s.computed.contains_key(k) && (s.computed.contains_key(k)
                    ==> t.computed[k] == s.computed[k])
            }
            &&& c.sheet_id == sheet_id && c.col >= start && c.col + count <= u32::MAX ==> {
                &&& t.base.contains_key(k) == s.base.contains_key(source) && (t.base.contains_key(k)
                    ==> t.base[k] == s.base[source])
                &&& t.delta.contains_key(k) == s.delta.contains_key(source) && (t.delta.contains_key(k)
                    ==> t.delta[k] == s.delta[source])
            }
            &&& c.sheet_id == sheet_id && c.col >= start ==> !t.computed.contains_key(k)
            &&& after.kept is None
            &&& after.snapshot_id != v.snapshot_id && after.topology_epoch != v.topology_epoch
            &&& v.mode != FormulaPlaneMode::Off ==> after.changes.len() == v.changes.len() + 1 && (tells_of(
                after.changes.last(),
                c,
            ) <==> c.sheet_id == sheet_id && c.col >= start)
        }),
{
    let op = StructuralOp::DeleteColumns { sheet_id, start, count };
    let (s, h) = choose|s: StoreView, h: HiddenRows|
        {
            &&& #[trigger] store_moved(v.store, op, s)
            &&& #[trigger] hidden_moved(v.hidden, op, h)
            &&& rows_counted(v, after)
            &&& after == (EngineView {
                store: s,
                hidden: h,
                row_versions: versions_moved(v.row_versions, op),
                ..v
            }).hearing(Some(StructuralScope::Region(affected_region(op)))).topology_edited()
        };
    crate::overlay::deleted_lines_pull_the_others_back(
        v.store.base,
        s.base,
        sheet_id,
        Axis::Columns,
        start,
        count,
        c,
    );
    crate::overlay::deleted_lines_pull_the_others_back(
        v.store.delta,
        s.delta,
        sheet_id,
        Axis::Columns,
        start,
        count,
        c,
    );
    let m = choose|m: Map<u128, OverlayValue>| #[trigger]
        lane_moved(v.store.computed, m, op) && s.computed == outside(m, affected_region(op));
    crate::overlay::deleted_lines_pull_the_others_back(
        v.store.computed,
        m,
        sheet_id,
        Axis::Columns,
        start,
        count,
        c,
    );
    crate::coord::keys_name_their_cells(c);
}

/// Two journaled changes of staged texts are undone with the second one first, and redone with the first
/// one first.
pub proof fn staged_changes_are_undone_in_reverse(
    entries: Seq<EntryView>,
    first: ChangeEvent,
    second: ChangeEvent,
    name: Seq<char>,
)
    ensures
        staged_undone(entries, seq![first, second], name, 0) == staged_step(
            staged_step(entries, second, name, true),
            first,
            name,
            true,
        ),
        staged_redone(entries, seq![first, second], name, 2) == staged_step(
            staged_step(entries, first, name, false),
            second,
            name,
            false,
        ),
{
    reveal_with_fuel(staged_undone, 4);
    reveal_with_fuel(staged_redone, 4);
}

/// Two changes of hidden rows are undone with the second one first, and redone with the first one first.
pub proof fn row_changes_are_undone_in_reverse(h: HiddenRows, first: ChangeEvent, second: ChangeEvent)
    ensures
        hidden_undone(h, seq![first, second], 0) == hidden_step(hidden_step(h, second, true), first, true),
        hidden_redone(h, seq![first, second], 2) == hidden_step(hidden_step(h, first, false), second, false),
{
    reveal_with_fuel(hidden_undone, 4);
    reveal_with_fuel(hidden_redone, 4);
}

/// Of cells that are set together each is told of, at its address counted from zero.
pub proof fn cells_that_are_set_together_are_all_told(
    changes: Seq<PlaneChange>,
    mode: FormulaPlaneMode,
    sheet_id: SheetId,
    cells: Seq<(u32, u32)>,
    n: nat,
    i: int,
)
    requires
        mode != FormulaPlaneMode::Off,
        n <= cells.len(),
        0 <= i < n,
        cells[i].0 > 0,
        cells[i].1 > 0,
    ensures
        heard_cells(changes, mode, sheet_id, cells, n).len() == changes.len() + n,
        ({
            let c = CellRef { sheet_id, row: (cells[i].0 - 1) as u32, col: (cells[i].1 - 1) as u32 };
            tells_of(heard_cells(changes, mode, sheet_id, cells, n)[changes.len() + i], c)
        }),
    decreases n,
{
    let m = (n - 1) as nat;
    lemma_told_one_by_one(changes, mode, sheet_id, cells, m);
    if i < m {
        cells_that_are_set_together_are_all_told(changes, mode, sheet_id, cells, m, i);
    }
}

proof fn lemma_told_one_by_one(
    changes: Seq<PlaneChange>,
    mode: FormulaPlaneMode,
    sheet_id: SheetId,
    cells: Seq<(u32, u32)>,
    n: nat,
)
    requires
        mode != FormulaPlaneMode::Off,
        n <= cells.len(),
    ensures
        heard_cells(changes, mode, sheet_id, cells, n).len() == changes.len() + n,
    decreases n,
{
    if n > 0 {
        lemma_told_one_by_one(changes, mode, sheet_id, cells, (n - 1) as nat);
    }
}

/// Lines are inserted or deleted only where the sheet is known and the graph takes the edit; else the
/// error is handed back and nothing is changed.
pub proof fn refused_line_edits_change_nothing(
    v: EngineView,
    sheet: Seq<char>,
    sheet_id: Option<SheetId>,
    op: Option<StructuralOp>,
    graph: Result<(), EditorError>,
    r: Result<(), EditorError>,
    after: EngineView,
)
    requires
        is_line_edit(v, sheet, sheet_id, op, graph, r, after),
    ensures
        r is Ok <==> op is Some && graph is Ok,
        r is Err ==> after == v,
        op is Some && graph is Err ==> r == graph,
        op is Some && graph is Ok ==> lines_edited(v, op->Some_0, after),
{
}

/// What a cell shows is what the storage reads, and nothing where that is empty; what is computed for it
/// is what the storage holds as computed.
pub proof fn cells_show_what_is_read(s: StoreView, cell: CellRef, r: Option<LiteralValue>)
    ensures
        shows(s, cell, r) ==> (r is None <==> read(s, cell) == ValueView::Empty) && (r matches Some(v)
            ==> v@ == read(s, cell)),
        is_computed(s, cell, r) ==> (r is Some <==> s.computed.contains_key(spec_cell_key(cell))) && (
        r matches Some(v) ==> v@ == literal_of(s.computed[spec_cell_key(cell)])),
{
}

} // verus!
