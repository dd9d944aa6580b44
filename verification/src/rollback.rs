//! An atomic action that is taken back leaves every cell and the hidden rows as they were, and one that
//! is done over again shows them as it did.
use crate::action::{computed_at, held_before, hidden_entries, hidden_until, insert_entry, insert_op, insertable, inserted_after, is_computed_op, is_delta_op, journal_grew, lemma_row_ahead};
use crate::coord::{CellRef, SheetId, is_cell_key, keys_name_their_cells, lemma_index_bounds, nth_cell, rect_cells, spec_cell_key};
use crate::effects::{SnapshotView, SpillSnapshot};
use crate::engine::{EngineView, hidden_redone, hidden_step, hidden_undone, is_replayed, store_redone};
use crate::overlay::{Axis, OverlayValue, after_delete, after_insert, index_on, is_deleted, is_deleted_from, is_inserted, keyed_by_cells, lemma_delete_source, lemma_deleted, lemma_insert_source, lemma_inserted, literal_of, reading_gives_back_what_was_stored, stores};
use crate::store::{StoreView, grown, has_room, put, read, store_has_room, stored, stores_option, with_computed, with_edit};
use crate::undo::{ArrowOp, ChangeEvent, bared, batch_done, between, blanks, change_redone, computed_set, edited, holds, is_possible, is_spill_journal, is_spill_op, lines_inserted, nth_op, op_done, option_view, rect_set, snapshot_writes, spec_put, value_at, writes_done};
use crate::value::ValueView;
use crate::visibility::{HiddenRows, RowVisibilitySource, deleting_new_rows_brings_back_hidden_rows, is_hidden, is_marked, row_key};
use vstd::prelude::*;

verus! {

/// Whether the snapshot is of a whole rectangle at its first target, and the storage shows its values
/// there, with no user edit over them.
pub open spec fn shows_array(s: StoreView, snap: SnapshotView) -> bool {
    let h = snap.values.len();
    let w = snap.values[0].len();
    let corner = snap.target_cells[0];
    &&& h > 0
    &&& w > 0
    &&& snap.target_cells == rect_cells(corner, h as int, w as int)
    &&& corner.row + h <= u32::MAX + 1
    &&& corner.col + w <= u32::MAX + 1
    &&& forall|r: int| 0 <= r < h ==> (#[trigger] snap.values[r]).len() == w
    &&& forall|k: int|
        #![trigger snap.target_cells[k]]
        0 <= k < h * w ==> {
            &&& !s.delta.contains_key(spec_cell_key(snap.target_cells[k]))
            &&& read(s, snap.target_cells[k]) == snap.values[k / w as int][k % w as int]
        }
}

/// Whether the storage was not folded on the way, or, where it may be, the values of the array are
/// computed values.
pub open spec fn is_unfolded_or_held(s: StoreView, snap: SnapshotView, t: StoreView, folds: bool) -> bool {
    if folds {
        forall|k: int|
            0 <= k < snap.target_cells.len() ==> s.computed.contains_key(
                spec_cell_key(#[trigger] snap.target_cells[k]),
            )
    } else {
        s.compactions < u64::MAX && t.compactions == s.compactions
    }
}

/// An edit inside an atomic action, with the changes that it left in the journal.
pub enum JournaledEdit {
    Value { cell: CellRef, value: ValueView, had_formula: bool, delta: ArrowOp, computed: ArrowOp },
    Formula { cell: CellRef, had_formula: bool, delta: ArrowOp },
    Lines { sheet_id: SheetId, axis: Axis, before: u32, count: u32 },
    /// A value or a formula that cleared a spilled array.
    Cleared {
        snap: SpillSnapshot,
        entry: ChangeEvent,
        cell: CellRef,
        had_formula: bool,
        ops: Seq<ArrowOp>,
    },
}

/// The changes that an edit left in the journal.
pub open spec fn ops_of(e: JournaledEdit) -> Seq<ArrowOp> {
    match e {
        JournaledEdit::Value { delta, computed, .. } => seq![delta, computed],
        JournaledEdit::Formula { delta, .. } => seq![delta],
        JournaledEdit::Lines { sheet_id, axis, before, count } => seq![
            insert_op(sheet_id, axis, before, count),
        ],
        JournaledEdit::Cleared { ops, .. } => ops,
    }
}

/// Whether the edit leads from one storage to another, and the changes in the journal are its own. A
/// cell with a formula has no user edit over it. An array that is cleared was shown as it was spilled.
/// Where clearing it may fold the storage, its values were not folded before.
pub open spec fn is_made(s: StoreView, e: JournaledEdit, t: StoreView, folds: bool) -> bool {
    match e {
        JournaledEdit::Value { cell, value, had_formula, delta, computed } => {
            &&& edited(s, cell, value, t)
            &&& is_delta_op(delta, cell, held_before(s, cell, had_formula), Some(value))
            &&& is_computed_op(computed, cell, computed_at(s, cell), computed_at(t, cell))
            &&& had_formula ==> !s.delta.contains_key(spec_cell_key(cell))
        },
        JournaledEdit::Formula { cell, had_formula, delta } => {
            &&& t == (StoreView { delta: s.delta.remove(spec_cell_key(cell)), ..s })
            &&& is_delta_op(delta, cell, held_before(s, cell, had_formula), None)
            &&& had_formula ==> !s.delta.contains_key(spec_cell_key(cell))
        },
        JournaledEdit::Lines { sheet_id, axis, before, count } => {
            &&& store_has_room(s, sheet_id, axis, before, count)
            &&& lines_inserted(s, sheet_id, axis, before, count, t)
        },
        JournaledEdit::Cleared { snap, entry, cell, had_formula, ops } => {
            &&& shows_array(s, snap@)
            &&& store_redone(s, seq![ChangeEvent::SpillCleared { before: snap }, entry], 2, t)
            &&& is_unfolded_or_held(s, snap@, t, folds)
            &&& ops.len() == 1 + edit_ops(entry)
            &&& is_spill_op(ChangeEvent::SpillCleared { before: snap }, Some(ops[0]))
            &&& ends_in_edit(s, entry, cell, had_formula, ops, t)
            &&& had_formula ==> !s.delta.contains_key(spec_cell_key(cell))
        },
    }
}

/// Whether the first `n` edits lead from one storage to another; `folds` tells whether the storage may
/// be folded on the way.
pub open spec fn are_made(
    s: StoreView,
    edits: Seq<JournaledEdit>,
    n: nat,
    t: StoreView,
    folds: bool,
) -> bool
    decreases n,
{
    if n == 0 {
        t == s
    } else {
        exists|mid: StoreView|
            {
                &&& #[trigger] between(mid)
                &&& are_made(s, edits, (n - 1) as nat, mid, folds)
                &&& is_made(mid, edits[n - 1], t, folds)
            }
    }
}

/// The journal of the first `n` edits.
pub open spec fn journal(edits: Seq<JournaledEdit>, n: nat) -> Seq<ArrowOp>
    decreases n,
{
    if n == 0 {
        Seq::empty()
    } else {
        journal(edits, (n - 1) as nat) + ops_of(edits[n - 1])
    }
}

/// What an atomic action does for a value that is set, as long as it touches no spilled array, is an
/// edit with its changes in the journal.
pub proof fn values_are_set_as_journaled_edits(
    s: StoreView,
    cell: CellRef,
    value: ValueView,
    had_formula: bool,
    entry: ChangeEvent,
    before: Seq<ArrowOp>,
    after: Seq<ArrowOp>,
    t: StoreView,
) -> (e: JournaledEdit)
    requires
        entry matches ChangeEvent::SetValue { cell: c, new, .. } && c == cell && new@ == value,
        had_formula ==> !s.delta.contains_key(spec_cell_key(cell)),
        store_redone(s, seq![entry], 1, t),
        journal_grew(before, seq![entry], 2, after),
        is_delta_op(
            after[after.len() - 2],
            cell,
            held_before(s, cell, had_formula),
            Some(value),
        ),
        is_computed_op(after[after.len() - 1], cell, computed_at(s, cell), computed_at(t, cell)),
    ensures
        forall|folds: bool| #[trigger] is_made(s, e, t, folds),
        after == before + ops_of(e),
{
    let entries = seq![entry];
    let e = JournaledEdit::Value {
        cell,
        value,
        had_formula,
        delta: after[after.len() - 2],
        computed: after[after.len() - 1],
    };
    let mid = choose|mid: StoreView|
        {
            &&& #[trigger] between(mid)
            &&& store_redone(s, entries, 0, mid)
            &&& change_redone(mid, entries[0], t)
        };
    let spilled = after.subrange(before.len() as int, after.len() - 2);
    assert(is_spill_op(entries[0], None));
    assert(is_spill_journal(entries, 0, spilled));
    assert(after =~= before + ops_of(e)) by {
        assert(after.take(before.len() as int) == before);
    }
    e
}

/// What an atomic action does for a formula that is set, as long as it touches no spilled array, is
/// an edit with its change in the journal.
pub proof fn formulas_are_set_as_journaled_edits(
    s: StoreView,
    cell: CellRef,
    had_formula: bool,
    entry: ChangeEvent,
    before: Seq<ArrowOp>,
    after: Seq<ArrowOp>,
    t: StoreView,
) -> (e: JournaledEdit)
    requires
        entry matches ChangeEvent::SetFormula { cell: c, .. } && c == cell,
        had_formula ==> !s.delta.contains_key(spec_cell_key(cell)),
        store_redone(s, seq![entry], 1, t),
        journal_grew(before, seq![entry], 1, after),
        is_delta_op(after[after.len() - 1], cell, held_before(s, cell, had_formula), None),
    ensures
        forall|folds: bool| #[trigger] is_made(s, e, t, folds),
        after == before + ops_of(e),
{
    let entries = seq![entry];
    let e = JournaledEdit::Formula { cell, had_formula, delta: after[after.len() - 1] };
    let mid = choose|mid: StoreView|
        {
            &&& #[trigger] between(mid)
            &&& store_redone(s, entries, 0, mid)
            &&& change_redone(mid, entries[0], t)
        };
    let spilled = after.subrange(before.len() as int, after.len() - 1);
    assert(is_spill_op(entries[0], None));
    assert(is_spill_journal(entries, 0, spilled));
    assert(after =~= before + ops_of(e)) by {
        assert(after.take(before.len() as int) == before);
    }
    e
}

/// What an atomic action does for lines that are inserted is an edit with its change in the journal.
pub proof fn lines_are_inserted_as_journaled_edits(
    v: EngineView,
    sheet_id: SheetId,
    axis: Axis,
    before: u32,
    count: u32,
    w: EngineView,
)
    requires
        insertable(v, Seq::empty(), sheet_id, axis, before, count),
        inserted_after(v, Seq::empty(), sheet_id, axis, before, count, w),
    ensures
        forall|folds: bool| #[trigger]
            is_made(
                v.store,
                JournaledEdit::Lines { sheet_id, axis, before, count },
                w.store,
                folds,
            ),
{
    assert(store_redone(v.store, Seq::empty(), 0, v.store));
}

/// What an atomic action does for a value or a formula that clears a spilled array is an edit with its
/// changes in the journal.
pub proof fn arrays_are_cleared_as_journaled_edits(
    s: StoreView,
    snap: SpillSnapshot,
    entry: ChangeEvent,
    cell: CellRef,
    had_formula: bool,
    before: Seq<ArrowOp>,
    after: Seq<ArrowOp>,
    t: StoreView,
    folds: bool,
) -> (e: JournaledEdit)
    requires
        shows_array(s, snap@),
        had_formula ==> !s.delta.contains_key(spec_cell_key(cell)),
        store_redone(s, seq![ChangeEvent::SpillCleared { before: snap }, entry], 2, t),
        is_unfolded_or_held(s, snap@, t, folds),
        journal_grew(
            before,
            seq![ChangeEvent::SpillCleared { before: snap }, entry],
            edit_ops(entry),
            after,
        ),
        ends_in_edit(s, entry, cell, had_formula, after, t),
    ensures
        is_made(s, e, t, folds),
        after == before + ops_of(e),
{
    let ops = lemma_cleared_journal(s, snap, entry, cell, had_formula, before, after, t);
    JournaledEdit::Cleared { snap, entry, cell, had_formula, ops }
}

/// The journal of an edit that clears an array grows by the change of the array and those of the edit.
proof fn lemma_cleared_journal(
    s: StoreView,
    snap: SpillSnapshot,
    entry: ChangeEvent,
    cell: CellRef,
    had_formula: bool,
    before: Seq<ArrowOp>,
    after: Seq<ArrowOp>,
    t: StoreView,
) -> (ops: Seq<ArrowOp>)
    requires
        shows_array(s, snap@),
        journal_grew(
            before,
            seq![ChangeEvent::SpillCleared { before: snap }, entry],
            edit_ops(entry),
            after,
        ),
        ends_in_edit(s, entry, cell, had_formula, after, t),
    ensures
        ops == after.skip(before.len() as int),
        ops.len() == 1 + edit_ops(entry),
        is_spill_op(ChangeEvent::SpillCleared { before: snap }, Some(ops[0])),
        ends_in_edit(s, entry, cell, had_formula, ops, t),
        after == before + ops,
{
    let events = seq![ChangeEvent::SpillCleared { before: snap }, entry];
    let ops = after.skip(before.len() as int);
    let spilled = after.subrange(before.len() as int, after.len() - edit_ops(entry));
    let h = snap@.values.len() as int;
    let w = snap@.values[0].len() as int;
    assert(h * w > 0) by (nonlinear_arith)
        requires
            h > 0,
            w > 0,
    ;
    assert(is_spill_op(events[1], None));
    assert(is_spill_journal(events, 1, spilled));
    assert(!is_spill_op(events[0], None));
    assert(is_spill_journal(events, 0, spilled.drop_last()));
    assert(spilled.len() == 1);
    assert(ops[0] == spilled.last());
    assert(after =~= before + ops) by {
        assert(after.take(before.len() as int) == before);
    }
    ops
}

/// What a lane reads as at a cell.
spec fn lane_at(m: Map<u128, OverlayValue>, cell: CellRef) -> Option<ValueView> {
    if m.contains_key(spec_cell_key(cell)) {
        Some(literal_of(m[spec_cell_key(cell)]))
    } else {
        None
    }
}

/// What the cell shows beneath its user edit.
spec fn beneath(s: StoreView, cell: CellRef) -> ValueView {
    match (lane_at(s.computed, cell), lane_at(s.base, cell)) {
        (Some(v), _) => v,
        (None, Some(v)) => v,
        (None, None) => ValueView::Empty,
    }
}

/// What the base value of the cell shows.
spec fn bare(s: StoreView, cell: CellRef) -> ValueView {
    match lane_at(s.base, cell) {
        Some(v) => v,
        None => ValueView::Empty,
    }
}

/// Whether both read the same at the cell: they show the same beneath user edits, and have the same
/// user edit, but for one that the second may have where the first one shows the same without. Where
/// the first has no computed value, both have the same base value, and they have it everywhere as long
/// as the storage is not folded.
spec fn alike_at(folds: bool, s: StoreView, t: StoreView, cell: CellRef) -> bool {
    &&& !folds || lane_at(s.computed, cell) is None ==> bare(s, cell) == bare(t, cell)
    &&& beneath(s, cell) == beneath(t, cell)
    &&& lane_at(s.delta, cell) == lane_at(t.delta, cell) || (lane_at(t.delta, cell) is Some && read(
        s,
        cell,
    ) == read(t, cell))
}

spec fn alike(folds: bool, s: StoreView, t: StoreView) -> bool {
    forall|cell: CellRef| #[trigger] alike_at(folds, s, t, cell)
}

/// Whether the cell stays on the sheet when lines are inserted.
spec fn fits(cell: CellRef, sheet_id: SheetId, axis: Axis, before: u32, count: u32) -> bool {
    cell.sheet_id == sheet_id && index_on(cell, axis) >= before ==> index_on(cell, axis) + count
        <= u32::MAX
}

proof fn lemma_inserted_at(
    s: Map<u128, OverlayValue>,
    t: Map<u128, OverlayValue>,
    sheet_id: SheetId,
    axis: Axis,
    before: u32,
    count: u32,
    cell: CellRef,
)
    requires
        is_inserted(s, t, sheet_id, axis, before, count),
        has_room(s, sheet_id, axis, before, count),
    ensures
        fits(cell, sheet_id, axis, before, count) ==> lane_at(
            t,
            after_insert(cell, sheet_id, axis, before, count),
        ) == lane_at(s, cell),
        !fits(cell, sheet_id, axis, before, count) ==> lane_at(s, cell) is None,
{
    let to = after_insert(cell, sheet_id, axis, before, count);
    if s.contains_key(spec_cell_key(cell)) {
        lemma_inserted(s, t, sheet_id, axis, before, count, cell);
    } else if fits(cell, sheet_id, axis, before, count) && t.contains_key(spec_cell_key(to)) {
        let c = lemma_insert_source(s, t, sheet_id, axis, before, count, spec_cell_key(to));
        keys_name_their_cells(to);
        keys_name_their_cells(after_insert(c, sheet_id, axis, before, count));
        assert(c == cell);
    }
}

proof fn lemma_deleted_at(
    t: Map<u128, OverlayValue>,
    u: Map<u128, OverlayValue>,
    sheet_id: SheetId,
    axis: Axis,
    before: u32,
    count: u32,
    cell: CellRef,
)
    requires
        is_deleted_from(t, u, sheet_id, axis, before, count),
    ensures
        fits(cell, sheet_id, axis, before, count) ==> lane_at(
            t,
            after_insert(cell, sheet_id, axis, before, count),
        ) == lane_at(u, cell),
        !fits(cell, sheet_id, axis, before, count) ==> lane_at(u, cell) is None,
{
    let to = after_insert(cell, sheet_id, axis, before, count);
    if fits(cell, sheet_id, axis, before, count) && t.contains_key(spec_cell_key(to)) {
        assert(!is_deleted(to, sheet_id, axis, before, count));
        assert(after_delete(to, sheet_id, axis, before, count) == cell);
        lemma_deleted(t, u, sheet_id, axis, before, count, to);
    }
    if u.contains_key(spec_cell_key(cell)) {
        let c = lemma_delete_source(t, u, sheet_id, axis, before, count, spec_cell_key(cell));
        keys_name_their_cells(cell);
        keys_name_their_cells(after_delete(c, sheet_id, axis, before, count));
        assert(after_delete(c, sheet_id, axis, before, count) == cell);
        assert(c == to);
    }
}

/// Undoing lines that were inserted.
proof fn lemma_lines_back(
    folds: bool,
    s: StoreView,
    t: StoreView,
    t2: StoreView,
    u: StoreView,
    sheet_id: SheetId,
    axis: Axis,
    before: u32,
    count: u32,
)
    requires
        store_has_room(s, sheet_id, axis, before, count),
        lines_inserted(s, sheet_id, axis, before, count, t),
        alike(folds, t, t2),
        op_done(t2, insert_op(sheet_id, axis, before, count), true, u),
    ensures
        alike(folds, s, u),
{
    assert forall|cell: CellRef| #[trigger] alike_at(folds, s, u, cell) by {
        let to = after_insert(cell, sheet_id, axis, before, count);
        lemma_inserted_at(s.base, t.base, sheet_id, axis, before, count, cell);
        lemma_inserted_at(s.delta, t.delta, sheet_id, axis, before, count, cell);
        lemma_inserted_at(s.computed, t.computed, sheet_id, axis, before, count, cell);
        lemma_deleted_at(t2.base, u.base, sheet_id, axis, before, count, cell);
        lemma_deleted_at(t2.delta, u.delta, sheet_id, axis, before, count, cell);
        lemma_deleted_at(t2.computed, u.computed, sheet_id, axis, before, count, cell);
        assert(alike_at(folds, t, t2, to));
        if fits(cell, sheet_id, axis, before, count) {
            lemma_read_lanes(s, cell);
            lemma_read_lanes(u, cell);
            lemma_read_lanes(t, to);
            lemma_read_lanes(t2, to);
        }
    }
}

/// What a cell reads as follows from the lanes.
proof fn lemma_read_lanes(s: StoreView, cell: CellRef)
    ensures
        read(s, cell) == (match (
            lane_at(s.delta, cell),
            lane_at(s.computed, cell),
            lane_at(s.base, cell),
        ) {
            (Some(v), _, _) => v,
            (None, Some(v), _) => v,
            (None, None, Some(v)) => v,
            (None, None, None) => ValueView::Empty,
        }),
{
}

/// A value that was read is read again once it is stored.
proof fn lemma_read_again(v: OverlayValue, w: OverlayValue)
    requires
        stores(literal_of(v), w),
    ensures
        literal_of(w) == literal_of(v),
{
    reading_gives_back_what_was_stored(literal_of(v), w);
}

/// Undoing the change of a user edit.
proof fn lemma_delta_back(
    s: StoreView,
    cell: CellRef,
    had_formula: bool,
    after: Option<ValueView>,
    op: ArrowOp,
    t: StoreView,
    u: StoreView,
)
    requires
        is_delta_op(op, cell, held_before(s, cell, had_formula), after),
        op_done(t, op, true, u),
    ensures
        u.base == t.base,
        u.computed == t.computed,
        lane_at(u.delta, cell) == held_before(s, cell, had_formula),
        forall|other: CellRef| other != cell ==> #[trigger] lane_at(u.delta, other) == lane_at(
            t.delta,
            other,
        ),
{
    let value = op->SetDeltaCell_old;
    let v = choose|v: Option<OverlayValue>|
        #![trigger stores_option(value, v)]
        stores_option(value, v) && u == (StoreView {
            delta: put(t.delta, spec_cell_key(cell), v),
            ..grown(t, cell)
        });
    assert forall|other: CellRef| other != cell implies #[trigger] lane_at(u.delta, other) == lane_at(
        t.delta,
        other,
    ) by {
        keys_name_their_cells(cell);
        keys_name_their_cells(other);
    }
    if !had_formula {
        lemma_read_again(stored(s, cell), v->Some_0);
    }
}

/// Undoing the change of a computed value.
proof fn lemma_computed_back(
    s: StoreView,
    cell: CellRef,
    after: Option<ValueView>,
    op: ArrowOp,
    t: StoreView,
    u: StoreView,
)
    requires
        is_computed_op(op, cell, computed_at(s, cell), after),
        op_done(t, op, true, u),
    ensures
        u.base == t.base,
        u.delta == t.delta,
        lane_at(u.computed, cell) == computed_at(s, cell),
        forall|other: CellRef| other != cell ==> #[trigger] lane_at(u.computed, other) == lane_at(
            t.computed,
            other,
        ),
{
    let value = option_view(op->SetComputedCell_old);
    let v = choose|v: Option<OverlayValue>|
        #![trigger spec_put(t, cell, v)]
        holds(value, v) && u == spec_put(t, cell, v);
    assert forall|other: CellRef| other != cell implies #[trigger] lane_at(u.computed, other)
        == lane_at(t.computed, other) by {
        keys_name_their_cells(cell);
        keys_name_their_cells(other);
    }
    if computed_at(s, cell) is Some {
        lemma_read_again(s.computed[spec_cell_key(cell)], v->Some_0);
    }
}

proof fn lemma_edit_back(
    folds: bool,
    s: StoreView,
    e: JournaledEdit,
    t: StoreView,
    t2: StoreView,
    u: StoreView,
)
    requires
        is_made(s, e, t, folds),
        alike(folds, t, t2),
        batch_done(t2, ops_of(e), true, ops_of(e).len(), u),
    ensures
        alike(folds, s, u),
{
    let ops = ops_of(e);
    match e {
        JournaledEdit::Cleared { snap, entry, cell, had_formula, ops } => {
            lemma_cleared_back(folds, s, snap, entry, cell, had_formula, ops, t, t2, u);
        },
        JournaledEdit::Lines { sheet_id, axis, before, count } => {
            let m = choose|m: StoreView|
                {
                    &&& #[trigger] between(m)
                    &&& batch_done(t2, ops, true, 0, m)
                    &&& op_done(m, nth_op(ops, true, 0), true, u)
                };
            lemma_lines_back(folds, s, t, t2, u, sheet_id, axis, before, count);
        },
        JournaledEdit::Formula { cell, had_formula, delta } => {
            let m = choose|m: StoreView|
                {
                    &&& #[trigger] between(m)
                    &&& batch_done(t2, ops, true, 0, m)
                    &&& op_done(m, nth_op(ops, true, 0), true, u)
                };
            lemma_delta_back(s, cell, had_formula, None, delta, t2, u);
            assert forall|other: CellRef| #[trigger] alike_at(folds, s, u, other) by {
                assert(alike_at(folds, t, t2, other));
                keys_name_their_cells(cell);
                keys_name_their_cells(other);
                lemma_read_lanes(s, other);
                lemma_read_lanes(t, other);
                lemma_read_lanes(t2, other);
                lemma_read_lanes(u, other);
            }
        },
        JournaledEdit::Value { cell, value, had_formula, delta, computed } => {
            let m = choose|m: StoreView|
                {
                    &&& #[trigger] between(m)
                    &&& batch_done(t2, ops, true, 1, m)
                    &&& op_done(m, nth_op(ops, true, 1), true, u)
                };
            let m0 = choose|m0: StoreView|
                {
                    &&& #[trigger] between(m0)
                    &&& batch_done(t2, ops, true, 0, m0)
                    &&& op_done(m0, nth_op(ops, true, 0), true, m)
                };
            lemma_computed_back(s, cell, computed_at(t, cell), computed, t2, m);
            lemma_delta_back(s, cell, had_formula, Some(value), delta, m, u);
            assert forall|other: CellRef| #[trigger] alike_at(folds, s, u, other) by {
                assert(alike_at(folds, t, t2, other));
                keys_name_their_cells(cell);
                keys_name_their_cells(other);
                lemma_read_lanes(s, other);
                lemma_read_lanes(t, other);
                lemma_read_lanes(t2, other);
                lemma_read_lanes(m, other);
                lemma_read_lanes(u, other);
            }
        },
    }
}

/// Undoing the end of a journal is undoing it by itself.
proof fn lemma_undo_end(t: StoreView, a: Seq<ArrowOp>, b: Seq<ArrowOp>, n: nat, u: StoreView)
    requires
        n <= b.len(),
        batch_done(t, a + b, true, n, u),
    ensures
        batch_done(t, b, true, n, u),
    decreases n,
{
    if n > 0 {
        let mid = choose|mid: StoreView|
            {
                &&& #[trigger] between(mid)
                &&& batch_done(t, a + b, true, (n - 1) as nat, mid)
                &&& is_possible(mid, nth_op(a + b, true, n - 1), true)
                &&& op_done(mid, nth_op(a + b, true, n - 1), true, u)
            };
        lemma_undo_end(t, a, b, (n - 1) as nat, mid);
        assert(nth_op(a + b, true, n - 1) == nth_op(b, true, n - 1));
        assert(between(mid));
    }
}

/// Undoing a journal is undoing its end and then the rest.
proof fn lemma_undo_parts(t: StoreView, a: Seq<ArrowOp>, b: Seq<ArrowOp>, n: nat, u: StoreView) -> (m:
    StoreView)
    requires
        n <= a.len(),
        batch_done(t, a + b, true, b.len() + n, u),
    ensures
        batch_done(t, b, true, b.len(), m),
        batch_done(m, a, true, n, u),
    decreases n,
{
    if n == 0 {
        lemma_undo_end(t, a, b, b.len(), u);
        u
    } else {
        let mid = choose|mid: StoreView|
            {
                &&& #[trigger] between(mid)
                &&& batch_done(t, a + b, true, (b.len() + n - 1) as nat, mid)
                &&& is_possible(mid, nth_op(a + b, true, b.len() + n - 1), true)
                &&& op_done(mid, nth_op(a + b, true, b.len() + n - 1), true, u)
            };
        let m = lemma_undo_parts(t, a, b, (n - 1) as nat, mid);
        assert(nth_op(a + b, true, b.len() + n - 1) == nth_op(a, true, n - 1));
        assert(between(mid));
        m
    }
}

proof fn lemma_edits_back(
    folds: bool,
    s: StoreView,
    edits: Seq<JournaledEdit>,
    n: nat,
    t: StoreView,
    t2: StoreView,
    u: StoreView,
)
    requires
        are_made(s, edits, n, t, folds),
        alike(folds, t, t2),
        batch_done(t2, journal(edits, n), true, journal(edits, n).len(), u),
    ensures
        alike(folds, s, u),
    decreases n,
{
    if n > 0 {
        let mid = choose|mid: StoreView|
            {
                &&& #[trigger] between(mid)
                &&& are_made(s, edits, (n - 1) as nat, mid, folds)
                &&& is_made(mid, edits[n - 1], t, folds)
            };
        let a = journal(edits, (n - 1) as nat);
        let b = ops_of(edits[n - 1]);
        assert((a + b).len() == b.len() + a.len());
        let m = lemma_undo_parts(t2, a, b, a.len(), u);
        lemma_edit_back(folds, mid, edits[n - 1], t, t2, m);
        lemma_edits_back(folds, s, edits, (n - 1) as nat, mid, m, u);
    }
}

/// An atomic action that fails is not seen: once its edits of values and formulas, those among them
/// that cleared a spilled array, and its insertions of lines are undone from the journal, every cell
/// reads as before. `folds` tells whether the storage may have been folded on the way.
pub proof fn a_rolled_back_action_is_not_seen(
    s: StoreView,
    edits: Seq<JournaledEdit>,
    folds: bool,
    t: StoreView,
    u: StoreView,
    cell: CellRef,
)
    requires
        are_made(s, edits, edits.len(), t, folds),
        batch_done(t, journal(edits, edits.len()), true, journal(edits, edits.len()).len(), u),
    ensures
        read(u, cell) == read(s, cell),
{
    assert forall|c: CellRef| #[trigger] alike_at(folds, t, t, c) by {}
    lemma_edits_back(folds, s, edits, edits.len(), t, t, u);
    assert(alike_at(folds, s, u, cell));
    lemma_read_lanes(s, cell);
    lemma_read_lanes(u, cell);
}

/// Whether the third one, which comes from the second by doing an action over again, shows what the
/// first one shows: the same beneath user edits, and a user edit of the first or the second one.
spec fn near_at(s: StoreView, u: StoreView, w: StoreView, cell: CellRef) -> bool {
    &&& bare(w, cell) == bare(u, cell)
    &&& beneath(w, cell) == beneath(s, cell)
    &&& lane_at(w.delta, cell) == lane_at(s.delta, cell) || lane_at(w.delta, cell) == lane_at(
        u.delta,
        cell,
    )
}

spec fn near(s: StoreView, u: StoreView, w: StoreView) -> bool {
    forall|cell: CellRef| #[trigger] near_at(s, u, w, cell)
}

/// Making lines once more that were taken back.
proof fn lemma_lines_again(
    folds: bool,
    s: StoreView,
    t: StoreView,
    t2: StoreView,
    m: StoreView,
    x: StoreView,
    w: StoreView,
    sheet_id: SheetId,
    axis: Axis,
    before: u32,
    count: u32,
)
    requires
        store_has_room(s, sheet_id, axis, before, count),
        lines_inserted(s, sheet_id, axis, before, count, t),
        op_done(t2, insert_op(sheet_id, axis, before, count), true, m),
        store_has_room(x, sheet_id, axis, before, count),
        lines_inserted(x, sheet_id, axis, before, count, w),
        near(s, m, x),
        alike(folds, t, t2),
    ensures
        near(t, t2, w),
{
    assert forall|cell: CellRef| #[trigger] near_at(t, t2, w, cell) by {
        assert(alike_at(folds, t, t2, cell));
        if is_deleted(cell, sheet_id, axis, before, count) {
            lemma_new_line(s.base, t.base, sheet_id, axis, before, count, cell);
            lemma_new_line(s.delta, t.delta, sheet_id, axis, before, count, cell);
            lemma_new_line(s.computed, t.computed, sheet_id, axis, before, count, cell);
            lemma_new_line(x.base, w.base, sheet_id, axis, before, count, cell);
            lemma_new_line(x.delta, w.delta, sheet_id, axis, before, count, cell);
            lemma_new_line(x.computed, w.computed, sheet_id, axis, before, count, cell);
        } else {
            let from = after_delete(cell, sheet_id, axis, before, count);
            assert(fits(from, sheet_id, axis, before, count));
            assert(after_insert(from, sheet_id, axis, before, count) == cell);
            lemma_inserted_at(s.base, t.base, sheet_id, axis, before, count, from);
            lemma_inserted_at(s.delta, t.delta, sheet_id, axis, before, count, from);
            lemma_inserted_at(s.computed, t.computed, sheet_id, axis, before, count, from);
            lemma_inserted_at(x.base, w.base, sheet_id, axis, before, count, from);
            lemma_inserted_at(x.delta, w.delta, sheet_id, axis, before, count, from);
            lemma_inserted_at(x.computed, w.computed, sheet_id, axis, before, count, from);
            lemma_deleted_at(t2.delta, m.delta, sheet_id, axis, before, count, from);
            lemma_deleted_at(t2.base, m.base, sheet_id, axis, before, count, from);
            assert(near_at(s, m, x, from));
        }
    }
}

/// A line that was inserted holds nothing.
proof fn lemma_new_line(
    s: Map<u128, OverlayValue>,
    t: Map<u128, OverlayValue>,
    sheet_id: SheetId,
    axis: Axis,
    before: u32,
    count: u32,
    cell: CellRef,
)
    requires
        is_inserted(s, t, sheet_id, axis, before, count),
        has_room(s, sheet_id, axis, before, count),
        is_deleted(cell, sheet_id, axis, before, count),
    ensures
        lane_at(t, cell) is None,
{
    if t.contains_key(spec_cell_key(cell)) {
        let c = lemma_insert_source(s, t, sheet_id, axis, before, count, spec_cell_key(cell));
        keys_name_their_cells(cell);
        keys_name_their_cells(after_insert(c, sheet_id, axis, before, count));
        assert(after_insert(c, sheet_id, axis, before, count) == cell);
    }
}

/// Making the change of a user edit once more.
proof fn lemma_delta_again(
    cell: CellRef,
    before: Option<ValueView>,
    after: Option<ValueView>,
    op: ArrowOp,
    t: StoreView,
    u: StoreView,
    v: Option<OverlayValue>,
)
    requires
        is_delta_op(op, cell, before, after),
        op_done(t, op, false, u),
        holds(after, v),
    ensures
        u.base == t.base,
        u.computed == t.computed,
        lane_at(u.delta, cell) == (match v {
            Some(x) => Some(literal_of(x)),
            None => None,
        }),
        forall|other: CellRef| other != cell ==> #[trigger] lane_at(u.delta, other) == lane_at(
            t.delta,
            other,
        ),
{
    let value = op->SetDeltaCell_new;
    let x = choose|x: Option<OverlayValue>|
        #![trigger stores_option(value, x)]
        stores_option(value, x) && u == (StoreView {
            delta: put(t.delta, spec_cell_key(cell), x),
            ..grown(t, cell)
        });
    assert forall|other: CellRef| other != cell implies #[trigger] lane_at(u.delta, other) == lane_at(
        t.delta,
        other,
    ) by {
        keys_name_their_cells(cell);
        keys_name_their_cells(other);
    }
    if let (Some(a), Some(y)) = (after, v) {
        reading_gives_back_what_was_stored(a, y);
        reading_gives_back_what_was_stored(a, x->Some_0);
    }
}

/// Making the change of a computed value once more.
proof fn lemma_computed_again(
    cell: CellRef,
    before: Option<ValueView>,
    s: StoreView,
    op: ArrowOp,
    t: StoreView,
    u: StoreView,
)
    requires
        is_computed_op(op, cell, before, computed_at(s, cell)),
        op_done(t, op, false, u),
    ensures
        u.base == t.base,
        u.delta == t.delta,
        lane_at(u.computed, cell) == computed_at(s, cell),
        forall|other: CellRef| other != cell ==> #[trigger] lane_at(u.computed, other) == lane_at(
            t.computed,
            other,
        ),
{
    let value = option_view(op->SetComputedCell_new);
    let v = choose|v: Option<OverlayValue>|
        #![trigger spec_put(t, cell, v)]
        holds(value, v) && u == spec_put(t, cell, v);
    assert forall|other: CellRef| other != cell implies #[trigger] lane_at(u.computed, other)
        == lane_at(t.computed, other) by {
        keys_name_their_cells(cell);
        keys_name_their_cells(other);
    }
    if computed_at(s, cell) is Some {
        lemma_read_again(s.computed[spec_cell_key(cell)], v->Some_0);
    }
}

/// Making an edit once more that was taken back: `t2` is where it was taken back from, `m` where that
/// led, and `x` where it is made once more.
proof fn lemma_edit_again(
    folds: bool,
    s: StoreView,
    e: JournaledEdit,
    t: StoreView,
    t2: StoreView,
    m: StoreView,
    x: StoreView,
    w: StoreView,
)
    requires
        is_made(s, e, t, folds),
        alike(folds, t, t2),
        batch_done(t2, ops_of(e), true, ops_of(e).len(), m),
        near(s, m, x),
        batch_done(x, ops_of(e), false, ops_of(e).len(), w),
    ensures
        near(t, t2, w),
{
    let ops = ops_of(e);
    match e {
        JournaledEdit::Lines { sheet_id, axis, before, count } => {
            let y = choose|y: StoreView|
                {
                    &&& #[trigger] between(y)
                    &&& batch_done(x, ops, false, 0, y)
                    &&& is_possible(y, nth_op(ops, false, 0), false)
                    &&& op_done(y, nth_op(ops, false, 0), false, w)
                };
            let z = choose|z: StoreView|
                {
                    &&& #[trigger] between(z)
                    &&& batch_done(t2, ops, true, 0, z)
                    &&& op_done(z, nth_op(ops, true, 0), true, m)
                };
            lemma_lines_again(folds, s, t, t2, m, x, w, sheet_id, axis, before, count);
        },
        JournaledEdit::Formula { cell, had_formula, delta } => {
            let y = choose|y: StoreView|
                {
                    &&& #[trigger] between(y)
                    &&& batch_done(x, ops, false, 0, y)
                    &&& op_done(y, nth_op(ops, false, 0), false, w)
                };
            let z = choose|z: StoreView|
                {
                    &&& #[trigger] between(z)
                    &&& batch_done(t2, ops, true, 0, z)
                    &&& op_done(z, nth_op(ops, true, 0), true, m)
                };
            lemma_delta_back(s, cell, had_formula, None, delta, t2, m);
            lemma_delta_again(cell, held_before(s, cell, had_formula), None, delta, x, w, None);
            assert forall|other: CellRef| #[trigger] near_at(t, t2, w, other) by {
                assert(near_at(s, m, x, other));
                assert(alike_at(folds, t, t2, other));
                keys_name_their_cells(cell);
                keys_name_their_cells(other);
            }
        },
        JournaledEdit::Value { cell, value, had_formula, delta, computed } => {
            let y = lemma_two_done(x, ops, false, w);
            let z = lemma_two_done(t2, ops, true, m);
            let v = choose|v: OverlayValue|
                stores(value, v) && t == #[trigger] with_edit(s, cell, v);
            lemma_computed_back(s, cell, computed_at(t, cell), computed, t2, z);
            lemma_delta_back(s, cell, had_formula, Some(value), delta, z, m);
            lemma_delta_again(
                cell,
                held_before(s, cell, had_formula),
                Some(value),
                delta,
                x,
                y,
                Some(v),
            );
            lemma_computed_again(cell, computed_at(s, cell), t, computed, y, w);
            assert forall|other: CellRef| #[trigger] near_at(t, t2, w, other) by {
                assert(near_at(s, m, x, other));
                assert(alike_at(folds, t, t2, other));
                keys_name_their_cells(cell);
                keys_name_their_cells(other);
            }
        },
        JournaledEdit::Cleared { snap, entry, cell, had_formula, ops } => {
            let a = lemma_first_done(x, ops, w);
            lemma_cleared_back(folds, s, snap, entry, cell, had_formula, ops, t, t2, m);
            lemma_tail_again(s, entry, cell, had_formula, ops, t, a, w);
            let view = snap@;
            let h = view.values.len() as int;
            let width = view.values[0].len() as int;
            lemma_cleared_op(s, snap, ops[0]);
            assert forall|other: CellRef| #[trigger] near_at(t, t2, w, other) by {
                assert(near_at(s, m, x, other));
                assert(alike_at(folds, t, t2, other));
                lemma_cleared_lanes(s, snap, entry, cell, t, folds, other);
                lemma_rect_back(
                    x,
                    view.target_cells[0],
                    h,
                    width,
                    blanks(view.values),
                    (h * width) as nat,
                    false,
                    a,
                    other,
                );
                lemma_blank(snap, a, other);
                lemma_outside_rect(snap, other);
                if view.target_cells.contains(other) {
                    assert(lane_at(m.delta, other) is None);
                    assert(lane_at(s.delta, other) is None) by {
                        let k = choose|k: int|
                            0 <= k < view.target_cells.len() && view.target_cells[k] == other;
                        assert(!s.delta.contains_key(spec_cell_key(view.target_cells[k])));
                    }
                }
            }
        },
    }
}

/// Two changes that are made or undone.
proof fn lemma_two_done(s: StoreView, ops: Seq<ArrowOp>, undo: bool, t: StoreView) -> (m: StoreView)
    requires
        ops.len() == 2,
        batch_done(s, ops, undo, 2, t),
    ensures
        op_done(s, nth_op(ops, undo, 0), undo, m),
        op_done(m, nth_op(ops, undo, 1), undo, t),
{
    reveal_with_fuel(batch_done, 3);
    let m = choose|m: StoreView|
        {
            &&& #[trigger] between(m)
            &&& batch_done(s, ops, undo, 1, m)
            &&& op_done(m, nth_op(ops, undo, 1), undo, t)
        };
    let m0 = choose|m0: StoreView|
        {
            &&& #[trigger] between(m0)
            &&& batch_done(s, ops, undo, 0, m0)
            &&& op_done(m0, nth_op(ops, undo, 0), undo, m)
        };
    assert(m0 == s);
    m
}

/// The first change of a journal and then the rest.
proof fn lemma_first_done(s: StoreView, ops: Seq<ArrowOp>, t: StoreView) -> (a: StoreView)
    requires
        ops.len() > 0,
        batch_done(s, ops, false, ops.len(), t),
    ensures
        op_done(s, ops[0], false, a),
        batch_done(a, ops.drop_first(), false, (ops.len() - 1) as nat, t),
{
    let first = seq![ops[0]];
    assert(ops =~= first + ops.drop_first());
    let a = lemma_redo_parts(s, first, ops.drop_first(), (ops.len() - 1) as nat, t);
    let m = choose|m: StoreView|
        {
            &&& #[trigger] between(m)
            &&& batch_done(s, first, false, 0, m)
            &&& op_done(m, nth_op(first, false, 0), false, a)
        };
    a
}

/// The last change that is undone of a journal, behind the others.
proof fn lemma_last_undone(t: StoreView, ops: Seq<ArrowOp>, u: StoreView) -> (a: StoreView)
    requires
        ops.len() > 0,
        batch_done(t, ops, true, ops.len(), u),
    ensures
        batch_done(t, ops.drop_first(), true, (ops.len() - 1) as nat, a),
        op_done(a, ops[0], true, u),
{
    let first = seq![ops[0]];
    assert(ops =~= first + ops.drop_first());
    let a = lemma_undo_parts(t, first, ops.drop_first(), 1, u);
    let m = choose|m: StoreView|
        {
            &&& #[trigger] between(m)
            &&& batch_done(a, first, true, 0, m)
            &&& op_done(m, nth_op(first, true, 0), true, u)
        };
    a
}

/// Making the changes of an edit once more that stand behind that of the array.
proof fn lemma_tail_again(
    s: StoreView,
    entry: ChangeEvent,
    cell: CellRef,
    had_formula: bool,
    ops: Seq<ArrowOp>,
    t: StoreView,
    a: StoreView,
    w: StoreView,
)
    requires
        ops.len() == 1 + edit_ops(entry),
        ends_in_edit(s, entry, cell, had_formula, ops, t),
        exists|mid: StoreView| #[trigger] between(mid) && change_redone(mid, entry, t),
        batch_done(a, ops.drop_first(), false, edit_ops(entry), w),
    ensures
        w.base == a.base,
        lane_at(w.delta, cell) == lane_at(t.delta, cell),
        entry is SetValue ==> lane_at(w.computed, cell) == lane_at(t.computed, cell),
        entry is SetFormula ==> lane_at(w.computed, cell) == lane_at(a.computed, cell),
        forall|other: CellRef|
            #![trigger lane_at(w.delta, other)]
            other != cell ==> lane_at(w.delta, other) == lane_at(a.delta, other),
        forall|other: CellRef|
            #![trigger lane_at(w.computed, other)]
            other != cell ==> lane_at(w.computed, other) == lane_at(a.computed, other),
{
    let tail = ops.drop_first();
    let mid = choose|mid: StoreView| #[trigger] between(mid) && change_redone(mid, entry, t);
    let held = held_before(s, cell, had_formula);
    if entry is SetValue {
        let value = entry->SetValue_new@;
        let y = lemma_two_done(a, tail, false, w);
        let v = choose|v: OverlayValue|
            stores(value, v) && t == #[trigger] with_edit(mid, cell, v);
        lemma_delta_again(cell, held, Some(value), tail[0], a, y, Some(v));
        lemma_computed_again(cell, computed_at(s, cell), t, tail[1], y, w);
    } else {
        let y = choose|y: StoreView|
            {
                &&& #[trigger] between(y)
                &&& batch_done(a, tail, false, 0, y)
                &&& op_done(y, nth_op(tail, false, 0), false, w)
            };
        lemma_delta_again(cell, held, None, tail[0], a, w, None);
    }
}

/// What the change of a cleared array does.
proof fn lemma_cleared_op(s: StoreView, snap: SpillSnapshot, op: ArrowOp)
    requires
        shows_array(s, snap@),
        is_spill_op(ChangeEvent::SpillCleared { before: snap }, Some(op)),
    ensures
        ({
            let h = snap@.values.len() as int;
            let w = snap@.values[0].len() as int;
            let corner = snap@.target_cells[0];
            &&& h * w > 0
            &&& forall|a: StoreView, b: StoreView|
                #![trigger op_done(a, op, true, b)]
                op_done(a, op, true, b) ==> rect_set(
                    a,
                    corner,
                    w,
                    snap@.values,
                    (h * w) as nat,
                    true,
                    b,
                )
            &&& forall|a: StoreView, b: StoreView|
                #![trigger op_done(a, op, false, b)]
                op_done(a, op, false, b) ==> rect_set(
                    a,
                    corner,
                    w,
                    blanks(snap@.values),
                    (h * w) as nat,
                    false,
                    b,
                )
        }),
{
    let h = snap@.values.len() as int;
    let w = snap@.values[0].len() as int;
    assert(h * w > 0) by (nonlinear_arith)
        requires
            h > 0,
            w > 0,
    ;
    assert(snap@.target_cells.len() > 0);
}

/// A cell that is no target of the array lies outside its rectangle, and a target lies in it.
proof fn lemma_outside_rect(snap: SpillSnapshot, cell: CellRef)
    requires
        snap@.target_cells == rect_cells(
            snap@.target_cells[0],
            snap@.values.len() as int,
            snap@.values[0].len() as int,
        ),
        snap@.values.len() * snap@.values[0].len() > 0,
    ensures
        ({
            let n = snap@.values.len() * snap@.values[0].len();
            let w = snap@.values[0].len() as int;
            snap@.target_cells.contains(cell) <==> exists|k: int|
                0 <= k < n && #[trigger] nth_cell(snap@.target_cells[0], w, k) == cell
        }),
{
    let n = snap@.values.len() * snap@.values[0].len();
    let w = snap@.values[0].len() as int;
    if snap@.target_cells.contains(cell) {
        let k = choose|k: int| 0 <= k < snap@.target_cells.len() && snap@.target_cells[k] == cell;
        assert(nth_cell(snap@.target_cells[0], w, k) == cell);
    }
    if exists|k: int| 0 <= k < n && #[trigger] nth_cell(snap@.target_cells[0], w, k) == cell {
        let k = choose|k: int|
            0 <= k < n && #[trigger] nth_cell(snap@.target_cells[0], w, k) == cell;
        assert(snap@.target_cells[k] == cell);
    }
}

/// Where blanks were put into the rectangle of the array, its cells show the empty value beneath user
/// edits.
proof fn lemma_blank(snap: SpillSnapshot, a: StoreView, cell: CellRef)
    requires
        snap@.values.len() * snap@.values[0].len() > 0,
        forall|k: int|
            #![trigger nth_cell(snap@.target_cells[0], snap@.values[0].len() as int, k)]
            0 <= k < snap@.values.len() * snap@.values[0].len() && nth_cell(
                snap@.target_cells[0],
                snap@.values[0].len() as int,
                k,
            ) == cell ==> exists|v: OverlayValue|
                #[trigger] stores(
                    value_at(
                        blanks(snap@.values),
                        k / snap@.values[0].len() as int,
                        k % snap@.values[0].len() as int,
                    ),
                    v,
                ) && lane_at(a.computed, cell) == Some(literal_of(v)),
    ensures
        (exists|k: int|
            0 <= k < snap@.values.len() * snap@.values[0].len() && #[trigger] nth_cell(
                snap@.target_cells[0],
                snap@.values[0].len() as int,
                k,
            ) == cell) ==> lane_at(a.computed, cell) == Some(ValueView::Empty),
{
    let w = snap@.values[0].len() as int;
    let n = snap@.values.len() * snap@.values[0].len();
    if exists|k: int| 0 <= k < n && #[trigger] nth_cell(snap@.target_cells[0], w, k) == cell {
        let k = choose|k: int|
            0 <= k < n && #[trigger] nth_cell(snap@.target_cells[0], w, k) == cell;
        let v = choose|v: OverlayValue|
            #[trigger] stores(value_at(blanks(snap@.values), k / w, k % w), v) && lane_at(
                a.computed,
                cell,
            ) == Some(literal_of(v));
        assert(value_at(blanks(snap@.values), k / w, k % w) == ValueView::Empty);
        lemma_read_again(OverlayValue::Empty, v);
    }
}

/// Clearing an array leaves its cells empty beneath user edits. Where that does not fold the storage,
/// the base values stay.
proof fn lemma_writes_clear(
    s: StoreView,
    writes: Seq<(CellRef, ValueView)>,
    n: nat,
    t: StoreView,
    cell: CellRef,
)
    requires
        n <= writes.len(),
        writes_done(s, writes, n, t),
        forall|i: int| 0 <= i < n ==> (#[trigger] writes[i]).1 == ValueView::Empty,
        s.compactions < u64::MAX || exists|i: int| 0 <= i < n && (#[trigger] writes[i]).0 == cell,
    ensures
        (exists|i: int| 0 <= i < n && (#[trigger] writes[i]).0 == cell) ==> beneath(t, cell)
            == ValueView::Empty,
        s.compactions < u64::MAX ==> t.compactions >= s.compactions,
        s.compactions < u64::MAX && t.compactions == s.compactions ==> t.base == s.base,
    decreases n,
{
    if n > 0 {
        let (mid, v) = choose|mid: StoreView, v: OverlayValue|
            {
                &&& writes_done(s, writes, (n - 1) as nat, mid)
                &&& stores(writes[n - 1].1, v)
                &&& t == #[trigger] with_computed(mid, writes[n - 1].0, v)
            };
        keys_name_their_cells(cell);
        keys_name_their_cells(writes[n - 1].0);
        lemma_read_again(OverlayValue::Empty, v);
        if writes[n - 1].0 != cell || s.compactions < u64::MAX {
            if exists|i: int| 0 <= i < n && (#[trigger] writes[i]).0 == cell {
                let i = choose|i: int| 0 <= i < n && (#[trigger] writes[i]).0 == cell;
                assert(i < n - 1 ==> writes[i].0 == cell);
            }
            lemma_writes_clear(s, writes, (n - 1) as nat, mid, cell);
        }
    }
}

/// What an edit that clears an array does to a cell.
proof fn lemma_cleared_lanes(
    s: StoreView,
    snap: SpillSnapshot,
    entry: ChangeEvent,
    cell: CellRef,
    t: StoreView,
    folds: bool,
    other: CellRef,
)
    requires
        entry is SetValue || entry is SetFormula,
        entry matches ChangeEvent::SetValue { cell: c, .. } ==> c == cell,
        entry matches ChangeEvent::SetFormula { cell: c, .. } ==> c == cell,
        store_redone(s, seq![ChangeEvent::SpillCleared { before: snap }, entry], 2, t),
        is_unfolded_or_held(s, snap@, t, folds),
    ensures
        !folds ==> t.base == s.base,
        other != cell ==> lane_at(t.delta, other) == lane_at(s.delta, other),
        entry is SetFormula ==> lane_at(t.delta, cell) is None,
        entry is SetValue ==> lane_at(t.computed, cell) is None,
        other != cell || entry is SetFormula ==> beneath(t, other) == (
        if snap@.target_cells.contains(other) {
            ValueView::Empty
        } else {
            beneath(s, other)
        }),
        !snap@.target_cells.contains(other) && lane_at(s.computed, other) is None ==> {
            &&& lane_at(t.computed, other) is None
            &&& bare(t, other) == bare(s, other)
        },
        exists|mid: StoreView| #[trigger] between(mid) && change_redone(mid, entry, t),
{
    let events = seq![ChangeEvent::SpillCleared { before: snap }, entry];
    let cleared = snapshot_writes(snap@, true);
    let mid = choose|mid: StoreView|
        {
            &&& #[trigger] between(mid)
            &&& store_redone(s, events, 1, mid)
            &&& change_redone(mid, events[1], t)
        };
    let first = choose|first: StoreView|
        {
            &&& #[trigger] between(first)
            &&& store_redone(s, events, 0, first)
            &&& change_redone(first, events[0], mid)
        };
    assert(between(mid) && change_redone(mid, entry, t));
    if entry is SetValue {
        let v = choose|v: OverlayValue|
            stores(entry->SetValue_new@, v) && t == #[trigger] with_edit(mid, cell, v);
    }
    lemma_writes_delta(s, cleared, cleared.len(), mid);
    keys_name_their_cells(cell);
    keys_name_their_cells(other);
    if snap@.target_cells.contains(other) {
        let i = choose|i: int| 0 <= i < snap@.target_cells.len() && snap@.target_cells[i] == other;
        assert(cleared[i].0 == other);
    } else {
        assert forall|i: int| 0 <= i < cleared.len() implies (#[trigger] cleared[i]).0 != other by {
            assert(snap@.target_cells[i] != other);
        }
        lemma_writes_keep(s, cleared, cleared.len(), mid, other);
    }
    if !folds || snap@.target_cells.contains(other) {
        lemma_writes_clear(s, cleared, cleared.len(), mid, other);
    }
}

/// Undoing the changes of an edit that stand behind that of the array.
proof fn lemma_tail_back(
    s: StoreView,
    entry: ChangeEvent,
    cell: CellRef,
    had_formula: bool,
    ops: Seq<ArrowOp>,
    t: StoreView,
    t2: StoreView,
    a: StoreView,
)
    requires
        ops.len() == 1 + edit_ops(entry),
        ends_in_edit(s, entry, cell, had_formula, ops, t),
        batch_done(t2, ops.drop_first(), true, edit_ops(entry), a),
    ensures
        a.base == t2.base,
        lane_at(a.delta, cell) == held_before(s, cell, had_formula),
        entry is SetValue ==> lane_at(a.computed, cell) == computed_at(s, cell),
        entry is SetFormula ==> lane_at(a.computed, cell) == lane_at(t2.computed, cell),
        forall|other: CellRef|
            #![trigger lane_at(a.delta, other)]
            other != cell ==> lane_at(a.delta, other) == lane_at(t2.delta, other),
        forall|other: CellRef|
            #![trigger lane_at(a.computed, other)]
            other != cell ==> lane_at(a.computed, other) == lane_at(t2.computed, other),
{
    let tail = ops.drop_first();
    if entry is SetValue {
        let z = lemma_two_done(t2, tail, true, a);
        lemma_computed_back(s, cell, computed_at(t, cell), tail[1], t2, z);
        lemma_delta_back(s, cell, had_formula, Some(entry->SetValue_new@), tail[0], z, a);
    } else {
        let z = choose|z: StoreView|
            {
                &&& #[trigger] between(z)
                &&& batch_done(t2, tail, true, 0, z)
                &&& op_done(z, nth_op(tail, true, 0), true, a)
            };
        lemma_delta_back(s, cell, had_formula, None, tail[0], t2, a);
    }
}

/// Undoing an edit that cleared an array: the array comes back, with no user edit over it.
proof fn lemma_cleared_back(
    folds: bool,
    s: StoreView,
    snap: SpillSnapshot,
    entry: ChangeEvent,
    cell: CellRef,
    had_formula: bool,
    ops: Seq<ArrowOp>,
    t: StoreView,
    t2: StoreView,
    u: StoreView,
)
    requires
        is_made(s, JournaledEdit::Cleared { snap, entry, cell, had_formula, ops }, t, folds),
        alike(folds, t, t2),
        batch_done(t2, ops, true, ops.len(), u),
    ensures
        u.base == t2.base,
        alike(folds, s, u),
        forall|other: CellRef|
            #![trigger lane_at(u.delta, other)]
            snap@.target_cells.contains(other) ==> lane_at(u.delta, other) is None,
        forall|other: CellRef|
            #![trigger lane_at(u.delta, other)]
            !snap@.target_cells.contains(other) && other != cell ==> lane_at(u.delta, other)
                == lane_at(t2.delta, other),
{
    let a = lemma_last_undone(t2, ops, u);
    let view = snap@;
    let h = view.values.len() as int;
    let w = view.values[0].len() as int;
    lemma_cleared_op(s, snap, ops[0]);
    lemma_tail_back(s, entry, cell, had_formula, ops, t, t2, a);
    lemma_rect_back(
        a,
        view.target_cells[0],
        h,
        w,
        view.values,
        (h * w) as nat,
        true,
        u,
        cell,
    );
    assert forall|other: CellRef| #![trigger lane_at(u.delta, other)]
        {
            &&& alike_at(folds, s, u, other)
            &&& view.target_cells.contains(other) ==> lane_at(u.delta, other) is None
            &&& !view.target_cells.contains(other) && other != cell ==> lane_at(u.delta, other)
                == lane_at(t2.delta, other)
        } by {
        assert(alike_at(folds, t, t2, other));
        lemma_cleared_lanes(s, snap, entry, cell, t, folds, other);
        lemma_rect_back(
            a,
            view.target_cells[0],
            h,
            w,
            view.values,
            (h * w) as nat,
            true,
            u,
            other,
        );
        lemma_outside_rect(snap, other);
        keys_name_their_cells(cell);
        keys_name_their_cells(other);
        lemma_read_lanes(s, other);
        lemma_read_lanes(t, other);
        lemma_read_lanes(t2, other);
        lemma_read_lanes(u, other);
        if view.target_cells.contains(other) {
            let k = choose|k: int|
                0 <= k < h * w && #[trigger] nth_cell(view.target_cells[0], w, k) == other;
            lemma_index_bounds(k, h, w);
            assert(view.target_cells[k] == other);
            assert(view.values[k / w].len() == w);
            let v = choose|v: OverlayValue|
                #[trigger] stores(value_at(view.values, k / w, k % w), v) && lane_at(
                    u.computed,
                    other,
                ) == Some(literal_of(v));
            lemma_read_again(stored(s, other), v);
        }
    }
    assert forall|other: CellRef| #[trigger] alike_at(folds, s, u, other) by {
        assert(lane_at(u.delta, other) == lane_at(u.delta, other));
    }
}

/// Doing the beginning of a journal is doing it by itself.
proof fn lemma_redo_begin(s: StoreView, a: Seq<ArrowOp>, b: Seq<ArrowOp>, n: nat, t: StoreView)
    requires
        n <= a.len(),
        batch_done(s, a + b, false, n, t),
    ensures
        batch_done(s, a, false, n, t),
    decreases n,
{
    if n > 0 {
        let mid = choose|mid: StoreView|
            {
                &&& #[trigger] between(mid)
                &&& batch_done(s, a + b, false, (n - 1) as nat, mid)
                &&& is_possible(mid, nth_op(a + b, false, n - 1), false)
                &&& op_done(mid, nth_op(a + b, false, n - 1), false, t)
            };
        lemma_redo_begin(s, a, b, (n - 1) as nat, mid);
        assert(nth_op(a + b, false, n - 1) == nth_op(a, false, n - 1));
        assert(between(mid));
    }
}

/// Doing a journal is doing its beginning and then the rest.
proof fn lemma_redo_parts(s: StoreView, a: Seq<ArrowOp>, b: Seq<ArrowOp>, n: nat, t: StoreView) -> (m:
    StoreView)
    requires
        n <= b.len(),
        batch_done(s, a + b, false, a.len() + n, t),
    ensures
        batch_done(s, a, false, a.len(), m),
        batch_done(m, b, false, n, t),
    decreases n,
{
    if n == 0 {
        lemma_redo_begin(s, a, b, a.len(), t);
        t
    } else {
        let mid = choose|mid: StoreView|
            {
                &&& #[trigger] between(mid)
                &&& batch_done(s, a + b, false, (a.len() + n - 1) as nat, mid)
                &&& is_possible(mid, nth_op(a + b, false, a.len() + n - 1), false)
                &&& op_done(mid, nth_op(a + b, false, a.len() + n - 1), false, t)
            };
        let m = lemma_redo_parts(s, a, b, (n - 1) as nat, mid);
        assert(nth_op(a + b, false, a.len() + n - 1) == nth_op(b, false, n - 1));
        assert(between(mid));
        m
    }
}

proof fn lemma_edits_again(
    folds: bool,
    s: StoreView,
    edits: Seq<JournaledEdit>,
    n: nat,
    t: StoreView,
    t2: StoreView,
    u: StoreView,
    w: StoreView,
)
    requires
        are_made(s, edits, n, t, folds),
        alike(folds, t, t2),
        batch_done(t2, journal(edits, n), true, journal(edits, n).len(), u),
        batch_done(u, journal(edits, n), false, journal(edits, n).len(), w),
    ensures
        near(t, t2, w),
    decreases n,
{
    if n == 0 {
        assert forall|cell: CellRef| #[trigger] near_at(t, t2, w, cell) by {
            assert(alike_at(folds, t, t2, cell));
        }
    } else {
        let mid = choose|mid: StoreView|
            {
                &&& #[trigger] between(mid)
                &&& are_made(s, edits, (n - 1) as nat, mid, folds)
                &&& is_made(mid, edits[n - 1], t, folds)
            };
        let a = journal(edits, (n - 1) as nat);
        let b = ops_of(edits[n - 1]);
        assert((a + b).len() == a.len() + b.len());
        assert((a + b).len() == b.len() + a.len());
        let m = lemma_undo_parts(t2, a, b, a.len(), u);
        let x = lemma_redo_parts(u, a, b, b.len(), w);
        lemma_edit_back(folds, mid, edits[n - 1], t, t2, m);
        lemma_edits_again(folds, s, edits, (n - 1) as nat, mid, m, u, x);
        lemma_edit_again(folds, mid, edits[n - 1], t, t2, m, x, w);
    }
}

/// An action that is undone and then done over again is seen as before: every cell reads as it did
/// after the action.
pub proof fn a_redone_action_is_seen_again(
    s: StoreView,
    edits: Seq<JournaledEdit>,
    folds: bool,
    t: StoreView,
    u: StoreView,
    w: StoreView,
    cell: CellRef,
)
    requires
        are_made(s, edits, edits.len(), t, folds),
        batch_done(t, journal(edits, edits.len()), true, journal(edits, edits.len()).len(), u),
        batch_done(u, journal(edits, edits.len()), false, journal(edits, edits.len()).len(), w),
    ensures
        read(w, cell) == read(t, cell),
{
    assert forall|c: CellRef| #[trigger] alike_at(folds, t, t, c) by {}
    lemma_edits_again(folds, s, edits, edits.len(), t, t, u, w);
    assert(near_at(t, t, w, cell));
    lemma_read_lanes(t, cell);
    lemma_read_lanes(w, cell);
}

/// How many changes an edit of a cell leaves in the journal behind those of spilled arrays.
pub open spec fn edit_ops(entry: ChangeEvent) -> nat {
    if entry is SetValue {
        2
    } else {
        1
    }
}

/// Whether the journal ends in the changes of an edit of the cell.
pub open spec fn ends_in_edit(
    s: StoreView,
    entry: ChangeEvent,
    cell: CellRef,
    had_formula: bool,
    after: Seq<ArrowOp>,
    t: StoreView,
) -> bool {
    let held = held_before(s, cell, had_formula);
    match entry {
        ChangeEvent::SetValue { cell: c, new, .. } => {
            &&& c == cell
            &&& is_delta_op(after[after.len() - 2], cell, held, Some(new@))
            &&& is_computed_op(after.last(), cell, computed_at(s, cell), computed_at(t, cell))
        },
        ChangeEvent::SetFormula { cell: c, .. } => c == cell && is_delta_op(
            after.last(),
            cell,
            held,
            None,
        ),
        _ => false,
    }
}

/// Whether the cell shows the same beneath its user edit, and has no computed value that it had not.
spec fn kept_beneath(s: StoreView, t: StoreView, cell: CellRef) -> bool {
    &&& beneath(s, cell) == beneath(t, cell)
    &&& lane_at(s.computed, cell) is None ==> lane_at(t.computed, cell) is None
}

/// Writing computed values changes no other cell.
proof fn lemma_writes_keep(
    s: StoreView,
    writes: Seq<(CellRef, ValueView)>,
    n: nat,
    t: StoreView,
    cell: CellRef,
)
    requires
        n <= writes.len(),
        writes_done(s, writes, n, t),
        forall|i: int| 0 <= i < n ==> (#[trigger] writes[i]).0 != cell,
    ensures
        t.delta == s.delta,
        kept_beneath(s, t, cell),
    decreases n,
{
    if n > 0 {
        let (mid, v) = choose|mid: StoreView, v: OverlayValue|
            {
                &&& writes_done(s, writes, (n - 1) as nat, mid)
                &&& stores(writes[n - 1].1, v)
                &&& t == #[trigger] with_computed(mid, writes[n - 1].0, v)
            };
        lemma_writes_keep(s, writes, (n - 1) as nat, mid, cell);
        keys_name_their_cells(cell);
        keys_name_their_cells(writes[n - 1].0);
    }
}

proof fn lemma_writes_delta(s: StoreView, writes: Seq<(CellRef, ValueView)>, n: nat, t: StoreView)
    requires
        n <= writes.len(),
        writes_done(s, writes, n, t),
    ensures
        t.delta == s.delta,
    decreases n,
{
    if n > 0 {
        let (mid, v) = choose|mid: StoreView, v: OverlayValue|
            {
                &&& writes_done(s, writes, (n - 1) as nat, mid)
                &&& stores(writes[n - 1].1, v)
                &&& t == #[trigger] with_computed(mid, writes[n - 1].0, v)
            };
        lemma_writes_delta(s, writes, (n - 1) as nat, mid);
    }
}

/// Different places of a rectangle are different cells.
proof fn lemma_places_differ(corner: CellRef, height: int, width: int, i: int, j: int)
    requires
        0 <= i < j < height * width,
        0 < width,
        corner.row + height <= u32::MAX + 1,
        corner.col + width <= u32::MAX + 1,
    ensures
        nth_cell(corner, width, i) != nth_cell(corner, width, j),
{
    lemma_index_bounds(i, height, width);
    lemma_index_bounds(j, height, width);
}

/// Setting a rectangle sets each of its cells, and no other.
proof fn lemma_rect_back(
    s: StoreView,
    corner: CellRef,
    height: int,
    width: int,
    rows: Seq<Seq<ValueView>>,
    n: nat,
    bare: bool,
    t: StoreView,
    cell: CellRef,
)
    requires
        n <= height * width,
        0 < width,
        corner.row + height <= u32::MAX + 1,
        corner.col + width <= u32::MAX + 1,
        rect_set(s, corner, width, rows, n, bare, t),
    ensures
        t.base == s.base,
        !bare ==> t.delta == s.delta,
        bare ==> forall|k: int|
            0 <= k < n && #[trigger] nth_cell(corner, width, k) == cell ==> lane_at(
                t.delta,
                cell,
            ) is None,
        (forall|k: int| 0 <= k < n ==> #[trigger] nth_cell(corner, width, k) != cell) ==> lane_at(
            t.delta,
            cell,
        ) == lane_at(s.delta, cell),
        forall|k: int|
            #![trigger nth_cell(corner, width, k)]
            0 <= k < n && nth_cell(corner, width, k) == cell ==> exists|v: OverlayValue|
                #[trigger] stores(value_at(rows, k / width, k % width), v) && lane_at(
                    t.computed,
                    cell,
                ) == Some(literal_of(v)),
        (forall|k: int| 0 <= k < n ==> #[trigger] nth_cell(corner, width, k) != cell) ==> lane_at(
            t.computed,
            cell,
        ) == lane_at(s.computed, cell),
    decreases n,
{
    if n > 0 {
        let last = n - 1;
        let here = nth_cell(corner, width, last);
        let value = value_at(rows, last / width, last % width);
        let mid = choose|mid: StoreView|
            {
                &&& #[trigger] between(mid)
                &&& rect_set(s, corner, width, rows, (n - 1) as nat, bare, mid)
                &&& computed_set(bared(mid, here, bare), here, Some(value), t)
            };
        lemma_rect_back(s, corner, height, width, rows, (n - 1) as nat, bare, mid, cell);
        let v = choose|v: Option<OverlayValue>|
            #![trigger spec_put(bared(mid, here, bare), here, v)]
            holds(Some(value), v) && t == spec_put(bared(mid, here, bare), here, v);
        keys_name_their_cells(cell);
        keys_name_their_cells(here);
        assert forall|k: int|
            #![trigger nth_cell(corner, width, k)]
            0 <= k < n && nth_cell(corner, width, k) == cell implies exists|v: OverlayValue|
            #[trigger] stores(value_at(rows, k / width, k % width), v) && lane_at(t.computed, cell)
                == Some(literal_of(v)) by {
            if k == last {
                assert(stores(value, v->Some_0));
            } else {
                lemma_places_differ(corner, height, width, k, last);
                assert(lane_at(t.computed, cell) == lane_at(mid.computed, cell));
            }
        }
    }
}

/// Undoing the changes that an edit of a cell leaves behind those of the array that it cleared.
proof fn lemma_cleared_edit_back(
    s: StoreView,
    mid: StoreView,
    entry: ChangeEvent,
    cell: CellRef,
    had_formula: bool,
    ops: Seq<ArrowOp>,
    t: StoreView,
    u: StoreView,
    other: CellRef,
)
    requires
        mid.delta == s.delta,
        change_redone(mid, entry, t),
        ops.len() == 1 + edit_ops(entry),
        ends_in_edit(s, entry, cell, had_formula, ops, t),
        batch_done(t, ops, true, edit_ops(entry), u),
    ensures
        lane_at(u.delta, cell) == held_before(s, cell, had_formula),
        other != cell ==> lane_at(u.delta, other) == lane_at(s.delta, other),
        kept_beneath(s, mid, other) ==> beneath(u, other) == beneath(s, other),
{
    keys_name_their_cells(cell);
    keys_name_their_cells(other);
    if entry is SetValue {
        let m = choose|m: StoreView|
            {
                &&& #[trigger] between(m)
                &&& batch_done(t, ops, true, 1, m)
                &&& op_done(m, nth_op(ops, true, 1), true, u)
            };
        let m0 = choose|m0: StoreView|
            {
                &&& #[trigger] between(m0)
                &&& batch_done(t, ops, true, 0, m0)
                &&& op_done(m0, nth_op(ops, true, 0), true, m)
            };
        lemma_computed_back(s, cell, computed_at(t, cell), ops[2], t, m);
        lemma_delta_back(s, cell, had_formula, Some(entry->SetValue_new@), ops[1], m, u);
    } else {
        let m = choose|m: StoreView|
            {
                &&& #[trigger] between(m)
                &&& batch_done(t, ops, true, 0, m)
                &&& op_done(m, nth_op(ops, true, 0), true, u)
            };
        lemma_delta_back(s, cell, had_formula, None, ops[1], t, u);
    }
}

/// An array that an edit cleared comes back: once the edit of a cell and the clearing of the array are
/// undone from the journal, every cell reads as before.
pub proof fn a_cleared_array_comes_back(
    s: StoreView,
    snap: SpillSnapshot,
    entry: ChangeEvent,
    cell: CellRef,
    had_formula: bool,
    before: Seq<ArrowOp>,
    after: Seq<ArrowOp>,
    t: StoreView,
    u: StoreView,
    other: CellRef,
)
    requires
        shows_array(s, snap@),
        had_formula ==> !s.delta.contains_key(spec_cell_key(cell)),
        store_redone(s, seq![ChangeEvent::SpillCleared { before: snap }, entry], 2, t),
        journal_grew(
            before,
            seq![ChangeEvent::SpillCleared { before: snap }, entry],
            edit_ops(entry),
            after,
        ),
        ends_in_edit(s, entry, cell, had_formula, after, t),
        batch_done(
            t,
            after.skip(before.len() as int),
            true,
            after.skip(before.len() as int).len(),
            u,
        ),
    ensures
        read(u, other) == read(s, other),
{
    let events = seq![ChangeEvent::SpillCleared { before: snap }, entry];
    let view = snap@;
    let h = view.values.len() as int;
    let w = view.values[0].len() as int;
    let corner = view.target_cells[0];
    let cleared = snapshot_writes(view, true);
    let ops = lemma_cleared_journal(s, snap, entry, cell, had_formula, before, after, t);
    let mid = choose|mid: StoreView|
        {
            &&& #[trigger] between(mid)
            &&& store_redone(s, events, 1, mid)
            &&& change_redone(mid, events[1], t)
        };
    let first = choose|first: StoreView|
        {
            &&& #[trigger] between(first)
            &&& store_redone(s, events, 0, first)
            &&& change_redone(first, events[0], mid)
        };
    assert(h * w > 0) by (nonlinear_arith)
        requires
            h > 0,
            w > 0,
    ;
    let m = choose|m: StoreView|
        {
            &&& #[trigger] between(m)
            &&& batch_done(t, ops, true, edit_ops(entry), m)
            &&& op_done(m, nth_op(ops, true, edit_ops(entry) as int), true, u)
        };
    lemma_writes_delta(s, cleared, cleared.len(), mid);
    lemma_cleared_edit_back(s, mid, entry, cell, had_formula, ops, t, m, other);
    lemma_rect_back(m, corner, h, w, view.values, (h * w) as nat, true, u, other);
    lemma_read_lanes(s, other);
    lemma_read_lanes(u, other);
    lemma_read_lanes(s, cell);
    if exists|k: int| 0 <= k < h * w && #[trigger] nth_cell(corner, w, k) == other {
        let k = choose|k: int| 0 <= k < h * w && #[trigger] nth_cell(corner, w, k) == other;
        lemma_index_bounds(k, h, w);
        assert(view.target_cells[k] == other);
        let v = choose|v: OverlayValue|
            #[trigger] stores(value_at(view.values, k / w, k % w), v) && lane_at(u.computed, other)
                == Some(literal_of(v));
        assert(view.values[k / w].len() == w);
        lemma_read_again(stored(s, other), v);
    } else {
        assert forall|i: int| 0 <= i < cleared.len() implies (#[trigger] cleared[i]).0 != other by {
            assert(nth_cell(corner, w, i) != other);
        }
        lemma_writes_keep(s, cleared, cleared.len(), mid, other);
    }
}

/// Whether the entry of the change log knows how the hidden rows were before it: it was taken down as
/// it happened.
pub open spec fn knows_before(h: HiddenRows, ev: ChangeEvent) -> bool {
    match ev {
        ChangeEvent::SetRowVisibility(e) => e.old_hidden == is_hidden(
            h,
            e.sheet_id,
            e.row,
            e.source,
        ),
        ChangeEvent::RowsInserted { sheet_id, before, count } => has_room(
            h,
            sheet_id,
            Axis::Rows,
            before,
            count,
        ),
        _ => true,
    }
}

/// Whether the entries lead from the first hidden rows to the second, and were taken down as they
/// happened.
pub open spec fn are_followed(h: HiddenRows, events: Seq<ChangeEvent>, after: HiddenRows) -> bool {
    &&& forall|i: int|
        0 <= i < events.len() ==> knows_before(
            hidden_redone(h, events, i as nat),
            #[trigger] events[i],
        )
    &&& after == hidden_redone(h, events, events.len())
}

/// Rows that are hidden or shown inside an atomic action leave entries that lead from the hidden rows
/// before to those after.
pub proof fn hidden_rows_are_followed(
    h: HiddenRows,
    sheet_id: SheetId,
    start: u32,
    n: nat,
    hidden: bool,
    source: RowVisibilitySource,
)
    requires
        start + n <= u32::MAX + 1,
    ensures
        are_followed(
            h,
            hidden_entries(h, sheet_id, start, n, hidden, source),
            hidden_until(h, sheet_id, start, n, hidden, source),
        ),
    decreases n,
{
    if n > 0 {
        let m = (n - 1) as nat;
        let row = (start + m) as u32;
        let before = hidden_entries(h, sheet_id, start, m, hidden, source);
        let mid = hidden_until(h, sheet_id, start, m, hidden, source);
        hidden_rows_are_followed(h, sheet_id, start, m, hidden, source);
        lemma_row_ahead(h, sheet_id, start, m, hidden, source, row);
        if is_hidden(h, sheet_id, row, source) != hidden {
            let last = hidden_entries(h, sheet_id, start, n, hidden, source).last();
            lemma_one_followed(mid, last);
            entries_are_followed_in_turn(h, before, mid, seq![last], hidden_step(mid, last, false));
            assert(before + seq![last] =~= before.push(last));
        }
    }
}

/// Lines that are inserted inside an atomic action leave an entry that leads from the hidden rows
/// before to those after.
pub proof fn inserted_lines_are_followed(
    v: EngineView,
    sheet_id: SheetId,
    axis: Axis,
    before: u32,
    count: u32,
    w: EngineView,
)
    requires
        insertable(v, Seq::empty(), sheet_id, axis, before, count),
        inserted_after(v, Seq::empty(), sheet_id, axis, before, count, w),
    ensures
        are_followed(v.hidden, insert_entry(sheet_id, axis, before, count), w.hidden),
{
    if axis == Axis::Rows {
        lemma_one_followed(v.hidden, ChangeEvent::RowsInserted { sheet_id, before, count });
    }
}

proof fn lemma_one_followed(h: HiddenRows, ev: ChangeEvent)
    requires
        knows_before(h, ev),
    ensures
        are_followed(h, seq![ev], hidden_step(h, ev, false)),
{
    assert(hidden_redone(h, seq![ev], 0) == h);
    assert(hidden_redone(h, seq![ev], 1) == hidden_step(hidden_redone(h, seq![ev], 0), ev, false));
}

proof fn lemma_redone_begin(h: HiddenRows, a: Seq<ChangeEvent>, b: Seq<ChangeEvent>, n: nat)
    requires
        n <= a.len(),
    ensures
        hidden_redone(h, a + b, n) == hidden_redone(h, a, n),
    decreases n,
{
    if n > 0 {
        lemma_redone_begin(h, a, b, (n - 1) as nat);
    }
}

proof fn lemma_redone_rest(h: HiddenRows, a: Seq<ChangeEvent>, b: Seq<ChangeEvent>, n: nat)
    requires
        n <= b.len(),
    ensures
        hidden_redone(h, a + b, a.len() + n) == hidden_redone(hidden_redone(h, a, a.len()), b, n),
    decreases n,
{
    if n == 0 {
        lemma_redone_begin(h, a, b, a.len());
    } else {
        lemma_redone_rest(h, a, b, (n - 1) as nat);
        assert((a + b)[a.len() + n - 1] == b[n - 1]);
    }
}

/// Entries that lead on from where others lead to can be followed behind them.
pub proof fn entries_are_followed_in_turn(
    h: HiddenRows,
    a: Seq<ChangeEvent>,
    mid: HiddenRows,
    b: Seq<ChangeEvent>,
    after: HiddenRows,
)
    requires
        are_followed(h, a, mid),
        are_followed(mid, b, after),
    ensures
        are_followed(h, a + b, after),
{
    let all = a + b;
    lemma_redone_rest(h, a, b, b.len());
    assert forall|i: int| 0 <= i < all.len() implies knows_before(
        hidden_redone(h, all, i as nat),
        #[trigger] all[i],
    ) by {
        if i < a.len() {
            lemma_redone_begin(h, a, b, i as nat);
            assert(all[i] == a[i]);
        } else {
            lemma_redone_rest(h, a, b, (i - a.len()) as nat);
            assert(all[i] == b[i - a.len()]);
        }
    }
}

/// Undoing an entry gives back the hidden rows before it.
proof fn lemma_hidden_step_back(h: HiddenRows, ev: ChangeEvent)
    requires
        is_marked(h),
        keyed_by_cells(h),
        knows_before(h, ev),
    ensures
        hidden_step(hidden_step(h, ev, false), ev, true) == h,
        is_marked(hidden_step(h, ev, false)),
        keyed_by_cells(hidden_step(h, ev, false)),
{
    match ev {
        ChangeEvent::SetRowVisibility(e) => {
            let k = row_key(e.sheet_id, e.row, e.source);
            let cell = CellRef {
                sheet_id: e.sheet_id,
                row: e.row,
                col: match e.source {
                    RowVisibilitySource::Manual => 0,
                    RowVisibilitySource::Filter => 1,
                },
            };
            keys_name_their_cells(cell);
            assert(is_cell_key(k));
            assert(hidden_step(hidden_step(h, ev, false), ev, true) =~= h);
        },
        ChangeEvent::RowsInserted { sheet_id, before, count } => {
            deleting_new_rows_brings_back_hidden_rows(h, sheet_id, before, count);
        },
        _ => {},
    }
}

proof fn lemma_hidden_back(h: HiddenRows, events: Seq<ChangeEvent>, n: nat)
    requires
        is_marked(h),
        keyed_by_cells(h),
        are_followed(h, events, hidden_redone(h, events, events.len())),
        n <= events.len(),
    ensures
        hidden_undone(hidden_redone(h, events, events.len()), events, n) == hidden_redone(
            h,
            events,
            n,
        ),
    decreases events.len() - n,
{
    if n < events.len() {
        lemma_hidden_back(h, events, n + 1);
        lemma_hidden_marked(h, events, n);
        assert(knows_before(hidden_redone(h, events, n), events[n as int]));
        lemma_hidden_step_back(hidden_redone(h, events, n), events[n as int]);
    }
}

proof fn lemma_hidden_marked(h: HiddenRows, events: Seq<ChangeEvent>, n: nat)
    requires
        is_marked(h),
        keyed_by_cells(h),
        are_followed(h, events, hidden_redone(h, events, events.len())),
        n <= events.len(),
    ensures
        is_marked(hidden_redone(h, events, n)),
        keyed_by_cells(hidden_redone(h, events, n)),
    decreases n,
{
    if n > 0 {
        lemma_hidden_marked(h, events, (n - 1) as nat);
        assert(knows_before(hidden_redone(h, events, (n - 1) as nat), events[n - 1]));
        lemma_hidden_step_back(hidden_redone(h, events, (n - 1) as nat), events[n - 1]);
    }
}

/// An action that is taken back leaves the hidden rows as they were: once the entries of its journal
/// are undone, the rows are hidden that were hidden before it. Done over again, the entries hide the
/// rows that were hidden after it.
pub proof fn a_rolled_back_action_leaves_the_hidden_rows(
    h: HiddenRows,
    events: Seq<ChangeEvent>,
    after: HiddenRows,
)
    requires
        is_marked(h),
        keyed_by_cells(h),
        are_followed(h, events, after),
    ensures
        hidden_undone(after, events, 0) == h,
        hidden_redone(hidden_undone(after, events, 0), events, events.len()) == after,
{
    lemma_hidden_back(h, events, 0);
}

/// An action that is undone is not seen: every cell reads as before it, and the same rows are hidden.
/// Done over again, it is seen as before: every cell reads as after it, and the same rows are hidden.
pub proof fn an_action_is_undone_and_redone(
    v: EngineView,
    edits: Seq<JournaledEdit>,
    folds: bool,
    events: Seq<ChangeEvent>,
    done: EngineView,
    undone: EngineView,
    redone: EngineView,
    n: usize,
    cell: CellRef,
)
    requires
        is_marked(v.hidden),
        keyed_by_cells(v.hidden),
        are_made(v.store, edits, edits.len(), done.store, folds),
        are_followed(v.hidden, events, done.hidden),
        n == journal(edits, edits.len()).len(),
        is_replayed(done, events, journal(edits, edits.len()), true, n, undone),
        is_replayed(undone, events, journal(edits, edits.len()), false, n, redone),
    ensures
        read(undone.store, cell) == read(v.store, cell),
        undone.hidden == v.hidden,
        read(redone.store, cell) == read(done.store, cell),
        redone.hidden == done.hidden,
{
    a_rolled_back_action_is_not_seen(v.store, edits, folds, done.store, undone.store, cell);
    a_redone_action_is_seen_again(
        v.store,
        edits,
        folds,
        done.store,
        undone.store,
        redone.store,
        cell,
    );
    a_rolled_back_action_leaves_the_hidden_rows(v.hidden, events, done.hidden);
}

/// Where there is no action to undo or to do over again, nothing changes.
pub proof fn an_empty_journal_changes_nothing(v: EngineView, undo: bool, after: EngineView)
    requires
        is_replayed(v, Seq::empty(), Seq::empty(), undo, 0, after),
    ensures
        after == v,
{
    assert(after =~= v);
}

} // verus!
