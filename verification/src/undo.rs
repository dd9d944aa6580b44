//! Changes that can be undone and done again.
use crate::coord::{CellRef, SheetId, nth_cell, spec_cell_key};
use crate::effects::{SnapshotView, SpillSnapshot};
use crate::overlay::{Axis, OverlayValue, deletion_undoes_insertion, is_deleted_from, is_inserted, keyed_by_cells, literal_of, literal_to_overlay_value, stores};
use crate::store::{CellStore, StoreView, at_1_based, grown, put, store_has_room, stores_option, with_computed, with_edit};
use crate::value::{LiteralValue, ValueView, row_view, rows_view};
use crate::visibility::SetRowVisibility;
use vstd::prelude::*;

verus! {

/// A change of the storage that an action made.
#[derive(Debug)]
#[allow(inconsistent_fields)]
pub enum ArrowOp {
    /// The user edit of a cell.
    SetDeltaCell { cell: CellRef, old: Option<LiteralValue>, new: Option<LiteralValue> },
    /// The computed value of a cell.
    SetComputedCell { cell: CellRef, old: Option<LiteralValue>, new: Option<LiteralValue> },
    /// The computed values of a rectangle, from its first to its last cell. Undoing it shows them in
    /// all of its cells: no user edit stays over them.
    RestoreComputedRect {
        sheet_id: SheetId,
        sr0: u32,
        sc0: u32,
        er0: u32,
        ec0: u32,
        old: Vec<Vec<LiteralValue>>,
        new: Vec<Vec<LiteralValue>>,
    },
    InsertRows { sheet_id: SheetId, before0: u32, count: u32 },
    InsertCols { sheet_id: SheetId, before0: u32, count: u32 },
}

/// Whether a cell's place can be counted from one.
pub open spec fn addressable(cell: CellRef) -> bool {
    cell.row < u32::MAX && cell.col < u32::MAX
}

/// Whether `t` is the storage with the user edit of the cell set or taken away.
pub open spec fn delta_set(s: StoreView, cell: CellRef, value: Option<LiteralValue>, t: StoreView) -> bool {
    exists|v: Option<OverlayValue>|
        #![trigger stores_option(value, v)]
        stores_option(value, v) && t == (StoreView {
            delta: put(s.delta, spec_cell_key(cell), v),
            ..grown(s, cell)
        })
}

/// Whether `t` is the storage with the computed value of the cell set or taken away.
pub open spec fn computed_set(s: StoreView, cell: CellRef, value: Option<ValueView>, t: StoreView) -> bool {
    exists|v: Option<OverlayValue>|
        #![trigger spec_put(s, cell, v)]
        holds(value, v) && t == spec_put(s, cell, v)
}

pub open spec fn spec_put(s: StoreView, cell: CellRef, v: Option<OverlayValue>) -> StoreView {
    StoreView { computed: put(s.computed, spec_cell_key(cell), v), ..grown(s, cell) }
}

/// Whether the optional stored value is how the optional value is held.
pub open spec fn holds(value: Option<ValueView>, v: Option<OverlayValue>) -> bool {
    match (value, v) {
        (Some(x), Some(o)) => stores(x, o),
        (None, None) => true,
        _ => false,
    }
}

pub open spec fn option_view(v: Option<LiteralValue>) -> Option<ValueView> {
    match v {
        Some(x) => Some(x@),
        None => None,
    }
}

/// The value of the rows at a place; where they have none, the empty value.
pub open spec fn value_at(rows: Seq<Seq<ValueView>>, r: int, c: int) -> ValueView {
    if 0 <= r < rows.len() && 0 <= c < rows[r].len() {
        rows[r][c]
    } else {
        ValueView::Empty
    }
}

/// How many lines lie between two, both counted; at least one.
pub open spec fn span(low: u32, high: u32) -> int {
    if high < low {
        1
    } else {
        high - low + 1
    }
}

/// Any storage: one that lies between two others.
pub open spec fn between(mid: StoreView) -> bool {
    true
}

/// The storage without a user edit over the cell where it is to be laid bare.
pub open spec fn bared(s: StoreView, cell: CellRef, bare: bool) -> StoreView {
    if bare {
        StoreView { delta: s.delta.remove(spec_cell_key(cell)), ..s }
    } else {
        s
    }
}

/// Whether `t` is the storage with the first `n` cells of a rectangle set, row by row, and laid bare
/// where they are to be.
pub open spec fn rect_set(
    s: StoreView,
    corner: CellRef,
    width: int,
    rows: Seq<Seq<ValueView>>,
    n: nat,
    bare: bool,
    t: StoreView,
) -> bool
    decreases n,
{
    if n == 0 {
        t == s
    } else {
        exists|mid: StoreView|
            {
                &&& #[trigger] between(mid)
                &&& rect_set(s, corner, width, rows, (n - 1) as nat, bare, mid)
                &&& computed_set(
                    bared(mid, nth_cell(corner, width, n - 1), bare),
                    nth_cell(corner, width, n - 1),
                    Some(value_at(rows, (n - 1) / width, (n - 1) % width)),
                    t,
                )
            }
    }
}

/// Whether `t` is the storage with lines inserted.
pub open spec fn lines_inserted(
    s: StoreView,
    sheet_id: SheetId,
    axis: Axis,
    before: u32,
    count: u32,
    t: StoreView,
) -> bool {
    &&& is_inserted(s.base, t.base, sheet_id, axis, before, count)
    &&& is_inserted(s.delta, t.delta, sheet_id, axis, before, count)
    &&& is_inserted(s.computed, t.computed, sheet_id, axis, before, count)
    &&& t.max_bytes == s.max_bytes
}

/// Whether `t` is the storage with lines deleted.
pub open spec fn lines_deleted(
    s: StoreView,
    sheet_id: SheetId,
    axis: Axis,
    start: u32,
    count: u32,
    t: StoreView,
) -> bool {
    &&& is_deleted_from(s.base, t.base, sheet_id, axis, start, count)
    &&& is_deleted_from(s.delta, t.delta, sheet_id, axis, start, count)
    &&& is_deleted_from(s.computed, t.computed, sheet_id, axis, start, count)
    &&& t.max_bytes == s.max_bytes
}

/// Whether the change can be made on the storage: lines can only be inserted where nothing would be
/// moved beyond the last one.
pub open spec fn is_possible(s: StoreView, op: ArrowOp, undo: bool) -> bool {
    match op {
        ArrowOp::InsertRows { sheet_id, before0, count } => undo || store_has_room(
            s,
            sheet_id,
            Axis::Rows,
            before0,
            count,
        ),
        ArrowOp::InsertCols { sheet_id, before0, count } => undo || store_has_room(
            s,
            sheet_id,
            Axis::Columns,
            before0,
            count,
        ),
        _ => true,
    }
}

/// Whether the places of the change can be counted from one.
pub open spec fn op_addressable(op: ArrowOp) -> bool {
    match op {
        ArrowOp::SetDeltaCell { cell, .. } => addressable(cell),
        ArrowOp::SetComputedCell { cell, .. } => addressable(cell),
        ArrowOp::RestoreComputedRect { sr0, sc0, er0, ec0, .. } => sr0 < u32::MAX && sc0 < u32::MAX
            && er0 < u32::MAX && ec0 < u32::MAX,
        _ => true,
    }
}

/// Whether `t` is the storage with the change done, or undone.
pub open spec fn op_done(s: StoreView, op: ArrowOp, undo: bool, t: StoreView) -> bool {
    match op {
        ArrowOp::SetDeltaCell { cell, old, new } => delta_set(
            s,
            cell,
            if undo {
                old
            } else {
                new
            },
            t,
        ),
        ArrowOp::SetComputedCell { cell, old, new } => computed_set(
            s,
            cell,
            if undo {
                option_view(old)
            } else {
                option_view(new)
            },
            t,
        ),
        ArrowOp::RestoreComputedRect { sheet_id, sr0, sc0, er0, ec0, old, new } => rect_set(
            s,
            CellRef { sheet_id, row: sr0, col: sc0 },
            span(sc0, ec0),
            rows_view(
                if undo {
                    old@
                } else {
                    new@
                },
            ),
            (span(sr0, er0) * span(sc0, ec0)) as nat,
            undo,
            t,
        ),
        ArrowOp::InsertRows { sheet_id, before0, count } => if undo {
            lines_deleted(s, sheet_id, Axis::Rows, before0, count, t)
        } else {
            lines_inserted(s, sheet_id, Axis::Rows, before0, count, t)
        },
        ArrowOp::InsertCols { sheet_id, before0, count } => if undo {
            lines_deleted(s, sheet_id, Axis::Columns, before0, count, t)
        } else {
            lines_inserted(s, sheet_id, Axis::Columns, before0, count, t)
        },
    }
}

fn pick_value(rows: &Vec<Vec<LiteralValue>>, r: usize, c: usize) -> (v: LiteralValue)
    ensures
        v@ == value_at(rows_view(rows@), r as int, c as int),
{
    if r < rows.len() {
        assert(rows_view(rows@)[r as int] == row_view(rows@[r as int]@));
        if c < rows[r].len() {
            return rows[r][c].duplicate();
        }
    }
    LiteralValue::Empty
}

fn set_computed(store: &mut CellStore, cell: CellRef, value: &Option<LiteralValue>)
    requires
        old(store).wf(),
        addressable(cell),
    ensures
        final(store).wf(),
        computed_set(old(store)@, cell, option_view(*value), final(store)@),
{
    let ghost s = store@;
    store.set_computed_overlay_cell_raw(cell.sheet_id, cell.row + 1, cell.col + 1, value);
    proof {
        assert(at_1_based(cell.sheet_id, (cell.row + 1) as u32, (cell.col + 1) as u32) == cell);
        let v = choose|v: Option<OverlayValue>|
            #![trigger stores_option(*value, v)]
            stores_option(*value, v) && store@ == (StoreView {
                computed: put(s.computed, spec_cell_key(cell), v),
                ..grown(s, cell)
            });
        assert(store@ == spec_put(s, cell, v));
        assert(holds(option_view(*value), v));
    }
}

/// Sets the computed values of a rectangle, and lays its cells bare where they are to be.
fn restore_rect(
    store: &mut CellStore,
    corner: CellRef,
    end_row: u32,
    end_col: u32,
    rows: &Vec<Vec<LiteralValue>>,
    bare: bool,
)
    requires
        old(store).wf(),
        addressable(corner),
        end_row < u32::MAX,
        end_col < u32::MAX,
    ensures
        final(store).wf(),
        rect_set(
            old(store)@,
            corner,
            span(corner.col, end_col),
            rows_view(rows@),
            (span(corner.row, end_row) * span(corner.col, end_col)) as nat,
            bare,
            final(store)@,
        ),
{
    let h: u64 = end_row.saturating_sub(corner.row) as u64 + 1;
    let w: u64 = end_col.saturating_sub(corner.col) as u64 + 1;
    let ghost s = store@;
    let ghost model = rows_view(rows@);
    let mut r: u64 = 0;
    assert(rect_set(s, corner, w as int, model, 0, bare, store@));
    assert(0 * w as int == 0);
    while r < h
        invariant
            store.wf(),
            addressable(corner),
            end_row < u32::MAX,
            end_col < u32::MAX,
            h == span(corner.row, end_row),
            w == span(corner.col, end_col),
            model == rows_view(rows@),
            r <= h,
            rect_set(s, corner, w as int, model, (r * w) as nat, bare, store@),
        decreases h - r,
    {
        let mut c: u64 = 0;
        assert(r * w + 0 == r * w);
        while c < w
            invariant
                store.wf(),
                addressable(corner),
                end_row < u32::MAX,
                end_col < u32::MAX,
                h == span(corner.row, end_row),
                w == span(corner.col, end_col),
                model == rows_view(rows@),
                r < h,
                c <= w,
                rect_set(s, corner, w as int, model, (r * w + c) as nat, bare, store@),
            decreases w - c,
        {
            let ghost k = r * w + c;
            proof {
                crate::coord::lemma_index_split(r as int, c as int, w as int);
                assert(k >= 0) by (nonlinear_arith)
                    requires
                        k == r * w + c,
                        r >= 0,
                        w >= 0,
                        c >= 0,
                ;
            }
            let cell = CellRef {
                sheet_id: corner.sheet_id,
                row: (corner.row as u64 + r) as u32,
                col: (corner.col as u64 + c) as u32,
            };
            let ghost mid = store@;
            let value = Some(pick_value(rows, r as usize, c as usize));
            if bare {
                store.clear_delta_overlay_cell(cell.sheet_id, cell.row + 1, cell.col + 1);
            }
            assert(store@ == bared(mid, cell, bare)) by {
                assert(at_1_based(cell.sheet_id, (cell.row + 1) as u32, (cell.col + 1) as u32)
                    == cell);
            }
            set_computed(store, cell, &value);
            proof {
                assert(between(mid));
                assert(rect_set(s, corner, w as int, model, (k + 1) as nat, bare, store@));
            }
            c = c + 1;
        }
        proof {
            assert(r * w + w == (r + 1) * w) by (nonlinear_arith);
        }
        r = r + 1;
    }
}

/// Makes one change, or undoes it. The answer tells whether it could be made.
pub fn apply_arrow_op(store: &mut CellStore, op: &ArrowOp, undo: bool) -> (done: bool)
    requires
        old(store).wf(),
        op_addressable(*op),
    ensures
        final(store).wf(),
        done == is_possible(old(store)@, *op, undo),
        done ==> op_done(old(store)@, *op, undo, final(store)@),
        !done ==> final(store)@ == old(store)@,
{
    match op {
        ArrowOp::SetDeltaCell { cell, old, new } => {
            let value = if undo {
                old
            } else {
                new
            };
            store.set_delta_overlay_cell_raw(cell.sheet_id, cell.row + 1, cell.col + 1, value);
            assert(at_1_based(cell.sheet_id, (cell.row + 1) as u32, (cell.col + 1) as u32) == *cell);
            true
        },
        ArrowOp::SetComputedCell { cell, old, new } => {
            let value = if undo {
                old
            } else {
                new
            };
            set_computed(store, *cell, value);
            true
        },
        ArrowOp::RestoreComputedRect { sheet_id, sr0, sc0, er0, ec0, old, new } => {
            let rows = if undo {
                old
            } else {
                new
            };
            let corner = CellRef { sheet_id: *sheet_id, row: *sr0, col: *sc0 };
            restore_rect(store, corner, *er0, *ec0, rows, undo);
            true
        },
        ArrowOp::InsertRows { sheet_id, before0, count } => {
            move_lines(store, *sheet_id, Axis::Rows, *before0, *count, undo)
        },
        ArrowOp::InsertCols { sheet_id, before0, count } => {
            move_lines(store, *sheet_id, Axis::Columns, *before0, *count, undo)
        },
    }
}

fn move_lines(
    store: &mut CellStore,
    sheet_id: SheetId,
    axis: Axis,
    before: u32,
    count: u32,
    undo: bool,
) -> (done: bool)
    requires
        old(store).wf(),
    ensures
        final(store).wf(),
        done == (undo || store_has_room(old(store)@, sheet_id, axis, before, count)),
        done && undo ==> lines_deleted(
            old(store)@,
            sheet_id,
            axis,
            before,
            count,
            final(store)@,
        ),
        done && !undo ==> lines_inserted(
            old(store)@,
            sheet_id,
            axis,
            before,
            count,
            final(store)@,
        ),
        !done ==> final(store)@ == old(store)@,
{
    if undo {
        store.ensure_arrow_sheet(sheet_id);
        store.delete_lines(sheet_id, axis, before, count);
        true
    } else {
        if !store.has_room_for_lines(sheet_id, axis, before, count) {
            return false;
        }
        store.ensure_arrow_sheet(sheet_id);
        store.insert_lines(sheet_id, axis, before, count);
        true
    }
}

/// The change number `k` in the order in which changes are made: from the first one, or, where they
/// are undone, from the last one.
pub open spec fn nth_op(ops: Seq<ArrowOp>, undo: bool, k: int) -> ArrowOp {
    if undo {
        ops[ops.len() - 1 - k]
    } else {
        ops[k]
    }
}

/// Whether `t` is the storage with the first `n` changes made, each of which was possible.
pub open spec fn batch_done(s: StoreView, ops: Seq<ArrowOp>, undo: bool, n: nat, t: StoreView) -> bool
    decreases n,
{
    if n == 0 {
        t == s
    } else {
        exists|mid: StoreView|
            {
                &&& #[trigger] between(mid)
                &&& batch_done(s, ops, undo, (n - 1) as nat, mid)
                &&& is_possible(mid, nth_op(ops, undo, n - 1), undo)
                &&& op_done(mid, nth_op(ops, undo, n - 1), undo, t)
            }
    }
}

/// Does the changes of an action over again, or undoes them from the last to the first. The answer
/// is how many were made; it stops at one that cannot be.
pub fn apply_arrow_undo_batch(store: &mut CellStore, ops: &Vec<ArrowOp>, undo: bool) -> (n: usize)
    requires
        old(store).wf(),
        forall|i: int| 0 <= i < ops@.len() ==> op_addressable(#[trigger] ops@[i]),
    ensures
        final(store).wf(),
        n <= ops@.len(),
        batch_done(old(store)@, ops@, undo, n as nat, final(store)@),
        n < ops@.len() ==> !is_possible(final(store)@, nth_op(ops@, undo, n as int), undo),
{
    let ghost s = store@;
    let mut k: usize = 0;
    assert(batch_done(s, ops@, undo, 0, store@));
    while k < ops.len()
        invariant
            store.wf(),
            forall|i: int| 0 <= i < ops@.len() ==> op_addressable(#[trigger] ops@[i]),
            s == old(store)@,
            k <= ops@.len(),
            batch_done(s, ops@, undo, k as nat, store@),
        decreases ops@.len() - k,
    {
        let ghost mid = store@;
        let at: usize = if undo {
            ops.len() - 1 - k
        } else {
            k
        };
        assert(op_addressable(ops@[at as int]));
        assert(ops@[at as int] == nth_op(ops@, undo, k as int));
        if !apply_arrow_op(store, &ops[at], undo) {
            return k;
        }
        proof {
            assert(between(mid));
            assert(op_done(mid, nth_op(ops@, undo, k as int), undo, store@));
            assert(batch_done(s, ops@, undo, (k + 1) as nat, store@));
        }
        k = k + 1;
    }
    k
}

/// Undoing the edit of a cell brings back the edit that was there, if the change knows it.
pub proof fn undoing_an_edit_brings_it_back(
    s: StoreView,
    op: ArrowOp,
    t: StoreView,
    u: StoreView,
    before: Option<OverlayValue>,
    other: CellRef,
)
    requires
        op is SetDeltaCell,
        op_done(s, op, false, t),
        op_done(t, op, true, u),
        ({
            let cell = op->SetDeltaCell_cell;
            let k = spec_cell_key(cell);
            &&& before == (if s.delta.contains_key(k) {
                Some(s.delta[k])
            } else {
                None
            })
            &&& forall|v: Option<OverlayValue>| #[trigger]
                stores_option(op->SetDeltaCell_old, v) ==> v == before
        }),
    ensures
        u.delta == s.delta,
        u.computed == s.computed,
        u.base == s.base,
{
    assert(u.delta =~= s.delta);
}

/// Undoing an insertion of lines brings back every value to its place.
pub proof fn undoing_an_insertion_brings_back_the_values(
    s: StoreView,
    op: ArrowOp,
    t: StoreView,
    u: StoreView,
)
    requires
        op is InsertRows || op is InsertCols,
        keyed_by_cells(s.base) && keyed_by_cells(s.delta) && keyed_by_cells(s.computed),
        is_possible(s, op, false),
        op_done(s, op, false, t),
        op_done(t, op, true, u),
    ensures
        u.base == s.base && u.delta == s.delta && u.computed == s.computed,
{
    match op {
        ArrowOp::InsertRows { sheet_id, before0, count } => {
            deletion_undoes_insertion(s.base, t.base, u.base, sheet_id, Axis::Rows, before0, count);
            deletion_undoes_insertion(
                s.delta,
                t.delta,
                u.delta,
                sheet_id,
                Axis::Rows,
                before0,
                count,
            );
            deletion_undoes_insertion(
                s.computed,
                t.computed,
                u.computed,
                sheet_id,
                Axis::Rows,
                before0,
                count,
            );
        },
        ArrowOp::InsertCols { sheet_id, before0, count } => {
            deletion_undoes_insertion(
                s.base,
                t.base,
                u.base,
                sheet_id,
                Axis::Columns,
                before0,
                count,
            );
            deletion_undoes_insertion(
                s.delta,
                t.delta,
                u.delta,
                sheet_id,
                Axis::Columns,
                before0,
                count,
            );
            deletion_undoes_insertion(
                s.computed,
                t.computed,
                u.computed,
                sheet_id,
                Axis::Columns,
                before0,
                count,
            );
        },
        _ => {},
    }
}

/// An entry of the change log as far as the storage reads it.
#[derive(Debug)]
#[allow(inconsistent_fields)]
pub enum ChangeEvent {
    SetValue { cell: CellRef, old_value: Option<LiteralValue>, old_formula: bool, new: LiteralValue },
    SetFormula { cell: CellRef, old_value: Option<LiteralValue>, old_formula: bool },
    SpillCommitted { before: Option<SpillSnapshot>, after: SpillSnapshot },
    SpillCleared { before: SpillSnapshot },
    SetRowVisibility(SetRowVisibility),
    /// Rows were inserted inside an action, and hidden rows moved with their rows.
    RowsInserted { sheet_id: SheetId, before: u32, count: u32 },
    StagedFormulaCellChanged {
        sheet: String,
        row: u32,
        col: u32,
        old_text: Option<String>,
        new_text: Option<String>,
    },
    /// A name was defined, changed or deleted, or vertices, formulas or names were moved.
    Rewired,
    /// Anything else, which no reader of values sees.
    Other,
}

/// The values of the rows, one behind the other.
pub open spec fn flat_values(rows: Seq<Seq<ValueView>>, n: nat) -> Seq<ValueView>
    decreases n,
{
    if n == 0 {
        Seq::empty()
    } else {
        flat_values(rows, (n - 1) as nat) + rows[n - 1]
    }
}

/// What a snapshot writes: every target its value, or, where it is cleared, the empty value. Targets
/// without a value are only written where it is cleared.
pub open spec fn snapshot_writes(snap: SnapshotView, clear_only: bool) -> Seq<(CellRef, ValueView)> {
    let values = flat_values(snap.values, snap.values.len());
    let cells = snap.target_cells;
    if clear_only {
        Seq::new(cells.len(), |i: int| (cells[i], ValueView::Empty))
    } else {
        let n = if values.len() < cells.len() {
            values.len()
        } else {
            cells.len()
        };
        Seq::new(n, |i: int| (cells[i], values[i]))
    }
}

/// Whether `t` is the storage with the first `n` computed values written.
pub open spec fn writes_done(s: StoreView, writes: Seq<(CellRef, ValueView)>, n: nat, t: StoreView) -> bool
    decreases n,
{
    if n == 0 {
        t == s
    } else {
        exists|mid: StoreView, v: OverlayValue|
            {
                &&& writes_done(s, writes, (n - 1) as nat, mid)
                &&& stores(writes[n - 1].1, v)
                &&& t == #[trigger] with_computed(mid, writes[n - 1].0, v)
            }
    }
}

fn write_one(
    store: &mut CellStore,
    cell: CellRef,
    value: &LiteralValue,
    Ghost(s): Ghost<StoreView>,
    Ghost(writes): Ghost<Seq<(CellRef, ValueView)>>,
    Ghost(n): Ghost<nat>,
)
    requires
        old(store).wf(),
        n < writes.len(),
        writes[n as int] == (cell, value@),
        writes_done(s, writes, n, old(store)@),
    ensures
        final(store).wf(),
        writes_done(s, writes, n + 1, final(store)@),
{
    let ghost mid = store@;
    let ov = literal_to_overlay_value(value);
    let ghost held = ov;
    store.write_computed_overlay_value_0based(cell, ov);
    assert(store@ == with_computed(mid, writes[n as int].0, held));
}

/// Writes the values of a snapshot, or clears its targets.
pub fn mirror_spill_snapshot(store: &mut CellStore, snap: &SpillSnapshot, clear_only: bool)
    requires
        old(store).wf(),
    ensures
        final(store).wf(),
        writes_done(
            old(store)@,
            snapshot_writes(snap@, clear_only),
            snapshot_writes(snap@, clear_only).len(),
            final(store)@,
        ),
{
    let ghost s = store@;
    let ghost writes = snapshot_writes(snap@, clear_only);
    let ghost model = rows_view(snap.values@);
    let cells = &snap.target_cells;
    if clear_only {
        let empty = LiteralValue::Empty;
        let mut i: usize = 0;
        while i < cells.len()
            invariant
                store.wf(),
                clear_only,
                empty@ == ValueView::Empty,
                cells@ == snap.target_cells@,
                writes == snapshot_writes(snap@, clear_only),
                i <= cells@.len(),
                writes_done(s, writes, i as nat, store@),
            decreases cells@.len() - i,
        {
            write_one(store, cells[i], &empty, Ghost(s), Ghost(writes), Ghost(i as nat));
            i = i + 1;
        }
        return;
    }
    let mut i: usize = 0;
    let mut r: usize = 0;
    let ghost all = flat_values(model, model.len());
    while r < snap.values.len()
        invariant
            store.wf(),
            !clear_only,
            cells@ == snap.target_cells@,
            model == rows_view(snap.values@),
            all == flat_values(model, model.len()),
            writes == snapshot_writes(snap@, clear_only),
            r <= snap.values@.len(),
            i <= cells@.len(),
            i == cells@.len() || i == flat_values(model, r as nat).len(),
            i <= flat_values(model, r as nat).len(),
            writes_done(s, writes, i as nat, store@),
        decreases snap.values@.len() - r,
    {
        let row = &snap.values[r];
        let ghost start = flat_values(model, r as nat);
        assert(model[r as int] == row_view(row@));
        proof {
            lemma_flat_prefix(model, (r + 1) as nat, model.len());
        }
        let mut c: usize = 0;
        while c < row.len() && i < cells.len()
            invariant
                store.wf(),
                !clear_only,
                cells@ == snap.target_cells@,
                model == rows_view(snap.values@),
                all == flat_values(model, model.len()),
                writes == snapshot_writes(snap@, clear_only),
                r < snap.values@.len(),
                row@ == snap.values@[r as int]@,
                model[r as int] == row_view(row@),
                start == flat_values(model, r as nat),
                flat_values(model, (r + 1) as nat) == start + model[r as int],
                flat_values(model, (r + 1) as nat).len() <= all.len(),
                forall|k: int|
                    0 <= k < flat_values(model, (r + 1) as nat).len() ==> all[k] == flat_values(
                        model,
                        (r + 1) as nat,
                    )[k],
                c <= row@.len(),
                i <= cells@.len(),
                i < cells@.len() ==> i == start.len() + c,
                i <= start.len() + c,
                writes_done(s, writes, i as nat, store@),
            decreases row@.len() - c,
        {
            proof {
                assert(all[i as int] == (start + model[r as int])[i as int]);
                assert(writes[i as int] == (cells@[i as int], row@[c as int]@));
            }
            write_one(store, cells[i], &row[c], Ghost(s), Ghost(writes), Ghost(i as nat));
            i = i + 1;
            c = c + 1;
        }
        r = r + 1;
    }
}

proof fn lemma_flat_prefix(rows: Seq<Seq<ValueView>>, m: nat, n: nat)
    requires
        m <= n <= rows.len(),
    ensures
        flat_values(rows, m).len() <= flat_values(rows, n).len(),
        forall|k: int|
            0 <= k < flat_values(rows, m).len() ==> flat_values(rows, n)[k] == flat_values(
                rows,
                m,
            )[k],
    decreases n,
{
    if m < n {
        lemma_flat_prefix(rows, m, (n - 1) as nat);
    }
}

/// Whether `t` is the storage with the change undone: a cell that had a formula loses its edit, one
/// that had a value gets it back, and spilled arrays are taken back and restored.
pub open spec fn change_undone(s: StoreView, ev: ChangeEvent, t: StoreView) -> bool {
    match ev {
        ChangeEvent::SetValue { cell, old_value, old_formula, .. }
        | ChangeEvent::SetFormula { cell, old_value, old_formula } => value_back(
            s,
            cell,
            old_value,
            old_formula,
            t,
        ),
        ChangeEvent::SpillCommitted { before, after } => {
            let cleared = snapshot_writes(after@, true);
            exists|mid: StoreView|
                {
                    &&& #[trigger] writes_done(s, cleared, cleared.len(), mid)
                    &&& match before {
                        Some(b) => {
                            let restored = snapshot_writes(b@, false);
                            writes_done(mid, restored, restored.len(), t)
                        },
                        None => t == mid,
                    }
                }
        },
        ChangeEvent::SpillCleared { before } => {
            let restored = snapshot_writes(before@, false);
            writes_done(s, restored, restored.len(), t)
        },
        _ => t == s,
    }
}

pub open spec fn value_back(
    s: StoreView,
    cell: CellRef,
    old_value: Option<LiteralValue>,
    old_formula: bool,
    t: StoreView,
) -> bool {
    if old_formula {
        t == (StoreView { delta: s.delta.remove(spec_cell_key(cell)), ..s })
    } else {
        edited(
            s,
            cell,
            match old_value {
                Some(v) => v@,
                None => ValueView::Empty,
            },
            t,
        )
    }
}

/// Whether `t` is the storage with a user edit of the cell.
pub open spec fn edited(s: StoreView, cell: CellRef, value: ValueView, t: StoreView) -> bool {
    exists|v: OverlayValue| stores(value, v) && t == #[trigger] with_edit(s, cell, v)
}

/// Whether `t` is the storage with the change done over again.
pub open spec fn change_redone(s: StoreView, ev: ChangeEvent, t: StoreView) -> bool {
    match ev {
        ChangeEvent::SetValue { cell, new, .. } => edited(s, cell, new@, t),
        ChangeEvent::SetFormula { cell, .. } => t == (StoreView {
            delta: s.delta.remove(spec_cell_key(cell)),
            ..s
        }),
        ChangeEvent::SpillCommitted { before, after } => {
            let written = snapshot_writes(after@, false);
            match before {
                Some(b) => {
                    let cleared = snapshot_writes(b@, true);
                    exists|mid: StoreView|
                        {
                            &&& #[trigger] writes_done(s, cleared, cleared.len(), mid)
                            &&& writes_done(mid, written, written.len(), t)
                        }
                },
                None => writes_done(s, written, written.len(), t),
            }
        },
        ChangeEvent::SpillCleared { before } => {
            let cleared = snapshot_writes(before@, true);
            writes_done(s, cleared, cleared.len(), t)
        },
        _ => t == s,
    }
}

/// Whether the cell of the change can be counted from one.
pub open spec fn event_addressable(ev: ChangeEvent) -> bool {
    match ev {
        ChangeEvent::SetValue { cell, .. } => addressable(cell),
        ChangeEvent::SetFormula { cell, .. } => addressable(cell),
        _ => true,
    }
}

fn put_value_back(
    store: &mut CellStore,
    cell: CellRef,
    old_value: &Option<LiteralValue>,
    old_formula: bool,
)
    requires
        old(store).wf(),
        addressable(cell),
    ensures
        final(store).wf(),
        value_back(old(store)@, cell, *old_value, old_formula, final(store)@),
{
    assert(at_1_based(cell.sheet_id, (cell.row + 1) as u32, (cell.col + 1) as u32) == cell);
    if old_formula {
        store.clear_delta_overlay_cell(cell.sheet_id, cell.row + 1, cell.col + 1);
    } else {
        let value = match old_value {
            Some(v) => v.duplicate(),
            None => LiteralValue::Empty,
        };
        store.mirror_value_to_overlay(cell.sheet_id, cell.row + 1, cell.col + 1, &value);
    }
}

/// Undoes a change in the storage.
pub fn mirror_inverse_change_to_arrow(store: &mut CellStore, ev: &ChangeEvent)
    requires
        old(store).wf(),
        event_addressable(*ev),
    ensures
        final(store).wf(),
        change_undone(old(store)@, *ev, final(store)@),
{
    match ev {
        ChangeEvent::SetValue { cell, old_value, old_formula, .. } => {
            put_value_back(store, *cell, old_value, *old_formula);
        },
        ChangeEvent::SetFormula { cell, old_value, old_formula } => {
            put_value_back(store, *cell, old_value, *old_formula);
        },
        ChangeEvent::SpillCommitted { before, after } => {
            mirror_spill_snapshot(store, after, true);
            if let Some(snap) = before {
                mirror_spill_snapshot(store, snap, false);
            }
        },
        ChangeEvent::SpillCleared { before } => {
            mirror_spill_snapshot(store, before, false);
        },
        _ => {},
    }
}

/// Does a change over again in the storage.
pub fn mirror_forward_change_to_arrow(store: &mut CellStore, ev: &ChangeEvent)
    requires
        old(store).wf(),
        event_addressable(*ev),
    ensures
        final(store).wf(),
        change_redone(old(store)@, *ev, final(store)@),
{
    match ev {
        ChangeEvent::SetValue { cell, new, .. } => {
            assert(at_1_based(cell.sheet_id, (cell.row + 1) as u32, (cell.col + 1) as u32) == *cell);
            store.mirror_value_to_overlay(cell.sheet_id, cell.row + 1, cell.col + 1, new);
        },
        ChangeEvent::SetFormula { cell, .. } => {
            assert(at_1_based(cell.sheet_id, (cell.row + 1) as u32, (cell.col + 1) as u32) == *cell);
            store.clear_delta_overlay_cell(cell.sheet_id, cell.row + 1, cell.col + 1);
        },
        ChangeEvent::SpillCommitted { before, after } => {
            if let Some(snap) = before {
                mirror_spill_snapshot(store, snap, true);
            }
            mirror_spill_snapshot(store, after, false);
        },
        ChangeEvent::SpillCleared { before } => {
            mirror_spill_snapshot(store, before, true);
        },
        _ => {},
    }
}

/// A value that was set is read back once the change is done, and the value that was there before
/// is read back once it is undone; no other cell reads differently.
pub proof fn set_values_are_read_back_both_ways(
    s: StoreView,
    ev: ChangeEvent,
    t: StoreView,
    u: StoreView,
    other: CellRef,
)
    requires
        ev matches ChangeEvent::SetValue { old_formula, .. } && !old_formula,
        change_redone(s, ev, t),
        change_undone(t, ev, u),
    ensures
        ev matches ChangeEvent::SetValue { cell, old_value, new, .. } ==> {
            &&& crate::store::read(t, cell) == crate::grid::shown(new@)
            &&& crate::store::read(u, cell) == crate::grid::shown(
                match old_value {
                    Some(v) => v@,
                    None => ValueView::Empty,
                },
            )
            &&& other != cell ==> crate::store::read(u, other) == crate::store::read(s, other)
        },
{
    if let ChangeEvent::SetValue { cell, old_value, new, .. } = ev {
        let a = choose|v: OverlayValue| stores(new@, v) && t == #[trigger] with_edit(s, cell, v);
        let value = match old_value {
            Some(v) => v@,
            None => ValueView::Empty,
        };
        let b = choose|v: OverlayValue| stores(value, v) && u == #[trigger] with_edit(t, cell, v);
        crate::store::an_edit_is_read_back(s, cell, a, other);
        crate::store::an_edit_is_read_back(t, cell, b, other);
        crate::overlay::reading_gives_back_what_was_stored(new@, a);
        crate::overlay::reading_gives_back_what_was_stored(value, b);
    }
}

/// The rectangle of a snapshot: its first cell, and the last row and column that its values reach.
pub open spec fn snapshot_rect(snap: SnapshotView) -> Option<(CellRef, u32, u32)> {
    if snap.target_cells.len() == 0 || snap.values.len() == 0 || snap.values[0].len() == 0 {
        None
    } else {
        let first = snap.target_cells[0];
        Some(
            (
                first,
                stop_sum(first.row, snap.values.len() - 1),
                stop_sum(first.col, snap.values[0].len() - 1),
            ),
        )
    }
}

pub open spec fn stop_sum(a: u32, n: int) -> u32 {
    if a + n <= u32::MAX {
        (a + n) as u32
    } else {
        u32::MAX
    }
}

/// As many empty rows, as long as the first one, as the rows are.
pub open spec fn blanks(rows: Seq<Seq<ValueView>>) -> Seq<Seq<ValueView>> {
    Seq::new(rows.len(), |r: int| Seq::new(rows[0].len(), |c: int| ValueView::Empty))
}

fn blank_rows(rows: &Vec<Vec<LiteralValue>>) -> (r: Vec<Vec<LiteralValue>>)
    requires
        rows@.len() > 0,
    ensures
        rows_view(r@) == blanks(rows_view(rows@)),
{
    let ghost model = rows_view(rows@);
    let ghost goal = blanks(model);
    assert(model[0].len() == rows@[0]@.len());
    let w: usize = rows[0].len();
    let mut out: Vec<Vec<LiteralValue>> = Vec::new();
    let mut i: usize = 0;
    while i < rows.len()
        invariant
            rows@.len() > 0,
            i <= rows@.len(),
            model == rows_view(rows@),
            goal == blanks(model),
            w == model[0].len(),
            out@.len() == i,
            forall|k: int| 0 <= k < i ==> row_view((#[trigger] out@[k])@) == goal[k],
        decreases rows@.len() - i,
    {
        let mut row: Vec<LiteralValue> = Vec::new();
        let mut c: usize = 0;
        while c < w
            invariant
                c <= w,
                row@.len() == c,
                forall|k: int| 0 <= k < c ==> (#[trigger] row@[k])@ == ValueView::Empty,
            decreases w - c,
        {
            row.push(LiteralValue::Empty);
            c = c + 1;
        }
        assert(row_view(row@) =~= goal[i as int]);
        out.push(row);
        i = i + 1;
    }
    assert(rows_view(out@) =~= goal);
    out
}

fn copy_rows(rows: &Vec<Vec<LiteralValue>>) -> (r: Vec<Vec<LiteralValue>>)
    ensures
        rows_view(r@) == rows_view(rows@),
{
    let mut out: Vec<Vec<LiteralValue>> = Vec::new();
    let mut i: usize = 0;
    while i < rows.len()
        invariant
            i <= rows@.len(),
            out@.len() == i,
            forall|k: int|
                0 <= k < i ==> row_view((#[trigger] out@[k])@) == row_view(rows@[k]@),
        decreases rows@.len() - i,
    {
        out.push(crate::value::duplicate_row(&rows[i]));
        i = i + 1;
    }
    assert(rows_view(out@) =~= rows_view(rows@));
    out
}

/// Whether the change restores the rectangle from the first values to the second ones.
pub open spec fn restores_rect(
    op: ArrowOp,
    corner: CellRef,
    er: u32,
    ec: u32,
    before: Seq<Seq<ValueView>>,
    after: Seq<Seq<ValueView>>,
) -> bool {
    op matches ArrowOp::RestoreComputedRect { sheet_id, sr0, sc0, er0, ec0, old, new } && {
        &&& sheet_id == corner.sheet_id
        &&& sr0 == corner.row
        &&& sc0 == corner.col
        &&& er0 == er
        &&& ec0 == ec
        &&& rows_view(old@) == before
        &&& rows_view(new@) == after
    }
}

/// Whether the answer is the change that an entry of the change log about a spilled array leaves in
/// the undo journal: the rectangle of the array, with what it held and what it holds. A first array
/// replaces nothing, and so does one whose predecessor had no values.
pub open spec fn is_spill_op(ev: ChangeEvent, r: Option<ArrowOp>) -> bool {
    match ev {
        ChangeEvent::SpillCommitted { before, after } => match snapshot_rect(after@) {
            Some((corner, er, ec)) => {
                let held = match before {
                    Some(b) => if snapshot_rect(b@) is Some {
                        b@.values
                    } else {
                        blanks(after@.values)
                    },
                    None => blanks(after@.values),
                };
                r matches Some(op) && restores_rect(op, corner, er, ec, held, after@.values)
            },
            None => r is None,
        },
        ChangeEvent::SpillCleared { before } => match snapshot_rect(before@) {
            Some((corner, er, ec)) => r matches Some(op) && restores_rect(
                op,
                corner,
                er,
                ec,
                before@.values,
                blanks(before@.values),
            ),
            None => r is None,
        },
        _ => r is None,
    }
}

fn rect_of(snap: &SpillSnapshot) -> (r: Option<(CellRef, u32, u32)>)
    requires
        snap.values@.len() <= u32::MAX,
        snap.values@.len() > 0 ==> snap.values@[0]@.len() <= u32::MAX,
    ensures
        r == snapshot_rect(snap@),
{
    if snap.target_cells.len() == 0 || snap.values.len() == 0 {
        return None;
    }
    assert(rows_view(snap.values@)[0].len() == snap.values@[0]@.len());
    if snap.values[0].len() == 0 {
        return None;
    }
    let first = snap.target_cells[0];
    let h = snap.values.len() as u32;
    let w = snap.values[0].len() as u32;
    Some((first, first.row.saturating_add(h - 1), first.col.saturating_add(w - 1)))
}

/// Whether the rows of the snapshot can be counted.
pub open spec fn countable(snap: SpillSnapshot) -> bool {
    snap.values@.len() <= u32::MAX && (snap.values@.len() > 0 ==> snap.values@[0]@.len()
        <= u32::MAX)
}

/// The change that an entry of the change log about a spilled array leaves in the undo journal.
pub fn record_spill_op(ev: &ChangeEvent) -> (r: Option<ArrowOp>)
    requires
        ev matches ChangeEvent::SpillCommitted { before, after } ==> countable(*after) && (
        before matches Some(b) ==> countable(*b)),
        ev matches ChangeEvent::SpillCleared { before } ==> countable(*before),
    ensures
        is_spill_op(*ev, r),
{
    match ev {
        ChangeEvent::SpillCommitted { before, after } => {
            match rect_of(after) {
                Some((corner, er, ec)) => {
                    let held = match before {
                        Some(b) => {
                            if rect_of(b).is_some() {
                                copy_rows(&b.values)
                            } else {
                                blank_rows(&after.values)
                            }
                        },
                        None => blank_rows(&after.values),
                    };
                    Some(
                        ArrowOp::RestoreComputedRect {
                            sheet_id: corner.sheet_id,
                            sr0: corner.row,
                            sc0: corner.col,
                            er0: er,
                            ec0: ec,
                            old: held,
                            new: copy_rows(&after.values),
                        },
                    )
                },
                None => None,
            }
        },
        ChangeEvent::SpillCleared { before } => {
            match rect_of(before) {
                Some((corner, er, ec)) => Some(
                    ArrowOp::RestoreComputedRect {
                        sheet_id: corner.sheet_id,
                        sr0: corner.row,
                        sc0: corner.col,
                        er0: er,
                        ec0: ec,
                        old: copy_rows(&before.values),
                        new: blank_rows(&before.values),
                    },
                ),
                None => None,
            }
        },
        _ => None,
    }
}

/// Whether the rows of the arrays that the entry speaks of can be counted.
pub open spec fn event_countable(ev: ChangeEvent) -> bool {
    match ev {
        ChangeEvent::SpillCommitted { before, after } => countable(after) && (before matches Some(b)
            ==> countable(b)),
        ChangeEvent::SpillCleared { before } => countable(before),
        _ => true,
    }
}

/// Whether the list holds what the first `n` entries of the change log about spilled arrays leave in
/// the undo journal, in order.
pub open spec fn is_spill_journal(events: Seq<ChangeEvent>, n: nat, added: Seq<ArrowOp>) -> bool
    decreases n,
{
    if n == 0 {
        added.len() == 0
    } else if is_spill_op(events[n - 1], None) {
        is_spill_journal(events, (n - 1) as nat, added)
    } else {
        &&& added.len() > 0
        &&& is_spill_op(events[n - 1], Some(added.last()))
        &&& is_spill_journal(events, (n - 1) as nat, added.drop_last())
    }
}

/// Adds to the undo journal what the entries of the change log about spilled arrays leave in it.
pub fn record_spill_ops_into_arrow_undo(undo: &mut Vec<ArrowOp>, events: &Vec<ChangeEvent>)
    requires
        forall|i: int| 0 <= i < events@.len() ==> event_countable(#[trigger] events@[i]),
    ensures
        final(undo)@.len() >= old(undo)@.len(),
        final(undo)@.take(old(undo)@.len() as int) == old(undo)@,
        is_spill_journal(
            events@,
            events@.len(),
            final(undo)@.skip(old(undo)@.len() as int),
        ),
{
    let ghost before = undo@;
    let mut i: usize = 0;
    assert(undo@.take(before.len() as int) =~= before);
    while i < events.len()
        invariant
            i <= events@.len(),
            forall|i: int| 0 <= i < events@.len() ==> event_countable(#[trigger] events@[i]),
            undo@.len() >= before.len(),
            undo@.take(before.len() as int) == before,
            is_spill_journal(events@, i as nat, undo@.skip(before.len() as int)),
        decreases events@.len() - i,
    {
        let ghost held = undo@;
        assert(event_countable(events@[i as int]));
        if let Some(op) = record_spill_op(&events[i]) {
            undo.push(op);
            proof {
                assert(undo@.take(before.len() as int) =~= held.take(before.len() as int));
                let added = undo@.skip(before.len() as int);
                assert(added.drop_last() =~= held.skip(before.len() as int));
                assert(added.last() == op);
            }
        }
        i = i + 1;
    }
}

/// What a cell shows once the value is stored.
spec fn back(value: Option<LiteralValue>) -> ValueView {
    match value {
        Some(v) => v@,
        None => ValueView::Empty,
    }
}

/// A formula that was entered over a value takes the value away, and undoing that brings the value
/// back: the cell reads what it held, and no other cell reads differently.
pub proof fn a_formula_gives_the_value_back(
    s: StoreView,
    ev: ChangeEvent,
    t: StoreView,
    u: StoreView,
    other: CellRef,
)
    requires
        ev matches ChangeEvent::SetFormula { old_formula, .. } && !old_formula,
        change_redone(s, ev, t),
        change_undone(t, ev, u),
    ensures
        ev matches ChangeEvent::SetFormula { cell, old_value, .. } ==> {
            &&& !t.delta.contains_key(spec_cell_key(cell))
            &&& t.computed == s.computed && t.base == s.base
            &&& u.delta.contains_key(spec_cell_key(cell))
            &&& old_value is None ==> crate::store::read(u, cell) == ValueView::Empty
            &&& old_value matches Some(v) ==> crate::store::read(u, cell) == crate::grid::shown(v@)
            &&& other != cell ==> crate::store::read(t, other) == crate::store::read(s, other)
            &&& other != cell ==> crate::store::read(u, other) == crate::store::read(s, other)
        },
{
    if let ChangeEvent::SetFormula { cell, old_value, .. } = ev {
        let value = back(old_value);
        let b = choose|v: OverlayValue| stores(value, v) && u == #[trigger] with_edit(t, cell, v);
        crate::store::an_edit_is_read_back(t, cell, b, other);
        crate::overlay::reading_gives_back_what_was_stored(value, b);
        crate::coord::keys_name_their_cells(cell);
        crate::coord::keys_name_their_cells(other);
    }
}

/// Undoing an edit of a cell that had a formula takes the user edit away and nothing else.
pub proof fn a_formula_is_laid_bare_again(s: StoreView, ev: ChangeEvent, u: StoreView, other: CellRef)
    requires
        (ev matches ChangeEvent::SetValue { old_formula, .. } && old_formula) || (
        ev matches ChangeEvent::SetFormula { old_formula, .. } && old_formula),
        change_undone(s, ev, u),
    ensures
        ({
            let cell = match ev {
                ChangeEvent::SetValue { cell, .. } => cell,
                ChangeEvent::SetFormula { cell, .. } => cell,
                _ => other,
            };
            &&& !u.delta.contains_key(spec_cell_key(cell))
            &&& u.computed == s.computed
            &&& u.base == s.base
            &&& other != cell ==> crate::store::read(u, other) == crate::store::read(s, other)
        }),
{
    crate::coord::keys_name_their_cells(other);
    if let ChangeEvent::SetValue { cell, .. } = ev {
        crate::coord::keys_name_their_cells(cell);
    }
    if let ChangeEvent::SetFormula { cell, .. } = ev {
        crate::coord::keys_name_their_cells(cell);
    }
}

/// What is written last to a cell is read there, where no user edit lies over it; every other cell reads
/// as before.
pub proof fn written_values_are_read_back(
    s: StoreView,
    writes: Seq<(CellRef, ValueView)>,
    n: nat,
    t: StoreView,
    cell: CellRef,
    i: int,
)
    requires
        n <= writes.len(),
        writes_done(s, writes, n, t),
    ensures
        t.delta == s.delta,
        (forall|k: int| 0 <= k < n ==> (#[trigger] writes[k]).0 != cell) ==> crate::store::read(t, cell)
            == crate::store::read(s, cell),
        s.delta.contains_key(spec_cell_key(cell)) ==> crate::store::read(t, cell) == crate::store::read(
            s,
            cell,
        ),
        !s.delta.contains_key(spec_cell_key(cell)) && 0 <= i < n && writes[i].0 == cell && (forall|k: int|
            i < k < n ==> (#[trigger] writes[k]).0 != cell) ==> crate::store::read(t, cell)
            == crate::grid::shown(writes[i].1),
    decreases n,
{
    if n > 0 {
        let m = (n - 1) as nat;
        let (mid, v) = choose|mid: StoreView, v: OverlayValue|
            {
                &&& writes_done(s, writes, m, mid)
                &&& stores(writes[n - 1].1, v)
                &&& t == #[trigger] with_computed(mid, writes[n - 1].0, v)
            };
        written_values_are_read_back(s, writes, m, mid, cell, i);
        crate::store::a_computed_value_is_read_back(mid, writes[n - 1].0, v, cell);
        crate::store::computed_values_keep_their_budget(mid, writes[n - 1].0, v, cell);
        crate::overlay::reading_gives_back_what_was_stored(writes[n - 1].1, v);
    }
}

/// Undoing a spilled array clears all of its cells, and gives the array back that stood there before: a
/// cell of the old one reads as the old value, a cell of the new one alone is empty, and every other
/// cell reads as before. User edits lie over all of it.
pub proof fn an_undone_array_gives_back_the_old_one(
    s: StoreView,
    before: Option<SpillSnapshot>,
    after: SpillSnapshot,
    t: StoreView,
    cell: CellRef,
)
    requires
        change_undone(s, ChangeEvent::SpillCommitted { before, after }, t),
        !s.delta.contains_key(spec_cell_key(cell)),
    ensures
        before is None && after@.target_cells.contains(cell) ==> crate::store::read(t, cell)
            == ValueView::Empty,
        before matches Some(b) ==> (!b@.target_cells.contains(cell) && after@.target_cells.contains(cell)
            ==> crate::store::read(t, cell) == ValueView::Empty),
        !after@.target_cells.contains(cell) && (before matches Some(b) ==> !b@.target_cells.contains(cell))
            ==> crate::store::read(t, cell) == crate::store::read(s, cell),
        before matches Some(b) ==> forall|i: int|
            #![trigger b@.target_cells[i]]
            0 <= i < b@.target_cells.len() && i < flat_values(b@.values, b@.values.len()).len()
                && b@.target_cells[i] == cell && b@.target_cells.no_duplicates() ==> crate::store::read(
                t,
                cell,
            ) == crate::grid::shown(flat_values(b@.values, b@.values.len())[i]),
{
    let cleared = snapshot_writes(after@, true);
    let mid = choose|mid: StoreView|
        {
            &&& #[trigger] writes_done(s, cleared, cleared.len(), mid)
            &&& match before {
                Some(b) => {
                    let restored = snapshot_writes(b@, false);
                    writes_done(mid, restored, restored.len(), t)
                },
                None => t == mid,
            }
        };
    lemma_cleared(s, after@, mid, cell);
    if let Some(b) = before {
        let restored = snapshot_writes(b@, false);
        written_values_are_read_back(mid, restored, restored.len(), t, cell, 0);
        if !b@.target_cells.contains(cell) {
            assert forall|k: int| 0 <= k < restored.len() implies (#[trigger] restored[k]).0 != cell by {
                assert(b@.target_cells[k] == restored[k].0);
            }
        }
        let values = flat_values(b@.values, b@.values.len());
        assert forall|i: int|
            #![trigger b@.target_cells[i]]
            0 <= i < b@.target_cells.len() && i < values.len() && b@.target_cells[i] == cell
                && b@.target_cells.no_duplicates() implies crate::store::read(t, cell) == crate::grid::shown(
            values[i],
        ) by {
            written_values_are_read_back(mid, restored, restored.len(), t, cell, i);
            assert(restored[i] == (b@.target_cells[i], values[i]));
            assert forall|k: int| i < k < restored.len() implies (#[trigger] restored[k]).0 != cell by {
                assert(restored[k].0 == b@.target_cells[k]);
                assert(b@.target_cells[i] != b@.target_cells[k]);
            }
        }
    }
}

proof fn lemma_cleared(s: StoreView, snap: SnapshotView, t: StoreView, cell: CellRef)
    requires
        writes_done(s, snapshot_writes(snap, true), snapshot_writes(snap, true).len(), t),
    ensures
        t.delta == s.delta,
        !s.delta.contains_key(spec_cell_key(cell)) && snap.target_cells.contains(cell) ==> crate::store::read(
            t,
            cell,
        ) == ValueView::Empty,
        !snap.target_cells.contains(cell) ==> crate::store::read(t, cell) == crate::store::read(s, cell),
{
    let writes = snapshot_writes(snap, true);
    let n = writes.len();
    written_values_are_read_back(s, writes, n, t, cell, 0);
    if snap.target_cells.contains(cell) {
        let k = choose|k: int| 0 <= k < snap.target_cells.len() && snap.target_cells[k] == cell;
        assert(writes[k].0 == cell);
        let i = lemma_last_of(writes, n, cell, k);
        written_values_are_read_back(s, writes, n, t, cell, i);
        assert(writes[i] == (snap.target_cells[i], ValueView::Empty));
    } else {
        assert forall|k: int| 0 <= k < n implies (#[trigger] writes[k]).0 != cell by {
            assert(writes[k].0 == snap.target_cells[k]);
        }
    }
}

proof fn lemma_last_of(writes: Seq<(CellRef, ValueView)>, n: nat, cell: CellRef, k: int) -> (i: int)
    requires
        n <= writes.len(),
        0 <= k < n,
        writes[k].0 == cell,
    ensures
        k <= i < n,
        writes[i].0 == cell,
        forall|j: int| i < j < n ==> (#[trigger] writes[j]).0 != cell,
    decreases n,
{
    if writes[n - 1].0 == cell {
        n - 1
    } else {
        lemma_last_of(writes, (n - 1) as nat, cell, k)
    }
}

/// Redoing a cleared array clears it again, and redoing one that spilled where none was shows its values
/// again; undoing the clearing shows what the array showed.
pub proof fn arrays_are_cleared_and_shown_again(
    s: StoreView,
    snap: SpillSnapshot,
    t: StoreView,
    cell: CellRef,
)
    requires
        !s.delta.contains_key(spec_cell_key(cell)),
    ensures
        change_redone(s, ChangeEvent::SpillCleared { before: snap }, t) && snap@.target_cells.contains(cell)
            ==> crate::store::read(t, cell) == ValueView::Empty,
        change_redone(s, ChangeEvent::SpillCommitted { before: None, after: snap }, t) || change_undone(
            s,
            ChangeEvent::SpillCleared { before: snap },
            t,
        ) ==> forall|i: int|
            #![trigger snap@.target_cells[i]]
            0 <= i < snap@.target_cells.len() && i < flat_values(snap@.values, snap@.values.len()).len()
                && snap@.target_cells[i] == cell && snap@.target_cells.no_duplicates()
                ==> crate::store::read(t, cell) == crate::grid::shown(
                flat_values(snap@.values, snap@.values.len())[i],
            ),
{
    if change_redone(s, ChangeEvent::SpillCleared { before: snap }, t) {
        lemma_cleared(s, snap@, t, cell);
    }
    let written = snapshot_writes(snap@, false);
    if writes_done(s, written, written.len(), t) {
        let values = flat_values(snap@.values, snap@.values.len());
        assert forall|i: int|
            #![trigger snap@.target_cells[i]]
            0 <= i < snap@.target_cells.len() && i < values.len() && snap@.target_cells[i] == cell
                && snap@.target_cells.no_duplicates() implies crate::store::read(t, cell)
            == crate::grid::shown(values[i]) by {
            written_values_are_read_back(s, written, written.len(), t, cell, i);
            assert(written[i] == (snap@.target_cells[i], values[i]));
            assert forall|k: int| i < k < written.len() implies (#[trigger] written[k]).0 != cell by {
                assert(written[k].0 == snap@.target_cells[k]);
                assert(snap@.target_cells[i] != snap@.target_cells[k]);
            }
        }
    }
}

/// Setting a value or a formula: redone, the value is read, or the cell is laid bare; undone, the cell
/// is laid bare where it had a formula, and else reads as the old value, or as empty without one.
pub proof fn set_cells_are_undone_by_what_they_held(
    s: StoreView,
    cell: CellRef,
    old_value: Option<LiteralValue>,
    old_formula: bool,
    new: LiteralValue,
    t: StoreView,
)
    ensures
        ({
            let k = spec_cell_key(cell);
            let set = ChangeEvent::SetValue { cell, old_value, old_formula, new };
            let formula = ChangeEvent::SetFormula { cell, old_value, old_formula };
            &&& change_redone(s, set, t) ==> crate::store::read(t, cell) == crate::grid::shown(new@)
            &&& change_redone(s, formula, t) ==> !t.delta.contains_key(k) && t.computed == s.computed
                && t.base == s.base
            &&& change_undone(s, set, t) || change_undone(s, formula, t) ==> {
                &&& old_formula ==> !t.delta.contains_key(k) && t.computed == s.computed && t.base == s.base
                &&& !old_formula ==> t.delta.contains_key(k) && !t.computed.contains_key(k)
                    && crate::store::read(t, cell) == (match old_value {
                    Some(v) => crate::grid::shown(v@),
                    None => ValueView::Empty,
                })
            }
        }),
{
    assert forall|value: ValueView| #[trigger] edited(s, cell, value, t) implies crate::store::read(t, cell)
        == crate::grid::shown(value) && t.delta.contains_key(spec_cell_key(cell)) && !t.computed.contains_key(
        spec_cell_key(cell),
    ) by {
        let v = choose|v: OverlayValue| stores(value, v) && t == #[trigger] with_edit(s, cell, v);
        crate::overlay::reading_gives_back_what_was_stored(value, v);
        crate::store::an_edit_drops_the_computed_value(s, cell, v, 0);
    }
}

/// A journaled operation sets the new value, and undone the old one.
pub proof fn operations_are_undone_to_the_old_value(
    s: StoreView,
    cell: CellRef,
    old: Option<LiteralValue>,
    new: Option<LiteralValue>,
    undo: bool,
    t: StoreView,
)
    ensures
        ({
            let k = spec_cell_key(cell);
            let wanted = if undo {
                old
            } else {
                new
            };
            &&& op_done(s, ArrowOp::SetDeltaCell { cell, old, new }, undo, t) ==> match wanted {
                Some(v) => t.delta.contains_key(k) && literal_of(t.delta[k]) == crate::grid::shown(v@),
                None => !t.delta.contains_key(k),
            } && t.computed == s.computed && t.base == s.base
            &&& op_done(s, ArrowOp::SetComputedCell { cell, old, new }, undo, t) ==> match wanted {
                Some(v) => t.computed.contains_key(k) && literal_of(t.computed[k]) == crate::grid::shown(v@),
                None => !t.computed.contains_key(k),
            } && t.delta == s.delta && t.base == s.base
        }),
{
    let wanted = if undo {
        old
    } else {
        new
    };
    if op_done(s, ArrowOp::SetDeltaCell { cell, old, new }, undo, t) {
        let v = choose|v: Option<OverlayValue>|
            #![trigger stores_option(wanted, v)]
            stores_option(wanted, v) && t == (StoreView {
                delta: put(s.delta, spec_cell_key(cell), v),
                ..grown(s, cell)
            });
        if wanted is Some && v is Some {
            crate::overlay::reading_gives_back_what_was_stored(wanted->Some_0@, v->Some_0);
        }
    }
    if op_done(s, ArrowOp::SetComputedCell { cell, old, new }, undo, t) {
        let v = choose|v: Option<OverlayValue>|
            #![trigger spec_put(s, cell, v)]
            holds(option_view(wanted), v) && t == spec_put(s, cell, v);
        if wanted is Some && v is Some {
            crate::overlay::reading_gives_back_what_was_stored(wanted->Some_0@, v->Some_0);
        }
    }
}

/// Operations are redone in their order and undone in reverse.
pub proof fn operations_are_undone_in_reverse(ops: Seq<ArrowOp>, k: int)
    requires
        0 <= k < ops.len(),
    ensures
        nth_op(ops, false, k) == ops[k],
        nth_op(ops, true, k) == ops.reverse()[k],
{
}

/// The rectangle of a snapshot begins at its first cell and has as many rows and columns as its values;
/// without cells or values there is none.
pub proof fn snapshots_cover_their_rectangle(snap: SnapshotView)
    ensures
        snapshot_rect(snap) is None <==> snap.target_cells.len() == 0 || snap.values.len() == 0
            || snap.values[0].len() == 0,
        snapshot_rect(snap) matches Some((corner, er, ec)) ==> {
            &&& corner == snap.target_cells[0]
            &&& corner.row + snap.values.len() <= u32::MAX ==> er + 1 == corner.row + snap.values.len()
            &&& corner.col + snap.values[0].len() <= u32::MAX ==> ec + 1 == corner.col + snap.values[0].len()
        },
{
}

/// What is journaled of an array: for a spilled one the rectangle with what stood there before, or
/// nothing, and with its values; for a cleared one the rectangle with its values, and empty; of any other
/// change nothing.
pub proof fn arrays_are_journaled_with_both_sides(ev: ChangeEvent, r: Option<ArrowOp>)
    requires
        is_spill_op(ev, r),
    ensures
        !(ev is SpillCommitted) && !(ev is SpillCleared) ==> r is None,
        ev matches ChangeEvent::SpillCommitted { before, after } ==> (r matches Some(op) ==> op matches
            ArrowOp::RestoreComputedRect { sheet_id, sr0, sc0, old, new, .. } && after.target_cells@.len() > 0
            && sheet_id == after.target_cells@[0].sheet_id && sr0 == after.target_cells@[0].row && sc0
            == after.target_cells@[0].col && rows_view(new@) == rows_view(after.values@) && (before is None
            ==> forall|i: int, j: int|
            0 <= i < old@.len() && 0 <= j < old@[i]@.len() ==> (#[trigger] rows_view(old@)[i][j])
                == ValueView::Empty)),
        ev matches ChangeEvent::SpillCleared { before } ==> (r matches Some(op) ==> op matches
            ArrowOp::RestoreComputedRect { sheet_id, sr0, sc0, old, new, .. } && before.target_cells@.len() > 0
            && sheet_id == before.target_cells@[0].sheet_id && sr0 == before.target_cells@[0].row && sc0
            == before.target_cells@[0].col && rows_view(old@) == rows_view(before.values@) && forall|
            i: int,
            j: int,
        |
            0 <= i < new@.len() && 0 <= j < new@[i]@.len() ==> (#[trigger] rows_view(new@)[i][j])
                == ValueView::Empty),
{
    if let ChangeEvent::SpillCommitted { before, after } = ev {
        if let Some(ArrowOp::RestoreComputedRect { old, .. }) = r {
            if before is None {
                lemma_blank_rows(old@, after@.values);
            }
        }
    }
    if let ChangeEvent::SpillCleared { before } = ev {
        if let Some(ArrowOp::RestoreComputedRect { new, .. }) = r {
            lemma_blank_rows(new@, before@.values);
        }
    }
}

proof fn lemma_blank_rows(rows: Seq<Vec<LiteralValue>>, values: Seq<Seq<ValueView>>)
    ensures
        rows_view(rows) == blanks(values) ==> forall|i: int, j: int|
            0 <= i < rows.len() && 0 <= j < rows[i]@.len() ==> (#[trigger] rows_view(rows)[i][j])
                == ValueView::Empty,
{
    if rows_view(rows) == blanks(values) {
        assert forall|i: int, j: int| 0 <= i < rows.len() && 0 <= j < rows[i]@.len() implies (
        #[trigger] rows_view(rows)[i][j]) == ValueView::Empty by {
            assert(rows_view(rows).len() == rows.len());
            assert(rows_view(rows)[i] == row_view(rows[i]@));
            assert(rows_view(rows)[i] == blanks(values)[i]);
            assert(row_view(rows[i]@).len() == rows[i]@.len());
        }
    }
}

} // verus!
