//! Actions: groups of edits that are made together. An atomic action keeps a journal, from which it
//! is taken back when one of its edits fails.
use crate::coord::{CellRef, SheetId, spec_cell_key};
use crate::engine::{ActionEdit, Engine, EngineView, check_action_edit, heard, heard_all, is_line_edit, is_row_hiding, is_rows_hiding, journal_delta, lemma_rows_counted, line_op, lines_fit, rows_counted, store_redone};
use crate::overlay::{Axis, literal_of};
use crate::region::StructuralScope;
use crate::store::{StoreView, at_1_based, has_room, read, store_has_room};
use crate::undo::{ArrowOp, ChangeEvent, between, edited, event_addressable, event_countable, is_spill_journal, lines_inserted, option_view, record_spill_ops_into_arrow_undo};
use crate::used_bounds::zero_based;
use crate::value::{LiteralValue, ValueView};
use crate::visibility::{EditorError, EditorErrorView, HiddenRows, RowVisibilitySource, SetRowVisibility, counted_up, ensure_known_sheet_id, is_hidden, normalize_row_1based, normalize_row_range_1based, row_keys_are_distinct, unknown_sheet, versions_with_rows, with_new_rows, with_row};
use vstd::prelude::*;

verus! {

/// An action under way. An atomic one keeps the entries of the change log that its edits left, and
/// the changes of the storage by which they can be undone.
#[derive(Debug)]
pub struct EngineAction {
    name: String,
    atomic: bool,
    events: Vec<ChangeEvent>,
    ops: Vec<ArrowOp>,
}

/// The model of an [`EngineAction`].
pub struct ActionView {
    pub name: Seq<char>,
    pub atomic: bool,
    pub events: Seq<ChangeEvent>,
    pub ops: Seq<ArrowOp>,
}

/// The computed value of a cell.
pub open spec fn computed_at(s: StoreView, cell: CellRef) -> Option<ValueView> {
    let k = spec_cell_key(cell);
    if s.computed.contains_key(k) {
        Some(literal_of(s.computed[k]))
    } else {
        None
    }
}

/// What the journal keeps of a cell that is edited: what it shows, or nothing where it has a formula.
pub open spec fn held_before(s: StoreView, cell: CellRef, had_formula: bool) -> Option<ValueView> {
    if had_formula {
        None
    } else {
        Some(read(s, cell))
    }
}

/// Whether the change is that of the user edit of a cell.
pub open spec fn is_delta_op(op: ArrowOp, cell: CellRef, before: Option<ValueView>, after: Option<ValueView>) -> bool {
    op matches ArrowOp::SetDeltaCell { cell: c, old, new } && c == cell && option_view(old) == before
        && option_view(new) == after
}

/// Whether the change is that of the computed value of a cell.
pub open spec fn is_computed_op(op: ArrowOp, cell: CellRef, before: Option<ValueView>, after: Option<ValueView>) -> bool {
    op matches ArrowOp::SetComputedCell { cell: c, old, new } && c == cell && option_view(old)
        == before && option_view(new) == after
}

/// Whether the journal grew by what the entries about spilled arrays leave in it, and then by `n`
/// more changes.
pub open spec fn journal_grew(before: Seq<ArrowOp>, entries: Seq<ChangeEvent>, n: nat, after: Seq<ArrowOp>) -> bool {
    &&& after.len() >= before.len() + n
    &&& after.take(before.len() as int) == before
    &&& is_spill_journal(
        entries,
        entries.len(),
        after.subrange(before.len() as int, after.len() - n),
    )
}

/// The workbook once an edit of a cell inside an atomic action has been followed.
pub open spec fn followed(v: EngineView, entries: Seq<ChangeEvent>, cell: CellRef, s: StoreView) -> EngineView {
    EngineView {
        store: s,
        changes: heard(
            heard_all(v.changes, v.mode, entries, entries.len()),
            v.mode,
            Some(StructuralScope::Cell(cell)),
        ),
        ..v
    }
}

/// Whether the entries can be followed: their cells can be counted from one, and the rows of their
/// arrays too.
pub open spec fn entries_ok(entries: Seq<ChangeEvent>) -> bool {
    forall|i: int|
        0 <= i < entries.len() ==> event_addressable(#[trigger] entries[i]) && event_countable(
            entries[i],
        )
}

/// Whether lines can be inserted once the entries have been followed.
pub open spec fn insertable(
    v: EngineView,
    entries: Seq<ChangeEvent>,
    sheet_id: SheetId,
    axis: Axis,
    before: u32,
    count: u32,
) -> bool {
    &&& forall|s: StoreView| #[trigger]
        store_redone(v.store, entries, entries.len(), s) ==> store_has_room(
            s,
            sheet_id,
            axis,
            before,
            count,
        )
    &&& axis == Axis::Rows ==> has_room(v.hidden, sheet_id, axis, before, count)
}

/// The entries of the change log that hiding or showing rows leaves: one for every row that was not
/// so before.
pub open spec fn hidden_entries(
    h: HiddenRows,
    sheet_id: SheetId,
    start: u32,
    n: nat,
    hidden: bool,
    source: RowVisibilitySource,
) -> Seq<ChangeEvent>
    decreases n,
{
    if n == 0 {
        Seq::empty()
    } else {
        let before = hidden_entries(h, sheet_id, start, (n - 1) as nat, hidden, source);
        let row = (start + n - 1) as u32;
        if is_hidden(h, sheet_id, row, source) == hidden {
            before
        } else {
            before.push(
                ChangeEvent::SetRowVisibility(
                    SetRowVisibility {
                        sheet_id,
                        row,
                        source,
                        old_hidden: !hidden,
                        new_hidden: hidden,
                    },
                ),
            )
        }
    }
}

/// The hidden rows once the first `n` rows from `start` on are hidden or shown.
pub open spec fn hidden_until(
    h: HiddenRows,
    sheet_id: SheetId,
    start: u32,
    n: nat,
    hidden: bool,
    source: RowVisibilitySource,
) -> HiddenRows
    decreases n,
{
    if n == 0 {
        h
    } else {
        let before = hidden_until(h, sheet_id, start, (n - 1) as nat, hidden, source);
        let row = (start + n - 1) as u32;
        if is_hidden(h, sheet_id, row, source) == hidden {
            before
        } else {
            with_row(before, sheet_id, row, source, hidden)
        }
    }
}

impl EngineAction {
    pub closed spec fn view(&self) -> ActionView {
        ActionView {
            name: self.name@,
            atomic: self.atomic,
            events: self.events@,
            ops: self.ops@,
        }
    }

    /// An action without edits.
    pub fn new(name: &str, atomic: bool) -> (a: EngineAction)
        ensures
            a@ == (ActionView {
                name: name@,
                atomic,
                events: Seq::empty(),
                ops: Seq::empty(),
            }),
    {
        EngineAction { name: name.to_string(), atomic, events: Vec::new(), ops: Vec::new() }
    }

    pub fn name(&self) -> (n: &str)
        ensures
            n@ == self@.name,
    {
        self.name.as_str()
    }

    /// The journal of the action.
    pub fn into_journal(self) -> (r: (Vec<ChangeEvent>, Vec<ArrowOp>))
        ensures
            r.0@ == self@.events,
            r.1@ == self@.ops,
    {
        (self.events, self.ops)
    }

    /// Sets the value of a cell. `graph` is what the graph answered: a refusal, or the entries that
    /// its edit left in the change log. `had_formula` tells whether the cell had a formula.
    pub fn set_cell_value(
        &mut self,
        engine: &mut Engine,
        sheet_id: SheetId,
        row: u32,
        col: u32,
        value: &LiteralValue,
        had_formula: bool,
        graph: Result<Vec<ChangeEvent>, EditorError>,
    ) -> (r: Result<(), EditorError>)
        requires
            old(engine).wf(),
            graph matches Ok(entries) ==> entries_ok(entries@),
        ensures
            final(engine).wf(),
            final(engine).waits_like(old(engine)),
            ({
                let cell = at_1_based(sheet_id, row, col);
                let (v, w) = (old(engine)@, final(engine)@);
                let (a, b) = (old(self)@, final(self)@);
                match graph {
                    Err(e) => r == Err::<(), EditorError>(e) && w == v && b == a,
                    Ok(entries) => if a.atomic {
                        &&& r is Ok
                        &&& store_redone(v.store, entries@, entries@.len(), w.store)
                        &&& w == followed(v, entries@, cell, w.store)
                        &&& b.events == a.events + entries@
                        &&& journal_grew(a.ops, entries@, 2, b.ops)
                        &&& is_delta_op(
                            b.ops[b.ops.len() - 2],
                            cell,
                            held_before(v.store, cell, had_formula),
                            Some(value@),
                        )
                        &&& is_computed_op(
                            b.ops[b.ops.len() - 1],
                            cell,
                            computed_at(v.store, cell),
                            computed_at(w.store, cell),
                        )
                        &&& b.name == a.name && b.atomic
                    } else {
                        &&& r is Ok
                        &&& edited(v.store, cell, value@, w.store)
                        &&& w == (EngineView { store: w.store, ..v }).hearing(
                            Some(StructuralScope::Cell(cell)),
                        ).data_edited()
                        &&& b == a
                    },
                }
            }),
    {
        let mut entries = match graph {
            Err(e) => {
                return Err(e);
            },
            Ok(entries) => entries,
        };
        if !self.atomic {
            let done = engine.set_cell_value(sheet_id, row, col, value, Ok(()));
            return match done {
                Ok(()) => Ok(()),
                Err(e) => Err(EditorError::Excel(e)),
            };
        }
        let ghost a = self@;
        let ghost logged = entries@;
        let old_value = engine.get_cell_value(sheet_id, row, col);
        let old_computed = engine.read_computed_overlay_cell(sheet_id, row, col);
        engine.edit_with_logger(&entries);
        engine.record_formula_plane_changed_cell(sheet_id, row, col);
        record_spill_ops_into_arrow_undo(&mut self.ops, &entries);
        let ghost spilled = self.ops@;
        let new_computed = engine.read_computed_overlay_cell(sheet_id, row, col);
        let place = crate::store::cell_at(sheet_id, row, col);
        let delta = journal_delta(place, &old_value, had_formula, &Some(value.duplicate()));
        self.ops.push(delta);
        self.ops.push(
            ArrowOp::SetComputedCell { cell: place, old: old_computed, new: new_computed },
        );
        self.events.append(&mut entries);
        proof {
            assert(self.events@ =~= a.events + logged);
            assert(self.ops@.take(a.ops.len() as int) =~= spilled.take(a.ops.len() as int));
            assert(self.ops@.subrange(a.ops.len() as int, self.ops@.len() - 2) =~= spilled.skip(
                a.ops.len() as int,
            ));
        }
        Ok(())
    }

    /// Gives a cell a formula; the graph holds it.
    pub fn set_cell_formula(
        &mut self,
        engine: &mut Engine,
        sheet_id: SheetId,
        row: u32,
        col: u32,
        had_formula: bool,
        graph: Result<Vec<ChangeEvent>, EditorError>,
    ) -> (r: Result<(), EditorError>)
        requires
            old(engine).wf(),
            graph matches Ok(entries) ==> entries_ok(entries@),
        ensures
            final(engine).wf(),
            final(engine).waits_like(old(engine)),
            ({
                let cell = at_1_based(sheet_id, row, col);
                let (v, w) = (old(engine)@, final(engine)@);
                let (a, b) = (old(self)@, final(self)@);
                match graph {
                    Err(e) => r == Err::<(), EditorError>(e) && w == v && b == a,
                    Ok(entries) => if a.atomic {
                        &&& r is Ok
                        &&& store_redone(v.store, entries@, entries@.len(), w.store)
                        &&& w == followed(v, entries@, cell, w.store)
                        &&& b.events == a.events + entries@
                        &&& journal_grew(a.ops, entries@, 1, b.ops)
                        &&& is_delta_op(
                            b.ops[b.ops.len() - 1],
                            cell,
                            held_before(v.store, cell, had_formula),
                            None,
                        )
                        &&& b.name == a.name && b.atomic
                    } else {
                        &&& r is Ok
                        &&& w == (EngineView {
                            store: StoreView {
                                delta: v.store.delta.remove(spec_cell_key(cell)),
                                ..v.store
                            },
                            ..v
                        }).hearing(Some(StructuralScope::Cell(cell))).topology_edited()
                        &&& b == a
                    },
                }
            }),
    {
        let mut entries = match graph {
            Err(e) => {
                return Err(e);
            },
            Ok(entries) => entries,
        };
        if !self.atomic {
            let done = engine.set_cell_formula(sheet_id, row, col, Ok(()));
            return match done {
                Ok(()) => Ok(()),
                Err(e) => Err(EditorError::Excel(e)),
            };
        }
        let ghost a = self@;
        let ghost logged = entries@;
        let old_value = engine.get_cell_value(sheet_id, row, col);
        engine.edit_with_logger(&entries);
        engine.record_formula_plane_changed_cell(sheet_id, row, col);
        record_spill_ops_into_arrow_undo(&mut self.ops, &entries);
        let ghost spilled = self.ops@;
        let place = crate::store::cell_at(sheet_id, row, col);
        let delta = journal_delta(place, &old_value, had_formula, &None);
        self.ops.push(delta);
        self.events.append(&mut entries);
        proof {
            assert(self.events@ =~= a.events + logged);
            assert(self.ops@.take(a.ops.len() as int) =~= spilled.take(a.ops.len() as int));
            assert(self.ops@.subrange(a.ops.len() as int, self.ops@.len() - 1) =~= spilled.skip(
                a.ops.len() as int,
            ));
        }
        Ok(())
    }

    /// Hides or shows a row.
    pub fn set_row_hidden(
        &mut self,
        engine: &mut Engine,
        sheet: &str,
        sheet_id: Option<SheetId>,
        row_1based: u32,
        hidden: bool,
        source: RowVisibilitySource,
    ) -> (r: Result<(), EditorError>)
        requires
            old(engine).wf(),
        ensures
            final(engine).wf(),
            final(engine).waits_like(old(engine)),
            !old(self)@.atomic ==> is_row_hiding(
                old(engine)@,
                sheet@,
                sheet_id,
                row_1based,
                hidden,
                source,
                r,
                final(engine)@,
            ) && final(self)@ == old(self)@,
            old(self)@.atomic ==> ({
                let (v, w) = (old(engine)@, final(engine)@);
                let (a, b) = (old(self)@, final(self)@);
                match sheet_id {
                    None => r matches Err(e) && e@ == unknown_sheet(sheet@) && w == v && b == a,
                    Some(id) => if row_1based == 0 {
                        &&& r matches Err(e) && e@ == (EditorErrorView::OutOfBounds {
                            row: 0,
                            col: 0,
                        })
                        &&& w == v && b == a
                    } else {
                        let row = (row_1based - 1) as u32;
                        &&& r is Ok
                        &&& w == (EngineView {
                            hidden: hidden_until(v.hidden, id, row, 1, hidden, source),
                            row_versions: versions_with_rows(
                                v.hidden,
                                v.row_versions,
                                id,
                                row,
                                source,
                                hidden,
                                1,
                            ),
                            ..v
                        })
                        &&& rows_counted(v, w)
                        &&& b == (ActionView {
                            events: a.events + hidden_entries(
                                v.hidden,
                                id,
                                row,
                                1,
                                hidden,
                                source,
                            ),
                            ..a
                        })
                    },
                }
            }),
    {
        if !self.atomic {
            return engine.set_row_hidden(sheet, sheet_id, row_1based, hidden, source);
        }
        let id = match ensure_known_sheet_id(sheet_id, sheet) {
            Ok(id) => id,
            Err(e) => {
                return Err(e);
            },
        };
        let row = match normalize_row_1based(row_1based) {
            Ok(row) => row,
            Err(e) => {
                return Err(e);
            },
        };
        self.hide_rows(engine, id, row, row, hidden, source);
        Ok(())
    }

    /// Hides or shows the rows from one to another, both counted.
    pub fn set_rows_hidden(
        &mut self,
        engine: &mut Engine,
        sheet: &str,
        sheet_id: Option<SheetId>,
        start_row_1based: u32,
        end_row_1based: u32,
        hidden: bool,
        source: RowVisibilitySource,
    ) -> (r: Result<(), EditorError>)
        requires
            old(engine).wf(),
        ensures
            final(engine).wf(),
            final(engine).waits_like(old(engine)),
            !old(self)@.atomic ==> is_rows_hiding(
                old(engine)@,
                sheet@,
                sheet_id,
                start_row_1based,
                end_row_1based,
                hidden,
                source,
                r,
                final(engine)@,
            ) && final(self)@ == old(self)@,
            old(self)@.atomic ==> ({
                let (v, w) = (old(engine)@, final(engine)@);
                let (a, b) = (old(self)@, final(self)@);
                match sheet_id {
                    None => r matches Err(e) && e@ == unknown_sheet(sheet@) && w == v && b == a,
                    Some(id) => if start_row_1based == 0 || end_row_1based == 0 {
                        &&& r matches Err(e) && e@ == (EditorErrorView::OutOfBounds {
                            row: 0,
                            col: 0,
                        })
                        &&& w == v && b == a
                    } else if start_row_1based > end_row_1based {
                        &&& r matches Err(e) && e@ == (EditorErrorView::TransactionFailed {
                            reason: "Row range start is greater than end"@,
                        })
                        &&& w == v && b == a
                    } else {
                        let start = (start_row_1based - 1) as u32;
                        let n = (end_row_1based - start_row_1based + 1) as nat;
                        &&& r is Ok
                        &&& w == (EngineView {
                            hidden: hidden_until(v.hidden, id, start, n, hidden, source),
                            row_versions: versions_with_rows(
                                v.hidden,
                                v.row_versions,
                                id,
                                start,
                                source,
                                hidden,
                                n,
                            ),
                            ..v
                        })
                        &&& rows_counted(v, w)
                        &&& b == (ActionView {
                            events: a.events + hidden_entries(
                                v.hidden,
                                id,
                                start,
                                n,
                                hidden,
                                source,
                            ),
                            ..a
                        })
                    },
                }
            }),
    {
        if !self.atomic {
            return engine.set_rows_hidden(sheet, sheet_id, start_row_1based, end_row_1based, hidden, source);
        }
        let id = match ensure_known_sheet_id(sheet_id, sheet) {
            Ok(id) => id,
            Err(e) => {
                return Err(e);
            },
        };
        let (start, end) = match normalize_row_range_1based(start_row_1based, end_row_1based) {
            Ok(rows) => rows,
            Err(e) => {
                return Err(e);
            },
        };
        self.hide_rows(engine, id, start, end, hidden, source);
        Ok(())
    }

    fn hide_rows(
        &mut self,
        engine: &mut Engine,
        sheet_id: SheetId,
        start: u32,
        end: u32,
        hidden: bool,
        source: RowVisibilitySource,
    )
        requires
            old(engine).wf(),
            start <= end,
        ensures
            final(engine).wf(),
            final(engine).waits_like(old(engine)),
            final(engine)@ == (EngineView {
                hidden: hidden_until(
                    old(engine)@.hidden,
                    sheet_id,
                    start,
                    (end - start + 1) as nat,
                    hidden,
                    source,
                ),
                row_versions: versions_with_rows(
                    old(engine)@.hidden,
                    old(engine)@.row_versions,
                    sheet_id,
                    start,
                    source,
                    hidden,
                    (end - start + 1) as nat,
                ),
                ..old(engine)@
            }),
            rows_counted(old(engine)@, final(engine)@),
            final(self)@ == (ActionView {
                events: old(self)@.events + hidden_entries(
                    old(engine)@.hidden,
                    sheet_id,
                    start,
                    (end - start + 1) as nat,
                    hidden,
                    source,
                ),
                ..old(self)@
            }),
    {
        let ghost v = engine@;
        let ghost a = self@;
        let ghost e0 = *engine;
        let total: u64 = (end - start) as u64 + 1;
        let mut n: u64 = 0;
        assert(self.events@ =~= a.events + Seq::<ChangeEvent>::empty());
        while n < total
            invariant
                engine.wf(),
                engine.waits_like(&e0),
                total == end - start + 1,
                start <= end,
                n <= total,
                v == e0@,
                engine@ == (EngineView {
                    hidden: hidden_until(v.hidden, sheet_id, start, n as nat, hidden, source),
                    row_versions: versions_with_rows(
                        v.hidden,
                        v.row_versions,
                        sheet_id,
                        start,
                        source,
                        hidden,
                        n as nat,
                    ),
                    ..v
                }),
                rows_counted(v, engine@),
                self@ == (ActionView {
                    events: a.events + hidden_entries(
                        v.hidden,
                        sheet_id,
                        start,
                        n as nat,
                        hidden,
                        source,
                    ),
                    ..a
                }),
            decreases total - n,
        {
            let row = start + n as u32;
            let ghost done = hidden_entries(v.hidden, sheet_id, start, n as nat, hidden, source);
            proof {
                lemma_row_ahead(v.hidden, sheet_id, start, n as nat, hidden, source, row);
            }
            let ghost prior = engine@;
            let changed = engine.hide_in_action(sheet_id, row, hidden, source);
            proof {
                lemma_rows_counted(v, prior, engine@);
            }
            if changed {
                let ev = SetRowVisibility {
                    sheet_id,
                    row,
                    source,
                    old_hidden: !hidden,
                    new_hidden: hidden,
                };
                self.events.push(ChangeEvent::SetRowVisibility(ev));
                assert(self.events@ =~= a.events + done.push(ChangeEvent::SetRowVisibility(ev)));
            }
            n = n + 1;
        }
    }

    /// Inserts rows before the row with a one-based number, once the graph has. An atomic action makes
    /// the sheet where there is none, so that it has one.
    pub fn insert_rows(
        &mut self,
        engine: &mut Engine,
        sheet: &str,
        sheet_id: Option<SheetId>,
        before: u32,
        count: u32,
        graph: Result<Vec<ChangeEvent>, EditorError>,
    ) -> (r: Result<(), EditorError>)
        requires
            old(engine).wf(),
            !old(self)@.atomic ==> lines_fit(
                old(engine)@,
                sheet_id,
                before,
                count,
                graph is Ok,
                Axis::Rows,
                true,
            ),
            old(self)@.atomic ==> sheet_id is Some,
            old(self)@.atomic ==> (graph matches Ok(entries) ==> entries_ok(entries@) && insertable(
                old(engine)@,
                entries@,
                sheet_id->0,
                Axis::Rows,
                zero_based(before),
                count,
            )),
        ensures
            final(engine).wf(),
            final(engine).waits_like(old(engine)),
            !old(self)@.atomic ==> is_line_edit(
                old(engine)@,
                sheet@,
                sheet_id,
                line_op(sheet_id, before, count, Axis::Rows, true),
                taken(graph),
                r,
                final(engine)@,
            ) && final(self)@ == old(self)@,
            old(self)@.atomic ==> is_insertion(
                old(engine)@,
                old(self)@,
                sheet_id->0,
                Axis::Rows,
                zero_based(before),
                count,
                graph,
                r,
                final(engine)@,
                final(self)@,
            ),
    {
        if !self.atomic {
            return engine.insert_rows(sheet, sheet_id, before, count, forget_entries(graph));
        }
        let entries = match graph {
            Err(e) => {
                return Err(e);
            },
            Ok(entries) => entries,
        };
        self.insert_lines(engine, sheet_id.unwrap(), Axis::Rows, before.saturating_sub(1), count, entries);
        Ok(())
    }

    /// Inserts columns before the column with a one-based number, once the graph has. An atomic action
    /// makes the sheet where there is none, so that it has one.
    pub fn insert_columns(
        &mut self,
        engine: &mut Engine,
        sheet: &str,
        sheet_id: Option<SheetId>,
        before: u32,
        count: u32,
        graph: Result<Vec<ChangeEvent>, EditorError>,
    ) -> (r: Result<(), EditorError>)
        requires
            old(engine).wf(),
            !old(self)@.atomic ==> lines_fit(
                old(engine)@,
                sheet_id,
                before,
                count,
                graph is Ok,
                Axis::Columns,
                true,
            ),
            old(self)@.atomic ==> sheet_id is Some,
            old(self)@.atomic ==> (graph matches Ok(entries) ==> entries_ok(entries@) && insertable(
                old(engine)@,
                entries@,
                sheet_id->0,
                Axis::Columns,
                zero_based(before),
                count,
            )),
        ensures
            final(engine).wf(),
            final(engine).waits_like(old(engine)),
            !old(self)@.atomic ==> is_line_edit(
                old(engine)@,
                sheet@,
                sheet_id,
                line_op(sheet_id, before, count, Axis::Columns, true),
                taken(graph),
                r,
                final(engine)@,
            ) && final(self)@ == old(self)@,
            old(self)@.atomic ==> is_insertion(
                old(engine)@,
                old(self)@,
                sheet_id->0,
                Axis::Columns,
                zero_based(before),
                count,
                graph,
                r,
                final(engine)@,
                final(self)@,
            ),
    {
        if !self.atomic {
            return engine.insert_columns(sheet, sheet_id, before, count, forget_entries(graph));
        }
        let entries = match graph {
            Err(e) => {
                return Err(e);
            },
            Ok(entries) => entries,
        };
        self.insert_lines(engine, sheet_id.unwrap(), Axis::Columns, before.saturating_sub(1), count, entries);
        Ok(())
    }

    fn insert_lines(
        &mut self,
        engine: &mut Engine,
        sheet_id: SheetId,
        axis: Axis,
        before: u32,
        count: u32,
        logged: Vec<ChangeEvent>,
    )
        requires
            old(engine).wf(),
            entries_ok(logged@),
            insertable(old(engine)@, logged@, sheet_id, axis, before, count),
        ensures
            final(engine).wf(),
            final(engine).waits_like(old(engine)),
            inserted_after(
                old(engine)@,
                logged@,
                sheet_id,
                axis,
                before,
                count,
                final(engine)@,
            ),
            final(self)@ == (ActionView {
                events: old(self)@.events + logged@ + insert_entry(
                    sheet_id,
                    axis,
                    before,
                    count,
                ),
                ops: old(self)@.ops.push(insert_op(sheet_id, axis, before, count)),
                ..old(self)@
            }),
    {
        let mut entries = logged;
        let ghost a = self@;
        engine.edit_with_logger(&entries);
        let ghost mid = engine@;
        engine.insert_in_action(sheet_id, axis, before, count);
        let op = match axis {
            Axis::Rows => ArrowOp::InsertRows { sheet_id, before0: before, count },
            Axis::Columns => ArrowOp::InsertCols { sheet_id, before0: before, count },
        };
        self.ops.push(op);
        self.events.append(&mut entries);
        if axis == Axis::Rows {
            self.events.push(ChangeEvent::RowsInserted { sheet_id, before, count });
        }
        proof {
            assert(self.events@ =~= a.events + logged@ + insert_entry(
                sheet_id,
                axis,
                before,
                count,
            ));
            assert(between(mid.store));
        }
    }

    /// Deletes rows from the one with the one-based number on, once the graph has. An atomic action
    /// refuses that, since it could not take it back.
    pub fn delete_rows(
        &mut self,
        engine: &mut Engine,
        sheet: &str,
        sheet_id: Option<SheetId>,
        start: u32,
        count: u32,
        graph: Result<(), EditorError>,
    ) -> (r: Result<(), EditorError>)
        requires
            old(engine).wf(),
        ensures
            final(engine).wf(),
            final(engine).waits_like(old(engine)),
            final(self)@ == old(self)@,
            old(self)@.atomic ==> final(engine)@ == old(engine)@ && (r matches Err(e) && e@ == (
            EditorErrorView::TransactionUnsupported {
                reason:
                    "delete_rows is not supported inside atomic actions (conservative rollback policy)"@,
            })),
            !old(self)@.atomic ==> is_line_edit(
                old(engine)@,
                sheet@,
                sheet_id,
                line_op(sheet_id, start, count, Axis::Rows, false),
                graph,
                r,
                final(engine)@,
            ),
    {
        match check_action_edit(self.atomic, ActionEdit::DeleteRows) {
            None => engine.delete_rows(sheet, sheet_id, start, count, graph),
            Some(reason) => Err(
                EditorError::TransactionUnsupported { reason: reason.to_string() },
            ),
        }
    }

    /// Deletes columns from the one with the one-based number on, once the graph has. An atomic action
    /// refuses that, since it could not take it back.
    pub fn delete_columns(
        &mut self,
        engine: &mut Engine,
        sheet: &str,
        sheet_id: Option<SheetId>,
        start: u32,
        count: u32,
        graph: Result<(), EditorError>,
    ) -> (r: Result<(), EditorError>)
        requires
            old(engine).wf(),
        ensures
            final(engine).wf(),
            final(engine).waits_like(old(engine)),
            final(self)@ == old(self)@,
            old(self)@.atomic ==> final(engine)@ == old(engine)@ && (r matches Err(e) && e@ == (
            EditorErrorView::TransactionUnsupported {
                reason:
                    "delete_columns is not supported inside atomic actions (conservative rollback policy)"@,
            })),
            !old(self)@.atomic ==> is_line_edit(
                old(engine)@,
                sheet@,
                sheet_id,
                line_op(sheet_id, start, count, Axis::Columns, false),
                graph,
                r,
                final(engine)@,
            ),
    {
        match check_action_edit(self.atomic, ActionEdit::DeleteColumns) {
            None => engine.delete_columns(sheet, sheet_id, start, count, graph),
            Some(reason) => Err(
                EditorError::TransactionUnsupported { reason: reason.to_string() },
            ),
        }
    }
}

/// The change of an insertion.
pub open spec fn insert_op(sheet_id: SheetId, axis: Axis, before: u32, count: u32) -> ArrowOp {
    match axis {
        Axis::Rows => ArrowOp::InsertRows { sheet_id, before0: before, count },
        Axis::Columns => ArrowOp::InsertCols { sheet_id, before0: before, count },
    }
}

/// Whether `w` is the workbook once the entries have been followed and lines inserted; hidden rows
/// move with their rows.
pub open spec fn inserted_after(
    v: EngineView,
    entries: Seq<ChangeEvent>,
    sheet_id: SheetId,
    axis: Axis,
    before: u32,
    count: u32,
    w: EngineView,
) -> bool {
    &&& exists|mid: StoreView|
        {
            &&& #[trigger] between(mid)
            &&& store_redone(v.store, entries, entries.len(), mid)
            &&& lines_inserted(mid, sheet_id, axis, before, count, w.store)
        }
    &&& axis == Axis::Rows ==> w.hidden == with_new_rows(v.hidden, sheet_id, before, count)
    &&& axis == Axis::Columns ==> w.hidden == v.hidden
    &&& rows_counted(v, w)
    &&& w == (EngineView {
        store: w.store,
        hidden: w.hidden,
        row_versions: if axis == Axis::Rows {
            counted_up(v.row_versions, sheet_id)
        } else {
            v.row_versions
        },
        changes: heard_all(v.changes, v.mode, entries, entries.len()),
        ..v
    })
}

/// The entry of the change log about lines that were inserted inside an action: of rows there is
/// one, since hidden rows move with them.
pub open spec fn insert_entry(sheet_id: SheetId, axis: Axis, before: u32, count: u32) -> Seq<ChangeEvent> {
    match axis {
        Axis::Rows => seq![ChangeEvent::RowsInserted { sheet_id, before, count }],
        Axis::Columns => Seq::empty(),
    }
}

/// Whether the answer, the workbook and the action after it are those of an insertion inside an
/// atomic action: a refusal of the graph changes nothing.
pub open spec fn is_insertion(
    v: EngineView,
    a: ActionView,
    sheet_id: SheetId,
    axis: Axis,
    before: u32,
    count: u32,
    graph: Result<Vec<ChangeEvent>, EditorError>,
    r: Result<(), EditorError>,
    w: EngineView,
    b: ActionView,
) -> bool {
    match graph {
        Err(e) => r == Err::<(), EditorError>(e) && w == v && b == a,
        Ok(entries) => {
            &&& r is Ok
            &&& inserted_after(v, entries@, sheet_id, axis, before, count, w)
            &&& b == (ActionView {
                events: a.events + entries@ + insert_entry(sheet_id, axis, before, count),
                ops: a.ops.push(insert_op(sheet_id, axis, before, count)),
                ..a
            })
        },
    }
}

/// The answer of the graph, without the entries of the change log.
pub open spec fn taken(graph: Result<Vec<ChangeEvent>, EditorError>) -> Result<(), EditorError> {
    match graph {
        Ok(_) => Ok(()),
        Err(e) => Err(e),
    }
}

fn forget_entries(graph: Result<Vec<ChangeEvent>, EditorError>) -> (r: Result<(), EditorError>)
    ensures
        r == taken(graph),
{
    match graph {
        Ok(_) => Ok(()),
        Err(e) => Err(e),
    }
}

/// Hiding or showing rows leaves the rows behind them as they are.
pub proof fn lemma_row_ahead(
    h: HiddenRows,
    sheet_id: SheetId,
    start: u32,
    n: nat,
    hidden: bool,
    source: RowVisibilitySource,
    row: u32,
)
    requires
        start + n <= row,
    ensures
        is_hidden(hidden_until(h, sheet_id, start, n, hidden, source), sheet_id, row, source)
            == is_hidden(h, sheet_id, row, source),
    decreases n,
{
    if n > 0 {
        lemma_row_ahead(h, sheet_id, start, (n - 1) as nat, hidden, source, row);
        row_keys_are_distinct(
            (sheet_id, (start + n - 1) as u32, source),
            (sheet_id, row, source),
        );
    }
}

/// What is journaled as the old value: what the cell showed, where it had no formula.
pub proof fn the_old_value_is_what_the_cell_showed(s: StoreView, cell: CellRef)
    ensures
        held_before(s, cell, true) is None,
        held_before(s, cell, false) == Some(read(s, cell)),
        computed_at(s, cell) is Some <==> s.computed.contains_key(spec_cell_key(cell)),
        computed_at(s, cell) matches Some(v) ==> v == literal_of(s.computed[spec_cell_key(cell)]),
{
}

/// Hiding rows journals each row that is changed by it, with what it was and what it becomes, and no
/// row that already was so.
pub proof fn changed_rows_are_journaled(
    h: HiddenRows,
    sheet_id: SheetId,
    start: u32,
    n: nat,
    hidden: bool,
    source: RowVisibilitySource,
    row: u32,
)
    requires
        start + n <= u32::MAX + 1,
        start <= row < start + n,
    ensures
        hidden_entries(h, sheet_id, start, n, hidden, source).contains(
            ChangeEvent::SetRowVisibility(
                SetRowVisibility { sheet_id, row, source, old_hidden: !hidden, new_hidden: hidden },
            ),
        ) <==> is_hidden(h, sheet_id, row, source) != hidden,
        hidden_entries(h, sheet_id, start, n, hidden, source).len() <= n,
    decreases n,
{
    let m = (n - 1) as nat;
    let before = hidden_entries(h, sheet_id, start, m, hidden, source);
    let last = (start + n - 1) as u32;
    let e = ChangeEvent::SetRowVisibility(
        SetRowVisibility { sheet_id, row, source, old_hidden: !hidden, new_hidden: hidden },
    );
    let added = ChangeEvent::SetRowVisibility(
        SetRowVisibility { sheet_id, row: last, source, old_hidden: !hidden, new_hidden: hidden },
    );
    lemma_entries_are_of_their_rows(h, sheet_id, start, m, hidden, source);
    assert(before.push(added)[before.len() as int] == added);
    if row < last {
        changed_rows_are_journaled(h, sheet_id, start, m, hidden, source, row);
        if before.contains(e) {
            let k = choose|k: int| 0 <= k < before.len() && before[k] == e;
            assert(before.push(added)[k] == e);
        }
        if before.push(added).contains(e) {
            let k = choose|k: int| 0 <= k < before.push(added).len() && before.push(added)[k] == e;
            if k < before.len() {
                assert(before[k] == e);
            }
        }
    } else {
        if before.contains(e) {
            let k = choose|k: int| 0 <= k < before.len() && before[k] == e;
            assert(before[k] matches ChangeEvent::SetRowVisibility(x) && x.row < last);
        }
    }
}

proof fn lemma_entries_are_of_their_rows(
    h: HiddenRows,
    sheet_id: SheetId,
    start: u32,
    n: nat,
    hidden: bool,
    source: RowVisibilitySource,
)
    requires
        start + n <= u32::MAX + 1,
    ensures
        hidden_entries(h, sheet_id, start, n, hidden, source).len() <= n,
        forall|k: int|
            0 <= k < hidden_entries(h, sheet_id, start, n, hidden, source).len() ==> (
            #[trigger] hidden_entries(h, sheet_id, start, n, hidden, source)[k] matches
                ChangeEvent::SetRowVisibility(x) && x.row < start + n),
    decreases n,
{
    if n > 0 {
        lemma_entries_are_of_their_rows(h, sheet_id, start, (n - 1) as nat, hidden, source);
    }
}

/// A refused insertion changes nothing and journals nothing; an accepted one is journaled along its
/// axis, with the entries of the graph before it.
pub proof fn refused_insertions_leave_no_trace(
    v: EngineView,
    a: ActionView,
    sheet_id: SheetId,
    axis: Axis,
    before: u32,
    count: u32,
    graph: Result<Vec<ChangeEvent>, EditorError>,
    r: Result<(), EditorError>,
    w: EngineView,
    b: ActionView,
)
    requires
        is_insertion(v, a, sheet_id, axis, before, count, graph, r, w, b),
    ensures
        r is Ok <==> graph is Ok,
        graph is Err ==> w == v && b == a,
        graph matches Ok(entries) ==> {
            &&& b.ops.len() == a.ops.len() + 1 && b.ops.drop_last() == a.ops
            &&& axis == Axis::Rows ==> b.ops.last() == (ArrowOp::InsertRows {
                sheet_id,
                before0: before,
                count,
            }) && b.events == a.events + entries@ + seq![
                ChangeEvent::RowsInserted { sheet_id, before, count },
            ]
            &&& axis == Axis::Columns ==> b.ops.last() == (ArrowOp::InsertCols {
                sheet_id,
                before0: before,
                count,
            }) && b.events == a.events + entries@
            &&& b.name == a.name && b.atomic == a.atomic
        },
{
    if let Ok(entries) = graph {
        assert(b.ops.drop_last() =~= a.ops);
        assert(a.events + entries@ + Seq::<ChangeEvent>::empty() =~= a.events + entries@);
    }
}

/// Once an edit is made the storage is the edited one, and the spans hear of the cell after they have
/// heard of the entries of the graph; nothing else changes.
pub proof fn edits_tell_of_their_cell(v: EngineView, entries: Seq<ChangeEvent>, cell: CellRef, s: StoreView)
    ensures
        ({
            let w = followed(v, entries, cell, s);
            &&& w.store == s && w.hidden == v.hidden && w.row_versions == v.row_versions
            &&& w.snapshot_id == v.snapshot_id && w.topology_epoch == v.topology_epoch && w.kept == v.kept
            &&& v.mode != crate::ingest::FormulaPlaneMode::Off ==> w.changes.len() > 0
                && crate::engine::tells_of(w.changes.last(), cell)
            &&& v.mode != crate::ingest::FormulaPlaneMode::Off ==> w.changes.drop_last() == heard_all(
                v.changes,
                v.mode,
                entries,
                entries.len(),
            )
        }),
{
    let told = heard_all(v.changes, v.mode, entries, entries.len());
    crate::engine::spans_hear_of_every_change(told, v.mode, StructuralScope::Cell(cell), cell);
}

/// Rows that an action hides or shows read so from then on, and no other row reads differently.
pub proof fn rows_of_an_action_are_read_back(
    h: HiddenRows,
    sheet_id: SheetId,
    start: u32,
    n: nat,
    hidden: bool,
    source: RowVisibilitySource,
    other: (SheetId, u32, RowVisibilitySource),
)
    requires
        start + n <= u32::MAX + 1,
    ensures
        is_hidden(hidden_until(h, sheet_id, start, n, hidden, source), other.0, other.1, other.2) == (
        if other.0 == sheet_id && other.2 == source && start <= other.1 < start + n {
            hidden
        } else {
            is_hidden(h, other.0, other.1, other.2)
        }),
    decreases n,
{
    if n > 0 {
        rows_of_an_action_are_read_back(
            h,
            sheet_id,
            start,
            (n - 1) as nat,
            hidden,
            source,
            other,
        );
        row_keys_are_distinct((sheet_id, (start + n - 1) as u32, source), other);
    }
}

} // verus!
