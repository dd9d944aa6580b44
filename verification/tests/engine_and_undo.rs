use formualizer_eval::coord::CellRef;
use formualizer_eval::effects::SpillSnapshot;
use formualizer_eval::engine::{
    ActionEdit, Engine, PlaneChange, check_action_edit, demote_span_containing_cell_for_write, editor_error_to_excel, get_cell,
    journal_delta,
};
use formualizer_eval::ingest::FormulaPlaneMode;
use formualizer_eval::region::{Region, StructuralScope};
use formualizer_eval::schedule::Schedule;
use formualizer_eval::store::CellStore;
use formualizer_eval::structural::StructuralOp;
use formualizer_eval::undo::{
    ArrowOp, ChangeEvent, apply_arrow_op, apply_arrow_undo_batch, mirror_forward_change_to_arrow,
    mirror_inverse_change_to_arrow, record_spill_op,
};
use formualizer_eval::value::{ErrorKind, ExcelError, LiteralValue};
use formualizer_eval::visibility::{
    EditorError, RowVisibility, RowVisibilitySource, SetRowVisibility, VisibilityMaskMode, ensure_known_sheet_id,
    normalize_row_1based, normalize_row_range_1based, visibility_change,
};

fn at(row: u32, col: u32) -> CellRef {
    CellRef { sheet_id: 1, row, col }
}

fn num(x: f64) -> LiteralValue {
    LiteralValue::Number(x.to_bits())
}

fn engine() -> Engine {
    Engine::new(CellStore::new(None), FormulaPlaneMode::AuthoritativeExperimental)
}

fn shows(e: &Engine, row: u32, col: u32, x: f64) -> bool {
    e.get_cell_value(1, row, col).map(|v| v.same(&num(x))).unwrap_or(false)
}

#[test]
fn set_values_are_read_back() {
    let mut e = engine();
    let before = e.data_snapshot_id();
    assert!(e.set_cell_value(1, 2, 3, &num(5.0), Ok(())).is_ok());
    assert!(shows(&e, 2, 3, 5.0));
    assert_ne!(e.data_snapshot_id(), before);
    assert_eq!(e.take_plane_changes(), vec![PlaneChange::Region(Region::point(1, 1, 2))]);
    assert_eq!(e.take_plane_changes(), Vec::new());
}

#[test]
fn a_refused_edit_changes_nothing() {
    let mut e = engine();
    let before = e.data_snapshot_id();
    let refused = e.set_cell_value(1, 2, 3, &num(5.0), Err(ExcelError::new(ErrorKind::Ref)));
    assert_eq!(refused.unwrap_err().kind, ErrorKind::Ref);
    assert!(e.get_cell_value(1, 2, 3).is_none());
    assert_eq!(e.data_snapshot_id(), before);
    assert_eq!(e.take_plane_changes().len(), 0);
}

#[test]
fn a_formula_takes_the_edit_of_its_cell_away() {
    let mut e = engine();
    assert!(e.set_cell_value(1, 2, 3, &num(5.0), Ok(())).is_ok());
    assert!(e.set_cell_formula(1, 2, 3, Ok(())).is_ok());
    assert!(e.get_cell_value(1, 2, 3).is_none());
}

#[test]
fn formulas_set_in_bulk_are_told_of_once_each() {
    let mut e = engine();
    e.bulk_set_formulas(1, &vec![(1, 1), (2, 1)], 2);
    assert_eq!(
        e.take_plane_changes(),
        vec![PlaneChange::Region(Region::point(1, 0, 0)), PlaneChange::Region(Region::point(1, 1, 0))]
    );
}

#[test]
fn the_storage_is_lent_and_returned() {
    let mut e = engine();
    assert!(e.set_cell_value(1, 1, 1, &num(5.0), Ok(())).is_ok());
    let mut store = e.lend_store();
    assert!(e.get_cell_value(1, 1, 1).is_none());
    store.mirror_value_to_computed_overlay(1, 2, 1, &num(6.0));
    e.return_store(store);
    assert!(shows(&e, 1, 1, 5.0));
    assert!(shows(&e, 2, 1, 6.0));
    let values = e.evaluated_values(&vec![(1, 2, 1), (1, 9, 9)]);
    assert!(values[0].as_ref().unwrap().same(&num(6.0)));
    assert!(values[1].is_none());
}

#[test]
fn kept_schedules_end_with_the_topology() {
    let mut e = engine();
    let vertices = vec![1, 2];
    assert!(e.kept_schedule(true, &vertices).is_none());
    e.schedule_built(true, false, &vertices, &Schedule::empty(), 0, 0, 0);
    assert!(e.kept_schedule(true, &vertices).is_some());
    e.mark_data_edited();
    assert!(e.kept_schedule(true, &vertices).is_some());
    e.mark_topology_edited();
    assert!(e.kept_schedule(true, &vertices).is_none());
}

#[test]
fn rows_are_inserted_and_deleted() {
    let mut e = engine();
    assert!(e.set_cell_value(1, 3, 1, &num(3.0), Ok(())).is_ok());
    assert!(e.set_row_hidden("S", Some(1), 3, true, RowVisibilitySource::Manual).is_ok());
    assert!(e.has_room_for(StructuralOp::InsertRows { sheet_id: 1, before: 1, count: 2 }));
    assert!(e.insert_rows("S", Some(1), 2, 2, Ok(())).is_ok());
    assert!(shows(&e, 5, 1, 3.0));
    assert!(e.get_cell_value(1, 3, 1).is_none());
    assert_eq!(e.is_row_hidden(Some(1), 5, None), Some(true));
    assert_eq!(e.is_row_hidden(Some(1), 3, None), Some(false));
    assert!(e.delete_rows("S", Some(1), 2, 2, Ok(())).is_ok());
    assert!(shows(&e, 3, 1, 3.0));
    assert!(e.insert_columns("S", Some(1), 1, 1, Ok(())).is_ok());
    assert!(shows(&e, 3, 2, 3.0));
    assert!(e.delete_columns("S", Some(1), 1, 1, Ok(())).is_ok());
    assert!(shows(&e, 3, 1, 3.0));
    match e.insert_rows("T", None, 1, 1, Ok(())) {
        Err(EditorError::InvalidName { name, reason }) => {
            assert_eq!((name.as_str(), reason.as_str()), ("T", "Unknown sheet"))
        },
        _ => panic!("the sheet is unknown"),
    }
}

#[test]
fn sheets_are_added_copied_renamed_and_removed() {
    let mut e = engine();
    assert_eq!(e.add_sheet(Ok(1)).unwrap(), 1);
    assert!(e.set_cell_value(1, 1, 1, &num(1.0), Ok(())).is_ok());
    assert_eq!(e.duplicate_sheet(Some(1), Ok(2)).unwrap(), 2);
    assert!(e.get_cell_value(2, 1, 1).unwrap().same(&num(1.0)));
    e.stage_formula_text("One", 4, 4, "=1".to_string());
    assert!(e.rename_sheet("One", "Uno", Ok(())).is_ok());
    assert_eq!(e.get_staged_formula_text("Uno", 4, 4), Some("=1".to_string()));
    assert_eq!(e.get_staged_formula_text("One", 4, 4), None);
    assert!(e.remove_sheet(1, "Uno", Ok(())).is_ok());
    assert!(e.get_cell_value(1, 1, 1).is_none());
    assert!(e.get_cell_value(2, 1, 1).is_some());
    assert_eq!(e.get_staged_formula_text("Uno", 4, 4), None);
    let missing = e.duplicate_sheet(None, Ok(3)).unwrap_err();
    assert_eq!(missing.message.unwrap(), "Source sheet does not exist");
    assert!(e.add_sheet(Err(ExcelError::new(ErrorKind::Name))).is_err());
}

#[test]
fn names_and_sources_are_edits_of_the_graph() {
    let mut e = engine();
    let mut id = e.data_snapshot_id();
    for r in [
        e.define_name(Ok(())),
        e.update_name(Ok(())),
        e.delete_name(Ok(())),
        e.define_table(Ok(())),
        e.define_source_scalar(Ok(())),
        e.define_source_table(Ok(())),
        e.set_source_scalar_version(Ok(())),
        e.set_source_table_version(Ok(())),
        e.invalidate_source(Ok(())),
    ] {
        assert!(r.is_ok());
    }
    assert_ne!(e.data_snapshot_id(), id);
    id = e.data_snapshot_id();
    assert!(e.define_name(Err(ExcelError::new(ErrorKind::Name))).is_err());
    assert_eq!(e.data_snapshot_id(), id);
}

#[test]
fn staged_texts_are_shown_before_built_ones() {
    let mut e = engine();
    e.stage_formula_text("S", 1, 1, "A2*2".to_string());
    let staged = e.formula_text_at_cell("S", at(0, 0), Some("=A9".to_string())).unwrap();
    assert_eq!(staged, Some("=A2*2".to_string()));
    let built = e.formula_text_at_cell("S", at(1, 0), Some("=A9".to_string())).unwrap();
    assert_eq!(built, Some("=A9".to_string()));
    assert_eq!(e.formula_text_at_cell("S", at(2, 0), None).unwrap(), None);
    assert_eq!(e.clear_staged_formula_text("S", 1, 1), Some("A2*2".to_string()));
}

#[test]
fn actions_do_not_nest() {
    let mut e = engine();
    assert!(e.begin_action(true).is_ok());
    match e.begin_action(true) {
        Err(EditorError::TransactionFailed { reason }) => {
            assert_eq!(reason, "Nested Engine::action calls are not supported (deterministic rule)")
        },
        _ => panic!("actions do not nest"),
    }
    assert!(e.begin_action(false).is_err());
    e.end_action();
    assert!(e.begin_action(false).is_ok());
}

#[test]
fn atomic_actions_refuse_deletions() {
    assert_eq!(check_action_edit(false, ActionEdit::DeleteRows), None);
    assert_eq!(check_action_edit(true, ActionEdit::Other), None);
    assert_eq!(
        check_action_edit(true, ActionEdit::DeleteRows),
        Some("delete_rows is not supported inside atomic actions (conservative rollback policy)")
    );
    assert_eq!(
        check_action_edit(true, ActionEdit::DeleteColumns),
        Some("delete_columns is not supported inside atomic actions (conservative rollback policy)")
    );
}

#[test]
fn a_rolled_back_action_leaves_no_trace() {
    let mut e = engine();
    assert!(e.set_cell_value(1, 1, 1, &num(1.0), Ok(())).is_ok());
    assert!(e.begin_action(true).is_ok());
    let op = journal_delta(at(0, 0), &Some(num(1.0)), false, &Some(num(2.0)));
    assert!(e.set_cell_value(1, 1, 1, &num(2.0), Ok(())).is_ok());
    let events = vec![ChangeEvent::SetValue {
        cell: at(0, 0),
        old_value: Some(num(1.0)),
        old_formula: false,
        new: num(2.0),
    }];
    assert_eq!(e.rollback_from_action_journal(&events, &vec![op]), 1);
    assert!(shows(&e, 1, 1, 1.0));
}

#[test]
fn undo_and_redo_move_between_two_values() {
    let mut e = engine();
    assert!(e.set_cell_value(1, 1, 1, &num(2.0), Ok(())).is_ok());
    let events = || vec![ChangeEvent::SetValue { cell: at(0, 0), old_value: Some(num(1.0)), old_formula: false, new: num(2.0) }];
    e.undo_logged(&events());
    assert!(shows(&e, 1, 1, 1.0));
    e.redo_logged(&events());
    assert!(shows(&e, 1, 1, 2.0));
    let ops = vec![
        ArrowOp::SetDeltaCell { cell: at(0, 0), old: Some(num(1.0)), new: Some(num(2.0)) },
        ArrowOp::SetDeltaCell { cell: at(0, 0), old: Some(num(2.0)), new: Some(num(3.0)) },
    ];
    assert_eq!(e.redo_action(&events(), &ops), 2);
    assert!(shows(&e, 1, 1, 3.0));
    assert_eq!(e.undo_action(&events(), &ops), 2);
    assert!(shows(&e, 1, 1, 1.0));
}

#[test]
fn undoing_an_insertion_brings_back_the_values() {
    let mut store = CellStore::new(None);
    store.mirror_value_to_overlay(1, 5, 1, &num(5.0));
    let op = ArrowOp::InsertRows { sheet_id: 1, before0: 2, count: 3 };
    assert!(apply_arrow_op(&mut store, &op, false));
    assert!(store.read_cell(at(7, 0)).same(&num(5.0)));
    assert!(apply_arrow_op(&mut store, &op, true));
    assert!(store.read_cell(at(4, 0)).same(&num(5.0)));
    assert_eq!(apply_arrow_undo_batch(&mut store, &vec![op], false), 1);
}

#[test]
fn spills_are_taken_back_from_the_storage() {
    let snap = |x: f64| SpillSnapshot { target_cells: vec![at(0, 0), at(0, 1)], values: vec![vec![num(x), num(x + 1.0)]] };
    let mut store = CellStore::new(None);
    let ev = ChangeEvent::SpillCommitted { before: None, after: snap(1.0) };
    mirror_forward_change_to_arrow(&mut store, &ev);
    assert!(store.read_cell(at(0, 1)).same(&num(2.0)));
    mirror_inverse_change_to_arrow(&mut store, &ev);
    assert!(store.read_cell(at(0, 1)).is_empty());
    let cleared = ChangeEvent::SpillCleared { before: snap(4.0) };
    mirror_inverse_change_to_arrow(&mut store, &cleared);
    assert!(store.read_cell(at(0, 1)).same(&num(5.0)));
    mirror_forward_change_to_arrow(&mut store, &cleared);
    assert!(store.read_cell(at(0, 0)).is_empty());
    let op = record_spill_op(&ev).unwrap();
    assert!(apply_arrow_op(&mut store, &op, false));
    assert!(store.read_cell(at(0, 0)).same(&num(1.0)));
    assert!(apply_arrow_op(&mut store, &op, true));
    assert!(store.read_cell(at(0, 0)).is_empty());
    assert!(record_spill_op(&ChangeEvent::Other).is_none());
}

#[test]
fn hidden_rows_are_read_back_by_source() {
    let mut v = RowVisibility::new();
    assert!(v.set_row_hidden_by_sheet_id(1, 4, true, RowVisibilitySource::Manual));
    assert!(!v.set_row_hidden_by_sheet_id(1, 4, true, RowVisibilitySource::Manual));
    assert!(v.set_rows_hidden_by_sheet_id(1, 4, 6, true, RowVisibilitySource::Filter));
    assert!(v.row_hidden(1, 4, Some(RowVisibilitySource::Manual)));
    assert!(!v.row_hidden(1, 5, Some(RowVisibilitySource::Manual)));
    assert!(v.row_hidden(1, 5, None));
    assert!(!v.row_hidden(2, 5, None));
    assert_eq!(v.is_row_hidden(Some(1), 6, None), Some(true));
    assert_eq!(v.is_row_hidden(None, 6, None), None);
    assert_eq!(v.is_row_hidden(Some(1), 0, None), None);
    let mask = |m| v.build_row_visibility_mask_for_view(1, 10, 3, 7, m);
    assert_eq!(mask(VisibilityMaskMode::IncludeAll), vec![true; 5]);
    assert_eq!(mask(VisibilityMaskMode::ExcludeManualHidden), vec![true, false, true, true, true]);
    assert_eq!(mask(VisibilityMaskMode::ExcludeFilterHidden), vec![true, false, false, false, true]);
    assert_eq!(mask(VisibilityMaskMode::ExcludeManualOrFilterHidden), vec![true, false, false, false, true]);
}

#[test]
fn undoing_brings_back_hidden_rows() {
    let mut v = RowVisibility::new();
    let ev = |row, old_hidden, new_hidden| SetRowVisibility {
        sheet_id: 1,
        row,
        source: RowVisibilitySource::Filter,
        old_hidden,
        new_hidden,
    };
    let events = vec![ev(1, false, true), ev(2, false, true), ev(1, true, false)];
    v.apply_forward_row_visibility_events(&events);
    assert!(!v.row_hidden(1, 1, None));
    assert!(v.row_hidden(1, 2, None));
    v.apply_inverse_row_visibility_events(&events);
    assert!(!v.row_hidden(1, 1, None));
    assert!(!v.row_hidden(1, 2, None));
}

#[test]
fn rows_are_checked_before_they_are_hidden() {
    assert_eq!(normalize_row_1based(1).unwrap(), 0);
    assert!(matches!(normalize_row_1based(0), Err(EditorError::OutOfBounds { row: 0, .. })));
    assert_eq!(normalize_row_range_1based(2, 4).unwrap(), (1, 3));
    match normalize_row_range_1based(4, 2) {
        Err(EditorError::TransactionFailed { reason }) => assert_eq!(reason, "Row range start is greater than end"),
        _ => panic!("the range is reversed"),
    }
    assert_eq!(ensure_known_sheet_id(Some(3), "S").unwrap(), 3);
    assert!(matches!(ensure_known_sheet_id(None, "S"), Err(EditorError::InvalidName { .. })));
    assert_eq!(visibility_change(false, 1, 2, 3), None);
    assert_eq!(visibility_change(true, 1, 2, 3), Some(StructuralScope::Sheet(1)));
    assert_eq!(visibility_change(true, 1, 2, 2), Some(StructuralScope::Region(Region::whole_row(1, 2))));
}

#[test]
fn editor_errors_are_reported() {
    let inner = editor_error_to_excel(EditorError::Excel(ExcelError::new(ErrorKind::Num)), "text");
    assert_eq!((inner.kind, inner.message), (ErrorKind::Num, None));
    let other = editor_error_to_excel(EditorError::OutOfBounds { row: 0, col: 0 }, "text");
    assert_eq!((other.kind, other.message), (ErrorKind::Value, Some("text".to_string())));
}

#[test]
fn spans_are_demoted_under_a_write() {
    assert_eq!(demote_span_containing_cell_for_write(FormulaPlaneMode::Off, true, at(1, 1)), None);
    assert_eq!(demote_span_containing_cell_for_write(FormulaPlaneMode::Shadow, false, at(1, 1)), None);
    assert_eq!(
        demote_span_containing_cell_for_write(FormulaPlaneMode::Shadow, true, at(1, 1)),
        Some(Region::point(1, 1, 1))
    );
}

#[test]
fn cells_without_vertex_or_value_are_absent() {
    assert!(get_cell::<u32>(false, None, None).is_none());
    let (formula, value) = get_cell(true, Some(3u32), Some(num(1.0))).unwrap();
    assert_eq!(formula, Some(3));
    assert!(value.unwrap().same(&num(1.0)));
}

#[test]
fn folded_edits_are_read_as_before() {
    let mut e = engine();
    assert!(e.set_cell_value(1, 1, 1, &num(2.0), Ok(())).is_ok());
    let number = e.data_snapshot_id();
    e.fold_edits(&Region::point(1, 0, 0));
    assert!(shows(&e, 1, 1, 2.0));
    assert_eq!(e.data_snapshot_id(), number);
    assert!(e.set_cell_formula(1, 1, 1, Ok(())).is_ok());
    assert!(shows(&e, 1, 1, 2.0));
}
