use formualizer_eval::action::EngineAction;
use formualizer_eval::coord::CellRef;
use formualizer_eval::effects::SpillSnapshot;
use formualizer_eval::engine::{Engine, invalidate_formula_plane_spans_for_name};
use formualizer_eval::ingest::FormulaPlaneMode;
use formualizer_eval::overlay::OverlayValue;
use formualizer_eval::recalc::{CancelPoint, check_cancel};
use formualizer_eval::reference_type::SheetLocator;
use formualizer_eval::region::{PlacementDomain, Region};
use formualizer_eval::schedule::{Layer, Schedule, ScheduleUnit};
use formualizer_eval::source_table::SourceCache;
use formualizer_eval::store::CellStore;
use formualizer_eval::undo::{ArrowOp, ChangeEvent, record_spill_ops_into_arrow_undo};
use formualizer_eval::value::{ErrorKind, ExcelError, LiteralValue};
use formualizer_eval::visibility::{EditorError, RowVisibilitySource};
use formualizer_eval::walk::{UnitWalk, WalkStep};
use rustc_hash::FxHashSet;

fn at(row: u32, col: u32) -> CellRef {
    CellRef { sheet_id: 1, row, col }
}

fn num(x: f64) -> LiteralValue {
    LiteralValue::Number(x.to_bits())
}

fn engine() -> Engine {
    let mut e = Engine::new(CellStore::new(None), FormulaPlaneMode::Off);
    assert!(e.set_cell_value(1, 1, 1, &num(1.0), Ok(())).is_ok());
    assert!(e.set_cell_value(1, 5, 1, &num(5.0), Ok(())).is_ok());
    e
}

fn shows(e: &Engine, row: u32, col: u32, x: f64) -> bool {
    e.get_cell_value(1, row, col).map(|v| v.same(&num(x))).unwrap_or(false)
}

fn set(a: &mut EngineAction, e: &mut Engine, row: u32, x: f64) -> Result<(), EditorError> {
    let old_value = e.get_cell_value(1, row, 1);
    let entry = ChangeEvent::SetValue { cell: at(row - 1, 0), old_value, old_formula: false, new: num(x) };
    a.set_cell_value(e, 1, row, 1, &num(x), false, Ok(vec![entry]))
}

#[test]
fn a_failed_atomic_action_is_not_seen() {
    let mut e = engine();
    let mut a = EngineAction::new("edit", true);
    assert_eq!(a.name(), "edit");
    assert!(set(&mut a, &mut e, 1, 10.0).is_ok());
    assert!(set(&mut a, &mut e, 1, 11.0).is_ok());
    assert!(set(&mut a, &mut e, 2, 20.0).is_ok());
    assert!(a.insert_rows(&mut e, "S", Some(1), 2, 3, Ok(vec![ChangeEvent::Rewired])).is_ok());
    assert!(shows(&e, 8, 1, 5.0));
    assert!(shows(&e, 5, 1, 20.0));
    assert!(set(&mut a, &mut e, 8, 80.0).is_ok());
    let formula = ChangeEvent::SetFormula { cell: at(0, 0), old_value: Some(num(11.0)), old_formula: false };
    assert!(a.set_cell_formula(&mut e, 1, 1, 1, false, Ok(vec![formula])).is_ok());
    assert!(e.get_cell_value(1, 1, 1).is_none());
    let (events, ops) = a.into_journal();
    assert_eq!(events.len(), 7);
    assert_eq!(ops.len(), 10);
    assert_eq!(e.rollback_from_action_journal(&events, &ops), 10);
    assert!(shows(&e, 1, 1, 1.0));
    assert!(shows(&e, 5, 1, 5.0));
    assert!(e.get_cell_value(1, 2, 1).is_none());
    assert!(e.get_cell_value(1, 8, 1).is_none());
}

#[test]
fn a_refused_edit_leaves_no_entry() {
    let mut e = engine();
    let mut a = EngineAction::new("edit", true);
    let refused = Err(EditorError::Excel(ExcelError::new(ErrorKind::Ref)));
    assert!(a.set_cell_value(&mut e, 1, 1, 1, &num(2.0), false, refused).is_err());
    assert!(shows(&e, 1, 1, 1.0));
    let (events, ops) = a.into_journal();
    assert_eq!((events.len(), ops.len()), (0, 0));
}

#[test]
fn atomic_actions_do_not_delete_lines() {
    let mut e = engine();
    let mut a = EngineAction::new("edit", true);
    match a.delete_rows(&mut e, "S", Some(1), 1, 1, Ok(())) {
        Err(EditorError::TransactionUnsupported { reason }) => assert_eq!(
            reason,
            "delete_rows is not supported inside atomic actions (conservative rollback policy)"
        ),
        _ => panic!("rows cannot be deleted"),
    }
    assert!(matches!(
        a.delete_columns(&mut e, "S", Some(1), 1, 1, Ok(())),
        Err(EditorError::TransactionUnsupported { .. })
    ));
    let mut plain = EngineAction::new("edit", false);
    assert!(plain.delete_rows(&mut e, "S", Some(1), 1, 1, Ok(())).is_ok());
    assert!(shows(&e, 4, 1, 5.0));
    assert!(plain.insert_columns(&mut e, "S", Some(1), 1, 1, Ok(Vec::new())).is_ok());
    assert!(shows(&e, 4, 2, 5.0));
    assert!(plain.set_cell_value(&mut e, 1, 1, 1, &num(9.0), false, Ok(Vec::new())).is_ok());
    assert!(shows(&e, 1, 1, 9.0));
}

#[test]
fn hidden_rows_of_an_action_are_logged_where_they_change() {
    let mut e = engine();
    let mut a = EngineAction::new("hide", true);
    assert!(a.set_row_hidden(&mut e, "S", Some(1), 3, true, RowVisibilitySource::Manual).is_ok());
    assert!(a.set_rows_hidden(&mut e, "S", Some(1), 2, 4, true, RowVisibilitySource::Manual).is_ok());
    assert_eq!(e.is_row_hidden(Some(1), 4, None), Some(true));
    assert!(a.set_rows_hidden(&mut e, "S", Some(1), 4, 2, true, RowVisibilitySource::Manual).is_err());
    assert!(a.set_row_hidden(&mut e, "S", None, 3, true, RowVisibilitySource::Manual).is_err());
    assert!(a.set_row_hidden(&mut e, "S", Some(1), 0, true, RowVisibilitySource::Manual).is_err());
    let (events, ops) = a.into_journal();
    assert_eq!((events.len(), ops.len()), (3, 0));
    e.rollback_from_action_journal(&events, &ops);
    assert_eq!(e.is_row_hidden(Some(1), 3, None), Some(false));
    assert_eq!(e.is_row_hidden(Some(1), 4, None), Some(false));
}

#[test]
fn entries_can_be_taken_back_without_a_journal() {
    let mut e = engine();
    let events = vec![ChangeEvent::SetValue { cell: at(0, 0), old_value: Some(num(1.0)), old_formula: false, new: num(2.0) }];
    e.edit_with_logger(&events);
    assert!(shows(&e, 1, 1, 2.0));
    e.rollback_from_change_events(&events);
    assert!(shows(&e, 1, 1, 1.0));
}

#[test]
fn spilled_arrays_enter_the_journal() {
    let snap = || SpillSnapshot { target_cells: vec![at(0, 0)], values: vec![vec![num(1.0)]] };
    let mut undo = vec![ArrowOp::InsertRows { sheet_id: 1, before0: 0, count: 1 }];
    let events = vec![
        ChangeEvent::Other,
        ChangeEvent::SpillCommitted { before: None, after: snap() },
        ChangeEvent::SpillCleared { before: snap() },
    ];
    record_spill_ops_into_arrow_undo(&mut undo, &events);
    assert_eq!(undo.len(), 3);
    assert!(matches!(&undo[1], ArrowOp::RestoreComputedRect { new, .. } if new[0][0].same(&num(1.0))));
    assert!(matches!(&undo[2], ArrowOp::RestoreComputedRect { new, .. } if new[0][0].is_empty()));
}

fn schedule() -> Schedule {
    Schedule {
        units: vec![ScheduleUnit::Layer(0), ScheduleUnit::Cycle(0), ScheduleUnit::Layer(1)],
        layers: vec![Layer { vertices: vec![1, 2] }, Layer { vertices: vec![5] }],
        cycles: vec![vec![3, 4]],
    }
}

#[test]
fn units_are_walked_once_and_in_order() {
    let mut w = UnitWalk::new(schedule(), None, true, false);
    assert!(matches!(w.advance(false), WalkStep::Layer { vertices, parallel: true } if vertices == vec![1, 2]));
    assert!(matches!(w.advance(false), WalkStep::Cycle(0)));
    assert_eq!(w.cycle(0), &vec![3, 4]);
    match w.advance(true) {
        WalkStep::Cancelled(e) => assert_eq!(e.message.unwrap(), "Evaluation cancelled between layers"),
        _ => panic!("the walk is cancelled"),
    }
    assert!(matches!(w.advance(false), WalkStep::Layer { vertices, parallel: false } if vertices == vec![5]));
    assert!(matches!(w.advance(false), WalkStep::Done));
    assert!(matches!(w.advance(true), WalkStep::Done));
}

#[test]
fn a_replayed_plan_walks_dirty_vertices_only() {
    let mut dirty: FxHashSet<u32> = FxHashSet::default();
    dirty.insert(2);
    let mut w = UnitWalk::new(schedule(), Some(dirty), true, false);
    assert!(matches!(w.advance(false), WalkStep::Layer { vertices, parallel: false } if vertices == vec![2]));
    assert!(matches!(w.advance(false), WalkStep::Cycle(0)));
    assert!(matches!(w.advance(false), WalkStep::Done));
}

#[test]
fn cancellation_within_a_unit_is_told() {
    assert!(check_cancel(CancelPoint::CyclePass, false).is_ok());
    let e = check_cancel(CancelPoint::CyclePass, true).unwrap_err();
    assert_eq!(e.kind, ErrorKind::Cancelled);
    assert_eq!(e.message.unwrap(), "Evaluation cancelled during SCC evaluation");
    let e = check_cancel(CancelPoint::ParallelStart, true).unwrap_err();
    assert_eq!(e.message.unwrap(), "Parallel evaluation cancelled before starting");
    let e = check_cancel(CancelPoint::ParallelVertex, true).unwrap_err();
    assert_eq!(e.message.unwrap(), "Parallel evaluation cancelled during execution");
}

#[test]
fn tables_of_a_source_are_kept_by_version() {
    let mut c = SourceCache::new();
    let name = "t".to_string();
    assert_eq!(c.lookup_table(&name, None), None);
    assert_eq!(c.answered_table(&name, None, Ok(4)).unwrap(), 4);
    assert_eq!(c.lookup_table(&name, None), Some(4));
    assert_eq!(c.lookup_table(&name, Some(1)), None);
    let e = c.answered_table(&name, Some(1), Err(ExcelError::new(ErrorKind::Name))).unwrap_err();
    assert_eq!(e.message.unwrap(), "Unresolved source table: t");
    c.clear_source_cache();
    assert_eq!(c.lookup_table(&name, None), None);
}

#[test]
fn spans_that_depend_on_a_name_are_demoted() {
    let d = PlacementDomain::RowRun { sheet_id: 1, row_start: 4, row_end: 9, col: 2 };
    let none = invalidate_formula_plane_spans_for_name(FormulaPlaneMode::Off, &vec![Some(d)]);
    assert_eq!(none, Vec::new());
    let some = invalidate_formula_plane_spans_for_name(FormulaPlaneMode::Shadow, &vec![None, Some(d)]);
    assert_eq!(some, vec![Region::from_domain(&d)]);
}

#[test]
fn a_redone_action_is_seen_again() {
    let mut e = engine();
    let mut a = EngineAction::new("edit", true);
    assert!(set(&mut a, &mut e, 1, 10.0).is_ok());
    assert!(a.insert_rows(&mut e, "S", Some(1), 2, 3, Ok(vec![ChangeEvent::Rewired])).is_ok());
    assert!(set(&mut a, &mut e, 8, 80.0).is_ok());
    let (events, ops) = a.into_journal();
    assert_eq!(e.undo_action(&events, &ops), ops.len());
    assert!(shows(&e, 1, 1, 1.0));
    assert!(shows(&e, 5, 1, 5.0));
    assert_eq!(e.redo_action(&events, &ops), ops.len());
    assert!(shows(&e, 1, 1, 10.0));
    assert!(shows(&e, 8, 1, 80.0));
    assert!(e.get_cell_value(1, 5, 1).is_none());
}

#[test]
fn a_cleared_array_comes_back_with_its_edit() {
    let mut s = CellStore::new(None);
    s.write_computed_overlay_value_0based(at(0, 0), OverlayValue::Number(1.0f64.to_bits()));
    s.write_computed_overlay_value_0based(at(1, 0), OverlayValue::Number(2.0f64.to_bits()));
    let mut e = Engine::new(s, FormulaPlaneMode::Off);
    let before = SpillSnapshot { target_cells: vec![at(0, 0), at(1, 0)], values: vec![vec![num(1.0)], vec![num(2.0)]] };
    let entries = vec![
        ChangeEvent::SpillCleared { before },
        ChangeEvent::SetValue { cell: at(0, 0), old_value: Some(num(1.0)), old_formula: true, new: num(7.0) },
    ];
    let mut a = EngineAction::new("overwrite", true);
    assert!(a.set_cell_value(&mut e, 1, 1, 1, &num(7.0), true, Ok(entries)).is_ok());
    assert!(shows(&e, 1, 1, 7.0));
    assert!(!shows(&e, 2, 1, 2.0));
    let (events, ops) = a.into_journal();
    assert_eq!(ops.len(), 3);
    assert_eq!(e.rollback_from_action_journal(&events, &ops), 3);
    assert!(shows(&e, 1, 1, 1.0));
    assert!(shows(&e, 2, 1, 2.0));
}

#[test]
fn cells_are_reached_by_a_locator_of_their_sheet() {
    let mut e = Engine::new(CellStore::new(None), FormulaPlaneMode::Off);
    let named = SheetLocator::Name("Data".to_string());
    assert!(e.set_cell_value_ref(&SheetLocator::Current, 3, 4, 0, 1, &num(1.0), Ok(())).is_ok());
    assert!(e.set_cell_value_ref(&named, 3, 4, 0, 1, &num(2.0), Ok(())).is_ok());
    assert!(e.set_cell_value_ref(&SheetLocator::Id(5), 3, 4, 0, 1, &num(5.0), Ok(())).is_ok());
    assert!(e.get_cell_value(3, 1, 2).unwrap().same(&num(1.0)));
    assert!(e.get_cell_value_ref(&named, Some(3), Some(4), 0, 1).unwrap().unwrap().same(&num(2.0)));
    assert!(e.get_cell_value_ref(&SheetLocator::Id(5), None, None, 0, 1).unwrap().unwrap().same(&num(5.0)));
    assert!(e.get_cell_value_ref(&SheetLocator::Current, Some(3), None, 1, 1).unwrap().is_none());
    assert_eq!(e.get_cell_value_ref(&named, Some(3), None, 0, 1).unwrap_err().kind, ErrorKind::Ref);
    let refused = Err(ExcelError::new(ErrorKind::Circ));
    assert!(e.set_cell_formula_ref(&named, 3, 4, 0, 1, refused).is_err());
    assert!(e.get_cell_value(4, 1, 2).is_some());
    assert!(e.set_cell_formula_ref(&named, 3, 4, 0, 1, Ok(())).is_ok());
    assert!(e.get_cell_value(4, 1, 2).is_none());
}

#[test]
fn a_rolled_back_action_leaves_the_hidden_rows() {
    let manual = RowVisibilitySource::Manual;
    let mut e = engine();
    assert!(e.set_row_hidden("S", Some(1), 5, true, manual).is_ok());
    let mut a = EngineAction::new("t", true);
    assert!(a.insert_rows(&mut e, "S", Some(1), 2, 3, Ok(Vec::new())).is_ok());
    assert_eq!(e.is_row_hidden(Some(1), 8, Some(manual)), Some(true));
    let (events, ops) = a.into_journal();
    assert_eq!(e.rollback_from_action_journal(&events, &ops), 1);
    assert_eq!(e.is_row_hidden(Some(1), 5, Some(manual)), Some(true));
    assert_eq!(e.is_row_hidden(Some(1), 8, Some(manual)), Some(false));
}

#[test]
fn hidden_rows_are_undone_and_redone_in_turn() {
    let manual = RowVisibilitySource::Manual;
    let filter = RowVisibilitySource::Filter;
    let hidden = |e: &Engine| {
        let rows: Vec<u32> = (1..20).filter(|r| e.is_row_hidden(Some(1), *r, None) == Some(true)).collect();
        rows
    };
    let mut e = engine();
    assert!(e.set_rows_hidden("S", Some(1), 4, 5, true, manual).is_ok());
    let mut a = EngineAction::new("t", true);
    assert!(a.set_row_hidden(&mut e, "S", Some(1), 5, false, manual).is_ok());
    assert!(a.insert_rows(&mut e, "S", Some(1), 3, 2, Ok(Vec::new())).is_ok());
    assert!(a.set_row_hidden(&mut e, "S", Some(1), 3, true, filter).is_ok());
    assert!(a.insert_columns(&mut e, "S", Some(1), 1, 2, Ok(Vec::new())).is_ok());
    assert!(a.insert_rows(&mut e, "S", Some(1), 1, 1, Ok(Vec::new())).is_ok());
    assert!(a.set_rows_hidden(&mut e, "S", Some(1), 7, 8, true, manual).is_ok());
    assert_eq!(hidden(&e), vec![4, 7, 8]);
    let (events, ops) = a.into_journal();
    assert_eq!(e.undo_action(&events, &ops), 3);
    assert_eq!(hidden(&e), vec![4, 5]);
    assert_eq!(e.redo_action(&events, &ops), 3);
    assert_eq!(hidden(&e), vec![4, 7, 8]);
    assert_eq!(e.undo_action(&events, &ops), 3);
    assert_eq!(hidden(&e), vec![4, 5]);
}

#[test]
fn a_cleared_array_comes_back_under_later_edits() {
    let mut s = CellStore::new(None);
    s.write_computed_overlay_value_0based(at(0, 0), OverlayValue::Number(1.0f64.to_bits()));
    s.write_computed_overlay_value_0based(at(1, 0), OverlayValue::Number(2.0f64.to_bits()));
    let mut e = Engine::new(s, FormulaPlaneMode::Off);
    let before = SpillSnapshot { target_cells: vec![at(0, 0), at(1, 0)], values: vec![vec![num(1.0)], vec![num(2.0)]] };
    let entries = vec![
        ChangeEvent::SpillCleared { before },
        ChangeEvent::SetFormula { cell: at(0, 0), old_value: Some(num(1.0)), old_formula: true },
    ];
    let mut a = EngineAction::new("overwrite", true);
    assert!(a.set_cell_formula(&mut e, 1, 1, 1, true, Ok(entries)).is_ok());
    assert!(set(&mut a, &mut e, 2, 9.0).is_ok());
    assert!(shows(&e, 2, 1, 9.0));
    assert!(a.insert_rows(&mut e, "S", Some(1), 1, 1, Ok(Vec::new())).is_ok());
    assert!(shows(&e, 3, 1, 9.0));
    let (events, ops) = a.into_journal();
    assert_eq!(e.undo_action(&events, &ops), 5);
    assert!(shows(&e, 1, 1, 1.0));
    assert!(shows(&e, 2, 1, 2.0));
    assert_eq!(e.redo_action(&events, &ops), 5);
    assert!(e.get_cell_value(1, 2, 1).is_none());
    assert!(shows(&e, 3, 1, 9.0));
}

#[test]
fn hidden_rows_are_numbered() {
    let manual = RowVisibilitySource::Manual;
    let mut e = engine();
    assert_eq!(e.row_visibility_version(None), None);
    assert_eq!(e.row_visibility_version(Some(1)), Some(0));
    assert!(e.set_row_hidden("S", Some(1), 5, true, manual).is_ok());
    assert_eq!(e.row_visibility_version(Some(1)), Some(1));
    assert!(e.set_row_hidden("S", Some(1), 5, true, manual).is_ok());
    assert_eq!(e.row_visibility_version(Some(1)), Some(1));
    assert_eq!(e.row_visibility_version(Some(2)), Some(0));
    let mut a = EngineAction::new("t", true);
    assert!(a.insert_rows(&mut e, "S", Some(1), 2, 3, Ok(Vec::new())).is_ok());
    let moved = e.row_visibility_version(Some(1)).unwrap();
    assert!(moved > 1);
    let (events, ops) = a.into_journal();
    e.rollback_from_action_journal(&events, &ops);
    assert!(e.row_visibility_version(Some(1)).unwrap() > moved);
}

#[test]
fn recalculations_are_numbered() {
    let mut e = engine();
    assert_eq!(e.recalc_epoch(), 0);
    e.recalculated();
    assert_eq!(e.recalc_epoch(), 1);
}

#[test]
fn an_empty_journal_changes_nothing() {
    let mut e = engine();
    let number = e.data_snapshot_id();
    assert_eq!(e.undo_action(&Vec::new(), &Vec::new()), 0);
    assert_eq!(e.redo_action(&Vec::new(), &Vec::new()), 0);
    assert_eq!(e.data_snapshot_id(), number);
    assert!(shows(&e, 1, 1, 1.0));
    assert!(shows(&e, 5, 1, 5.0));
}
