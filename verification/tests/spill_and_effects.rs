use formualizer_eval::coord::CellRef;
use formualizer_eval::effects::{
    Effect, EffectStep, SpillEvent, SpillLog, apply_effect, plan_array_effects, plan_vertex_effects,
    snapshot_spill_for_anchor,
};
use formualizer_eval::grid::{DeltaCollector, DeltaMode, Grid};
use formualizer_eval::outcome::{
    ArrayStep, FormulaOutcome, ResultStep, VertexStep, apply_non_array_result_from_parallel, apply_parallel_vertex_result, begin_array,
    covered, finish_array, first_value, lock_error, size_of_array, store_formula_result, unknown_vertex, vertex_step,
};
use formualizer_eval::spill::{LockRegion, ShimSpillManager, check_spill, find_blocker, lock_region};
use formualizer_eval::store::CellStore;
use formualizer_eval::value::{ErrorExtra, ErrorKind, ExcelError, LiteralValue};
use formualizer_eval::vertex::VertexKind;

const LIMIT: u32 = 10_000;

fn at(row: u32, col: u32) -> CellRef {
    CellRef { sheet_id: 1, row, col }
}

fn num(x: f64) -> LiteralValue {
    LiteralValue::Number(x.to_bits())
}

fn two_by_two() -> Vec<Vec<LiteralValue>> {
    vec![vec![num(1.0), num(2.0)], vec![num(3.0), num(4.0)]]
}

fn grid() -> Grid {
    let mut g = Grid::new(CellStore::new(None));
    g.add_vertex(1, VertexKind::FormulaScalar, at(0, 0));
    g.add_vertex(2, VertexKind::FormulaScalar, at(5, 5));
    g
}

fn spill(g: &mut Grid, locks: &mut ShimSpillManager, delta: &mut DeltaCollector, rows: Vec<Vec<LiteralValue>>) -> LiteralValue {
    match begin_array(g, delta, 1, &rows, LIMIT) {
        ArrayStep::Reserve { targets, .. } => finish_array(locks, g, delta, 1, &targets, &rows, Ok(9), Ok(()), false, true).0,
        ArrayStep::Refused(v) => v,
    }
}

#[test]
fn large_and_overhanging_arrays_are_refused() {
    assert_eq!(check_spill(at(0, 0), 3, 4, 12), None);
    assert_eq!(check_spill(at(0, 0), 3, 4, 11), Some("SpillTooLarge"));
    assert_eq!(check_spill(at(1_048_575, 0), 1, 1, 12), None);
    assert_eq!(check_spill(at(1_048_575, 0), 2, 1, 12), Some("Spill exceeds sheet bounds"));
    assert_eq!(check_spill(at(0, 16_383), 1, 2, 12), Some("Spill exceeds sheet bounds"));
    assert_eq!(check_spill(at(0, 0), u32::MAX, u32::MAX, u32::MAX), Some("SpillTooLarge"));
}

#[test]
fn locks_cover_the_rectangle() {
    assert_eq!(
        lock_region(at(2, 3), 4, 5),
        LockRegion { sheet_id: 1, row_start: 2, row_end: 5, col_start: 3, col_end: 7 }
    );
}

#[test]
fn locks_are_kept_by_owner() {
    let mut m = ShimSpillManager::new();
    assert!(m.reserve(1, Ok(7)).is_ok());
    assert!(m.reserve(2, Ok(0)).is_ok());
    let refused = m.reserve(3, Err(ExcelError::new(ErrorKind::Spill).with_message("busy")));
    assert_eq!(refused.unwrap_err().message, Some("busy".to_string()));
    assert_eq!(m.release_owner(1), Some(7));
    assert_eq!(m.release_owner(1), None);
    assert_eq!(m.release_owner(2), None);
    assert_eq!(m.release_owner(3), None);
}

#[test]
fn a_spilled_array_shows_and_owns_its_cells() {
    let mut g = grid();
    let mut locks = ShimSpillManager::new();
    let mut delta = DeltaCollector::new(DeltaMode::Cells);
    let held = spill(&mut g, &mut locks, &mut delta, two_by_two());
    assert!(held.same(&num(1.0)));
    assert!(g.read_cell(at(0, 0)).same(&num(1.0)));
    assert!(g.read_cell(at(0, 1)).same(&num(2.0)));
    assert!(g.read_cell(at(1, 0)).same(&num(3.0)));
    assert!(g.read_cell(at(1, 1)).same(&num(4.0)));
    assert_eq!(g.owner_of(at(1, 1)), Some(1));
    assert_eq!(g.owner_of(at(2, 2)), None);
    assert_eq!(g.spilled_cells(1), vec![at(0, 0), at(0, 1), at(1, 0), at(1, 1)]);
    assert_eq!(g.vertex_kind(1), VertexKind::FormulaArray);
    assert_eq!(delta.finish(), vec![at(0, 0), at(0, 1), at(1, 0), at(1, 1)]);
}

#[test]
fn a_smaller_array_empties_the_cells_that_it_leaves() {
    let mut g = grid();
    let mut locks = ShimSpillManager::new();
    let mut delta = DeltaCollector::new(DeltaMode::Off);
    spill(&mut g, &mut locks, &mut delta, two_by_two());
    let mut second = DeltaCollector::new(DeltaMode::Cells);
    spill(&mut g, &mut locks, &mut second, vec![vec![num(1.0), num(9.0)]]);
    assert!(g.read_cell(at(0, 1)).same(&num(9.0)));
    assert!(g.read_cell(at(1, 1)).is_empty());
    assert_eq!(g.owner_of(at(1, 1)), None);
    let mut cells = second.finish();
    cells.sort_by_key(|c| (c.row, c.col));
    assert_eq!(cells, vec![at(0, 1), at(1, 0), at(1, 1)]);
}

#[test]
fn a_value_in_the_way_blocks_a_spill() {
    let mut store = CellStore::new(None);
    store.mirror_value_to_overlay(1, 2, 2, &num(8.0));
    let mut g = Grid::new(store);
    g.add_vertex(1, VertexKind::FormulaScalar, at(0, 0));
    let mut locks = ShimSpillManager::new();
    let mut delta = DeltaCollector::new(DeltaMode::Cells);
    let targets = vec![at(0, 0), at(0, 1), at(1, 0), at(1, 1)];
    assert!(find_blocker(&g, 1, &targets));
    let held = spill(&mut g, &mut locks, &mut delta, two_by_two());
    match &held {
        LiteralValue::Error(e) => {
            assert_eq!(e.kind, ErrorKind::Spill);
            assert_eq!(e.message, Some("BlockedByValue".to_string()));
            assert_eq!(e.extra, ErrorExtra::Spill { expected_rows: 2, expected_cols: 2 });
        },
        _ => panic!("the value blocks the spill"),
    }
    assert_eq!(g.spilled_cells(1).len(), 0);
    assert!(g.read_cell(at(1, 1)).same(&num(8.0)));
    assert!(g.read_cell(at(0, 1)).is_empty());
    assert!(matches!(g.read_cell(at(0, 0)), LiteralValue::Error(e) if e.kind == ErrorKind::Spill));
}

#[test]
fn an_array_that_is_too_large_leaves_no_spill() {
    let mut g = grid();
    let mut locks = ShimSpillManager::new();
    let mut delta = DeltaCollector::new(DeltaMode::Cells);
    spill(&mut g, &mut locks, &mut delta, two_by_two());
    let step = begin_array(&mut g, &mut delta, 1, &two_by_two(), 3);
    match step {
        ArrayStep::Refused(LiteralValue::Error(e)) => {
            assert_eq!(e.message, Some("SpillTooLarge".to_string()));
            assert_eq!(e.extra, ErrorExtra::Spill { expected_rows: 2, expected_cols: 2 });
        },
        _ => panic!("four cells are too many"),
    }
    assert_eq!(g.spilled_cells(1).len(), 0);
    assert!(g.read_cell(at(1, 1)).is_empty());
}

#[test]
fn a_refused_lock_fails_the_array() {
    let mut g = grid();
    let mut locks = ShimSpillManager::new();
    let mut delta = DeltaCollector::new(DeltaMode::Cells);
    let rows = two_by_two();
    let targets = match begin_array(&mut g, &mut delta, 1, &rows, LIMIT) {
        ArrayStep::Reserve { anchor, rows, cols, targets } => {
            assert_eq!((anchor, rows, cols), (at(0, 0), 2, 2));
            targets
        },
        ArrayStep::Refused(_) => panic!("the array fits"),
    };
    let refused = Err(ExcelError::new(ErrorKind::Spill));
    let (held, lock) = finish_array(&mut locks, &mut g, &mut delta, 1, &targets, &rows, refused, Ok(()), false, true);
    assert!(matches!(held, LiteralValue::Error(e) if e.message == Some("Spill blocked".to_string())));
    assert_eq!(lock, None);
    let named = lock_error(&ExcelError::new(ErrorKind::Spill).with_message("in use"), 2, 3);
    assert_eq!(named.message, Some("in use".to_string()));
    assert_eq!(named.extra, ErrorExtra::Spill { expected_rows: 2, expected_cols: 3 });
}

#[test]
fn a_scalar_after_an_array_clears_the_spill() {
    let mut g = grid();
    let mut locks = ShimSpillManager::new();
    let mut delta = DeltaCollector::new(DeltaMode::Off);
    spill(&mut g, &mut locks, &mut delta, two_by_two());
    let mut second = DeltaCollector::new(DeltaMode::Cells);
    apply_non_array_result_from_parallel(&mut g, &mut second, 1, &num(7.0));
    assert!(g.read_cell(at(0, 0)).same(&num(7.0)));
    assert!(g.read_cell(at(1, 1)).is_empty());
    assert_eq!(g.owner_of(at(0, 1)), None);
    assert_eq!(second.finish().len(), 4);
}

#[test]
fn a_formula_under_a_spill_is_left_alone() {
    let mut g = grid();
    g.add_vertex(3, VertexKind::FormulaScalar, at(1, 1));
    let mut locks = ShimSpillManager::new();
    let mut delta = DeltaCollector::new(DeltaMode::Off);
    spill(&mut g, &mut locks, &mut delta, two_by_two());
    assert!(covered(&g, 3));
    assert!(!covered(&g, 1));
    let step = apply_parallel_vertex_result(&mut g, &mut delta, 3, num(50.0), LIMIT);
    assert!(matches!(step, ResultStep::Covered));
    assert!(g.read_cell(at(1, 1)).same(&num(4.0)));
    let step = apply_parallel_vertex_result(&mut g, &mut delta, 2, num(50.0), LIMIT);
    assert!(matches!(step, ResultStep::Applied));
    assert!(g.read_cell(at(5, 5)).same(&num(50.0)));
}

#[test]
fn vertices_are_handled_by_kind() {
    let mut g = grid();
    g.add_vertex(4, VertexKind::Cell, at(3, 0));
    g.add_detached_vertex(6, VertexKind::NamedScalar);
    g.add_detached_vertex(7, VertexKind::NamedArray);
    g.add_detached_vertex(8, VertexKind::Range);
    assert!(matches!(vertex_step(&g, 4, false, false), VertexStep::Unknown(_)));
    assert_eq!(unknown_vertex(42).message, Some("Vertex not found: VertexId(42)".to_string()));
    assert_eq!(unknown_vertex(42).kind, ErrorKind::Ref);
    assert!(matches!(vertex_step(&g, 1, true, true), VertexStep::Evaluate));
    assert!(matches!(vertex_step(&g, 1, true, false), VertexStep::Known(v) if v.same(&num(0.0))));
    assert!(matches!(vertex_step(&g, 6, true, false), VertexStep::NamedScalar));
    assert!(matches!(vertex_step(&g, 7, true, false), VertexStep::NamedArray));
    assert!(matches!(vertex_step(&g, 8, true, false), VertexStep::Known(v) if v.same(&num(0.0))));
    assert!(matches!(vertex_step(&g, 4, true, false), VertexStep::Known(v) if v.same(&num(0.0))));
    g.show(at(3, 0), &num(2.5));
    assert!(matches!(vertex_step(&g, 4, true, false), VertexStep::Known(v) if v.same(&num(2.5))));
}

#[test]
fn errors_of_formulas_are_stored_as_values() {
    let mut g = grid();
    let mut delta = DeltaCollector::new(DeltaMode::Cells);
    let e = ExcelError::new(ErrorKind::Div);
    assert!(matches!(
        store_formula_result(&mut g, &mut delta, 1, Err(e), LIMIT),
        FormulaOutcome::Stored(LiteralValue::Error(x)) if x.kind == ErrorKind::Div
    ));
    assert!(matches!(g.read_cell(at(0, 0)), LiteralValue::Error(x) if x.kind == ErrorKind::Div));
    let ok = store_formula_result(&mut g, &mut delta, 2, Ok(num(4.0)), LIMIT);
    assert!(matches!(ok, FormulaOutcome::Stored(v) if v.same(&num(4.0))));
    let array = store_formula_result(&mut g, &mut delta, 1, Ok(LiteralValue::Array(two_by_two())), LIMIT);
    assert!(matches!(array, FormulaOutcome::Reserve { rows: 2, cols: 2, .. }));
    let large = store_formula_result(&mut g, &mut delta, 1, Ok(LiteralValue::Array(two_by_two())), 1);
    assert!(matches!(large, FormulaOutcome::Stored(LiteralValue::Error(x)) if x.kind == ErrorKind::Spill));
}

#[test]
fn arrays_have_a_size_and_a_first_value() {
    assert_eq!(size_of_array(&two_by_two()), (2, 2));
    assert_eq!(size_of_array(&Vec::new()), (0, 0));
    assert!(first_value(&two_by_two()).same(&num(1.0)));
    assert!(first_value(&vec![Vec::new()]).is_empty());
}

#[test]
fn planned_effects_come_to_the_same_as_direct_results() {
    let mut direct = grid();
    let mut planned = grid();
    let mut locks = ShimSpillManager::new();
    let mut delta = DeltaCollector::new(DeltaMode::Off);
    spill(&mut direct, &mut locks, &mut delta, two_by_two());
    let mut log = SpillLog::new(true);
    let mut planned_locks = ShimSpillManager::new();
    let effects = match plan_vertex_effects(&mut planned, 1, LiteralValue::Array(two_by_two()), LIMIT) {
        EffectStep::Reserve { anchor, targets, values, .. } => {
            plan_array_effects(&mut planned_locks, &planned, 1, anchor, targets, values, Ok(9), true, false)
        },
        EffectStep::Planned(_) => panic!("an array asks for its cells"),
    };
    let mut released = Vec::new();
    for e in &effects {
        let (r, lock) = apply_effect(&mut planned_locks, &mut planned, &mut delta, &mut log, e, Ok(()), false, LIMIT);
        assert!(r.is_ok());
        released.extend(lock);
    }
    for r in 0..3 {
        for c in 0..3 {
            assert!(direct.read_cell(at(r, c)).same(&planned.read_cell(at(r, c))));
            assert_eq!(direct.owner_of(at(r, c)), planned.owner_of(at(r, c)));
        }
    }
    assert!(direct.vertex_value(1).unwrap().same(&planned.vertex_value(1).unwrap()));
    assert_eq!(released, vec![9]);
    assert!(matches!(log.events.last(), Some(SpillEvent::SpillCommitted { anchor: 1, before: None, .. })));
}

#[test]
fn a_planned_scalar_is_written() {
    let mut g = grid();
    let effects = match plan_vertex_effects(&mut g, 2, num(3.0), LIMIT) {
        EffectStep::Planned(e) => e,
        EffectStep::Reserve { .. } => panic!("a scalar needs no cells"),
    };
    assert!(matches!(effects.last(), Some(Effect::WriteCell { vertex_id: 2, .. })));
    let mut locks = ShimSpillManager::new();
    let mut delta = DeltaCollector::new(DeltaMode::Cells);
    let mut log = SpillLog::new(true);
    for e in &effects {
        assert!(apply_effect(&mut locks, &mut g, &mut delta, &mut log, e, Ok(()), false, LIMIT).0.is_ok());
    }
    assert!(g.read_cell(at(5, 5)).same(&num(3.0)));
    assert_eq!(log.events.len(), 0);
}

#[test]
fn blocked_plans_carry_an_error() {
    let mut locks = ShimSpillManager::new();
    let g = grid();
    let targets = vec![at(0, 0), at(0, 1)];
    let rows = vec![vec![num(1.0), num(2.0)]];
    let effects = plan_array_effects(&mut locks, &g, 1, at(0, 0), targets, rows, Ok(3), false, false);
    let found = effects.iter().any(|e| {
        matches!(e, Effect::WriteCell { vertex_id: 1, value: LiteralValue::Error(x) }
            if x.message == Some("Spill blocked".to_string()))
    });
    assert!(found);
}

#[test]
fn snapshots_hold_what_is_spilled() {
    let mut g = grid();
    let mut locks = ShimSpillManager::new();
    let mut delta = DeltaCollector::new(DeltaMode::Off);
    assert!(snapshot_spill_for_anchor(&g, 1, LIMIT).is_none());
    spill(&mut g, &mut locks, &mut delta, two_by_two());
    let s = snapshot_spill_for_anchor(&g, 1, LIMIT).unwrap();
    assert_eq!(s.target_cells.len(), 4);
    assert!(s.values[1][0].same(&num(3.0)));
    let cut = snapshot_spill_for_anchor(&g, 1, 2).unwrap();
    assert_eq!(cut.target_cells, vec![at(0, 0), at(0, 1)]);
    assert_eq!(cut.values.len(), 1);
}

#[test]
fn changed_cells_are_collected_once() {
    let mut d = DeltaCollector::new(DeltaMode::Cells);
    d.record_cell(at(1, 1));
    d.record_cell(at(2, 1));
    d.record_cell(at(1, 1));
    assert_eq!(d.finish(), vec![at(1, 1), at(2, 1)]);
    let mut off = DeltaCollector::new(DeltaMode::Off);
    off.record_cell(at(1, 1));
    assert!(!off.collects());
    assert_eq!(off.finish(), Vec::new());
}

#[test]
fn the_storage_survives_an_evaluation() {
    let mut g = grid();
    g.show(at(3, 3), &num(6.0));
    let store = g.into_store();
    assert!(store.read_cell(at(3, 3)).same(&num(6.0)));
}

#[test]
fn plain_values_need_no_room_for_arrays() {
    let mut g = grid();
    let mut delta = DeltaCollector::new(DeltaMode::Cells);
    let mut log = SpillLog::new(true);
    let write = Effect::WriteCell { vertex_id: 1, value: num(4.0) };
    let mut locks = ShimSpillManager::new();
    assert!(apply_effect(&mut locks, &mut g, &mut delta, &mut log, &write, Ok(()), false, 0).0.is_ok());
    assert!(g.read_cell(at(0, 0)).same(&num(4.0)));
    let clear = Effect::SpillClear { anchor_vertex: 1 };
    assert!(apply_effect(&mut locks, &mut g, &mut delta, &mut log, &clear, Ok(()), false, 0).0.is_ok());
    assert!(log.events.is_empty());
}

#[test]
fn a_shown_cell_is_covered_by_its_sheet() {
    let mut g = Grid::new(CellStore::new(Some(1_000)));
    g.show(at(6, 3), &num(1.0));
    let store = g.into_store();
    let extent = store.extent(1).unwrap();
    assert_eq!((extent.rows, extent.cols), (7, 4));
    assert_eq!(store.budget(), Some(1_000));
}
