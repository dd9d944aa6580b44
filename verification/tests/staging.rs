use formualizer_eval::engine::Engine;
use formualizer_eval::ingest::FormulaPlaneMode;
use formualizer_eval::store::CellStore;
use formualizer_eval::staged::{StagedFormulas, StagedSheet};

#[test]
fn a_cell_holds_one_staged_text() {
    let mut s = StagedSheet::new();
    assert!(s.is_empty());
    s.stage(1, 1, "=A2".to_string());
    s.stage(2, 1, "=A3".to_string());
    s.stage(1, 1, "=A9".to_string());
    assert_eq!(s.len(), 2);
    assert_eq!(s.get(1, 1).unwrap(), "=A9");
    assert_eq!(s.remove(2, 1), Some("=A3".to_string()));
    assert_eq!(s.remove(2, 1), None);
    assert_eq!(s.into_entries(), vec![(1, 1, "=A9".to_string())]);
}

#[test]
fn staged_texts_are_found_by_sheet_and_cell() {
    let mut s = StagedFormulas::new();
    assert!(!s.has_staged_formulas());
    s.stage_formula_text("One", 1, 2, "=1".to_string());
    s.stage_formula_text("Two", 1, 2, "=2".to_string());
    s.stage_formula_text("Two", 3, 2, "=3".to_string());
    assert!(s.has_staged_formulas());
    assert_eq!(s.staged_formula_count(), 3);
    assert_eq!(s.get_staged_formula_text("One", 1, 2), Some("=1".to_string()));
    assert_eq!(s.get_staged_formula_text("One", 3, 2), None);
    assert_eq!(s.get_staged_formula_text("one", 1, 2), None);
    assert_eq!(s.clear_staged_formula_text("Two", 3, 2), Some("=3".to_string()));
    assert_eq!(s.clear_staged_formula_text("Nine", 3, 2), None);
    assert_eq!(s.take_sheet("Two"), vec![(1, 2, "=2".to_string())]);
    assert_eq!(s.take_sheet("Two"), Vec::<(u32, u32, String)>::new());
    s.clear_staged_formulas_for_sheet("One");
    assert!(!s.has_staged_formulas());
}

#[test]
fn renaming_moves_the_texts_over_those_that_wait() {
    let mut s = StagedFormulas::new();
    s.stage_formula_text("From", 1, 1, "=1".to_string());
    s.stage_formula_text("To", 1, 1, "=old".to_string());
    s.stage_formula_text("To", 2, 1, "=2".to_string());
    s.rename_staged_formula_sheet("From", "To");
    assert_eq!(s.get_staged_formula_text("From", 1, 1), None);
    assert_eq!(s.get_staged_formula_text("To", 1, 1), Some("=1".to_string()));
    assert_eq!(s.get_staged_formula_text("To", 2, 1), Some("=2".to_string()));
    s.rename_staged_formula_sheet("To", "To");
    assert_eq!(s.staged_formula_count(), 2);
}

#[test]
fn the_engine_lists_the_sheets_on_which_formulas_wait() {
    let mut e = Engine::new(CellStore::new(None), FormulaPlaneMode::Off);
    assert!(!e.has_staged_formulas());
    e.stage_formula_text("A", 1, 1, "=1".to_string());
    e.stage_formula_text("B", 1, 1, "=2".to_string());
    e.stage_formula_text("B", 2, 1, "=3".to_string());
    e.stage_formula_text("C", 1, 1, "=4".to_string());
    e.clear_staged_formulas_for_sheet("C");
    assert!(e.has_staged_formulas());
    assert_eq!(e.staged_formula_count(), 3);
    let mut names = e.waiting_sheets();
    names.sort();
    assert_eq!(names, vec!["A".to_string(), "B".to_string()]);
    assert_eq!(e.take_staged_sheet("B"), vec![(1, 1, "=2".to_string()), (2, 1, "=3".to_string())]);
    assert_eq!(e.waiting_sheets(), vec!["A".to_string()]);
}
