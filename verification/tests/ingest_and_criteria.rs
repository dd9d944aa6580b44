use formualizer_eval::coord::CellRef;
use formualizer_eval::criteria::{
    CriteriaPredicate, MaskStep, NumberSlice, TextChunk, build_criteria_mask, compute_criteria_mask, settle_text_mask,
};
use formualizer_eval::ingest::{
    Candidate, CandidateOutcome, Fallback, FormulaIngestBatch, FormulaIngestRecord, FormulaIngestReport, FormulaParseDiagnostic,
    FormulaParsePolicy, FormulaPlaneMode, IngestReports, ParseCache, PlacementCounters, PlanStacks, PreparedFormula, ReasonCounts,
    batches_to_build, count_formulas, count_misfits, fall_back, first_at, handle_formula_parse_error, pair_analyses,
    screen_records, sort_candidates, split_candidate_components_with_analyses,
};
use formualizer_eval::value::{ErrorKind, LiteralValue};

fn s(t: &str) -> String {
    t.to_string()
}

fn at(row: u32, col: u32) -> CellRef {
    CellRef { sheet_id: 1, row, col }
}

fn bits(x: f64) -> u64 {
    x.to_bits()
}

fn record(row: u32, col: u32) -> FormulaIngestRecord {
    FormulaIngestRecord { row, col, ast_id: 0, formula_text: None }
}

fn batch(sheet: &str, formulas: Vec<FormulaIngestRecord>) -> FormulaIngestBatch {
    FormulaIngestBatch { sheet_name: s(sheet), formulas }
}

fn numbers() -> Vec<NumberSlice> {
    vec![
        NumberSlice::Values(vec![Some(bits(1.0)), None, Some(bits(3.0))]),
        NumberSlice::Absent,
        NumberSlice::Values(vec![Some(bits(-2.0))]),
    ]
}

fn texts() -> Vec<TextChunk> {
    vec![TextChunk::Texts(vec![Some(s("apple")), None, Some(s("pear")), Some(s("apricot"))])]
}

#[test]
fn records_that_name_no_cell_are_misfits() {
    let batches = vec![batch("A", vec![record(1, 1), record(0, 2)]), batch("B", vec![record(3, 0), record(4, 5)])];
    let (candidates, misfits) = screen_records(&batches, &vec![1, 2]);
    let cells: Vec<(usize, usize, CellRef)> = candidates.iter().map(|c| (c.batch, c.record, c.cell)).collect();
    assert_eq!(
        cells,
        vec![(0, 0, at(0, 0)), (1, 1, CellRef { sheet_id: 2, row: 3, col: 4 })]
    );
    assert_eq!(misfits, vec![(0, 1), (1, 0)]);
    assert_eq!(count_formulas(&batches), 4);
    let sparse = vec![batch("A", Vec::new()), batch("B", vec![record(1, 1)])];
    assert_eq!(batches_to_build(&sparse), vec![1]);
}

#[test]
fn candidates_are_grouped_into_families() {
    let cells = [at(5, 2), at(0, 1), at(4, 2), at(9, 9), at(8, 8)];
    let candidates: Vec<Candidate> =
        cells.iter().enumerate().map(|(i, c)| Candidate { batch: 0, record: i, cell: *c }).collect();
    let outcomes = vec![
        CandidateOutcome::Family { hash: 7 },
        CandidateOutcome::Family { hash: 7 },
        CandidateOutcome::Family { hash: 7 },
        CandidateOutcome::Rejected { reason: s("Volatile") },
        CandidateOutcome::Unsupported,
    ];
    let mut report = FormulaIngestReport::with_mode(FormulaPlaneMode::Shadow);
    let mut reasons = ReasonCounts::new();
    let sorted = sort_candidates(&candidates, &outcomes, &mut report, &mut reasons);
    assert_eq!(sorted.families, vec![0, 1, 2]);
    assert_eq!(sorted.groups, vec![vec![1], vec![0, 2]]);
    assert_eq!(sorted.rejected, vec![3]);
    assert_eq!(sorted.unsupported, vec![4]);
    assert_eq!(reasons.count("Volatile"), 1);
    count_misfits(2, &mut report, &mut reasons);
    assert_eq!(reasons.count("UnsupportedShapeOrGaps"), 2);
    assert_eq!(reasons.count("Other"), 0);
    assert_eq!(report.shadow_fallback_cells, 4);
}

#[test]
fn placements_add_up() {
    let mut r = FormulaIngestReport::with_mode(FormulaPlaneMode::AuthoritativeExperimental);
    let c = PlacementCounters {
        formula_cells_seen: 10,
        accepted_span_cells: 8,
        legacy_cells: 2,
        templates_interned: 1,
        spans_created: 1,
        formula_vertices_avoided: 8,
        ast_roots_avoided: 7,
        edge_rows_avoided: u64::MAX,
    };
    r.accumulate_formula_plane_placement_report(&c);
    r.accumulate_formula_plane_placement_report(&c);
    assert_eq!(r.shadow_candidate_cells, 20);
    assert_eq!(r.shadow_accepted_span_cells, 16);
    assert_eq!(r.shadow_fallback_cells, 4);
    assert_eq!(r.edge_rows_avoided_shadow, u64::MAX);
    assert_eq!(r.mode, FormulaPlaneMode::AuthoritativeExperimental);
}

#[test]
fn analyses_follow_their_components() {
    assert_eq!(pair_analyses(&vec![vec![2, 0, 1]], 3), vec![vec![0, 1, 2]]);
    assert_eq!(pair_analyses(&vec![vec![2], vec![0, 1]], 3), vec![vec![2], vec![0, 1]]);
    let cells = vec![at(3, 0), at(1, 0), at(2, 0)];
    let mut p = split_candidate_components_with_analyses(&cells, &vec![0, 1, 2]);
    p.sort();
    assert_eq!(p, vec![0, 1, 2]);
}

#[test]
fn known_dependencies_are_used_once() {
    let component = vec![at(1, 1), at(2, 1)];
    let mut plans = PlanStacks::new(&vec![at(1, 1)]);
    assert_eq!(fall_back(&component, &mut plans, at(1, 1)), Fallback::Planned { member: 0, plan: 0 });
    assert_eq!(fall_back(&component, &mut plans, at(1, 1)), Fallback::Parsed { member: 0 });
    assert_eq!(fall_back(&component, &mut plans, at(2, 1)), Fallback::Parsed { member: 1 });
    assert_eq!(fall_back(&component, &mut plans, at(9, 1)), Fallback::Unknown);
    assert_eq!(first_at(&component, at(2, 1)), Some(1));
    assert_eq!(plans.pop(at(1, 1)), None);
}

#[test]
fn texts_are_parsed_once() {
    let mut c = ParseCache::new();
    assert!(matches!(c.prepare(1, 2, "A1+1"), PreparedFormula::Parse(k) if k == "=A1+1"));
    c.parsed("=A1+1", Some(6));
    match c.prepare(1, 2, "=A1+1") {
        PreparedFormula::Record(r) => {
            assert_eq!((r.row, r.col, r.ast_id), (1, 2, 6));
            assert_eq!(r.formula_text, Some(s("=A1+1")));
        },
        _ => panic!("the text was parsed"),
    }
    c.parsed("=(", None);
    assert!(matches!(c.prepare(3, 3, "("), PreparedFormula::Skipped));
}

#[test]
fn malformed_formulas_follow_the_policy() {
    let mut d: Vec<FormulaParseDiagnostic> = Vec::new();
    let e = handle_formula_parse_error(FormulaParsePolicy::Strict, &mut d, "S", 3, 28, "=(", "unexpected end").unwrap_err();
    assert_eq!(e.kind, ErrorKind::Value);
    assert_eq!(e.message.unwrap(), "Formula parse error at S!AB3: unexpected end");
    let e = handle_formula_parse_error(FormulaParsePolicy::Strict, &mut d, "S", 3, 0, "=(", "x").unwrap_err();
    assert_eq!(e.message.unwrap(), "Formula parse error at S!?3: x");
    assert_eq!(d.len(), 0);
    let kept = handle_formula_parse_error(FormulaParsePolicy::KeepCachedValue, &mut d, "S", 3, 1, "=(", "x");
    assert!(matches!(kept, Ok(None)));
    let text = handle_formula_parse_error(FormulaParsePolicy::AsText, &mut d, "S", 3, 1, "=(", "x");
    assert!(matches!(text, Ok(Some(LiteralValue::Text(t))) if t == "=("));
    match handle_formula_parse_error(FormulaParsePolicy::CoerceToError, &mut d, "S", 4, 1, "=(", "x") {
        Ok(Some(LiteralValue::Error(e))) => {
            assert_eq!(e.kind, ErrorKind::Error);
            assert_eq!(e.message.unwrap(), "Malformed formula: x");
        },
        _ => panic!("the cell becomes an error"),
    }
    assert_eq!(d.len(), 3);
    assert_eq!((d[2].row, d[2].policy), (4, FormulaParsePolicy::CoerceToError));
}

#[test]
fn numbers_are_compared_and_gaps_stay_open() {
    let mask = |p: CriteriaPredicate| compute_criteria_mask(&p, &numbers(), &Vec::new()).unwrap();
    assert_eq!(mask(CriteriaPredicate::Gt(bits(1.0))), vec![Some(false), None, Some(true), Some(false)]);
    assert_eq!(mask(CriteriaPredicate::Ge(bits(1.0))), vec![Some(true), None, Some(true), Some(false)]);
    assert_eq!(mask(CriteriaPredicate::Lt(bits(1.0))), vec![Some(false), None, Some(false), Some(true)]);
    assert_eq!(mask(CriteriaPredicate::Le(bits(-2.0))), vec![Some(false), None, Some(false), Some(true)]);
    assert_eq!(mask(CriteriaPredicate::Eq(LiteralValue::Int(3))), vec![Some(false), None, Some(true), Some(false)]);
    assert_eq!(
        mask(CriteriaPredicate::Ne(LiteralValue::Number(bits(3.0)))),
        vec![Some(true), None, Some(false), Some(true)]
    );
    assert!(compute_criteria_mask(&CriteriaPredicate::Gt(0), &vec![NumberSlice::Failed], &Vec::new()).is_none());
    assert!(compute_criteria_mask(&CriteriaPredicate::Other, &numbers(), &texts()).is_none());
}

#[test]
fn numbers_compare_in_total_order() {
    let slice = vec![NumberSlice::Values(vec![Some(bits(-0.0)), Some(bits(0.0)), Some(bits(f64::NAN)), Some(bits(f64::INFINITY))])];
    let ge = compute_criteria_mask(&CriteriaPredicate::Ge(bits(0.0)), &slice, &Vec::new()).unwrap();
    assert_eq!(ge, vec![Some(false), Some(true), Some(true), Some(true)]);
    let eq = compute_criteria_mask(&CriteriaPredicate::Eq(LiteralValue::Number(bits(0.0))), &slice, &Vec::new()).unwrap();
    assert_eq!(eq, vec![Some(false), Some(true), Some(false), Some(false)]);
}

#[test]
fn texts_are_compared_without_case() {
    let like = |p: &str| {
        compute_criteria_mask(
            &CriteriaPredicate::TextLike { pattern: s(p), case_insensitive: true },
            &Vec::new(),
            &texts(),
        )
        .unwrap()
    };
    assert_eq!(like("AP*"), vec![Some(true), None, Some(false), Some(true)]);
    assert_eq!(like("?ear"), vec![Some(false), None, Some(true), Some(false)]);
    let eq = compute_criteria_mask(&CriteriaPredicate::Eq(LiteralValue::Text(s("APPLE"))), &Vec::new(), &texts()).unwrap();
    assert_eq!(eq, vec![Some(true), None, Some(false), Some(false)]);
    let ne = compute_criteria_mask(&CriteriaPredicate::Ne(LiteralValue::Text(s("Apple"))), &Vec::new(), &texts()).unwrap();
    assert_eq!(ne, vec![Some(false), None, Some(true), Some(true)]);
}

#[test]
fn the_empty_text_is_met_by_what_is_no_text() {
    let chunks = vec![TextChunk::Texts(vec![Some(s("")), None, Some(s("x"))]), TextChunk::NoText(2)];
    let eq = compute_criteria_mask(&CriteriaPredicate::Eq(LiteralValue::Text(s(""))), &Vec::new(), &chunks).unwrap();
    assert_eq!(eq, vec![Some(true), Some(true), Some(false), Some(true), Some(true)]);
    let settled = settle_text_mask(true, vec![Some(false), None], &vec![Some(s("a")), None]);
    assert_eq!(settled, vec![Some(false), Some(true)]);
    for gap in [TextChunk::Failed, TextChunk::Absent] {
        let eq = CriteriaPredicate::Eq(LiteralValue::Text(s("a")));
        assert!(compute_criteria_mask(&eq, &Vec::new(), &vec![gap]).is_none());
    }
    let open = CriteriaPredicate::Ne(LiteralValue::Text(s("a")));
    assert_eq!(compute_criteria_mask(&open, &Vec::new(), &vec![TextChunk::NoText(2)]), Some(vec![None, None]));
}

#[test]
fn masks_are_made_for_rows_of_the_sheet() {
    assert!(matches!(build_criteria_mask(0, 10, 0), MaskStep::NoMask));
    assert!(matches!(build_criteria_mask(1, 10, 10), MaskStep::Empty));
    assert!(matches!(build_criteria_mask(1, 0, 0), MaskStep::Empty));
    assert!(matches!(build_criteria_mask(1, 10, 9), MaskStep::Compute));
}

#[test]
fn every_record_has_one_place() {
    let batches = vec![
        batch("A", vec![record(1, 1), record(0, 1), record(2, 1)]),
        batch("B", vec![record(5, 5), record(6, 0)]),
    ];
    let (candidates, misfits) = screen_records(&batches, &vec![1, 2]);
    let mut places: Vec<(usize, usize)> = candidates.iter().map(|c| (c.batch, c.record)).collect();
    places.extend(misfits);
    places.sort();
    assert_eq!(places, vec![(0, 0), (0, 1), (0, 2), (1, 0), (1, 1)]);
}

#[test]
fn reports_add_up() {
    let mut reports = IngestReports::new(FormulaPlaneMode::Off);
    assert!(reports.last.is_none());
    let mut r = FormulaIngestReport::with_mode(FormulaPlaneMode::Shadow);
    r.formula_cells_seen = 3;
    r.graph_edges_created = u64::MAX;
    reports.record_formula_ingest_report(r);
    r.formula_cells_seen = 4;
    r.graph_vertices_created = 2;
    reports.record_formula_ingest_report(r);
    assert_eq!(reports.last, Some(r));
    assert_eq!(reports.total.mode, FormulaPlaneMode::Shadow);
    assert_eq!(reports.total.formula_cells_seen, 7);
    assert_eq!(reports.total.graph_vertices_created, 2);
    assert_eq!(reports.total.graph_edges_created, u64::MAX);
}
