use formualizer_eval::ast::AstNode;
use formualizer_eval::coord::{CellRef, cell_key};
use formualizer_eval::coordinator::{
    Coordinator, CoordinatorStep, begin, count_cycle_demotions, demote_cyclic_spans, stale_span_error,
};
use formualizer_eval::mixed_schedule::{
    LegacyFormula, MixedScheduleFallback, MixedScheduleFallbackReason, ScheduledSpan, SpanReads, SpanSeedMode,
    add_closure_work, build_formula_plane_mixed_schedule, collect_cyclic_span_refs,
};
use formualizer_eval::mixed_run::{MixedAction, MixedItem, MixedRun};
use formualizer_eval::producer::{
    DirtyClosure, FormulaProducerId, FormulaProducerWork, ProducerDirtyDomain, SpanDirtyDomain, SpanDomain,
    compute_current_formula_plane_dirty_result_coords, producer_dirty_to_span_dirty,
};
use formualizer_eval::reference_type::{AxisBound, SharedRangeRef, SheetLocator};
use formualizer_eval::region::{AxisRange, PlacementDomain, Region};
use formualizer_eval::span_plan::{
    AxisShiftCase, BindingFacts, BindingSetFacts, DemotedSpan, DemotedTemplate, Projection, ReadDependency, ReadFacts,
    SpanFacts, SpanRef, SpanShift, SpanStep, clean_after_demotion, placed_cells, compact_read_summary_through_delete, plan_demotions, plan_span,
    plan_spans_for_structural_op, shifted_read_summary, span_any_read_region_intersects_affected,
};
use formualizer_eval::structural::{
    StructuralOp, checked_shift_u32, compact_axis_range_through_delete, compact_axis_through_delete,
    compact_domain_through_delete, compact_region_through_delete,
};
use formualizer_eval::value::{ErrorKind, LiteralValue};
use rustc_hash::FxHashSet;

fn span(id: u64) -> SpanRef {
    SpanRef { id, generation: 1 }
}

fn rows(a: u32, b: u32) -> PlacementDomain {
    PlacementDomain::RowRun { sheet_id: 1, row_start: a, row_end: b, col: 2 }
}

fn at(row: u32, col: u32) -> CellRef {
    CellRef { sheet_id: 1, row, col }
}

fn read(r: Region, case: AxisShiftCase) -> ReadFacts {
    ReadFacts { dependency: ReadDependency { read_region: r, projection: Projection::Rule(7) }, case }
}

fn facts(shift: SpanShift) -> SpanFacts {
    SpanFacts {
        span_ref: span(3),
        template_id: 8,
        template_origin: Some((5, 3)),
        domain: rows(4, 9),
        result_domain: rows(4, 9),
        reads: Some(vec![read(Region::rect(1, 4, 9, 0, 0), AxisShiftCase::EntirelyAboveShift)]),
        binding: Some(BindingFacts { id: 6, set: Some(BindingSetFacts { single_literal: true, has_value_refs: true }) }),
        shift,
    }
}

const INSERT: StructuralOp = StructuralOp::InsertRows { sheet_id: 1, before: 0, count: 2 };
const DELETE: StructuralOp = StructuralOp::DeleteRows { sheet_id: 1, start: 6, count: 2 };

#[test]
fn edits_know_how_far_lines_move() {
    assert_eq!(INSERT.axis_shift_delta(), (2, 0));
    assert_eq!(DELETE.axis_shift_delta(), (-2, 0));
    let ins = StructuralOp::InsertColumns { sheet_id: 1, before: 0, count: 5 };
    assert_eq!(ins.axis_shift_delta(), (0, 5));
    let del = StructuralOp::DeleteColumns { sheet_id: 1, start: 0, count: u32::MAX };
    assert_eq!(del.axis_shift_delta(), (0, -(u32::MAX as i64)));
    assert_eq!(del.count(), u32::MAX);
}

#[test]
fn indexes_move_within_the_sheet_only() {
    assert_eq!(checked_shift_u32(5, -5), Some(0));
    assert_eq!(checked_shift_u32(5, -6), None);
    assert_eq!(checked_shift_u32(u32::MAX, 1), None);
    assert_eq!(checked_shift_u32(0, i64::MIN), None);
    assert_eq!(Region::rows_from(1, 3).project_through_axis_shift(2, 9), Some(Region::rows_from(1, 5)));
    assert_eq!(Region::rect(1, 1, 2, 0, 0).project_through_axis_shift(-2, 0), None);
    assert_eq!(rows(4, 9).project_through_axis_shift(-4, 0), Some(rows(0, 5)));
    assert_eq!(rows(4, 9).project_through_axis_shift(-5, 0), None);
}

#[test]
fn deletions_compact_what_they_cut() {
    assert_eq!(compact_axis_through_delete(4, 9, 6, 2), Some((4, 7)));
    assert_eq!(compact_axis_through_delete(4, 9, 0, 6), Some((0, 3)));
    assert_eq!(compact_axis_through_delete(4, 9, 8, 50), Some((4, 7)));
    assert_eq!(compact_axis_through_delete(4, 9, 4, 6), None);
    assert_eq!(compact_axis_range_through_delete(AxisRange::All, 4, 6), Some(AxisRange::All));
    assert_eq!(compact_domain_through_delete(&rows(4, 9), DELETE), Some(rows(4, 7)));
    assert_eq!(compact_region_through_delete(Region::rect(1, 4, 9, 0, 0), DELETE), Some(Region::rect(1, 4, 7, 0, 0)));
}

#[test]
fn reads_move_with_their_span() {
    let reads = vec![
        read(Region::rect(1, 4, 9, 0, 0), AxisShiftCase::EntirelyAboveShift),
        read(Region::rect(2, 4, 9, 0, 0), AxisShiftCase::OtherSheet),
        read(Region::rect(1, 0, 1, 0, 0), AxisShiftCase::EntirelyBelow),
    ];
    let s = shifted_read_summary(&reads, Region::point(1, 0, 0), 2, 0).unwrap();
    let got: Vec<Region> = s.dependencies.iter().map(|d| d.read_region).collect();
    assert_eq!(got, vec![Region::rect(1, 6, 11, 0, 0), Region::rect(2, 4, 9, 0, 0), Region::rect(1, 0, 1, 0, 0)]);
    assert_eq!(s.result_region, Region::point(1, 0, 0));
    let cut = vec![read(Region::rect(1, 4, 9, 0, 0), AxisShiftCase::Straddles)];
    assert!(shifted_read_summary(&cut, Region::point(1, 0, 0), 2, 0).is_none());
    let c = compact_read_summary_through_delete(&cut, Region::point(1, 0, 0), DELETE).unwrap();
    assert_eq!(c.dependencies[0].read_region, Region::rect(1, 4, 7, 0, 0));
    assert_eq!(c.dependencies[0].projection, Projection::Rule(7));
    assert!(span_any_read_region_intersects_affected(&cut, &Region::whole_row(1, 9)));
    assert!(!span_any_read_region_intersects_affected(&cut, &Region::whole_row(1, 10)));
}

#[test]
fn a_moved_span_takes_origin_domain_and_reads_along() {
    let f = facts(SpanShift::Shift { row_delta: 2, col_delta: 0, origin_row_delta: 2, origin_col_delta: 0 });
    match plan_span(&f, Some(INSERT), Region::rows_from(1, 0)) {
        Ok(SpanStep::Shift(p)) => {
            assert_eq!((p.new_origin_row, p.new_origin_col), (7, 3));
            assert_eq!(p.new_domain, rows(6, 11));
            let s = p.new_read_summary.unwrap();
            assert_eq!(s.dependencies[0].read_region, Region::rect(1, 6, 11, 0, 0));
            assert_eq!(p.binding_set_id, Some(6));
            assert!(p.force_binding_residual_axes);
        },
        _ => panic!("the span moves"),
    }
}

#[test]
fn a_cut_span_shrinks() {
    let mut f = facts(SpanShift::DemotePartialDelete);
    f.reads = Some(vec![read(Region::rect(1, 4, 9, 0, 0), AxisShiftCase::Straddles)]);
    match plan_span(&f, Some(DELETE), Region::rows_from(1, 6)) {
        Ok(SpanStep::Shift(p)) => {
            assert_eq!(p.new_domain, rows(4, 7));
            assert_eq!((p.new_origin_row, p.new_origin_col), (5, 3));
            assert!(!p.force_binding_residual_axes);
        },
        _ => panic!("the span shrinks"),
    }
    f.binding = Some(BindingFacts { id: 6, set: Some(BindingSetFacts { single_literal: false, has_value_refs: false }) });
    assert!(matches!(plan_span(&f, Some(DELETE), Region::rows_from(1, 6)), Ok(SpanStep::Demote)));
}

#[test]
fn a_span_without_template_cannot_move() {
    let mut f = facts(SpanShift::Shift { row_delta: 2, col_delta: 0, origin_row_delta: 2, origin_col_delta: 0 });
    f.template_origin = None;
    match plan_span(&f, Some(INSERT), Region::rows_from(1, 0)) {
        Err(e) => {
            assert_eq!(e.kind, ErrorKind::Ref);
            assert_eq!(e.message.unwrap(), "FormulaPlane shift found a span with a missing template");
        },
        _ => panic!("a template is missing"),
    }
    let mut g = facts(SpanShift::DemotePartialDelete);
    g.template_origin = None;
    match plan_span(&g, Some(DELETE), Region::rows_from(1, 6)) {
        Err(e) => assert_eq!(
            e.message.unwrap(),
            "FormulaPlane delete compaction found a span with a missing template"
        ),
        _ => panic!("a template is missing"),
    }
}

#[test]
fn overflowing_shifts_are_refused() {
    let moves = [
        (0, 0, -6, 0, "FormulaPlane shift overflowed template origin row"),
        (0, 0, 0, -4, "FormulaPlane shift overflowed template origin column"),
        (-5, 0, 0, 0, "FormulaPlane shift overflowed span domain"),
    ];
    for (row_delta, col_delta, origin_row_delta, origin_col_delta, text) in moves {
        let f = facts(SpanShift::Shift { row_delta, col_delta, origin_row_delta, origin_col_delta });
        match plan_span(&f, Some(INSERT), Region::rows_from(1, 0)) {
            Err(e) => assert_eq!(e.message.unwrap(), text),
            _ => panic!("the shift leaves the sheet"),
        }
    }
    let mut f = facts(SpanShift::Shift { row_delta: 1, col_delta: 0, origin_row_delta: 1, origin_col_delta: 0 });
    f.reads = Some(vec![read(Region::rect(1, 0, 9, 0, 0), AxisShiftCase::Straddles)]);
    match plan_span(&f, Some(INSERT), Region::rows_from(1, 0)) {
        Err(e) => assert_eq!(e.message.unwrap(), "FormulaPlane shift could not project read summary"),
        _ => panic!("a read has no image"),
    }
}

#[test]
fn each_span_is_planned_once() {
    let mut other = facts(SpanShift::NoOp);
    other.span_ref = span(4);
    let mut gone = facts(SpanShift::Remove);
    gone.span_ref = span(5);
    let mut loose = facts(SpanShift::DemoteOther);
    loose.span_ref = span(6);
    let moved = facts(SpanShift::Shift { row_delta: 2, col_delta: 0, origin_row_delta: 2, origin_col_delta: 0 });
    let p = match plan_spans_for_structural_op(&vec![other, gone, loose, moved], Some(INSERT), Region::rows_from(1, 0)) {
        Ok(p) => p,
        Err(_) => panic!("every span has a plan"),
    };
    assert_eq!(p.removes, vec![span(5)]);
    assert_eq!(p.demotes, vec![span(6)]);
    assert_eq!(p.shifts.len(), 1);
    assert_eq!(p.shifts[0].span_ref, span(3));
}

#[test]
fn a_plain_write_demotes_what_it_touches() {
    let f = facts(SpanShift::NoOp);
    assert!(matches!(plan_span(&f, None, Region::point(1, 5, 2)), Ok(SpanStep::Demote)));
    assert!(matches!(plan_span(&f, None, Region::point(1, 5, 0)), Ok(SpanStep::Demote)));
    assert!(matches!(plan_span(&f, None, Region::point(1, 5, 1)), Ok(SpanStep::Keep)));
}

fn demoted(template: Option<DemotedTemplate>) -> DemotedSpan {
    DemotedSpan {
        span_ref: span(3),
        sheet_id: 1,
        template,
        domain: rows(4, 5),
        binding: None,
        literals: vec![None, None],
    }
}

#[test]
fn demoted_spans_become_formulas_of_their_cells() {
    let t = DemotedTemplate { origin_row: 5, origin_col: 3, ast: Some(AstNode::Literal(LiteralValue::Int(1))) };
    let placed = match plan_demotions(&vec![demoted(Some(t))]) {
        Ok(p) => p,
        Err(_) => panic!("the template is there"),
    };
    let got: Vec<(u32, u32, i64, i64)> = placed.iter().map(|p| (p.row, p.col, p.row_delta, p.col_delta)).collect();
    assert_eq!(got, vec![(5, 3, 0, 0), (6, 3, 1, 0)]);
    let cells = placed_cells(&placed);
    assert_eq!(cells, vec![at(4, 2), at(5, 2)]);
    let mut dirty: FxHashSet<u128> = FxHashSet::default();
    dirty.insert(cell_key(at(4, 2)));
    assert_eq!(clean_after_demotion(&cells, false, &dirty), vec![at(5, 2)]);
    assert_eq!(clean_after_demotion(&cells, true, &dirty), Vec::new());
    let missing = plan_demotions(&vec![demoted(None)]);
    assert!(matches!(missing, Err(e) if e.kind == ErrorKind::Ref));
    let bare = DemotedTemplate { origin_row: 5, origin_col: 3, ast: None };
    assert!(matches!(plan_demotions(&vec![demoted(Some(bare))]), Err(e) if e.kind == ErrorKind::Ref));
}

#[test]
fn dirty_cells_follow_the_closure() {
    let spans = vec![SpanDomain { span_ref: span(3), domain: Some(rows(4, 9)) }];
    let closure = DirtyClosure {
        work: vec![FormulaProducerWork {
            producer: FormulaProducerId::Span(3),
            dirty: ProducerDirtyDomain::Cells(vec![at(5, 2), at(20, 2)]),
        }],
        fallbacks: Vec::new(),
    };
    let cells = compute_current_formula_plane_dirty_result_coords(&spans, 1, 1, false, &closure).unwrap();
    assert!(cells.contains(&cell_key(at(5, 2))));
    assert!(!cells.contains(&cell_key(at(6, 2))));
    let all = compute_current_formula_plane_dirty_result_coords(&spans, 1, 2, false, &closure).unwrap();
    assert_eq!(all.len(), 6);
    let idle = compute_current_formula_plane_dirty_result_coords(&spans, 1, 1, true, &closure).unwrap();
    assert_eq!(idle.len(), 0);
    let fallen = DirtyClosure { work: Vec::new(), fallbacks: vec![FormulaProducerId::Span(3)] };
    let whole = compute_current_formula_plane_dirty_result_coords(&spans, 1, 1, false, &fallen).unwrap();
    assert_eq!(whole.len(), 6);
    let stale = vec![SpanDomain { span_ref: span(3), domain: None }];
    let e = compute_current_formula_plane_dirty_result_coords(&stale, 1, 2, false, &closure).unwrap_err();
    assert_eq!(e.kind, ErrorKind::NImpl);
}

#[test]
fn dirty_domains_name_their_span() {
    assert!(matches!(
        producer_dirty_to_span_dirty(ProducerDirtyDomain::Whole, span(3)),
        SpanDirtyDomain::WholeSpan(SpanRef { id: 3, generation: 1 })
    ));
    assert!(matches!(
        producer_dirty_to_span_dirty(ProducerDirtyDomain::Cells(vec![at(1, 1)]), span(3)),
        SpanDirtyDomain::Cells(c) if c == vec![at(1, 1)]
    ));
}

fn scheduled(reads: SpanReads) -> ScheduledSpan {
    ScheduledSpan { span_ref: span(3), result_region: Some(Region::rect(1, 4, 9, 2, 2)), reads }
}

fn summary() -> SpanReads {
    SpanReads::Summary {
        result_region: Region::rect(1, 4, 9, 2, 2),
        dependencies: vec![ReadDependency { read_region: Region::whole_col(1, 0), projection: Projection::Rule(1) }],
    }
}

fn legacy(vertex: u32, cell: Option<CellRef>, dirty: bool) -> LegacyFormula {
    LegacyFormula {
        vertex,
        cell,
        dirty,
        dependencies: vec![Some(at(0, 0)), None, Some(at(0, 0)), Some(at(1, 0))],
        ranges: vec![SharedRangeRef {
            sheet: SheetLocator::Current,
            start_row: Some(AxisBound { index: 2, abs: false }),
            start_col: Some(AxisBound { index: 0, abs: false }),
            end_row: Some(AxisBound { index: 3, abs: false }),
            end_col: Some(AxisBound { index: 0, abs: false }),
        }],
    }
}

#[test]
fn a_mixed_schedule_holds_spans_and_dirty_formulas() {
    let formulas = vec![legacy(7, Some(at(9, 9)), true), legacy(8, Some(at(10, 9)), false), legacy(9, None, true)];
    let m = match build_formula_plane_mixed_schedule(SpanSeedMode::WholeAll, &vec![scheduled(summary())], &formulas, 1) {
        Ok(m) => m,
        Err(_) => panic!("the span can be scheduled"),
    };
    let producers: Vec<FormulaProducerId> = m.producers.iter().map(|p| p.producer).collect();
    assert_eq!(
        producers,
        vec![FormulaProducerId::Span(3), FormulaProducerId::Legacy(7), FormulaProducerId::Legacy(8)]
    );
    assert_eq!(m.scheduled_legacy, vec![7]);
    let work: Vec<FormulaProducerId> = m.work.iter().map(|w| w.producer).collect();
    assert_eq!(work, vec![FormulaProducerId::Span(3), FormulaProducerId::Legacy(7)]);
    let reads: Vec<Region> =
        m.reads.iter().filter(|r| r.consumer == FormulaProducerId::Legacy(7)).map(|r| r.read_region).collect();
    assert_eq!(reads, vec![Region::point(1, 0, 0), Region::point(1, 1, 0), Region::rect(1, 2, 3, 0, 0)]);
    assert_eq!(m.reads[0].projection, Projection::Rule(1));
}

#[test]
fn spans_with_stale_reads_are_not_scheduled() {
    let cases = [
        (scheduled(SpanReads::NoSummary), "FormulaPlane active span is missing read summary"),
        (scheduled(SpanReads::StaleSummary), "FormulaPlane active span has stale read summary"),
        (
            scheduled(SpanReads::Summary { result_region: Region::point(1, 0, 0), dependencies: Vec::new() }),
            "FormulaPlane active span read summary is stale",
        ),
        (
            ScheduledSpan { span_ref: span(3), result_region: None, reads: summary() },
            "FormulaPlane active span ref is stale",
        ),
    ];
    for (s, text) in cases {
        match build_formula_plane_mixed_schedule(SpanSeedMode::WholeAll, &vec![s], &Vec::new(), 1) {
            Err(e) => {
                assert_eq!(e.kind, ErrorKind::NImpl);
                assert_eq!(e.message.unwrap(), text);
            },
            Ok(_) => panic!("{}", text),
        }
    }
}

#[test]
fn the_closure_adds_its_work_when_something_is_pending() {
    let closure = || DirtyClosure {
        work: vec![FormulaProducerWork { producer: FormulaProducerId::Span(3), dirty: ProducerDirtyDomain::Whole }],
        fallbacks: Vec::new(),
    };
    let mut work = Vec::new();
    add_closure_work(SpanSeedMode::WholeAll, true, &mut work, closure());
    assert_eq!(work.len(), 0);
    add_closure_work(SpanSeedMode::DirtyClosure, false, &mut work, closure());
    assert_eq!(work.len(), 1);
}

#[test]
fn cyclic_spans_are_collected() {
    let fallback = |producer, reason| MixedScheduleFallback { producer, reason };
    let fallbacks = vec![
        fallback(FormulaProducerId::Span(4), MixedScheduleFallbackReason::CycleDetected),
        fallback(FormulaProducerId::Span(3), MixedScheduleFallbackReason::CapacityExceeded),
        fallback(FormulaProducerId::Legacy(4), MixedScheduleFallbackReason::CycleDetected),
    ];
    assert_eq!(collect_cyclic_span_refs(&fallbacks, &vec![span(3), span(4)]), vec![span(4)]);
}

#[test]
fn the_coordinator_begins_by_what_is_known() {
    assert_eq!(begin(0, 1, 2, false), CoordinatorStep::Legacy);
    assert_eq!(begin(1, 1, 2, true), CoordinatorStep::Build(SpanSeedMode::WholeAll));
    assert_eq!(begin(1, 2, 2, true), CoordinatorStep::Legacy);
    assert_eq!(begin(1, 2, 2, false), CoordinatorStep::Build(SpanSeedMode::DirtyClosure));
}

#[test]
fn the_coordinator_gives_up_on_spans_in_the_end() {
    let mut c = Coordinator::new(5);
    assert_eq!(c.scheduled(true, 3, &Vec::new()), CoordinatorStep::Run);
    let cycle = MixedScheduleFallback {
        producer: FormulaProducerId::Span(4),
        reason: MixedScheduleFallbackReason::CycleDetected,
    };
    let mut demotions = 0;
    loop {
        assert_eq!(c.scheduled(false, 0, &vec![cycle]), CoordinatorStep::DemoteCyclic);
        demotions += 1;
        assert_eq!(c.demoted(2), CoordinatorStep::SettleCycles);
        if c.settled(1) == CoordinatorStep::Legacy {
            break;
        }
    }
    assert_eq!(demotions, 64);
    assert_eq!(c.prepass_cycle_errors, 64);
    let mut d = Coordinator::new(5);
    let capacity = MixedScheduleFallback {
        producer: FormulaProducerId::Span(4),
        reason: MixedScheduleFallbackReason::CapacityExceeded,
    };
    assert_eq!(d.scheduled(false, 0, &vec![capacity]), CoordinatorStep::Legacy);
    assert_eq!(d.capacity_bailouts, 6);
    assert_eq!(d.demoted(0), CoordinatorStep::Legacy);
}

#[test]
fn a_mixed_layer_is_run_in_batches() {
    let span = |sheet, task| MixedItem::Span { sheet, task };
    let layers = vec![
        vec![
            MixedItem::Legacy(1),
            MixedItem::Legacy(2),
            span(Some(1), 10),
            span(Some(1), 11),
            span(Some(2), 12),
            MixedItem::Legacy(3),
        ],
        vec![MixedItem::Legacy(4), span(None, 13), MixedItem::Legacy(5)],
    ];
    let mut run = MixedRun::new(layers, true);
    assert!(matches!(run.advance(), MixedAction::Vertices { vertices, parallel: true } if vertices == vec![1, 2]));
    run.count(2);
    assert!(matches!(run.advance(), MixedAction::Spans { sheet_id: 1, tasks } if tasks == vec![10, 11]));
    assert!(matches!(run.advance(), MixedAction::Spans { sheet_id: 2, tasks } if tasks == vec![12]));
    assert!(matches!(run.advance(), MixedAction::Vertices { vertices, parallel: false } if vertices == vec![3]));
    assert!(matches!(run.advance(), MixedAction::Flush));
    assert!(matches!(run.advance(), MixedAction::Vertices { vertices, .. } if vertices == vec![4]));
    match run.advance() {
        MixedAction::Fail(e) => {
            assert_eq!(e.message.unwrap(), "FormulaPlane schedule referenced a stale span")
        },
        _ => panic!("the span is stale"),
    }
    let mut empty = MixedRun::new(vec![Vec::new()], false);
    assert!(matches!(empty.advance(), MixedAction::Flush));
    empty.count(7);
    assert!(matches!(empty.advance(), MixedAction::Finish(7)));
    assert_eq!(stale_span_error().kind, ErrorKind::NImpl);
}

#[test]
fn demoted_regions_are_told_and_counted() {
    let r = demote_cyclic_spans(&vec![Some(rows(4, 9)), None]);
    assert_eq!(r, vec![Region::from_domain(&rows(4, 9))]);
    assert_eq!(count_cycle_demotions(u64::MAX, 2), u64::MAX);
    assert_eq!(count_cycle_demotions(3, 2), 5);
}
