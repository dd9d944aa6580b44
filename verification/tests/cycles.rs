use formualizer_eval::coord::CellRef;
use formualizer_eval::grid::{DeltaCollector, DeltaMode, Grid};
use formualizer_eval::scc::{CycleDetection, CyclePolicy, SccVertex, circ_error, order_members, validate_cycle_config};
use formualizer_eval::scc_run::{CycleAction, CycleRun};
use formualizer_eval::scc_task::{ConvergenceOutcome, LiveAnalysis, SccStep, SccTask};
use formualizer_eval::scc_unit::{
    CycleStep, begin_scc_unit, commit_member, finish_scc_unit, handle_cycle_unit, redirty_for_next_recalc, stamp_cycle_error,
    stamp_members,
};
use formualizer_eval::spill::ShimSpillManager;
use formualizer_eval::store::CellStore;
use formualizer_eval::value::{ErrorKind, LiteralValue};
use formualizer_eval::vertex::VertexKind;
use rustc_hash::{FxHashMap, FxHashSet};

fn at(row: u32, col: u32) -> CellRef {
    CellRef { sheet_id: 1, row, col }
}

fn num(x: f64) -> LiteralValue {
    LiteralValue::Number(x.to_bits())
}

fn task(policy: CyclePolicy, n: usize) -> SccTask {
    let snapshot = (0..n).map(|_| num(0.0)).collect();
    SccTask::new(policy, &vec![VertexKind::FormulaScalar; n], vec![true; n], snapshot)
}

fn calm(n: usize) -> LiveAnalysis {
    LiveAnalysis { cycle_count: 0, in_cycle: vec![false; n], topo: (0..n as u32).rev().collect() }
}

fn circular(n: usize) -> LiveAnalysis {
    LiveAnalysis { cycle_count: 1, in_cycle: vec![true; n], topo: (0..n as u32).collect() }
}

#[test]
fn members_are_ordered_cells_names_rest() {
    let v = |vertex, kind, cell, name_key: Option<&str>| SccVertex {
        vertex,
        kind,
        cell,
        name_key: name_key.map(|s| s.to_string()),
    };
    let cycle = vec![
        v(1, VertexKind::Range, None, None),
        v(2, VertexKind::NamedScalar, None, Some("b")),
        v(3, VertexKind::FormulaScalar, Some(at(5, 0)), None),
        v(4, VertexKind::NamedScalar, None, Some("a")),
        v(5, VertexKind::FormulaScalar, Some(at(4, 9)), None),
        v(0, VertexKind::Table, None, None),
    ];
    assert_eq!(order_members(&cycle), vec![4, 2, 3, 1, 5, 0]);
}

#[test]
fn iteration_needs_runtime_detection_and_a_finite_bound() {
    let iterate = CyclePolicy::Iterate { max_iterations: 10 };
    let fine = 0.001f64.to_bits();
    assert!(validate_cycle_config(CycleDetection::Static, CyclePolicy::Error, f64::NAN.to_bits()));
    assert!(!validate_cycle_config(CycleDetection::Static, iterate, fine));
    assert!(validate_cycle_config(CycleDetection::Runtime, iterate, fine));
    assert!(!validate_cycle_config(CycleDetection::Runtime, iterate, f64::NAN.to_bits()));
    assert!(!validate_cycle_config(CycleDetection::Runtime, iterate, (-1.0f64).to_bits()));
    assert!(!validate_cycle_config(CycleDetection::Runtime, iterate, f64::INFINITY.to_bits()));
}

#[test]
fn a_phantom_cycle_settles() {
    let mut t = task(CyclePolicy::Error, 2);
    assert_eq!(t.evaluable(), vec![0, 1]);
    assert!(!t.record(0, num(0.0), 0));
    assert!(!t.record(1, num(5.0), 1));
    t.record_edges(&vec![(0, 1)]);
    assert_eq!(t.live_edges(), vec![(0, 1)]);
    match t.decide(&calm(2), &vec![false; 2]) {
        SccStep::Run(list) => assert_eq!(list, vec![0]),
        _ => panic!("member 0 read too early"),
    }
    assert!(!t.record(0, num(6.0), 0));
    t.record_edges(&vec![(0, 1)]);
    assert!(matches!(t.decide(&calm(2), &vec![false; 2]), SccStep::Done));
    let r = t.report();
    assert!(r.phantom);
    assert_eq!((r.stamped, r.passes, r.witnessed_cycles), (0, 2, 0));
    assert_eq!(t.changed_cells(), vec![0, 1]);
}

#[test]
fn a_live_cycle_is_stamped_under_the_error_policy() {
    let mut t = task(CyclePolicy::Error, 3);
    t.record(0, num(1.0), 0);
    t.record(1, num(2.0), 1);
    t.record(2, num(3.0), 2);
    t.record_edges(&vec![(0, 1), (1, 0), (2, 0)]);
    let live = LiveAnalysis { cycle_count: 1, in_cycle: vec![true, true, false], topo: vec![0, 1, 2] };
    match t.decide(&live, &vec![false; 3]) {
        SccStep::StampAndSettle { stamp, run } => {
            assert_eq!(stamp, vec![0, 1]);
            assert_eq!(run, vec![2]);
        },
        _ => panic!("members 0 and 1 form a cycle"),
    }
    t.record(2, LiteralValue::Error(formualizer_eval::value::ExcelError::new(ErrorKind::Circ)), 0);
    t.record_edges(&vec![(2, 0)]);
    assert!(matches!(t.decide(&calm(3), &vec![false; 3]), SccStep::Done));
    let r = t.report();
    assert_eq!((r.stamped, r.witnessed_cycles, r.phantom), (2, 1, false));
}

#[test]
fn iteration_stops_at_its_cap_and_keeps_its_values() {
    let mut t = task(CyclePolicy::Iterate { max_iterations: 3 }, 2);
    let mut passes = 0;
    loop {
        passes += 1;
        t.record(0, num(passes as f64), 0);
        t.record(1, num(10.0 * passes as f64), 1);
        t.record_edges(&vec![(0, 1), (1, 0)]);
        match t.decide(&circular(2), &vec![false; 2]) {
            SccStep::Run(list) => assert_eq!(list, vec![0, 1]),
            SccStep::Done => break,
            _ => panic!("iteration stamps nothing"),
        }
    }
    assert_eq!(passes, 3);
    let r = t.report();
    assert!(r.capped && r.iterated && !r.converged);
    assert_eq!((r.stamped, r.passes), (0, 3));
}

#[test]
fn iteration_stops_when_the_members_converge() {
    let mut t = task(CyclePolicy::Iterate { max_iterations: 100 }, 1);
    t.record(0, num(1.0), 0);
    t.record_edges(&vec![(0, 0)]);
    assert!(matches!(t.decide(&circular(1), &vec![false]), SccStep::Run(_)));
    t.record(0, num(1.0), 0);
    t.record_edges(&vec![(0, 0)]);
    assert!(t.convergence_pair(0).is_some());
    assert!(matches!(t.decide(&circular(1), &vec![true]), SccStep::Done));
    let r = t.report();
    assert!(r.converged && !r.capped);
}

#[test]
fn a_spilling_member_is_stamped() {
    let mut t = task(CyclePolicy::Error, 1);
    assert!(t.record(0, LiteralValue::Array(vec![vec![num(1.0)]]), 0));
    assert_eq!(t.evaluable(), Vec::<usize>::new());
    assert_eq!(t.report().stamped, 1);
}

#[test]
fn rounds_add_up_what_the_tests_found() {
    let t = task(CyclePolicy::Iterate { max_iterations: 3 }, 3);
    let o = |nan_converged, abs_delta: Option<f64>| ConvergenceOutcome {
        converged: false,
        nan_converged,
        abs_delta: abs_delta.map(|d| d.to_bits()),
    };
    let r = t.round(&vec![o(true, None), o(false, Some(0.5)), o(true, Some(0.25))]);
    assert_eq!(r.nan_converged, 2);
    assert_eq!(r.max_delta, 0.5f64.to_bits());
}

fn cycle_grid() -> Grid {
    let mut g = Grid::new(CellStore::new(None));
    g.add_vertex(1, VertexKind::FormulaScalar, at(0, 0));
    g.add_vertex(2, VertexKind::FormulaScalar, at(1, 0));
    g
}

fn is_circ(v: &LiteralValue) -> bool {
    v.same(&LiteralValue::Error(formualizer_eval::value::ExcelError::new(ErrorKind::Circ)))
}

#[test]
fn static_cycles_are_stamped_at_once() {
    let mut g = cycle_grid();
    let mut locks = ShimSpillManager::new();
    let mut delta = DeltaCollector::new(DeltaMode::Cells);
    let step = handle_cycle_unit(&mut locks, &mut g, &mut delta, CycleDetection::Static, &vec![1, 2], None);
    assert!(matches!(step, CycleStep::Settled { stamped: 2, .. }));
    assert!(is_circ(&g.read_cell(at(0, 0))));
    assert!(g.vertex_value(2).unwrap().same(&circ_error()));
    assert_eq!(delta.finish(), vec![at(0, 0), at(1, 0)]);
    let mut h = cycle_grid();
    let mut none = DeltaCollector::new(DeltaMode::Off);
    let step = handle_cycle_unit(&mut locks, &mut h, &mut none, CycleDetection::Runtime, &vec![1, 2], None);
    assert!(matches!(step, CycleStep::Evaluate));
    let mut only: FxHashSet<u32> = FxHashSet::default();
    only.insert(2);
    let step = handle_cycle_unit(&mut locks, &mut h, &mut none, CycleDetection::Static, &vec![1, 2], Some(&only));
    assert!(matches!(step, CycleStep::Settled { stamped: 1, .. }));
    assert!(h.read_cell(at(0, 0)).is_empty());
    assert!(is_circ(&h.read_cell(at(1, 0))));
}

#[test]
fn stamping_gives_the_lock_up() {
    let mut g = cycle_grid();
    let mut locks = ShimSpillManager::new();
    let mut delta = DeltaCollector::new(DeltaMode::Off);
    assert!(locks.reserve(1, Ok(5)).is_ok());
    assert_eq!(stamp_cycle_error(&mut locks, &mut g, &mut delta, 1), Some(5));
    assert_eq!(stamp_cycle_error(&mut locks, &mut g, &mut delta, 1), None);
}

#[test]
fn a_cycle_unit_runs_its_members_in_order() {
    let mut g = cycle_grid();
    let mut locks = ShimSpillManager::new();
    let mut delta = DeltaCollector::new(DeltaMode::Cells);
    let member = |vertex, cell| SccVertex { vertex, kind: VertexKind::FormulaScalar, cell: Some(cell), name_key: None };
    let cycle = vec![member(2, at(1, 0)), member(1, at(0, 0))];
    let mut kept: FxHashMap<u32, LiteralValue> = FxHashMap::default();
    kept.insert(2, num(8.0));
    let policy = CyclePolicy::Iterate { max_iterations: 2 };
    let (mut unit, released) = begin_scc_unit(&mut locks, &mut g, &mut delta, policy, &cycle, &kept);
    assert_eq!(released, Vec::<u64>::new());
    assert_eq!(unit.members, vec![1, 2]);
    assert!(g.read_cell(at(1, 0)).same(&num(8.0)));
    assert_eq!(commit_member(&mut locks, &mut g, &mut unit, 0, num(1.0), 0), None);
    assert!(g.read_cell(at(0, 0)).same(&num(1.0)));
    assert_eq!(commit_member(&mut locks, &mut g, &mut unit, 1, num(8.0), 1), None);
    unit.task.record_edges(&vec![(0, 1), (1, 0)]);
    assert!(matches!(unit.task.decide(&circular(2), &vec![false; 2]), SccStep::Run(_)));
    let redirty = finish_scc_unit(&unit, &mut delta);
    assert_eq!(redirty, vec![1, 2]);
    assert_eq!(delta.finish(), vec![at(0, 0)]);
    let next = redirty_for_next_recalc(&g, &redirty, &vec![true, false]);
    assert_eq!(next.len(), 1);
    assert!(next[&1].same(&num(1.0)));
    stamp_members(&mut locks, &mut g, &unit, &vec![1]);
    assert!(is_circ(&g.read_cell(at(1, 0))));
}

#[test]
fn cycles_begin_alike_in_any_order() {
    let v = |vertex, row| SccVertex { vertex, kind: VertexKind::FormulaScalar, cell: Some(at(row, 0)), name_key: None };
    let begin = |cycle: Vec<SccVertex>| {
        let mut g = cycle_grid();
        let mut delta = DeltaCollector::new(DeltaMode::Off);
        let policy = CyclePolicy::Iterate { max_iterations: 3 };
        begin_scc_unit(&mut ShimSpillManager::new(), &mut g, &mut delta, policy, &cycle, &FxHashMap::default()).0
    };
    let a = begin(vec![v(1, 0), v(2, 1), v(3, 2)]);
    let b = begin(vec![v(3, 2), v(1, 0), v(2, 1)]);
    assert_eq!(a.members, vec![1, 2, 3]);
    assert_eq!(b.members, a.members);
    assert_eq!(b.cells, a.cells);
}

/// Runs a cycle in which each member adds one to the next, up to a limit, and the first reads the last.
fn run_cycle(
    policy: CyclePolicy,
    cycle: Vec<SccVertex>,
    live: fn(usize) -> LiveAnalysis,
    cancel_at: usize,
) -> (Grid, Result<CycleRun, ErrorKind>, Vec<CellRef>) {
    let mut g = cycle_grid();
    let mut locks = ShimSpillManager::new();
    let mut delta = DeltaCollector::new(DeltaMode::Cells);
    let (mut run, _) = CycleRun::begin(&mut locks, &mut g, &mut delta, policy, &cycle, &FxHashMap::default());
    let mut opened = 0;
    loop {
        match run.action() {
            CycleAction::OpenPass => {
                opened += 1;
                if let Err(e) = run.open(opened == cancel_at) {
                    return (g, Err(e.kind), delta.finish());
                }
            },
            CycleAction::Run { member, vertex } => {
                assert_eq!(run.members()[member], vertex);
                let n = run.size();
                let read = (member + n - 1) % n;
                let before = match g.read_cell(at(read as u32, 0)) {
                    LiteralValue::Number(bits) => f64::from_bits(bits),
                    _ => 0.0,
                };
                assert_eq!(run.ran(&mut locks, &mut g, num((before + 1.0).min(5.0)), &vec![read as u32, 99]), None);
            },
            CycleAction::Classify(edges) => {
                assert_eq!(edges.len(), run.size());
                let outcomes = (0..run.size())
                    .map(|i| {
                        let converged = run.convergence_pair(i).is_some_and(|(a, b)| a.same(b));
                        ConvergenceOutcome { converged, nan_converged: false, abs_delta: Some(1.0f64.to_bits()) }
                    })
                    .collect();
                assert!(run.classified(&mut locks, &mut g, &live(run.size()), &outcomes).is_empty());
            },
            CycleAction::Finish => {
                run.finish(&mut delta);
                return (g, Ok(run), delta.finish());
            },
        }
    }
}

#[test]
fn cycles_end_alike_in_any_order() {
    let v = |vertex, row| SccVertex { vertex, kind: VertexKind::FormulaScalar, cell: Some(at(row, 0)), name_key: None };
    let policy = CyclePolicy::Iterate { max_iterations: 20 };
    let (g, a, cells) = run_cycle(policy, vec![v(1, 0), v(2, 1)], circular, 0);
    let (h, b, again) = run_cycle(policy, vec![v(2, 1), v(1, 0)], circular, 0);
    let (a, b) = (a.unwrap(), b.unwrap());
    assert_eq!(a.report(), b.report());
    assert!(a.report().converged && a.report().iterated);
    assert_eq!(a.round(), b.round());
    assert_eq!(cells, vec![at(0, 0), at(1, 0)]);
    assert_eq!(again, cells);
    for row in 0..2 {
        assert!(g.read_cell(at(row, 0)).same(&num(5.0)));
        assert!(h.read_cell(at(row, 0)).same(&num(5.0)));
    }
}

#[test]
fn live_cycles_are_marked_and_calm_ones_are_not() {
    let v = |vertex, row| SccVertex { vertex, kind: VertexKind::FormulaScalar, cell: Some(at(row, 0)), name_key: None };
    let (g, run, _) = run_cycle(CyclePolicy::Error, vec![v(1, 0), v(2, 1)], circular, 0);
    assert_eq!(run.unwrap().report().stamped, 2);
    assert!(is_circ(&g.read_cell(at(0, 0))));
    let (_, run, _) = run_cycle(CyclePolicy::Error, vec![v(1, 0), v(2, 1)], calm, 0);
    let run = run.unwrap();
    assert_eq!(run.round(), None);
    assert_eq!(run.report().witnessed_cycles, 0);
}

#[test]
fn a_cycle_is_cancelled_between_passes() {
    let v = |vertex, row| SccVertex { vertex, kind: VertexKind::FormulaScalar, cell: Some(at(row, 0)), name_key: None };
    let policy = CyclePolicy::Iterate { max_iterations: 20 };
    let (g, run, cells) = run_cycle(policy, vec![v(1, 0), v(2, 1)], circular, 2);
    assert_eq!(run.unwrap_err(), ErrorKind::Cancelled);
    assert!(g.read_cell(at(1, 0)).same(&num(2.0)));
    assert!(cells.is_empty());
}
