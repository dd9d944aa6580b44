use formualizer_eval::components::split_shadow_candidate_components;
use formualizer_eval::computed_write::SheetLayout;
use formualizer_eval::coord::CellRef;
use formualizer_eval::demand::{DemandGraph, DemandNode, VirtualDeps, build_demand_subgraph, find_dirty_precedents};
use formualizer_eval::effects::{EffectStep, SpillLog};
use formualizer_eval::grid::{DeltaCollector, DeltaMode, Grid};
use formualizer_eval::layer::{LayerMode, LayerRun, LayerStep, arrays_first, layer_phases};
use formualizer_eval::recalc::{
    LoopStep, RecalcLoop, RequestRoute, UnitKind, UnitStep, check_cell_address, evaluate_legacy_cycle_prepass,
    route_cancellable, route_recalc_plan, route_until, unit_step,
};
use formualizer_eval::scc_task::SccReport;
use formualizer_eval::schedule::{
    CacheFacts, Layer, NamedCell, PrecedentFacts, Schedule, ScheduleCache, ScheduleUnit, build_recalc_plan,
    can_use_static_schedule_cache, changed_virtual_dep_vertices, dirty_layer, get_eval_plan, schedule_candidates,
};
use formualizer_eval::spill::ShimSpillManager;
use formualizer_eval::store::CellStore;
use formualizer_eval::telemetry::{CycleTelemetry, ScheduleBuildMeta, max_double, start_virtual_dep_telemetry};
use formualizer_eval::value::{ErrorKind, LiteralValue};
use formualizer_eval::vertex::VertexKind;
use rustc_hash::{FxHashMap, FxHashSet};

fn at(row: u32, col: u32) -> CellRef {
    CellRef { sheet_id: 1, row, col }
}

fn num(x: f64) -> LiteralValue {
    LiteralValue::Number(x.to_bits())
}

fn schedule() -> Schedule {
    Schedule {
        units: vec![ScheduleUnit::Layer(0), ScheduleUnit::Cycle(0), ScheduleUnit::Layer(1)],
        layers: vec![Layer { vertices: vec![1, 2] }, Layer { vertices: vec![5] }],
        cycles: vec![vec![3, 4]],
    }
}

#[test]
fn a_recalculation_ends_without_work() {
    let mut l = RecalcLoop::begin(true, 3);
    assert!(matches!(l.open_pass(false, 0), LoopStep::Finish));
    let t = l.take_telemetry().unwrap();
    assert_eq!(t.bailout_reason, Some("no_work"));
    assert_eq!(t.fallback_mode_activations, 3);
    assert!(RecalcLoop::begin(false, 3).take_telemetry().is_none());
}

#[test]
fn a_recalculation_replans_at_most_five_times() {
    let mut l = RecalcLoop::begin(true, 0);
    let mut passes = 0;
    loop {
        assert!(matches!(l.open_pass(false, 1), LoopStep::Schedule));
        l.layer_done(2);
        passes += 1;
        if !l.close_pass(1) {
            break;
        }
    }
    assert_eq!(passes, 6);
    assert_eq!(l.computed_vertices, 12);
    let t = l.take_telemetry().unwrap();
    assert_eq!(t.bailout_reason, Some("max_replan"));
    assert_eq!(t.replan_iterations, 5);
    assert_eq!(t.changed_vdeps_total, 6);
}

#[test]
fn a_recalculation_converges_when_nothing_changes() {
    let mut l = RecalcLoop::begin(true, 0);
    l.cycle_done(0);
    l.cycle_done(4);
    assert!(!l.close_pass(0));
    assert_eq!(l.cycle_errors, 1);
    assert_eq!(l.take_telemetry().unwrap().bailout_reason, Some("converged"));
}

#[test]
fn cancellation_is_told_where_it_happened() {
    let mut l = RecalcLoop::begin(true, 0);
    match l.open_pass(true, 5) {
        LoopStep::Cancelled(e) => {
            assert_eq!(e.kind, ErrorKind::Cancelled);
            assert_eq!(e.message.unwrap(), "Evaluation cancelled before scheduling");
        },
        _ => panic!("the pass is cancelled"),
    }
    assert_eq!(l.take_telemetry().unwrap().bailout_reason, Some("cancelled"));
    let cycle = l.cancelled_in_walk(UnitKind::Cycle);
    assert_eq!(cycle.message.unwrap(), "Evaluation cancelled during cycle handling");
    let layer = l.cancelled_in_walk(UnitKind::Layer);
    assert_eq!(layer.message.unwrap(), "Evaluation cancelled between layers");
    match unit_step(UnitKind::Layer, 3, true, true, true) {
        UnitStep::Cancelled(e) => {
            assert_eq!(e.message.unwrap(), "Demand-driven evaluation cancelled between layers")
        },
        _ => panic!("the unit is cancelled"),
    }
    match unit_step(UnitKind::Cycle, 3, true, true, true) {
        UnitStep::Cancelled(e) => {
            assert_eq!(e.message.unwrap(), "Demand-driven evaluation cancelled during cycle handling")
        },
        _ => panic!("the unit is cancelled"),
    }
}

#[test]
fn wide_layers_run_in_parallel() {
    assert!(matches!(unit_step(UnitKind::Layer, 2, true, false, false), UnitStep::LayerParallel));
    assert!(matches!(unit_step(UnitKind::Layer, 1, true, false, false), UnitStep::LayerSequential));
    assert!(matches!(unit_step(UnitKind::Layer, 2, false, false, false), UnitStep::LayerSequential));
    assert!(matches!(unit_step(UnitKind::Cycle, 2, true, false, false), UnitStep::HandleCycle));
}

#[test]
fn requests_are_routed() {
    let mut n: u64 = 1;
    assert_eq!(route_recalc_plan(1, 0, true, &mut n), RequestRoute::SpanCoordinator);
    assert_eq!(route_recalc_plan(0, 0, true, &mut n), RequestRoute::Nothing);
    assert_eq!(route_recalc_plan(0, 2, false, &mut n), RequestRoute::Legacy);
    assert_eq!(n, 1);
    assert_eq!(route_recalc_plan(0, 2, true, &mut n), RequestRoute::FullRecalc);
    assert_eq!(n, 2);
    assert!(matches!(route_cancellable(1, false), Ok(RequestRoute::SpanCoordinator)));
    assert!(matches!(route_cancellable(1, true), Err(e) if e.kind == ErrorKind::Cancelled));
    assert!(matches!(route_cancellable(0, true), Ok(RequestRoute::Legacy)));
    assert_eq!(route_until(2, 1, 1), RequestRoute::SpanCoordinator);
    assert_eq!(route_until(0, 0, 1), RequestRoute::Nothing);
    assert_eq!(route_until(0, 1, 0), RequestRoute::Nothing);
    assert_eq!(route_until(0, 1, 1), RequestRoute::Legacy);
}

#[test]
fn cell_addresses_start_at_one() {
    assert!(check_cell_address(1, 1).is_ok());
    assert!(matches!(check_cell_address(0, 1), Err(e) if e.kind == ErrorKind::Ref));
    assert!(matches!(check_cell_address(1, 0), Err(e) if e.kind == ErrorKind::Ref));
}

#[test]
fn the_cycle_prepass_lists_cycle_members() {
    assert_eq!(evaluate_legacy_cycle_prepass(&schedule()), vec![3, 4]);
    assert_eq!(evaluate_legacy_cycle_prepass(&Schedule::empty()), Vec::<u32>::new());
}

#[test]
fn plans_know_their_layers_and_dynamic_references() {
    let p = build_recalc_plan(&vec![false, true], schedule());
    assert_eq!(p.layer_count(), 2);
    assert!(p.has_dynamic_refs());
    assert_eq!(p.schedule().cycles, vec![vec![3, 4]]);
    assert!(!build_recalc_plan(&vec![false], schedule()).has_dynamic_refs());
    let mut dirty: FxHashSet<u32> = FxHashSet::default();
    dirty.insert(2);
    assert_eq!(dirty_layer(&p.schedule().layers[0], &dirty).vertices, vec![2]);
}

#[test]
fn kept_schedules_are_found_until_the_topology_changes() {
    let mut c = ScheduleCache::new();
    let vertices = vec![1, 2, 5];
    assert!(c.lookup(true, 1, &vertices).is_none());
    let meta = c.built(true, true, 1, &vertices, &schedule(), 0, 0, 4);
    assert!(meta.schedule_cache_eligible && !meta.schedule_cache_hit);
    let (s, hit) = c.lookup(true, 1, &vertices).unwrap();
    assert_eq!(s.units, schedule().units);
    assert!(hit.schedule_cache_hit);
    assert!(c.lookup(true, 2, &vertices).is_none());
    assert!(c.lookup(true, 1, &vec![1, 2]).is_none());
    assert!(c.lookup(false, 1, &vertices).is_none());
    c.clear();
    assert!(c.lookup(true, 1, &vertices).is_none());
    let plain = CacheFacts { dynamic: false, has_ranges: false };
    assert!(can_use_static_schedule_cache(&vec![plain]));
    assert!(!can_use_static_schedule_cache(&Vec::new()));
    assert!(!can_use_static_schedule_cache(&vec![plain, CacheFacts { dynamic: true, has_ranges: false }]));
    assert!(!can_use_static_schedule_cache(&vec![plain, CacheFacts { dynamic: false, has_ranges: true }]));
}

#[test]
fn augmented_vertices_are_scheduled_once() {
    let mut c = schedule_candidates(&vec![4, 2], &vec![2, 9]);
    c.sort();
    assert_eq!(c, vec![2, 4, 9]);
}

#[test]
fn changed_virtual_dependencies_are_found() {
    let deps = |e: Vec<(u32, Vec<u32>)>| VirtualDeps { entries: e };
    let before = deps(vec![(1, vec![2]), (3, vec![4]), (5, vec![6])]);
    let after = deps(vec![(1, vec![2]), (3, vec![7]), (8, vec![6])]);
    let mut changed = changed_virtual_dep_vertices(true, &before, &after);
    changed.sort();
    assert_eq!(changed, vec![3, 5, 8]);
    assert_eq!(changed_virtual_dep_vertices(false, &before, &after), Vec::<u32>::new());
}

#[test]
fn the_preview_counts_and_names_cells() {
    let targets = vec![("S".to_string(), 4, 2)];
    let facts = vec![
        PrecedentFacts { dirty: true, volatile: false },
        PrecedentFacts { dirty: false, volatile: true },
    ];
    let mut cells: FxHashMap<u32, NamedCell> = FxHashMap::default();
    cells.insert(1, NamedCell { sheet: "S".to_string(), row: 0, col: 0 });
    cells.insert(5, NamedCell { sheet: "S".to_string(), row: 9, col: 27 });
    let p = get_eval_plan(&targets, true, false, 1, &facts, &schedule(), &cells).unwrap();
    assert_eq!(p.total_vertices_to_evaluate, 2);
    assert_eq!((p.dirty_count, p.volatile_count, p.cycles_detected), (1, 1, 1));
    assert_eq!(p.estimated_parallel_layers, 1);
    assert_eq!(p.target_cells, vec!["S!B4".to_string()]);
    assert_eq!(p.layers[0].sample_cells, vec!["S!A1".to_string()]);
    assert!(p.layers[0].parallel_eligible);
    assert_eq!(p.layers[1].sample_cells, vec!["S!AB10".to_string()]);
    assert!(!p.layers[1].parallel_eligible);
    let e = get_eval_plan(&targets, true, true, 1, &facts, &schedule(), &cells).unwrap_err();
    assert_eq!(e.kind, ErrorKind::Value);
    assert_eq!(
        e.message.unwrap(),
        "Evaluation plan requested with deferred graph; build first or call evaluate_*"
    );
    let odd = vec![("S".to_string(), 4, 0)];
    assert!(get_eval_plan(&odd, true, true, 1, &facts, &schedule(), &cells).is_err());
    let none = get_eval_plan(&Vec::new(), true, true, 1, &facts, &schedule(), &cells).unwrap();
    assert_eq!(none.total_vertices_to_evaluate, 0);
}

fn demand_graph() -> DemandGraph {
    let node = |kind, dirty, dependencies, virtual_dependencies| DemandNode {
        kind,
        dirty,
        volatile: false,
        dependencies,
        virtual_dependencies,
    };
    let mut nodes: FxHashMap<u32, DemandNode> = FxHashMap::default();
    nodes.insert(1, node(VertexKind::FormulaScalar, true, vec![2], vec![4]));
    nodes.insert(2, node(VertexKind::FormulaScalar, false, vec![3], Vec::new()));
    nodes.insert(3, node(VertexKind::FormulaScalar, true, vec![1], Vec::new()));
    nodes.insert(4, node(VertexKind::FormulaScalar, true, Vec::new(), Vec::new()));
    nodes.insert(5, node(VertexKind::FormulaScalar, true, Vec::new(), Vec::new()));
    nodes.insert(6, node(VertexKind::NamedScalar, false, vec![99], Vec::new()));
    DemandGraph { nodes }
}

#[test]
fn demand_holds_the_precedents_that_are_out_of_date() {
    let g = demand_graph();
    let mut d = build_demand_subgraph(&g, &vec![1]);
    d.vertices.sort();
    assert_eq!(d.vertices, vec![1, 3, 4]);
    let mut p = find_dirty_precedents(&g, &vec![1]);
    p.sort();
    assert_eq!(p, vec![1, 3]);
    assert_eq!(build_demand_subgraph(&g, &vec![6]).vertices, vec![6]);
    assert_eq!(find_dirty_precedents(&g, &vec![6]), Vec::<u32>::new());
    assert_eq!(build_demand_subgraph(&g, &vec![77]).vertices, Vec::<u32>::new());
    let mut more = build_demand_subgraph(&g, &vec![1, 5]).vertices;
    more.sort();
    assert_eq!(more, vec![1, 3, 4, 5]);
}

#[test]
fn telemetry_adds_up() {
    let mut l = RecalcLoop::begin(true, 0);
    let meta = ScheduleBuildMeta {
        candidate_vertices: 4,
        vdeps_vertices: 2,
        vdeps_edges: 3,
        builder_elapsed_ms: 7,
        used_virtual_schedule: true,
        schedule_cache_hit: false,
        schedule_cache_eligible: true,
    };
    l.scheduled(&meta);
    l.scheduled(&meta);
    let t = l.take_telemetry().unwrap();
    assert_eq!(t.candidate_vertices_total, 8);
    assert_eq!(t.vdeps_edges_total, 6);
    assert_eq!(t.builder_elapsed_ms_total, 14);
    assert_eq!(t.schedule_virtual_passes, 2);
    assert_eq!(t.schedule_cache_misses, 2);
    assert_eq!(start_virtual_dep_telemetry(9).fallback_mode_activations, 9);
    assert_eq!(max_double(1.5f64.to_bits(), 2.5f64.to_bits()), 2.5f64.to_bits());
}

#[test]
fn cycle_telemetry_adds_up() {
    let mut t = CycleTelemetry::default();
    let r = SccReport {
        stamped: 2,
        passes: 3,
        witnessed_cycles: 1,
        phantom: false,
        iterated: true,
        converged: false,
        capped: true,
    };
    t.add_cycle(r, 0.5f64.to_bits(), 1, 6);
    let phantom = SccReport {
        stamped: 0,
        passes: 2,
        witnessed_cycles: 0,
        phantom: true,
        iterated: false,
        converged: false,
        capped: false,
    };
    t.add_cycle(phantom, 0.25f64.to_bits(), 0, 1);
    assert_eq!((t.static_sccs, t.phantom_sccs, t.live_cycles_witnessed), (2, 1, 1));
    assert_eq!((t.circ_cells_stamped, t.max_passes_single_scc), (2, 3));
    assert_eq!((t.iterated_sccs, t.converged_sccs, t.capped_sccs), (1, 0, 1));
    assert_eq!(t.max_abs_delta_at_stop, 0.5f64.to_bits());
    assert_eq!((t.nan_converged, t.elapsed_ms), (1, 7));
}

fn layer_grid(n: u32) -> Grid {
    let mut g = Grid::new(CellStore::new(None));
    for v in 0..n {
        g.add_vertex(v, VertexKind::FormulaScalar, at(v, 0));
    }
    g
}

fn run_layer(n: u32, mode: LayerMode, cancel_from: usize) -> (Grid, usize, Option<String>) {
    let layouts: FxHashMap<u16, SheetLayout> = FxHashMap::default();
    let mut g = layer_grid(n);
    let mut run = LayerRun::new((0..n).collect(), vec![false; n as usize], mode);
    let mut locks = ShimSpillManager::new();
    let mut delta = DeltaCollector::new(DeltaMode::Off);
    let mut log = SpillLog::new(false);
    let mut seen = 0;
    loop {
        match run.advance(&mut g, &layouts, seen >= cancel_from) {
            LayerStep::Evaluate(v) => {
                seen += 1;
                let effects = match run.plan(&mut g, &layouts, v, num(v as f64), 100) {
                    EffectStep::Planned(e) => e,
                    EffectStep::Reserve { .. } => panic!("a number needs no cells"),
                };
                for e in &effects {
                    assert!(run.apply(&mut locks, &mut g, &layouts, &mut delta, &mut log, e, Ok(()), false, 100).0.is_ok());
                }
            },
            LayerStep::Done(count) => return (g, count, None),
            LayerStep::Cancelled(e) => return (g, seen, e.message),
        }
    }
}

#[test]
fn narrow_and_wide_layers_show_every_value() {
    for n in [1u32, 7, 8, 300] {
        let (g, count, cancelled) = run_layer(n, LayerMode::Plain, 0);
        assert_eq!(count, n as usize);
        assert_eq!(cancelled, None);
        for v in 0..n {
            assert!(g.read_cell(at(v, 0)).same(&num(v as f64)));
            assert!(g.vertex_value(v).unwrap().same(&num(v as f64)));
        }
    }
}

#[test]
fn a_cancelled_layer_keeps_what_it_computed() {
    let (g, seen, message) = run_layer(300, LayerMode::Cancellable, 10);
    assert_eq!(seen, 256);
    assert_eq!(message.unwrap(), "Evaluation cancelled within layer");
    assert!(g.read_cell(at(255, 0)).same(&num(255.0)));
    assert!(g.read_cell(at(256, 0)).is_empty());
    let (_, seen, message) = run_layer(300, LayerMode::DemandDriven, 10);
    assert_eq!(seen, 128);
    assert_eq!(message.unwrap(), "Demand-driven evaluation cancelled within layer");
    let (_, seen, message) = run_layer(300, LayerMode::Cancellable, 0);
    assert_eq!(seen, 0);
    assert!(message.is_some());
}

#[test]
fn phases_hold_every_vertex_once() {
    let (first, second) = layer_phases(&vec![4, 5, 6, 7], &vec![false, true, false, true]);
    assert_eq!(first, vec![4, 6]);
    assert_eq!(second, vec![5, 7]);
}

#[test]
fn array_results_are_applied_first() {
    let results =
        vec![(1, num(1.0)), (2, LiteralValue::Array(vec![vec![num(2.0)]])), (3, num(3.0))];
    let (arrays, rest) = arrays_first(&results);
    assert_eq!(arrays.iter().map(|r| r.0).collect::<Vec<u32>>(), vec![2]);
    assert_eq!(rest.iter().map(|r| r.0).collect::<Vec<u32>>(), vec![1, 3]);
}

#[test]
fn components_hold_what_is_connected() {
    let cells = vec![at(0, 0), at(9, 9), at(0, 1), at(1, 1), at(10, 9)];
    let mut lists = split_shadow_candidate_components(&cells);
    for l in lists.iter_mut() {
        l.sort();
    }
    lists.sort();
    assert_eq!(lists, vec![vec![0, 2, 3], vec![1, 4]]);
}
