use formualizer_eval::evaluation::{Action, Evaluation};
use formualizer_eval::schedule::{Layer, Schedule, ScheduleUnit};
use formualizer_eval::telemetry::ScheduleBuildMeta;
use formualizer_eval::value::{ErrorKind, ExcelError};
use rustc_hash::FxHashSet;

fn schedule() -> Schedule {
    Schedule {
        units: vec![ScheduleUnit::Layer(0), ScheduleUnit::Cycle(0), ScheduleUnit::Layer(1)],
        layers: vec![Layer { vertices: vec![1, 2] }, Layer { vertices: vec![5] }],
        cycles: vec![vec![3, 4]],
    }
}

fn meta() -> ScheduleBuildMeta {
    ScheduleBuildMeta {
        candidate_vertices: 5,
        vdeps_vertices: 0,
        vdeps_edges: 0,
        builder_elapsed_ms: 0,
        used_virtual_schedule: false,
        schedule_cache_hit: false,
        schedule_cache_eligible: true,
    }
}

/// Runs an evaluation; the virtual dependencies of vertex 1 change in the first `changes` passes.
fn run(e: &mut Evaluation, first: Action, mut changes: usize) -> (Vec<String>, Result<(), ExcelError>) {
    let mut seen = Vec::new();
    let mut action = first;
    loop {
        action = match action {
            Action::AskWork => {
                seen.push("ask".to_string());
                e.work(vec![1, 2, 3, 4, 5], false)
            },
            Action::Schedule(list) => {
                seen.push(format!("schedule {}", list.len()));
                e.scheduled(Ok((schedule(), meta())), false)
            },
            Action::Cycle(members) => {
                seen.push(format!("cycle {:?}", members));
                e.cycle_done(Ok(2), false)
            },
            Action::Layer { vertices, parallel } => {
                seen.push(format!("layer {:?} {}", vertices, parallel));
                e.layer_done(Ok(vertices.len()), false)
            },
            Action::Compare => {
                let changed = if changes > 0 { vec![1] } else { Vec::new() };
                changes = changes.saturating_sub(1);
                e.compared(changed)
            },
            Action::Settle { clean, dirty, again } => {
                seen.push(format!("settle {} {}", clean.len(), dirty.len()));
                if !again {
                    return (seen, Ok(()));
                }
                Action::AskWork
            },
            Action::Finish => return (seen, Ok(())),
            Action::Fail(err) => return (seen, Err(err)),
        };
    }
}

#[test]
fn a_recalculation_walks_its_schedule_and_settles() {
    let (mut e, first) = Evaluation::everything(true, 0, true);
    let (seen, done) = run(&mut e, first, 0);
    assert!(done.is_ok());
    assert_eq!(
        seen,
        vec!["ask", "schedule 5", "layer [1, 2] true", "cycle [3, 4]", "layer [5] false", "settle 5 0"]
    );
    let counts = e.counts();
    assert_eq!((counts.computed_vertices, counts.cycle_errors), (3, 1));
    assert_eq!(e.take_telemetry().unwrap().bailout_reason, Some("converged"));
}

#[test]
fn changed_dependencies_ask_for_another_pass() {
    let (mut e, first) = Evaluation::everything(true, 0, false);
    let (seen, done) = run(&mut e, first, 1);
    assert!(done.is_ok());
    assert_eq!(seen.iter().filter(|s| *s == "ask").count(), 2);
    assert_eq!(e.take_telemetry().unwrap().replan_iterations, 1);
    let (mut e, first) = Evaluation::everything(true, 0, false);
    let (seen, _) = run(&mut e, first, 100);
    assert_eq!(seen.iter().filter(|s| *s == "ask").count(), 6);
    assert_eq!(e.take_telemetry().unwrap().bailout_reason, Some("max_replan"));
}

#[test]
fn demanded_vertices_are_evaluated_in_one_pass() {
    let (mut e, first) = Evaluation::demand(vec![1, 2, 5], false);
    let (seen, done) = run(&mut e, first, 100);
    assert!(done.is_ok());
    assert_eq!(seen[0], "schedule 3");
    assert_eq!(seen.last().unwrap(), "settle 3 0");
}

#[test]
fn a_kept_plan_evaluates_dirty_vertices() {
    let mut set: FxHashSet<u32> = FxHashSet::default();
    set.insert(2);
    let (mut e, first) = Evaluation::replay(schedule(), vec![2], set, true);
    let (seen, done) = run(&mut e, first, 0);
    assert!(done.is_ok());
    assert_eq!(seen, vec!["layer [2] false", "cycle [3, 4]", "settle 1 0"]);
}

#[test]
fn an_evaluation_without_work_finishes() {
    let (mut e, first) = Evaluation::everything(true, 0, false);
    assert!(matches!(first, Action::AskWork));
    assert!(matches!(e.work(Vec::new(), false), Action::Finish));
    assert_eq!(e.take_telemetry().unwrap().bailout_reason, Some("no_work"));
}

#[test]
fn errors_and_cancellation_end_an_evaluation() {
    let (mut e, _) = Evaluation::everything(true, 0, false);
    match e.work(vec![1], true) {
        Action::Fail(err) => assert_eq!(err.message.unwrap(), "Evaluation cancelled before scheduling"),
        _ => panic!("the evaluation is cancelled"),
    }
    let (mut e, _) = Evaluation::demand(vec![1], false);
    match e.scheduled(Ok((schedule(), meta())), true) {
        Action::Fail(err) => {
            assert_eq!(err.message.unwrap(), "Demand-driven evaluation cancelled between layers")
        },
        _ => panic!("the walk is cancelled"),
    }
    let (mut e, _) = Evaluation::demand(vec![1], false);
    match e.scheduled(Err(ExcelError::new(ErrorKind::Num)), false) {
        Action::Fail(err) => assert_eq!(err.kind, ErrorKind::Num),
        _ => panic!("there is no schedule"),
    }
}

#[test]
fn a_second_evaluation_computes_nothing() {
    let mut out_of_date: Vec<u32> = vec![1, 2, 3, 4, 5];
    let (mut e, first) = Evaluation::everything(false, 0, false);
    assert!(matches!(first, Action::AskWork));
    let mut action = e.work(out_of_date.clone(), false);
    loop {
        action = match action {
            Action::Schedule(_) => e.scheduled(Ok((schedule(), meta())), false),
            Action::Cycle(_) => e.cycle_done(Ok(0), false),
            Action::Layer { vertices, .. } => e.layer_done(Ok(vertices.len()), false),
            Action::Compare => e.compared(Vec::new()),
            Action::Settle { clean, dirty, again } => {
                assert!(!again);
                out_of_date.retain(|v| !clean.contains(v));
                out_of_date.extend(dirty);
                break;
            },
            _ => panic!("the evaluation goes on"),
        };
    }
    assert_eq!(e.counts().computed_vertices, 3);
    let (mut second, _) = Evaluation::everything(false, 0, false);
    assert!(matches!(second.work(out_of_date, false), Action::Finish));
    assert_eq!((second.counts().computed_vertices, second.counts().cycle_errors), (0, 0));
}

#[test]
fn a_replayed_plan_evaluates_the_dirty_vertices_in_order() {
    let plan = || Schedule {
        units: vec![ScheduleUnit::Layer(1), ScheduleUnit::Layer(0), ScheduleUnit::Layer(2)],
        layers: vec![Layer { vertices: vec![4, 5] }, Layer { vertices: vec![1, 2, 3] }, Layer { vertices: vec![6] }],
        cycles: Vec::new(),
    };
    let replayed = |dirty: Vec<u32>| {
        let set: FxHashSet<u32> = dirty.iter().copied().collect();
        let (mut e, mut action) = Evaluation::replay(plan(), dirty, set, false);
        let mut seen: Vec<u32> = Vec::new();
        while let Action::Layer { vertices, .. } = action {
            seen.extend(&vertices);
            action = e.layer_done(Ok(vertices.len()), false);
        }
        assert!(matches!(action, Action::Settle { again: false, .. }));
        assert_eq!(e.counts().computed_vertices, seen.len());
        seen
    };
    assert_eq!(replayed(vec![5, 3, 6, 1]), vec![1, 3, 5, 6]);
    assert_eq!(replayed(vec![4]), vec![4]);
    assert!(replayed(Vec::new()).is_empty());
}

#[test]
fn a_replay_ends_as_an_evaluation_of_everything() {
    let layers = |lists: Vec<Vec<u32>>| Schedule {
        units: (0..lists.len()).map(ScheduleUnit::Layer).collect(),
        layers: lists.into_iter().map(|vertices| Layer { vertices }).collect(),
        cycles: Vec::new(),
    };
    // Every vertex comes to one more than the vertex before it.
    let evaluate = |e: &mut Evaluation, first: Action, fresh: &Schedule| {
        let mut held = vec![10u32, 0, 0, 0, 0];
        let mut action = first;
        loop {
            action = match action {
                Action::AskWork => e.work(vec![1, 2, 4], false),
                Action::Schedule(_) => e.scheduled(Ok((fresh.duplicate(), meta())), false),
                Action::Layer { vertices, .. } => {
                    for v in &vertices {
                        held[*v as usize] = held[*v as usize - 1] + 1;
                    }
                    e.layer_done(Ok(vertices.len()), false)
                },
                Action::Compare => e.compared(Vec::new()),
                Action::Settle { clean, dirty, again } => {
                    assert_eq!((clean, dirty.len(), again), (vec![1, 2, 4], 0, false));
                    return (held, e.counts().computed_vertices);
                },
                _ => panic!("the evaluation goes on"),
            };
        }
    };
    let fresh = layers(vec![vec![4, 1], vec![2]]);
    let (mut full, first) = Evaluation::everything(false, 0, false);
    let a = evaluate(&mut full, first, &fresh);
    let dirty: FxHashSet<u32> = [1, 2, 4].into_iter().collect();
    let plan = layers(vec![vec![1], vec![2], vec![3], vec![4]]);
    let (mut replay, first) = Evaluation::replay(plan, vec![1, 2, 4], dirty, false);
    let b = evaluate(&mut replay, first, &fresh);
    assert_eq!(a, (vec![10, 11, 12, 0, 1], 3));
    assert_eq!(a, b);
}
