//! The loops that drive evaluation requests: replanning, the walk over schedule units, and where a
//! request is routed.
use crate::coord::VertexId;
use crate::schedule::{Schedule, ScheduleUnit, ScheduleView};
use crate::telemetry::{ScheduleBuildMeta, VirtualDepTelemetry, accumulate_schedule_meta, fresh_telemetry, has_room_for, start_virtual_dep_telemetry, with_schedule};
use crate::value::{ErrorKind, ErrorView, ExcelError, error_with};
use vstd::prelude::*;

verus! {

/// How often a request is planned anew because its virtual dependencies changed.
pub const MAX_REPLAN: usize = 5;

/// The state of a full recalculation between its passes.
#[derive(Clone, Copy, Debug)]
pub struct RecalcLoop {
    pub computed_vertices: usize,
    pub cycle_errors: usize,
    pub replan_iterations: usize,
    pub telemetry: Option<VirtualDepTelemetry>,
}

/// What a full recalculation does next.
pub enum LoopStep {
    /// Build a schedule for the dirty vertices.
    Schedule,
    /// The recalculation is done.
    Finish,
    /// The recalculation was cancelled.
    Cancelled(ExcelError),
}

/// The counters with the reason why planning stopped.
pub open spec fn with_reason(t: Option<VirtualDepTelemetry>, reason: &'static str) -> Option<
    VirtualDepTelemetry,
> {
    match t {
        Some(t) => Some(VirtualDepTelemetry { bailout_reason: Some(reason), ..t }),
        None => None,
    }
}

/// The counters as they are kept once planning has stopped.
pub open spec fn closed_telemetry(l: RecalcLoop) -> Option<VirtualDepTelemetry> {
    match l.telemetry {
        Some(t) => Some(VirtualDepTelemetry { replan_iterations: l.replan_iterations, ..t }),
        None => None,
    }
}

/// The counts before the first pass; counters are kept only where they are enabled.
pub open spec fn begun_counts(telemetry_enabled: bool, fallback_activations: u64) -> RecalcLoop {
    RecalcLoop {
        computed_vertices: 0,
        cycle_errors: 0,
        replan_iterations: 0,
        telemetry: if telemetry_enabled {
            Some(fresh_telemetry(fallback_activations))
        } else {
            None
        },
    }
}

impl RecalcLoop {
    /// A recalculation before its first pass; counters are kept only where they are enabled.
    pub fn begin(telemetry_enabled: bool, fallback_activations: u64) -> (l: RecalcLoop)
        ensures
            l == begun_counts(telemetry_enabled, fallback_activations),
    {
        RecalcLoop {
            computed_vertices: 0,
            cycle_errors: 0,
            replan_iterations: 0,
            telemetry: if telemetry_enabled {
                Some(start_virtual_dep_telemetry(fallback_activations))
            } else {
                None
            },
        }
    }

    /// Opens a pass over the given number of dirty vertices. Cancellation is looked at first; a
    /// pass without work ends the recalculation, and that is its reason unless it had one before.
    pub fn open_pass(&mut self, cancelled: bool, work: usize) -> (step: LoopStep)
        ensures
            match step {
                LoopStep::Cancelled(e) => {
                    &&& cancelled
                    &&& e@ == error_with(
                        ErrorKind::Cancelled,
                        "Evaluation cancelled before scheduling"@,
                    )
                    &&& *final(self) == RecalcLoop {
                        telemetry: with_reason(old(self).telemetry, "cancelled"),
                        ..*old(self)
                    }
                },
                LoopStep::Finish => {
                    &&& !cancelled && work == 0
                    &&& *final(self) == RecalcLoop {
                        telemetry: match old(self).telemetry {
                            Some(t) if t.bailout_reason is None => with_reason(
                                Some(t),
                                "no_work",
                            ),
                            other => other,
                        },
                        ..*old(self)
                    }
                },
                LoopStep::Schedule => !cancelled && work > 0 && *final(self) == *old(self),
            },
    {
        if cancelled {
            if let Some(mut t) = self.telemetry {
                t.bailout_reason = Some("cancelled");
                self.telemetry = Some(t);
            }
            return LoopStep::Cancelled(
                ExcelError::new(ErrorKind::Cancelled).with_message(
                    "Evaluation cancelled before scheduling",
                ),
            );
        }
        if work == 0 {
            if let Some(mut t) = self.telemetry {
                if t.bailout_reason.is_none() {
                    t.bailout_reason = Some("no_work");
                    self.telemetry = Some(t);
                }
            }
            return LoopStep::Finish;
        }
        LoopStep::Schedule
    }

    /// Counts a schedule.
    pub fn scheduled(&mut self, meta: &ScheduleBuildMeta)
        requires
            old(self).telemetry matches Some(t) ==> has_room_for(t, *meta),
        ensures
            *final(self) == (RecalcLoop {
                telemetry: match old(self).telemetry {
                    Some(t) => Some(with_schedule(t, *meta)),
                    None => None,
                },
                ..*old(self)
            }),
    {
        if let Some(mut t) = self.telemetry {
            accumulate_schedule_meta(&mut t, meta);
            self.telemetry = Some(t);
        }
    }

    /// Counts a cycle unit that stamped the given number of vertices.
    pub fn cycle_done(&mut self, stamped: usize)
        requires
            old(self).cycle_errors < usize::MAX,
        ensures
            *final(self) == (RecalcLoop {
                cycle_errors: if stamped > 0 {
                    (old(self).cycle_errors + 1) as usize
                } else {
                    old(self).cycle_errors
                },
                ..*old(self)
            }),
    {
        if stamped > 0 {
            self.cycle_errors = self.cycle_errors + 1;
        }
    }

    /// Counts a layer that computed the given number of vertices.
    pub fn layer_done(&mut self, computed: usize)
        requires
            old(self).computed_vertices + computed <= usize::MAX,
        ensures
            *final(self) == (RecalcLoop {
                computed_vertices: (old(self).computed_vertices + computed) as usize,
                ..*old(self)
            }),
    {
        self.computed_vertices = self.computed_vertices + computed;
    }

    /// Notes that the walk over the units was cancelled, and says how.
    pub fn cancelled_in_walk(&mut self, unit: UnitKind) -> (e: ExcelError)
        ensures
            e@ == walk_cancelled(unit, false),
            *final(self) == (RecalcLoop {
                telemetry: with_reason(old(self).telemetry, "cancelled"),
                ..*old(self)
            }),
    {
        if let Some(mut t) = self.telemetry {
            t.bailout_reason = Some("cancelled");
            self.telemetry = Some(t);
        }
        walk_cancelled_error(unit, false)
    }

    /// Closes a pass after which the given number of vertices have other virtual dependencies.
    /// Another pass follows while there are such vertices and plans are left.
    pub fn close_pass(&mut self, changed: usize) -> (again: bool)
        requires
            old(self).replan_iterations <= MAX_REPLAN,
            old(self).telemetry matches Some(t) ==> t.changed_vdeps_total + changed <= usize::MAX,
        ensures
            again == (changed > 0 && old(self).replan_iterations < MAX_REPLAN),
            final(self).replan_iterations <= MAX_REPLAN,
            ({
                let counted = match old(self).telemetry {
                    Some(t) => Some(
                        VirtualDepTelemetry {
                            changed_vdeps_total: (t.changed_vdeps_total + changed) as usize,
                            ..t
                        },
                    ),
                    None => None,
                };
                *final(self) == if changed == 0 {
                    RecalcLoop { telemetry: with_reason(counted, "converged"), ..*old(self) }
                } else if old(self).replan_iterations >= MAX_REPLAN {
                    RecalcLoop { telemetry: with_reason(counted, "max_replan"), ..*old(self) }
                } else {
                    RecalcLoop {
                        telemetry: counted,
                        replan_iterations: (old(self).replan_iterations + 1) as usize,
                        ..*old(self)
                    }
                }
            }),
    {
        if let Some(mut t) = self.telemetry {
            t.changed_vdeps_total = t.changed_vdeps_total + changed;
            self.telemetry = Some(t);
        }
        if changed == 0 {
            if let Some(mut t) = self.telemetry {
                t.bailout_reason = Some("converged");
                self.telemetry = Some(t);
            }
            return false;
        }
        if self.replan_iterations >= MAX_REPLAN {
            if let Some(mut t) = self.telemetry {
                t.bailout_reason = Some("max_replan");
                self.telemetry = Some(t);
            }
            return false;
        }
        self.replan_iterations = self.replan_iterations + 1;
        true
    }

    /// The counters to keep.
    pub fn take_telemetry(&self) -> (r: Option<VirtualDepTelemetry>)
        ensures
            r == closed_telemetry(*self),
    {
        match self.telemetry {
            Some(mut t) => {
                t.replan_iterations = self.replan_iterations;
                Some(t)
            },
            None => None,
        }
    }
}

/// A recalculation runs at most one pass more than it may plan anew: each pass that asks for
/// another one uses up a plan.
pub proof fn passes_are_bounded(counts: Seq<RecalcLoop>)
    requires
        counts.len() > 0,
        counts[0].replan_iterations == 0,
        forall|i: int|
            0 <= i < counts.len() - 1 ==> (#[trigger] counts[i]).replan_iterations < MAX_REPLAN
                && counts[i + 1].replan_iterations == counts[i].replan_iterations + 1,
    ensures
        counts.len() <= MAX_REPLAN + 1,
{
    lemma_replans(counts, counts.len() - 1);
}

proof fn lemma_replans(counts: Seq<RecalcLoop>, n: int)
    requires
        counts.len() > 0,
        counts[0].replan_iterations == 0,
        0 <= n < counts.len(),
        forall|i: int|
            0 <= i < counts.len() - 1 ==> (#[trigger] counts[i]).replan_iterations < MAX_REPLAN
                && counts[i + 1].replan_iterations == counts[i].replan_iterations + 1,
    ensures
        counts[n].replan_iterations == n,
        n <= MAX_REPLAN,
    decreases n,
{
    if n > 0 {
        lemma_replans(counts, n - 1);
        assert(counts[n - 1].replan_iterations < MAX_REPLAN);
    }
}

/// A unit of a schedule, by kind.
#[derive(Clone, Copy, Debug, PartialEq, Eq, Structural)]
pub enum UnitKind {
    Cycle,
    Layer,
}

/// What is done with a unit of a schedule.
pub enum UnitStep {
    HandleCycle,
    LayerParallel,
    LayerSequential,
    Cancelled(ExcelError),
}

/// A place within a unit at which an evaluation is given up when it is cancelled.
#[derive(Clone, Copy, Debug, PartialEq, Eq, Structural)]
pub enum CancelPoint {
    /// Before a pass over the members of a cycle.
    CyclePass,
    /// Before a layer is evaluated in parallel.
    ParallelStart,
    /// Before a vertex of such a layer is evaluated.
    ParallelVertex,
}

/// The error of an evaluation that was cancelled at the place.
pub open spec fn cancelled_at(point: CancelPoint) -> ErrorView {
    error_with(
        ErrorKind::Cancelled,
        match point {
            CancelPoint::CyclePass => "Evaluation cancelled during SCC evaluation"@,
            CancelPoint::ParallelStart => "Parallel evaluation cancelled before starting"@,
            CancelPoint::ParallelVertex => "Parallel evaluation cancelled during execution"@,
        },
    )
}

/// Goes on, unless the evaluation is cancelled.
pub fn check_cancel(point: CancelPoint, cancelled: bool) -> (r: Result<(), ExcelError>)
    ensures
        match r {
            Ok(()) => !cancelled,
            Err(e) => cancelled && e@ == cancelled_at(point),
        },
{
    if !cancelled {
        return Ok(());
    }
    let message = match point {
        CancelPoint::CyclePass => "Evaluation cancelled during SCC evaluation",
        CancelPoint::ParallelStart => "Parallel evaluation cancelled before starting",
        CancelPoint::ParallelVertex => "Parallel evaluation cancelled during execution",
    };
    Err(ExcelError::new(ErrorKind::Cancelled).with_message(message))
}

/// The error of a walk that was cancelled at a unit of the kind.
pub open spec fn walk_cancelled(unit: UnitKind, demand_driven: bool) -> ErrorView {
    error_with(
        ErrorKind::Cancelled,
        match (unit, demand_driven) {
            (UnitKind::Cycle, false) => "Evaluation cancelled during cycle handling"@,
            (UnitKind::Layer, false) => "Evaluation cancelled between layers"@,
            (UnitKind::Cycle, true) => "Demand-driven evaluation cancelled during cycle handling"@,
            (UnitKind::Layer, true) => "Demand-driven evaluation cancelled between layers"@,
        },
    )
}

fn walk_cancelled_error(unit: UnitKind, demand_driven: bool) -> (e: ExcelError)
    ensures
        e@ == walk_cancelled(unit, demand_driven),
{
    let message = match (unit, demand_driven) {
        (UnitKind::Cycle, false) => "Evaluation cancelled during cycle handling",
        (UnitKind::Layer, false) => "Evaluation cancelled between layers",
        (UnitKind::Cycle, true) => "Demand-driven evaluation cancelled during cycle handling",
        (UnitKind::Layer, true) => "Demand-driven evaluation cancelled between layers",
    };
    ExcelError::new(ErrorKind::Cancelled).with_message(message)
}

/// What is done with a unit: nothing once the request is cancelled; a cycle is handled; a layer
/// runs in parallel where there is a pool and more than one vertex.
pub fn unit_step(
    unit: UnitKind,
    layer_width: usize,
    has_pool: bool,
    cancelled: bool,
    demand_driven: bool,
) -> (step: UnitStep)
    ensures
        match step {
            UnitStep::Cancelled(e) => cancelled && e@ == walk_cancelled(unit, demand_driven),
            UnitStep::HandleCycle => !cancelled && unit == UnitKind::Cycle,
            UnitStep::LayerParallel => !cancelled && unit == UnitKind::Layer && has_pool
                && layer_width > 1,
            UnitStep::LayerSequential => !cancelled && unit == UnitKind::Layer && !(has_pool
                && layer_width > 1),
        },
{
    if cancelled {
        return UnitStep::Cancelled(walk_cancelled_error(unit, demand_driven));
    }
    match unit {
        UnitKind::Cycle => UnitStep::HandleCycle,
        UnitKind::Layer => {
            if has_pool && layer_width > 1 {
                UnitStep::LayerParallel
            } else {
                UnitStep::LayerSequential
            }
        },
    }
}

/// Where an evaluation request goes.
#[derive(Clone, Copy, Debug, PartialEq, Eq, Structural)]
pub enum RequestRoute {
    /// The coordinator of formula spans evaluates everything.
    SpanCoordinator,
    /// There is nothing to do.
    Nothing,
    /// The recalculation plan is given up for a full recalculation.
    FullRecalc,
    /// The request proceeds with legacy vertices.
    Legacy,
}

/// The route of a replayed plan: spans come first, then the absence of dirty vertices, then
/// dynamic references, which ask for a full recalculation and are counted.
pub fn route_recalc_plan(
    active_spans: usize,
    dirty_vertices: usize,
    has_dynamic_refs: bool,
    fallback_activations: &mut u64,
) -> (route: RequestRoute)
    ensures
        route == plan_route(active_spans, dirty_vertices, has_dynamic_refs),
        *final(fallback_activations) == (if route == RequestRoute::FullRecalc
            && *old(fallback_activations) < u64::MAX {
            (*old(fallback_activations) + 1) as u64
        } else {
            *old(fallback_activations)
        }),
{
    if active_spans > 0 {
        return RequestRoute::SpanCoordinator;
    }
    if dirty_vertices == 0 {
        return RequestRoute::Nothing;
    }
    if has_dynamic_refs {
        *fallback_activations = (*fallback_activations).saturating_add(1);
        return RequestRoute::FullRecalc;
    }
    RequestRoute::Legacy
}

/// The route of a request that may be cancelled: with active spans the coordinator runs unless the
/// request is cancelled already.
pub fn route_cancellable(active_spans: usize, cancelled: bool) -> (r: Result<
    RequestRoute,
    ExcelError,
>)
    ensures
        match r {
            Ok(route) => {
                &&& !(active_spans > 0 && cancelled)
                &&& route == (if active_spans > 0 {
                    RequestRoute::SpanCoordinator
                } else {
                    RequestRoute::Legacy
                })
            },
            Err(e) => {
                &&& active_spans > 0 && cancelled
                &&& e@ == error_with(
                    ErrorKind::Cancelled,
                    "Evaluation cancelled before FormulaPlane scheduling"@,
                )
            },
        },
{
    if active_spans > 0 {
        if cancelled {
            return Err(
                ExcelError::new(ErrorKind::Cancelled).with_message(
                    "Evaluation cancelled before FormulaPlane scheduling",
                ),
            );
        }
        return Ok(RequestRoute::SpanCoordinator);
    }
    Ok(RequestRoute::Legacy)
}

/// The route of a demand-driven request: spans are evaluated by the coordinator; without a known
/// target or without anything to evaluate there is nothing to do.
pub fn route_until(active_spans: usize, known_targets: usize, precedents: usize) -> (route:
    RequestRoute)
    ensures
        route == demand_route(active_spans, known_targets, precedents),
{
    if active_spans > 0 {
        RequestRoute::SpanCoordinator
    } else if known_targets == 0 || precedents == 0 {
        RequestRoute::Nothing
    } else {
        RequestRoute::Legacy
    }
}

/// The address of a single cell to evaluate must be one-based.
pub fn check_cell_address(row: u32, col: u32) -> (r: Result<(), ExcelError>)
    ensures
        match r {
            Ok(()) => row > 0 && col > 0,
            Err(e) => (row == 0 || col == 0) && e@ == error_with(
                ErrorKind::Ref,
                "Row and column must be >= 1"@,
            ),
        },
{
    if row == 0 || col == 0 {
        return Err(ExcelError::new(ErrorKind::Ref).with_message("Row and column must be >= 1"));
    }
    Ok(())
}

/// The members of the cycles among the first `n` units, in order.
pub open spec fn cycle_members(s: ScheduleView, n: nat) -> Seq<VertexId>
    decreases n,
{
    if n == 0 {
        Seq::empty()
    } else {
        let before = cycle_members(s, (n - 1) as nat);
        match s.units[n - 1] {
            ScheduleUnit::Cycle(i) => before + s.cycles[i as int],
            ScheduleUnit::Layer(_) => before,
        }
    }
}

/// The members of all cycles of a schedule: they are settled before the rest is scheduled, and count
/// as clean then.
pub fn evaluate_legacy_cycle_prepass(schedule: &Schedule) -> (r: Vec<VertexId>)
    requires
        forall|u: int|
            0 <= u < schedule.units@.len() ==> (#[trigger] schedule.units@[u] matches
                ScheduleUnit::Cycle(i) ==> i < schedule.cycles@.len()),
    ensures
        r@ == cycle_members(schedule@, schedule.units@.len()),
{
    let mut out: Vec<VertexId> = Vec::new();
    let mut u: usize = 0;
    while u < schedule.units.len()
        invariant
            forall|u: int|
                0 <= u < schedule.units@.len() ==> (#[trigger] schedule.units@[u] matches
                    ScheduleUnit::Cycle(i) ==> i < schedule.cycles@.len()),
            u <= schedule.units@.len(),
            out@ == cycle_members(schedule@, u as nat),
        decreases schedule.units@.len() - u,
    {
        if let ScheduleUnit::Cycle(i) = schedule.units[u] {
            assert(schedule.units@[u as int] == ScheduleUnit::Cycle(i));
            let members = &schedule.cycles[i];
            let ghost before = out@;
            let mut k: usize = 0;
            assert(out@ =~= before + members@.take(0));
            while k < members.len()
                invariant
                    k <= members@.len(),
                    out@ == before + members@.take(k as int),
                decreases members@.len() - k,
            {
                out.push(members[k]);
                assert(out@ =~= before + members@.take(k + 1));
                k = k + 1;
            }
            assert(members@.take(k as int) =~= members@);
        }
        u = u + 1;
    }
    out
}

/// The members of the cycles are those of each cycle unit, and no others.
pub proof fn cycle_members_are_those_of_the_cycle_units(s: ScheduleView, n: nat, v: VertexId)
    requires
        n <= s.units.len(),
    ensures
        cycle_members(s, n).contains(v) <==> exists|u: int|
            0 <= u < n && (#[trigger] s.units[u] matches ScheduleUnit::Cycle(i) && s.cycles[i as int].contains(
                v,
            )),
    decreases n,
{
    if n > 0 {
        let m = (n - 1) as nat;
        cycle_members_are_those_of_the_cycle_units(s, m, v);
        let before = cycle_members(s, m);
        if let ScheduleUnit::Cycle(i) = s.units[n - 1] {
            let more = s.cycles[i as int];
            if before.contains(v) {
                let k = choose|k: int| 0 <= k < before.len() && before[k] == v;
                assert((before + more)[k] == v);
            }
            if more.contains(v) {
                let k = choose|k: int| 0 <= k < more.len() && more[k] == v;
                assert((before + more)[before.len() + k] == v);
                assert(s.units[n - 1] matches ScheduleUnit::Cycle(i) && s.cycles[i as int].contains(v));
            }
            if (before + more).contains(v) && !before.contains(v) {
                let k = choose|k: int| 0 <= k < (before + more).len() && (before + more)[k] == v;
                assert(k >= before.len()) by {
                    if k < before.len() {
                        assert(before[k] == v);
                    }
                }
                assert(more[k - before.len()] == v);
            }
        }
    }
}

/// Every cancellation is an error of its own kind, with a text of its own for each place.
pub proof fn cancellations_say_where(point: CancelPoint, unit: UnitKind, demand_driven: bool)
    ensures
        cancelled_at(point).kind == ErrorKind::Cancelled,
        cancelled_at(CancelPoint::CyclePass).message == Some(
            "Evaluation cancelled during SCC evaluation"@,
        ),
        cancelled_at(CancelPoint::ParallelStart).message == Some(
            "Parallel evaluation cancelled before starting"@,
        ),
        cancelled_at(CancelPoint::ParallelVertex).message == Some(
            "Parallel evaluation cancelled during execution"@,
        ),
        walk_cancelled(unit, demand_driven).kind == ErrorKind::Cancelled,
        walk_cancelled(UnitKind::Cycle, false).message == Some(
            "Evaluation cancelled during cycle handling"@,
        ),
        walk_cancelled(UnitKind::Layer, false).message == Some("Evaluation cancelled between layers"@),
        walk_cancelled(UnitKind::Cycle, true).message == Some(
            "Demand-driven evaluation cancelled during cycle handling"@,
        ),
        walk_cancelled(UnitKind::Layer, true).message == Some(
            "Demand-driven evaluation cancelled between layers"@,
        ),
{
}

/// What is counted at the end of a recalculation is what was counted in its passes, with the number of
/// plans made anew; nothing is counted where counting is off.
pub proof fn telemetry_is_closed_with_the_replans(l: RecalcLoop, reason: &'static str)
    ensures
        closed_telemetry(l) is Some <==> l.telemetry is Some,
        closed_telemetry(l) matches Some(t) ==> t.replan_iterations == l.replan_iterations
            && t.candidate_vertices_total == l.telemetry->Some_0.candidate_vertices_total && t.bailout_reason
            == l.telemetry->Some_0.bailout_reason && t.changed_vdeps_total
            == l.telemetry->Some_0.changed_vdeps_total,
        with_reason(l.telemetry, reason) is Some <==> l.telemetry is Some,
        with_reason(l.telemetry, reason) matches Some(t) ==> t.bailout_reason == Some(reason)
            && t.changed_vdeps_total == l.telemetry->Some_0.changed_vdeps_total && t.candidate_vertices_total
            == l.telemetry->Some_0.candidate_vertices_total,
        begun_counts(true, 0).telemetry is Some,
        begun_counts(false, 0).telemetry is None,
        begun_counts(true, 0).computed_vertices == 0,
        begun_counts(true, 0).cycle_errors == 0,
        begun_counts(true, 0).replan_iterations == 0,
{
}

/// How a kept plan is evaluated: spans go through the coordinator; without spans, nothing where nothing
/// is dirty, everything where references are known only at run time, and else the plan.
pub open spec fn plan_route(active_spans: usize, dirty_vertices: usize, has_dynamic_refs: bool) -> RequestRoute {
    if active_spans > 0 {
        RequestRoute::SpanCoordinator
    } else if dirty_vertices == 0 {
        RequestRoute::Nothing
    } else if has_dynamic_refs {
        RequestRoute::FullRecalc
    } else {
        RequestRoute::Legacy
    }
}

/// How targets are evaluated on demand.
pub open spec fn demand_route(active_spans: usize, known_targets: usize, precedents: usize) -> RequestRoute {
    if active_spans > 0 {
        RequestRoute::SpanCoordinator
    } else if known_targets == 0 || precedents == 0 {
        RequestRoute::Nothing
    } else {
        RequestRoute::Legacy
    }
}

/// A request does nothing only where there are no spans and nothing to evaluate; no dirty vertex and no
/// demanded one is passed over.
pub proof fn nothing_is_passed_over(active_spans: usize, dirty: usize, dynamic: bool, targets: usize, precedents: usize)
    ensures
        plan_route(active_spans, dirty, dynamic) == RequestRoute::Nothing <==> active_spans == 0 && dirty == 0,
        plan_route(active_spans, dirty, dynamic) == RequestRoute::SpanCoordinator <==> active_spans > 0,
        plan_route(active_spans, dirty, dynamic) == RequestRoute::FullRecalc <==> active_spans == 0 && dirty > 0
            && dynamic,
        plan_route(active_spans, dirty, dynamic) == RequestRoute::Legacy <==> active_spans == 0 && dirty > 0
            && !dynamic,
        demand_route(active_spans, targets, precedents) == RequestRoute::Nothing <==> active_spans == 0 && (
        targets == 0 || precedents == 0),
        demand_route(active_spans, targets, precedents) == RequestRoute::SpanCoordinator <==> active_spans > 0,
        demand_route(active_spans, targets, precedents) == RequestRoute::Legacy <==> active_spans == 0 && targets
            > 0 && precedents > 0,
{
}

} // verus!
