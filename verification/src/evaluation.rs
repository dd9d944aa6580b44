//! One evaluation from its beginning to its end: which vertices are asked for, scheduled, evaluated
//! and marked, in passes over schedules. The graph and the interpreter answer; what comes next is
//! decided here.
use crate::coord::VertexId;
use crate::recalc::{LoopStep, MAX_REPLAN, RecalcLoop, UnitKind, begun_counts, closed_telemetry, walk_cancelled, with_reason};
use crate::schedule::{Schedule, ScheduleUnit, ScheduleView, copy_ids};
use crate::telemetry::{ScheduleBuildMeta, VirtualDepTelemetry, has_room_for, with_schedule};
use crate::value::{ErrorKind, ExcelError, error_with};
use crate::walk::{UnitWalk, WalkStep, WalkView, handles, is_closed, kind_of};
use rustc_hash::FxHashSet;
use vstd::prelude::*;

verus! {

/// What an evaluation is about.
#[derive(Clone, Copy, Debug, PartialEq, Eq, Structural)]
pub enum Scope {
    /// Everything that is out of date, in passes until virtual dependencies settle.
    Everything,
    /// What some targets need.
    Demand,
    /// The dirty vertices of a kept plan.
    Replay,
}

/// What an evaluation waits for.
#[derive(Clone, Copy, Debug, PartialEq, Eq, Structural)]
pub enum Phase {
    /// The vertices that are out of date.
    Asking,
    /// A schedule.
    Scheduling,
    /// The end of a cycle.
    InCycle,
    /// The end of a layer.
    InLayer,
    /// The vertices whose virtual dependencies changed.
    Comparing,
    /// Nothing.
    Ended,
}

/// What is done next for an evaluation.
#[derive(Debug)]
pub enum Action {
    /// List the vertices that are out of date.
    AskWork,
    /// Schedule these vertices.
    Schedule(Vec<VertexId>),
    /// Handle this cycle.
    Cycle(Vec<VertexId>),
    /// Evaluate these vertices.
    Layer { vertices: Vec<VertexId>, parallel: bool },
    /// Find the vertices whose virtual dependencies changed.
    Compare,
    /// Mark the first vertices as clean and then the second ones as dirty; after that begin another
    /// pass, or end.
    Settle { clean: Vec<VertexId>, dirty: Vec<VertexId>, again: bool },
    /// End without anything to mark.
    Finish,
    /// Give up.
    Fail(ExcelError),
}

/// An evaluation under way.
#[derive(Debug)]
pub struct Evaluation {
    scope: Scope,
    counts: RecalcLoop,
    phase: Phase,
    work: Vec<VertexId>,
    walk: Option<UnitWalk>,
    has_pool: bool,
}

/// The model of an [`Evaluation`].
pub struct EvaluationView {
    pub scope: Scope,
    pub counts: RecalcLoop,
    pub phase: Phase,
    pub work: Seq<u32>,
    pub walk: Option<WalkView>,
    pub has_pool: bool,
}

impl EvaluationView {
    /// How far the evaluation has come within a pass.
    pub open spec fn rank(self) -> int {
        match self.phase {
            Phase::Asking => 3,
            Phase::Scheduling => 2,
            Phase::InCycle | Phase::InLayer => 1,
            Phase::Comparing => 0,
            Phase::Ended => -1,
        }
    }

    /// The evaluation as it begins to walk over a schedule.
    pub open spec fn walking(self, schedule: ScheduleView, meta: ScheduleBuildMeta) -> EvaluationView {
        EvaluationView {
            counts: RecalcLoop {
                telemetry: match self.counts.telemetry {
                    Some(t) => Some(with_schedule(t, meta)),
                    None => None,
                },
                ..self.counts
            },
            walk: Some(
                UnitWalk::begun(schedule, None, self.has_pool, self.scope == Scope::Demand),
            ),
            ..self
        }
    }

    /// The evaluation once more vertices were computed.
    pub open spec fn counting(self, n: nat) -> EvaluationView {
        EvaluationView {
            counts: RecalcLoop {
                computed_vertices: (self.counts.computed_vertices + n) as usize,
                ..self.counts
            },
            ..self
        }
    }

    /// The evaluation once a cycle was handled in which so many members were marked.
    pub open spec fn erring(self, stamped: usize) -> EvaluationView {
        EvaluationView {
            counts: RecalcLoop {
                cycle_errors: if stamped > 0 {
                    (self.counts.cycle_errors + 1) as usize
                } else {
                    self.counts.cycle_errors
                },
                ..self.counts
            },
            ..self
        }
    }

    /// The evaluation by a kept plan as it begins to walk over it.
    pub open spec fn replaying(
        plan: ScheduleView,
        work: Seq<u32>,
        dirty: Set<u32>,
        has_pool: bool,
    ) -> EvaluationView {
        EvaluationView {
            scope: Scope::Replay,
            counts: begun_counts(false, 0),
            phase: Phase::Scheduling,
            work,
            walk: Some(UnitWalk::begun(plan, Some(dirty), has_pool, false)),
            has_pool,
        }
    }

    /// How many units are ahead.
    pub open spec fn ahead(self) -> nat {
        match self.walk {
            Some(w) => w.ahead.len(),
            None => 0,
        }
    }

    /// Whether the evaluation is closer to its end than the other one: further passes are fewer, or
    /// it is further within the same pass, or fewer units are ahead.
    pub open spec fn is_closer_than(self, other: EvaluationView) -> bool {
        let (a, b) = (self.counts.replan_iterations, other.counts.replan_iterations);
        ||| a > b
        ||| a == b && self.rank() < other.rank()
        ||| a == b && self.rank() == other.rank() && self.ahead() < other.ahead()
    }
}

/// Whether the action and the evaluation after it are those of going on with the walk: the next
/// unit is handled, unless the walk is cancelled; after the last one dependencies are compared, or
/// the vertices are marked as clean where there is one pass only.
pub open spec fn goes_on(v: EvaluationView, cancelled: bool, action: Action, after: EvaluationView) -> bool {
    let walk = v.walk->Some_0;
    if walk.ahead.len() == 0 {
        if v.scope == Scope::Everything {
            action is Compare && after == (EvaluationView { phase: Phase::Comparing, ..v })
        } else {
            &&& action matches Action::Settle { clean, dirty, again } && clean@ == v.work
                && dirty@.len() == 0 && !again
            &&& after == (EvaluationView { phase: Phase::Ended, ..v })
        }
    } else {
        let unit = walk.schedule.units[walk.ahead[0]];
        if cancelled {
            &&& action matches Action::Fail(e) && e@ == walk_cancelled(
                kind_of(unit),
                walk.demand_driven,
            )
            &&& after == (EvaluationView {
                phase: Phase::Ended,
                counts: RecalcLoop {
                    telemetry: with_reason(v.counts.telemetry, "cancelled"),
                    ..v.counts
                },
                ..v
            })
        } else {
            let rest = WalkView { ahead: walk.ahead.drop_first(), ..walk };
            match unit {
                ScheduleUnit::Cycle(i) => {
                    &&& action matches Action::Cycle(members) && members@
                        == walk.schedule.cycles[i as int]
                    &&& after == (EvaluationView { phase: Phase::InCycle, walk: Some(rest), ..v })
                },
                ScheduleUnit::Layer(_) => {
                    &&& action matches Action::Layer { vertices, parallel } && handles(
                        walk,
                        walk.ahead[0],
                        WalkStep::Layer { vertices, parallel },
                    )
                    &&& after == (EvaluationView { phase: Phase::InLayer, walk: Some(rest), ..v })
                },
            }
        }
    }
}

/// Whether the action and the evaluation after it are those of taking the vertices that are out of
/// date: they are scheduled, unless the evaluation is cancelled; without any it ends.
pub open spec fn takes_work(
    v: EvaluationView,
    vertices: Seq<u32>,
    cancelled: bool,
    action: Action,
    after: EvaluationView,
) -> bool {
    if cancelled {
        &&& action matches Action::Fail(e) && e@ == error_with(
            ErrorKind::Cancelled,
            "Evaluation cancelled before scheduling"@,
        )
        &&& after == (EvaluationView {
            phase: Phase::Ended,
            counts: RecalcLoop {
                telemetry: with_reason(v.counts.telemetry, "cancelled"),
                ..v.counts
            },
            ..v
        })
    } else if vertices.len() == 0 {
        &&& action is Finish
        &&& after == (EvaluationView {
            phase: Phase::Ended,
            counts: RecalcLoop {
                telemetry: match v.counts.telemetry {
                    Some(t) if t.bailout_reason is None => with_reason(Some(t), "no_work"),
                    other => other,
                },
                ..v.counts
            },
            ..v
        })
    } else {
        &&& action matches Action::Schedule(list) && list@ == vertices
        &&& after == (EvaluationView { phase: Phase::Scheduling, work: vertices, ..v })
    }
}

/// Whether the action and the evaluation after it are those of the end of a pass in which the virtual
/// dependencies of the given vertices changed.
pub open spec fn settles(v: EvaluationView, changed: Seq<u32>, action: Action, after: EvaluationView) -> bool {
    let again = changed.len() > 0 && v.counts.replan_iterations < MAX_REPLAN;
    &&& action matches Action::Settle { clean, dirty, again: a } && clean@ == v.work && dirty@
        == changed && a == again
    &&& after == (EvaluationView {
        phase: if again {
            Phase::Asking
        } else {
            Phase::Ended
        },
        counts: closed_pass(v.counts, changed.len() as usize),
        ..v
    })
}

/// The vertices that are out of date once those of the first list are marked as clean and then those
/// of the second one as dirty.
pub open spec fn marked(out_of_date: Set<u32>, clean: Seq<u32>, dirty: Seq<u32>) -> Set<u32> {
    out_of_date.difference(clean.to_set()).union(dirty.to_set())
}

/// Once everything that was out of date has been evaluated and no virtual dependency changed, nothing
/// is out of date.
pub proof fn an_evaluation_leaves_nothing_out_of_date(
    v: EvaluationView,
    out_of_date: Set<u32>,
    action: Action,
    after: EvaluationView,
)
    requires
        out_of_date == v.work.to_set(),
        settles(v, Seq::empty(), action, after),
    ensures
        after.phase == Phase::Ended,
        action matches Action::Settle { clean, dirty, .. } && marked(out_of_date, clean@, dirty@)
            == Set::<u32>::empty(),
{
    assert(marked(out_of_date, v.work, Seq::empty()) =~= Set::<u32>::empty());
}

/// A second evaluation of everything, without anything that went out of date since, ends at once: it
/// computes no vertex, marks none, and finds no cycle.
pub proof fn a_second_evaluation_computes_nothing(
    v: EvaluationView,
    out_of_date: Set<u32>,
    action: Action,
    after: EvaluationView,
    telemetry_enabled: bool,
    fallback_activations: u64,
    second: EvaluationView,
    listed: Seq<u32>,
    second_action: Action,
    second_after: EvaluationView,
)
    requires
        out_of_date == v.work.to_set(),
        settles(v, Seq::empty(), action, after),
        action matches Action::Settle { clean, dirty, .. } && listed.to_set() == marked(
            out_of_date,
            clean@,
            dirty@,
        ),
        second.counts == begun_counts(telemetry_enabled, fallback_activations),
        takes_work(second, listed, false, second_action, second_after),
    ensures
        second_action is Finish,
        second_after.phase == Phase::Ended,
        second_after.counts.computed_vertices == 0,
        second_after.counts.cycle_errors == 0,
{
    an_evaluation_leaves_nothing_out_of_date(v, out_of_date, action, after);
    if listed.len() > 0 {
        assert(listed.contains(listed[0]));
        assert(listed.to_set().contains(listed[0]));
    }
}

/// Whether an evaluation fails with the error.
pub open spec fn fails(v: EvaluationView, e: ExcelError, action: Action, after: EvaluationView) -> bool {
    action == Action::Fail(e) && after == (EvaluationView { phase: Phase::Ended, ..v })
}

impl Evaluation {
    pub closed spec fn view(&self) -> EvaluationView {
        EvaluationView {
            scope: self.scope,
            counts: self.counts,
            phase: self.phase,
            work: self.work@,
            walk: match self.walk {
                Some(w) => Some(w@),
                None => None,
            },
            has_pool: self.has_pool,
        }
    }

    pub closed spec fn wf(&self) -> bool {
        &&& self.counts.replan_iterations <= MAX_REPLAN
        &&& self.walk matches Some(w) ==> w.wf() && is_closed(w@.schedule)
        &&& self.phase == Phase::InCycle || self.phase == Phase::InLayer ==> self.walk is Some
        &&& self.scope != Scope::Everything ==> self.phase != Phase::Asking && self.phase
            != Phase::Comparing
    }

    /// Begins an evaluation of everything that is out of date.
    pub fn everything(telemetry_enabled: bool, fallback_activations: u64, has_pool: bool) -> (r: (
        Evaluation,
        Action,
    ))
        ensures
            r.0.wf(),
            r.1 is AskWork,
            r.0@.scope == Scope::Everything,
            r.0@.phase == Phase::Asking,
            r.0@.work.len() == 0,
            r.0@.walk is None,
            r.0@.has_pool == has_pool,
            r.0@.counts == begun_counts(telemetry_enabled, fallback_activations),
    {
        let e = Evaluation {
            scope: Scope::Everything,
            counts: RecalcLoop::begin(telemetry_enabled, fallback_activations),
            phase: Phase::Asking,
            work: Vec::new(),
            walk: None,
            has_pool,
        };
        (e, Action::AskWork)
    }

    /// Begins an evaluation of the vertices that some targets need.
    pub fn demand(vertices: Vec<VertexId>, has_pool: bool) -> (r: (Evaluation, Action))
        ensures
            r.0.wf(),
            r.1 matches Action::Schedule(list) && list@ == vertices@,
            r.0@.scope == Scope::Demand,
            r.0@.phase == Phase::Scheduling,
            r.0@.work == vertices@,
            r.0@.walk is None,
            r.0@.has_pool == has_pool,
            r.0@.counts == begun_counts(false, 0),
    {
        let list = copy_ids(&vertices);
        let e = Evaluation {
            scope: Scope::Demand,
            counts: RecalcLoop::begin(false, 0),
            phase: Phase::Scheduling,
            work: vertices,
            walk: None,
            has_pool,
        };
        (e, Action::Schedule(list))
    }

    /// Begins an evaluation by a kept plan. `set` holds the dirty vertices once more.
    pub fn replay(schedule: Schedule, dirty: Vec<VertexId>, set: FxHashSet<u32>, has_pool: bool) -> (r: (
        Evaluation,
        Action,
    ))
        requires
            is_closed(schedule@),
        ensures
            r.0.wf(),
            goes_on(
                EvaluationView::replaying(schedule@, dirty@, set@, has_pool),
                false,
                r.1,
                r.0@,
            ),
    {
        let mut e = Evaluation {
            scope: Scope::Replay,
            counts: RecalcLoop::begin(false, 0),
            phase: Phase::Scheduling,
            work: dirty,
            walk: Some(UnitWalk::new(schedule, Some(set), has_pool, false)),
            has_pool,
        };
        let action = e.proceed(false);
        (e, action)
    }

    /// Takes the vertices that are out of date. Cancellation is looked at first; without any vertex
    /// the evaluation ends.
    pub fn work(&mut self, vertices: Vec<VertexId>, cancelled: bool) -> (action: Action)
        requires
            old(self).wf(),
            old(self)@.phase == Phase::Asking,
        ensures
            final(self).wf(),
            final(self)@.is_closer_than(old(self)@),
            takes_work(old(self)@, vertices@, cancelled, action, final(self)@),
    {
        match self.counts.open_pass(cancelled, vertices.len()) {
            LoopStep::Cancelled(e) => {
                self.phase = Phase::Ended;
                Action::Fail(e)
            },
            LoopStep::Finish => {
                self.phase = Phase::Ended;
                Action::Finish
            },
            LoopStep::Schedule => {
                let list = copy_ids(&vertices);
                self.phase = Phase::Scheduling;
                self.work = vertices;
                Action::Schedule(list)
            },
        }
    }

    /// Takes the schedule, and begins to walk over its units.
    pub fn scheduled(
        &mut self,
        answer: Result<(Schedule, ScheduleBuildMeta), ExcelError>,
        cancelled: bool,
    ) -> (action: Action)
        requires
            old(self).wf(),
            old(self)@.phase == Phase::Scheduling,
            answer matches Ok((schedule, meta)) ==> is_closed(schedule@) && (
            old(self)@.counts.telemetry matches Some(t) ==> has_room_for(t, meta)),
        ensures
            final(self).wf(),
            final(self)@.is_closer_than(old(self)@),
            match answer {
                Err(e) => fails(old(self)@, e, action, final(self)@),
                Ok((schedule, meta)) => goes_on(
                    old(self)@.walking(schedule@, meta),
                    cancelled,
                    action,
                    final(self)@,
                ),
            },
    {
        match answer {
            Err(e) => {
                self.phase = Phase::Ended;
                Action::Fail(e)
            },
            Ok((schedule, meta)) => {
                self.counts.scheduled(&meta);
                let demand_driven = self.scope == Scope::Demand;
                self.walk = Some(UnitWalk::new(schedule, None, self.has_pool, demand_driven));
                self.proceed(cancelled)
            },
        }
    }

    /// Takes the end of a cycle: how many of its members were marked.
    pub fn cycle_done(&mut self, answer: Result<usize, ExcelError>, cancelled: bool) -> (action: Action)
        requires
            old(self).wf(),
            old(self)@.phase == Phase::InCycle,
            old(self)@.counts.cycle_errors < usize::MAX,
        ensures
            final(self).wf(),
            final(self)@.is_closer_than(old(self)@),
            ({
                let v = old(self)@;
                match answer {
                    Err(e) => fails(v, e, action, final(self)@),
                    Ok(stamped) => goes_on(v.erring(stamped), cancelled, action, final(self)@),
                }
            }),
    {
        match answer {
            Err(e) => {
                self.phase = Phase::Ended;
                Action::Fail(e)
            },
            Ok(stamped) => {
                self.counts.cycle_done(stamped);
                self.proceed(cancelled)
            },
        }
    }

    /// Takes the end of a layer: how many vertices were computed.
    pub fn layer_done(&mut self, answer: Result<usize, ExcelError>, cancelled: bool) -> (action: Action)
        requires
            old(self).wf(),
            old(self)@.phase == Phase::InLayer,
            answer matches Ok(n) ==> old(self)@.counts.computed_vertices + n <= usize::MAX,
        ensures
            final(self).wf(),
            final(self)@.is_closer_than(old(self)@),
            ({
                let v = old(self)@;
                match answer {
                    Err(e) => fails(v, e, action, final(self)@),
                    Ok(n) => goes_on(v.counting(n as nat), cancelled, action, final(self)@),
                }
            }),
    {
        match answer {
            Err(e) => {
                self.phase = Phase::Ended;
                Action::Fail(e)
            },
            Ok(n) => {
                self.counts.layer_done(n);
                self.proceed(cancelled)
            },
        }
    }

    /// Takes the vertices whose virtual dependencies changed in the pass: they are evaluated once
    /// more, in at most five further passes.
    pub fn compared(&mut self, changed: Vec<VertexId>) -> (action: Action)
        requires
            old(self).wf(),
            old(self)@.phase == Phase::Comparing,
            old(self)@.counts.telemetry matches Some(t) ==> t.changed_vdeps_total + changed@.len()
                <= usize::MAX,
        ensures
            final(self).wf(),
            final(self)@.is_closer_than(old(self)@),
            settles(old(self)@, changed@, action, final(self)@),
    {
        let again = self.counts.close_pass(changed.len());
        self.phase = if again {
            Phase::Asking
        } else {
            Phase::Ended
        };
        Action::Settle { clean: copy_ids(&self.work), dirty: changed, again }
    }

    /// The counts of the evaluation.
    pub fn counts(&self) -> (c: RecalcLoop)
        ensures
            c == self@.counts,
    {
        self.counts
    }

    /// The telemetry of the evaluation, where it is kept.
    pub fn take_telemetry(&self) -> (r: Option<VirtualDepTelemetry>)
        ensures
            r == closed_telemetry(self@.counts),
    {
        self.counts.take_telemetry()
    }

    fn proceed(&mut self, cancelled: bool) -> (action: Action)
        requires
            old(self).wf(),
            old(self).walk is Some,
        ensures
            final(self).wf(),
            goes_on(old(self)@, cancelled, action, final(self)@),
    {
        let ghost v = self@;
        let mut walk = match self.walk.take() {
            Some(w) => w,
            None => {
                return Action::Finish;
            },
        };
        let ghost w0 = walk@;
        proof {
            walk.lemma_ahead();
        }
        let step = walk.advance(cancelled);
        let action = match step {
            WalkStep::Done => {
                if self.scope == Scope::Everything {
                    self.phase = Phase::Comparing;
                    Action::Compare
                } else {
                    self.phase = Phase::Ended;
                    Action::Settle {
                        clean: copy_ids(&self.work),
                        dirty: Vec::new(),
                        again: false,
                    }
                }
            },
            WalkStep::Cancelled(e) => {
                self.phase = Phase::Ended;
                self.counts.cancelled_in_walk(UnitKind::Layer);
                Action::Fail(e)
            },
            WalkStep::Cycle(i) => {
                assert(w0.schedule.units[w0.ahead[0]] == ScheduleUnit::Cycle(i));
                self.phase = Phase::InCycle;
                Action::Cycle(copy_ids(walk.cycle(i)))
            },
            WalkStep::Layer { vertices, parallel } => {
                self.phase = Phase::InLayer;
                Action::Layer { vertices, parallel }
            },
        };
        self.walk = Some(walk);
        action
    }
}

/// The counts once a pass is over.
pub open spec fn closed_pass(c: RecalcLoop, changed: usize) -> RecalcLoop {
    let counted = match c.telemetry {
        Some(t) => Some(
            VirtualDepTelemetry {
                changed_vdeps_total: (t.changed_vdeps_total + changed) as usize,
                ..t
            },
        ),
        None => None,
    };
    if changed == 0 {
        RecalcLoop { telemetry: with_reason(counted, "converged"), ..c }
    } else if c.replan_iterations >= MAX_REPLAN {
        RecalcLoop { telemetry: with_reason(counted, "max_replan"), ..c }
    } else {
        RecalcLoop {
            telemetry: counted,
            replan_iterations: (c.replan_iterations + 1) as usize,
            ..c
        }
    }
}

/// What is out of date once a pass has settled: what was and was not evaluated, and what changed.
pub proof fn settled_vertices_are_up_to_date(out_of_date: Set<u32>, clean: Seq<u32>, dirty: Seq<u32>, v: u32)
    ensures
        marked(out_of_date, clean, dirty).contains(v) <==> (out_of_date.contains(v) && !clean.contains(v))
            || dirty.contains(v),
{
}

/// A pass ends once every unit was handled: an evaluation of everything then compares the dependencies
/// that are known only now, and any other settles what it was asked for.
pub proof fn a_pass_ends_with_its_units(v: EvaluationView, cancelled: bool, action: Action, after: EvaluationView)
    requires
        v.walk is Some,
        goes_on(v, cancelled, action, after),
    ensures
        v.walk->Some_0.ahead.len() == 0 && v.scope == Scope::Everything ==> action is Compare && after.phase
            == Phase::Comparing,
        v.walk->Some_0.ahead.len() == 0 && v.scope != Scope::Everything ==> (action matches Action::Settle {
            clean,
            dirty,
            again,
        } && clean@ == v.work && dirty@.len() == 0 && !again) && after.phase == Phase::Ended,
        v.walk->Some_0.ahead.len() > 0 && cancelled ==> (action matches Action::Fail(e) && e@.kind
            == ErrorKind::Cancelled) && after.phase == Phase::Ended,
        v.walk->Some_0.ahead.len() > 0 && !cancelled ==> (action is Cycle || action is Layer) && (
        after.walk matches Some(w) && w.ahead == v.walk->Some_0.ahead.drop_first() && w.schedule
            == v.walk->Some_0.schedule),
        v.walk->Some_0.ahead.len() > 0 && !cancelled
            && v.walk->Some_0.schedule.units[v.walk->Some_0.ahead[0]] is Cycle <==> action is Cycle,
        v.walk->Some_0.ahead.len() > 0 && !cancelled
            && v.walk->Some_0.schedule.units[v.walk->Some_0.ahead[0]] is Layer <==> action is Layer,
        after.work == v.work,
{
}

/// A pass with nothing to do ends the evaluation; any other schedules exactly what it was given.
pub proof fn passes_schedule_what_is_out_of_date(
    v: EvaluationView,
    vertices: Seq<u32>,
    cancelled: bool,
    action: Action,
    after: EvaluationView,
)
    requires
        takes_work(v, vertices, cancelled, action, after),
    ensures
        cancelled ==> (action matches Action::Fail(e) && e@.kind == ErrorKind::Cancelled) && after.phase
            == Phase::Ended,
        !cancelled && vertices.len() == 0 ==> action is Finish && after.phase == Phase::Ended,
        !cancelled && vertices.len() > 0 ==> (action matches Action::Schedule(list) && list@ == vertices)
            && after.phase == Phase::Scheduling && after.work == vertices,
        after.counts.computed_vertices == v.counts.computed_vertices,
        after.counts.cycle_errors == v.counts.cycle_errors,
{
}

/// A pass is run again only where dependencies changed, and not more than five times.
pub proof fn changed_dependencies_are_planned_anew(
    v: EvaluationView,
    changed: Seq<u32>,
    action: Action,
    after: EvaluationView,
)
    requires
        settles(v, changed, action, after),
        changed.len() <= usize::MAX,
    ensures
        action matches Action::Settle { clean, dirty, again } && clean@ == v.work && dirty@ == changed && (
        again <==> changed.len() > 0 && v.counts.replan_iterations < 5) && (again <==> after.phase
            == Phase::Asking) && (!again <==> after.phase == Phase::Ended) && (again
            ==> after.counts.replan_iterations == v.counts.replan_iterations + 1) && (!again
            ==> after.counts.replan_iterations == v.counts.replan_iterations),
        after.counts.telemetry is Some <==> v.counts.telemetry is Some,
        after.counts.telemetry matches Some(t) ==> {
            &&& changed.len() == 0 ==> t.bailout_reason == Some("converged")
            &&& changed.len() > 0 && v.counts.replan_iterations >= 5 ==> t.bailout_reason == Some(
                "max_replan",
            )
            &&& changed.len() > 0 && v.counts.replan_iterations < 5 ==> t.bailout_reason
                == v.counts.telemetry->Some_0.bailout_reason
        },
        after.counts.computed_vertices == v.counts.computed_vertices,
        after.counts.cycle_errors == v.counts.cycle_errors,
{
}

/// A layer counts its vertices as computed, and a cycle with stamped members counts as one error; a
/// cycle without counts as none.
pub proof fn layers_and_cycles_are_counted(v: EvaluationView, n: nat, stamped: usize)
    requires
        v.counts.computed_vertices + n <= usize::MAX,
        v.counts.cycle_errors < usize::MAX,
    ensures
        v.counting(n).counts.computed_vertices == v.counts.computed_vertices + n,
        v.counting(n).counts.cycle_errors == v.counts.cycle_errors,
        stamped > 0 ==> v.erring(stamped).counts.cycle_errors == v.counts.cycle_errors + 1,
        stamped == 0 ==> v.erring(stamped).counts.cycle_errors == v.counts.cycle_errors,
        v.erring(stamped).counts.computed_vertices == v.counts.computed_vertices,
        v.counting(n).work == v.work,
        v.counting(n).walk == v.walk,
        v.counting(n).phase == v.phase,
{
}

} // verus!
