//! The walk over the units of a schedule: cycles at their place, layers one by one or in parallel,
//! cancellation between units.
use crate::coord::VertexId;
use crate::recalc::{UnitKind, UnitStep, unit_step, walk_cancelled};
use crate::schedule::{Schedule, ScheduleUnit, ScheduleView, copy_ids, dirty_layer, dirty_part};
use crate::value::ExcelError;
use rustc_hash::FxHashSet;
use vstd::prelude::*;

verus! {

/// Whether every unit names a cycle or a layer of the schedule.
pub open spec fn is_closed(s: ScheduleView) -> bool {
    forall|u: int|
        0 <= u < s.units.len() ==> (match #[trigger] s.units[u] {
            ScheduleUnit::Cycle(i) => i < s.cycles.len(),
            ScheduleUnit::Layer(i) => i < s.layers.len(),
        })
}

/// The vertices of a layer that are evaluated: all, or the dirty ones where a kept plan is replayed.
pub open spec fn layer_work(s: ScheduleView, dirty: Option<Set<u32>>, layer: int) -> Seq<u32> {
    match dirty {
        Some(d) => dirty_part(s.layers[layer], d),
        None => s.layers[layer],
    }
}

/// Whether there is something to do at the unit: a layer of a replayed plan without a dirty vertex is
/// passed over.
pub open spec fn is_due(s: ScheduleView, dirty: Option<Set<u32>>, u: int) -> bool {
    match s.units[u] {
        ScheduleUnit::Cycle(_) => true,
        ScheduleUnit::Layer(i) => dirty is None || layer_work(s, dirty, i as int).len() > 0,
    }
}

/// The units from number `from` on at which there is something to do, in order.
pub open spec fn due_units(s: ScheduleView, dirty: Option<Set<u32>>, from: int) -> Seq<int>
    decreases s.units.len() - from,
{
    if from >= s.units.len() {
        Seq::empty()
    } else if is_due(s, dirty, from) {
        seq![from] + due_units(s, dirty, from + 1)
    } else {
        due_units(s, dirty, from + 1)
    }
}

/// What is done next in a walk.
#[derive(Debug)]
pub enum WalkStep {
    /// This cycle is handled.
    Cycle(usize),
    /// These vertices are evaluated, in parallel or one by one.
    Layer { vertices: Vec<VertexId>, parallel: bool },
    /// The walk is cancelled.
    Cancelled(ExcelError),
    /// Every unit was handled.
    Done,
}

/// A walk over the units of a schedule.
#[derive(Debug)]
pub struct UnitWalk {
    schedule: Schedule,
    dirty: Option<FxHashSet<u32>>,
    has_pool: bool,
    demand_driven: bool,
    next: usize,
}

/// The model of a [`UnitWalk`].
pub struct WalkView {
    pub schedule: ScheduleView,
    pub dirty: Option<Set<u32>>,
    pub has_pool: bool,
    pub demand_driven: bool,
    /// The units that are still to be handled.
    pub ahead: Seq<int>,
}

/// The kind of a unit.
pub open spec fn kind_of(u: ScheduleUnit) -> UnitKind {
    match u {
        ScheduleUnit::Cycle(_) => UnitKind::Cycle,
        ScheduleUnit::Layer(_) => UnitKind::Layer,
    }
}

/// Whether the step handles the unit.
pub open spec fn handles(v: WalkView, u: int, step: WalkStep) -> bool {
    match v.schedule.units[u] {
        ScheduleUnit::Cycle(i) => step == WalkStep::Cycle(i),
        ScheduleUnit::Layer(i) => step matches WalkStep::Layer { vertices, parallel } && vertices@
            == layer_work(v.schedule, v.dirty, i as int) && parallel == (v.has_pool && vertices@.len()
            > 1),
    }
}

impl UnitWalk {
    pub closed spec fn view(&self) -> WalkView {
        let dirty = match self.dirty {
            Some(d) => Some(d@),
            None => None,
        };
        WalkView {
            schedule: self.schedule@,
            dirty,
            has_pool: self.has_pool,
            demand_driven: self.demand_driven,
            ahead: due_units(self.schedule@, dirty, self.next as int),
        }
    }

    pub closed spec fn wf(&self) -> bool {
        is_closed(self.schedule@) && self.next <= self.schedule.units@.len()
    }

    /// The units ahead are units of the schedule.
    pub proof fn lemma_ahead(&self)
        requires
            self.wf(),
        ensures
            is_closed(self@.schedule),
            forall|i: int|
                0 <= i < self@.ahead.len() ==> 0 <= #[trigger] self@.ahead[i]
                    < self@.schedule.units.len(),
    {
        let v = self@;
        units_are_handled_once_and_in_order(v.schedule, v.dirty, self.next as int);
        assert forall|i: int| 0 <= i < v.ahead.len() implies 0 <= #[trigger] v.ahead[i]
            < v.schedule.units.len() by {
            assert(v.ahead.contains(v.ahead[i]));
        }
    }

    /// The model of a walk before its first unit.
    pub open spec fn begun(
        schedule: ScheduleView,
        dirty: Option<Set<u32>>,
        has_pool: bool,
        demand_driven: bool,
    ) -> WalkView {
        WalkView {
            schedule,
            dirty,
            has_pool,
            demand_driven,
            ahead: due_units(schedule, dirty, 0),
        }
    }

    /// Begins a walk. `dirty` is given where a kept plan is replayed: only its dirty vertices are
    /// evaluated then.
    pub fn new(
        schedule: Schedule,
        dirty: Option<FxHashSet<u32>>,
        has_pool: bool,
        demand_driven: bool,
    ) -> (w: UnitWalk)
        requires
            is_closed(schedule@),
        ensures
            w.wf(),
            w@ == Self::begun(
                schedule@,
                match dirty {
                    Some(d) => Some(d@),
                    None => None,
                },
                has_pool,
                demand_driven,
            ),
    {
        UnitWalk { schedule, dirty, has_pool, demand_driven, next: 0 }
    }

    /// The vertices of a cycle.
    pub fn cycle(&self, i: usize) -> (members: &Vec<VertexId>)
        requires
            i < self@.schedule.cycles.len(),
        ensures
            members@ == self@.schedule.cycles[i as int],
    {
        &self.schedule.cycles[i]
    }

    /// Decides what is done next: the first unit ahead is handled, unless the walk is cancelled
    /// before.
    pub fn advance(&mut self, cancelled: bool) -> (step: WalkStep)
        requires
            old(self).wf(),
        ensures
            final(self).wf(),
            final(self)@.schedule == old(self)@.schedule,
            final(self)@.dirty == old(self)@.dirty,
            final(self)@.has_pool == old(self)@.has_pool,
            final(self)@.demand_driven == old(self)@.demand_driven,
            ({
                let ahead = old(self)@.ahead;
                if ahead.len() == 0 {
                    step is Done && final(self)@.ahead == ahead
                } else if cancelled {
                    &&& step matches WalkStep::Cancelled(e) && e@ == walk_cancelled(
                        kind_of(old(self)@.schedule.units[ahead[0]]),
                        old(self)@.demand_driven,
                    )
                    &&& final(self)@.ahead == ahead
                } else {
                    &&& handles(old(self)@, ahead[0], step)
                    &&& final(self)@.ahead == ahead.drop_first()
                }
            }),
    {
        let ghost v0 = self@;
        while self.next < self.schedule.units.len()
            invariant
                self.wf(),
                self@ == v0,
                v0 == old(self)@,
            decreases self.schedule.units@.len() - self.next,
        {
            let u: usize = self.next;
            let unit = self.schedule.units[u];
            assert(self.schedule@.units[u as int] == unit);
            match unit {
                ScheduleUnit::Cycle(i) => {
                    proof {
                        assert(v0.ahead[0] == u);
                        assert(v0.ahead.drop_first() =~= due_units(v0.schedule, v0.dirty, u + 1));
                    }
                    return match unit_step(
                        UnitKind::Cycle,
                        0,
                        self.has_pool,
                        cancelled,
                        self.demand_driven,
                    ) {
                        UnitStep::Cancelled(e) => WalkStep::Cancelled(e),
                        _ => {
                            self.next = u + 1;
                            WalkStep::Cycle(i)
                        },
                    };
                },
                ScheduleUnit::Layer(i) => {
                    assert(self.schedule@.layers[i as int] == self.schedule.layers@[i as int].vertices@);
                    let vertices = match &self.dirty {
                        Some(d) => dirty_layer(&self.schedule.layers[i], d).vertices,
                        None => copy_ids(&self.schedule.layers[i].vertices),
                    };
                    if self.dirty.is_none() || vertices.len() > 0 {
                        proof {
                            assert(v0.ahead[0] == u);
                            assert(v0.ahead.drop_first() =~= due_units(v0.schedule, v0.dirty, u + 1));
                        }
                        return match unit_step(
                            UnitKind::Layer,
                            vertices.len(),
                            self.has_pool,
                            cancelled,
                            self.demand_driven,
                        ) {
                            UnitStep::Cancelled(e) => WalkStep::Cancelled(e),
                            UnitStep::LayerParallel => {
                                self.next = u + 1;
                                WalkStep::Layer { vertices, parallel: true }
                            },
                            _ => {
                                self.next = u + 1;
                                WalkStep::Layer { vertices, parallel: false }
                            },
                        };
                    }
                    self.next = u + 1;
                },
            }
        }
        WalkStep::Done
    }
}

/// A walk handles every unit at which there is something to do, each once and in the order of the
/// schedule.
pub proof fn units_are_handled_once_and_in_order(s: ScheduleView, dirty: Option<Set<u32>>, from: int)
    requires
        0 <= from,
    ensures
        forall|u: int|
            #[trigger] due_units(s, dirty, from).contains(u) <==> from <= u < s.units.len() && is_due(
                s,
                dirty,
                u,
            ),
        forall|i: int, j: int|
            0 <= i < j < due_units(s, dirty, from).len() ==> (#[trigger] due_units(
                s,
                dirty,
                from,
            )[i]) < (#[trigger] due_units(s, dirty, from)[j]),
    decreases s.units.len() - from,
{
    let all = due_units(s, dirty, from);
    if from < s.units.len() {
        units_are_handled_once_and_in_order(s, dirty, from + 1);
        let rest = due_units(s, dirty, from + 1);
        if is_due(s, dirty, from) {
            assert(all[0] == from);
            assert(forall|k: int| 0 <= k < rest.len() ==> all[k + 1] == #[trigger] rest[k]);
            assert forall|u: int| #[trigger] all.contains(u) <==> from <= u < s.units.len() && is_due(
                s,
                dirty,
                u,
            ) by {
                if all.contains(u) {
                    let k = choose|k: int| 0 <= k < all.len() && all[k] == u;
                    if k > 0 {
                        assert(rest[k - 1] == u);
                        assert(rest.contains(u));
                    }
                }
                if from < u && rest.contains(u) {
                    let k = choose|k: int| 0 <= k < rest.len() && rest[k] == u;
                    assert(all[k + 1] == u);
                }
            }
            assert forall|i: int, j: int| 0 <= i < j < all.len() implies (#[trigger] all[i]) < (
            #[trigger] all[j]) by {
                assert(rest[j - 1] == all[j]);
                assert(rest.contains(all[j]));
                if i > 0 {
                    assert(rest[i - 1] == all[i]);
                }
            }
        }
    }
}

/// The vertices that are evaluated in layers at the given units, in order.
pub open spec fn work_of(s: ScheduleView, dirty: Option<Set<u32>>, units: Seq<int>) -> Seq<u32>
    decreases units.len(),
{
    if units.len() == 0 {
        Seq::empty()
    } else {
        let rest = work_of(s, dirty, units.drop_first());
        match s.units[units[0]] {
            ScheduleUnit::Cycle(_) => rest,
            ScheduleUnit::Layer(i) => layer_work(s, dirty, i as int) + rest,
        }
    }
}

/// The vertices that a walk over the whole schedule evaluates in layers, in order.
pub open spec fn walked(s: ScheduleView, dirty: Option<Set<u32>>) -> Seq<u32> {
    work_of(s, dirty, due_units(s, dirty, 0))
}

proof fn lemma_dirty_part_joined(a: Seq<u32>, b: Seq<u32>, dirty: Set<u32>)
    ensures
        dirty_part(a + b, dirty) == dirty_part(a, dirty) + dirty_part(b, dirty),
    decreases b.len(),
{
    if b.len() == 0 {
        assert(a + b =~= a);
        assert(dirty_part(a, dirty) + dirty_part(b, dirty) =~= dirty_part(a, dirty));
    } else {
        lemma_dirty_part_joined(a, b.drop_last(), dirty);
        assert((a + b).drop_last() =~= a + b.drop_last());
        assert((a + b).last() == b.last());
        assert(dirty_part(a + b, dirty) =~= dirty_part(a, dirty) + dirty_part(b, dirty));
    }
}

/// The dirty ones of a list are those of its vertices that are dirty, in its order.
proof fn lemma_dirty_part(ids: Seq<u32>, dirty: Set<u32>)
    ensures
        forall|v: u32| #[trigger]
            dirty_part(ids, dirty).contains(v) <==> ids.contains(v) && dirty.contains(v),
        ids.no_duplicates() ==> dirty_part(ids, dirty).no_duplicates(),
    decreases ids.len(),
{
    if ids.len() > 0 {
        let front = ids.drop_last();
        lemma_dirty_part(front, dirty);
        let rest = dirty_part(front, dirty);
        let all = dirty_part(ids, dirty);
        assert forall|v: u32| #[trigger] all.contains(v) <==> ids.contains(v) && dirty.contains(v) by {
            if ids.contains(v) {
                let i = choose|i: int| 0 <= i < ids.len() && ids[i] == v;
                if i < front.len() {
                    assert(front[i] == v);
                }
            }
            if front.contains(v) {
                let i = choose|i: int| 0 <= i < front.len() && front[i] == v;
                assert(ids[i] == v);
            }
            if all.contains(v) && dirty.contains(ids.last()) {
                let i = choose|i: int| 0 <= i < all.len() && all[i] == v;
                if i < rest.len() {
                    assert(rest[i] == v);
                } else {
                    assert(ids[ids.len() - 1] == v);
                }
            }
            if rest.contains(v) && dirty.contains(ids.last()) {
                let i = choose|i: int| 0 <= i < rest.len() && rest[i] == v;
                assert(all[i] == v);
            }
            if v == ids.last() && dirty.contains(v) {
                assert(all[all.len() - 1] == v);
            }
        }
        if ids.no_duplicates() {
            assert(front.no_duplicates());
            assert forall|i: int, j: int| 0 <= i < all.len() && 0 <= j < all.len() && i != j implies all[i]
                != all[j] by {
                if dirty.contains(ids.last()) {
                    let k = if i < j { i } else { j };
                    let l = if i < j { j } else { i };
                    assert(all[k] == rest[k]);
                    if l < rest.len() {
                        assert(all[l] == rest[l]);
                    } else {
                        assert(rest.contains(rest[k]));
                        assert(front.contains(rest[k]));
                        let m = choose|m: int| 0 <= m < front.len() && front[m] == rest[k];
                        assert(ids[m] != ids[ids.len() - 1]);
                    }
                }
            }
        }
    }
}

proof fn lemma_walked(s: ScheduleView, dirty: Set<u32>, from: int)
    requires
        0 <= from,
    ensures
        work_of(s, Some(dirty), due_units(s, Some(dirty), from)) == dirty_part(
            work_of(s, None, due_units(s, None, from)),
            dirty,
        ),
    decreases s.units.len() - from,
{
    if from < s.units.len() {
        lemma_walked(s, dirty, from + 1);
        let some = due_units(s, Some(dirty), from);
        let all = due_units(s, None, from);
        assert(all.drop_first() =~= due_units(s, None, from + 1));
        if is_due(s, Some(dirty), from) {
            assert(some.drop_first() =~= due_units(s, Some(dirty), from + 1));
        }
        if let ScheduleUnit::Layer(i) = s.units[from] {
            let rest = work_of(s, None, due_units(s, None, from + 1));
            lemma_dirty_part_joined(s.layers[i as int], rest, dirty);
            if !is_due(s, Some(dirty), from) {
                assert(dirty_part(s.layers[i as int], dirty) + dirty_part(rest, dirty)
                    =~= dirty_part(rest, dirty));
            }
        }
    }
}

/// A replayed plan evaluates the dirty vertices of its schedule and no others, each once where the
/// schedule has it once, and in the order in which a walk over the whole schedule comes to them.
/// Without dirty vertices it evaluates nothing.
pub proof fn a_replayed_plan_evaluates_the_dirty_vertices(s: ScheduleView, dirty: Set<u32>)
    ensures
        walked(s, Some(dirty)) == dirty_part(walked(s, None), dirty),
        forall|v: u32| #[trigger]
            walked(s, Some(dirty)).contains(v) <==> walked(s, None).contains(v) && dirty.contains(
                v,
            ),
        walked(s, None).no_duplicates() ==> walked(s, Some(dirty)).no_duplicates(),
        dirty == Set::<u32>::empty() ==> walked(s, Some(dirty)).len() == 0,
{
    lemma_walked(s, dirty, 0);
    lemma_dirty_part(walked(s, None), dirty);
    if dirty == Set::<u32>::empty() && walked(s, Some(dirty)).len() > 0 {
        let v = walked(s, Some(dirty))[0];
        assert(walked(s, Some(dirty)).contains(v));
    }
}

/// A unit is passed over only where it is a layer of a replayed plan none of whose vertices is dirty;
/// what is evaluated of a layer are its dirty vertices, or all of them where no plan is replayed.
pub proof fn layers_are_passed_over_only_where_nothing_is_dirty(
    s: ScheduleView,
    dirty: Option<Set<u32>>,
    u: int,
    v: u32,
)
    requires
        0 <= u < s.units.len(),
        is_closed(s),
    ensures
        s.units[u] is Cycle ==> is_due(s, dirty, u),
        dirty is None ==> is_due(s, dirty, u),
        s.units[u] matches ScheduleUnit::Layer(i) ==> {
            &&& layer_work(s, dirty, i as int).contains(v) <==> s.layers[i as int].contains(v) && (dirty
                matches Some(d) ==> d.contains(v))
            &&& s.layers[i as int].contains(v) && (dirty matches Some(d) ==> d.contains(v)) ==> is_due(
                s,
                dirty,
                u,
            )
            &&& dirty is None ==> layer_work(s, dirty, i as int) == s.layers[i as int]
        },
{
    if let ScheduleUnit::Layer(i) = s.units[u] {
        if let Some(d) = dirty {
            lemma_dirty_part(s.layers[i as int], d);
            assert(dirty_part(s.layers[i as int], d).contains(v) <==> s.layers[i as int].contains(v)
                && d.contains(v));
            if dirty_part(s.layers[i as int], d).contains(v) {
                assert(dirty_part(s.layers[i as int], d).len() > 0);
            }
        }
    }
}

/// A layer is handed to the pool only where there is one and more than one vertex; a cycle is handled
/// as the cycle that the unit names.
pub proof fn units_are_handled_as_what_they_are(v: WalkView, u: int, step: WalkStep)
    requires
        0 <= u < v.schedule.units.len(),
        handles(v, u, step),
    ensures
        v.schedule.units[u] matches ScheduleUnit::Cycle(i) ==> step == WalkStep::Cycle(i),
        v.schedule.units[u] is Layer ==> (step matches WalkStep::Layer { vertices, parallel } && (parallel
            <==> v.has_pool && vertices@.len() >= 2)),
{
}

} // verus!
