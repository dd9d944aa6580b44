//! Schedules: their units, the cache of static ones, replayed plans and previews.
use crate::coord::VertexId;
use crate::demand::VirtualDeps;
use crate::fx::{map_get, map_insert, set_contains};
use crate::sort::{is_ascending, sorted_distinct};
use crate::telemetry::ScheduleBuildMeta;
use crate::text::{address, cell_address};
use crate::value::{ErrorKind, ExcelError, error_with};
use rustc_hash::{FxHashMap, FxHashSet};
use vstd::prelude::*;

verus! {

/// A step of a schedule: the cycle or the layer with the given number.
#[derive(Clone, Copy, Debug, PartialEq, Eq, Structural)]
pub enum ScheduleUnit {
    Cycle(usize),
    Layer(usize),
}

/// Vertices without dependencies among each other.
#[derive(Debug)]
pub struct Layer {
    pub vertices: Vec<VertexId>,
}

/// A schedule: its cycles and layers, and the order in which they are worked off.
#[derive(Debug)]
pub struct Schedule {
    pub units: Vec<ScheduleUnit>,
    pub layers: Vec<Layer>,
    pub cycles: Vec<Vec<VertexId>>,
}

/// The model of a [`Schedule`].
#[verifier::ext_equal]
pub struct ScheduleView {
    pub units: Seq<ScheduleUnit>,
    pub layers: Seq<Seq<VertexId>>,
    pub cycles: Seq<Seq<VertexId>>,
}

impl View for Schedule {
    type V = ScheduleView;

    open spec fn view(&self) -> ScheduleView {
        ScheduleView {
            units: self.units@,
            layers: Seq::new(self.layers@.len(), |i: int| self.layers@[i].vertices@),
            cycles: Seq::new(self.cycles@.len(), |i: int| self.cycles@[i]@),
        }
    }
}

pub(crate) fn copy_ids(ids: &Vec<VertexId>) -> (r: Vec<VertexId>)
    ensures
        r@ == ids@,
{
    let mut out: Vec<VertexId> = Vec::new();
    let mut i: usize = 0;
    while i < ids.len()
        invariant
            i <= ids@.len(),
            out@ == ids@.take(i as int),
        decreases ids@.len() - i,
    {
        out.push(ids[i]);
        assert(out@ =~= ids@.take(i + 1));
        i = i + 1;
    }
    assert(ids@.take(i as int) =~= ids@);
    out
}

fn same_ids(a: &Vec<VertexId>, b: &Vec<VertexId>) -> (r: bool)
    ensures
        r == (a@ == b@),
{
    if a.len() != b.len() {
        return false;
    }
    let mut i: usize = 0;
    while i < a.len()
        invariant
            a@.len() == b@.len(),
            i <= a@.len(),
            forall|k: int| 0 <= k < i ==> #[trigger] a@[k] == b@[k],
        decreases a@.len() - i,
    {
        if a[i] != b[i] {
            return false;
        }
        i = i + 1;
    }
    assert(a@ =~= b@);
    true
}

impl Schedule {
    pub fn empty() -> (s: Schedule)
        ensures
            s@ == (ScheduleView {
                units: Seq::empty(),
                layers: Seq::empty(),
                cycles: Seq::empty(),
            }),
    {
        let s = Schedule { units: Vec::new(), layers: Vec::new(), cycles: Vec::new() };
        assert(s@.layers =~= Seq::empty());
        assert(s@.cycles =~= Seq::empty());
        s
    }

    pub fn duplicate(&self) -> (r: Schedule)
        ensures
            r@ == self@,
    {
        let mut units: Vec<ScheduleUnit> = Vec::new();
        let mut i: usize = 0;
        while i < self.units.len()
            invariant
                i <= self.units@.len(),
                units@ == self.units@.take(i as int),
            decreases self.units@.len() - i,
        {
            units.push(self.units[i]);
            assert(units@ =~= self.units@.take(i + 1));
            i = i + 1;
        }
        assert(units@ =~= self.units@);
        let mut layers: Vec<Layer> = Vec::new();
        let mut j: usize = 0;
        while j < self.layers.len()
            invariant
                j <= self.layers@.len(),
                layers@.len() == j,
                forall|k: int|
                    0 <= k < j ==> (#[trigger] layers@[k]).vertices@ == self.layers@[k].vertices@,
            decreases self.layers@.len() - j,
        {
            layers.push(Layer { vertices: copy_ids(&self.layers[j].vertices) });
            j = j + 1;
        }
        let mut cycles: Vec<Vec<VertexId>> = Vec::new();
        let mut c: usize = 0;
        while c < self.cycles.len()
            invariant
                c <= self.cycles@.len(),
                cycles@.len() == c,
                forall|k: int| 0 <= k < c ==> (#[trigger] cycles@[k])@ == self.cycles@[k]@,
            decreases self.cycles@.len() - c,
        {
            cycles.push(copy_ids(&self.cycles[c]));
            c = c + 1;
        }
        let r = Schedule { units, layers, cycles };
        assert(r@.layers =~= self@.layers);
        assert(r@.cycles =~= self@.cycles);
        r
    }
}

/// A schedule that is replayed over several recalculations.
#[derive(Debug)]
pub struct RecalcPlan {
    schedule: Schedule,
    has_dynamic_refs: bool,
}

impl RecalcPlan {
    pub closed spec fn spec_schedule(&self) -> ScheduleView {
        self.schedule@
    }

    pub closed spec fn spec_dynamic(&self) -> bool {
        self.has_dynamic_refs
    }

    /// How many layers the plan has.
    pub fn layer_count(&self) -> (n: usize)
        ensures
            n == self.spec_schedule().layers.len(),
    {
        self.schedule.layers.len()
    }

    /// Whether a planned formula has dynamic references.
    pub fn has_dynamic_refs(&self) -> (b: bool)
        ensures
            b == self.spec_dynamic(),
    {
        self.has_dynamic_refs
    }

    pub fn schedule(&self) -> (s: &Schedule)
        ensures
            s@ == self.spec_schedule(),
    {
        &self.schedule
    }
}

/// The plan of a workbook whose formulas have the given dynamic flags: the schedule that was built
/// for them, and whether any of them is dynamic. Without formulas the plan is empty.
pub fn build_recalc_plan(dynamic: &Vec<bool>, schedule: Schedule) -> (plan: RecalcPlan)
    ensures
        plan.spec_dynamic() == dynamic@.contains(true),
        plan.spec_schedule() == (if dynamic@.len() == 0 {
            ScheduleView { units: Seq::empty(), layers: Seq::empty(), cycles: Seq::empty() }
        } else {
            schedule@
        }),
{
    if dynamic.len() == 0 {
        return RecalcPlan { schedule: Schedule::empty(), has_dynamic_refs: false };
    }
    let mut any = false;
    let mut i: usize = 0;
    while i < dynamic.len()
        invariant
            i <= dynamic@.len(),
            any == exists|k: int| 0 <= k < i && #[trigger] dynamic@[k],
        decreases dynamic@.len() - i,
    {
        if dynamic[i] {
            assert(dynamic@[i as int]);
            any = true;
        }
        i = i + 1;
    }
    proof {
        if any {
            let k = choose|k: int| 0 <= k < i && #[trigger] dynamic@[k];
            assert(dynamic@[k] == true);
        }
        if dynamic@.contains(true) {
            let k = choose|k: int| 0 <= k < dynamic@.len() && dynamic@[k] == true;
            assert(dynamic@[k]);
        }
    }
    RecalcPlan { schedule, has_dynamic_refs: any }
}

/// The dirty ones of a list, in its order.
pub open spec fn dirty_part(ids: Seq<u32>, dirty: Set<u32>) -> Seq<u32>
    decreases ids.len(),
{
    if ids.len() == 0 {
        Seq::empty()
    } else if dirty.contains(ids.last()) {
        dirty_part(ids.drop_last(), dirty).push(ids.last())
    } else {
        dirty_part(ids.drop_last(), dirty)
    }
}

/// The part of a layer that a replayed plan evaluates.
pub fn dirty_layer(layer: &Layer, dirty: &FxHashSet<u32>) -> (r: Layer)
    ensures
        r.vertices@ == dirty_part(layer.vertices@, dirty@),
{
    let mut out: Vec<VertexId> = Vec::new();
    let mut i: usize = 0;
    while i < layer.vertices.len()
        invariant
            i <= layer.vertices@.len(),
            out@ == dirty_part(layer.vertices@.take(i as int), dirty@),
        decreases layer.vertices@.len() - i,
    {
        proof {
            assert(layer.vertices@.take(i + 1).drop_last() =~= layer.vertices@.take(i as int));
        }
        let v = layer.vertices[i];
        if set_contains(dirty, &v) {
            out.push(v);
        }
        i = i + 1;
    }
    assert(layer.vertices@.take(i as int) =~= layer.vertices@);
    Layer { vertices: out }
}

/// A vertex as far as the cache of static schedules reads it.
#[derive(Clone, Copy, Debug, PartialEq, Eq, Structural)]
pub struct CacheFacts {
    pub dynamic: bool,
    pub has_ranges: bool,
}

/// Whether the vertices have a schedule that depends on nothing but the topology.
pub open spec fn is_static(facts: Seq<CacheFacts>) -> bool {
    facts.len() > 0 && forall|i: int|
        0 <= i < facts.len() ==> !(#[trigger] facts[i]).dynamic && !facts[i].has_ranges
}

pub fn can_use_static_schedule_cache(facts: &Vec<CacheFacts>) -> (b: bool)
    ensures
        b == is_static(facts@),
{
    let mut i: usize = 0;
    while i < facts.len()
        invariant
            i <= facts@.len(),
            forall|k: int| 0 <= k < i ==> !(#[trigger] facts@[k]).dynamic && !facts@[k].has_ranges,
        decreases facts@.len() - i,
    {
        if facts[i].dynamic || facts[i].has_ranges {
            return false;
        }
        i = i + 1;
    }
    facts.len() > 0
}

/// A static schedule with the topology and the vertices it was built for.
#[derive(Debug)]
pub struct CachedScheduleEntry {
    pub topology_epoch: u64,
    pub candidate_vertices: Vec<VertexId>,
    pub schedule: Schedule,
}

/// The last static schedule.
#[derive(Debug)]
pub struct ScheduleCache {
    entry: Option<CachedScheduleEntry>,
}

/// What the cache holds.
#[verifier::ext_equal]
pub struct CacheView {
    pub topology_epoch: u64,
    pub candidates: Seq<VertexId>,
    pub schedule: ScheduleView,
}

/// The schedule that the cache has for the vertices: the kept one, where the vertices are static
/// and both they and the topology are those it was built for.
pub open spec fn cached_for(
    cache: Option<CacheView>,
    eligible: bool,
    topology_epoch: u64,
    candidates: Seq<VertexId>,
) -> Option<ScheduleView> {
    match cache {
        Some(c) if eligible && c.topology_epoch == topology_epoch && c.candidates == candidates
        => Some(c.schedule),
        _ => None,
    }
}

/// The cache once a schedule was built: it is kept where the vertices are static and turned out to
/// have no virtual dependencies.
pub open spec fn cache_after(
    cache: Option<CacheView>,
    eligible: bool,
    topology_epoch: u64,
    candidates: Seq<VertexId>,
    schedule: ScheduleView,
    vdeps_vertices: usize,
) -> Option<CacheView> {
    if eligible && vdeps_vertices == 0 {
        Some(CacheView { topology_epoch, candidates, schedule })
    } else {
        cache
    }
}

/// A schedule that was kept is found again for the same vertices until the topology changes, and
/// for no other vertices.
pub proof fn kept_schedules_are_found_until_the_topology_changes(
    cache: Option<CacheView>,
    topology_epoch: u64,
    candidates: Seq<VertexId>,
    schedule: ScheduleView,
    later_epoch: u64,
    asked: Seq<VertexId>,
)
    ensures
        cached_for(
            cache_after(cache, true, topology_epoch, candidates, schedule, 0),
            true,
            later_epoch,
            asked,
        ) == (if later_epoch == topology_epoch && asked == candidates {
            Some(schedule)
        } else {
            None
        }),
{
}

/// How a schedule that was just built is described.
pub open spec fn built_meta(
    candidates: usize,
    vdeps_vertices: usize,
    vdeps_edges: usize,
    elapsed_ms: u128,
    eligible: bool,
    telemetry: bool,
) -> ScheduleBuildMeta {
    ScheduleBuildMeta {
        candidate_vertices: candidates,
        vdeps_vertices,
        vdeps_edges: if telemetry {
            vdeps_edges
        } else {
            0
        },
        builder_elapsed_ms: if telemetry {
            elapsed_ms
        } else {
            0
        },
        used_virtual_schedule: vdeps_vertices > 0,
        schedule_cache_hit: false,
        schedule_cache_eligible: eligible,
    }
}

impl ScheduleCache {
    pub closed spec fn view(&self) -> Option<CacheView> {
        match self.entry {
            Some(e) => Some(
                CacheView {
                    topology_epoch: e.topology_epoch,
                    candidates: e.candidate_vertices@,
                    schedule: e.schedule@,
                },
            ),
            None => None,
        }
    }

    pub fn new() -> (c: ScheduleCache)
        ensures
            c@ is None,
    {
        ScheduleCache { entry: None }
    }

    pub fn clear(&mut self)
        ensures
            final(self)@ is None,
    {
        self.entry = None;
    }

    /// The cached schedule, where the vertices are static and both they and the topology are those
    /// it was built for.
    pub fn lookup(&self, eligible: bool, topology_epoch: u64, to_evaluate: &Vec<VertexId>) -> (r:
        Option<(Schedule, ScheduleBuildMeta)>)
        ensures
            match r {
                Some((s, meta)) => {
                    &&& cached_for(self@, eligible, topology_epoch, to_evaluate@) == Some(s@)
                    &&& meta == ScheduleBuildMeta {
                        candidate_vertices: to_evaluate@.len() as usize,
                        vdeps_vertices: 0,
                        vdeps_edges: 0,
                        builder_elapsed_ms: 0,
                        used_virtual_schedule: false,
                        schedule_cache_hit: true,
                        schedule_cache_eligible: true,
                    }
                },
                None => cached_for(self@, eligible, topology_epoch, to_evaluate@) is None,
            },
    {
        if !eligible {
            return None;
        }
        match &self.entry {
            Some(e) => {
                if e.topology_epoch == topology_epoch && same_ids(
                    &e.candidate_vertices,
                    to_evaluate,
                ) {
                    let meta = ScheduleBuildMeta {
                        candidate_vertices: to_evaluate.len(),
                        vdeps_vertices: 0,
                        vdeps_edges: 0,
                        builder_elapsed_ms: 0,
                        used_virtual_schedule: false,
                        schedule_cache_hit: true,
                        schedule_cache_eligible: true,
                    };
                    return Some((e.schedule.duplicate(), meta));
                }
                None
            },
            None => None,
        }
    }

    /// Takes over a schedule that was just built, and describes it. It is kept only where the
    /// vertices are static and turned out to have no virtual dependencies.
    pub fn built(
        &mut self,
        eligible: bool,
        telemetry: bool,
        topology_epoch: u64,
        to_evaluate: &Vec<VertexId>,
        schedule: &Schedule,
        vdeps_vertices: usize,
        vdeps_edges: usize,
        elapsed_ms: u128,
    ) -> (meta: ScheduleBuildMeta)
        ensures
            meta == built_meta(
                to_evaluate@.len() as usize,
                vdeps_vertices,
                vdeps_edges,
                elapsed_ms,
                eligible,
                telemetry,
            ),
            final(self)@ == cache_after(
                old(self)@,
                eligible,
                topology_epoch,
                to_evaluate@,
                schedule@,
                vdeps_vertices,
            ),
    {
        if eligible && vdeps_vertices == 0 {
            self.entry = Some(
                CachedScheduleEntry {
                    topology_epoch,
                    candidate_vertices: copy_ids(to_evaluate),
                    schedule: schedule.duplicate(),
                },
            );
        }
        ScheduleBuildMeta {
            candidate_vertices: to_evaluate.len(),
            vdeps_vertices,
            vdeps_edges: if telemetry {
                vdeps_edges
            } else {
                0
            },
            builder_elapsed_ms: if telemetry {
                elapsed_ms
            } else {
                0
            },
            used_virtual_schedule: vdeps_vertices > 0,
            schedule_cache_hit: false,
            schedule_cache_eligible: eligible,
        }
    }
}

/// What a schedule is built over: the candidates as they stand, or, where the virtual dependencies
/// bring in further vertices, all of them from the smallest to the largest, each once.
pub fn schedule_candidates(to_evaluate: &Vec<VertexId>, augmented: &Vec<VertexId>) -> (r: Vec<
    VertexId,
>)
    ensures
        augmented@.len() == 0 ==> r@ == to_evaluate@,
        augmented@.len() > 0 ==> is_ascending(r@, to_evaluate@.to_set().union(augmented@.to_set())),
{
    let mut all = copy_ids(to_evaluate);
    if augmented.len() == 0 {
        return all;
    }
    let mut extra = copy_ids(augmented);
    all.append(&mut extra);
    proof {
        let union = to_evaluate@.to_set().union(augmented@.to_set());
        assert(all@ =~= to_evaluate@ + augmented@);
        assert forall|v: u32| #[trigger] all@.to_set().contains(v) <==> union.contains(v) by {
            if to_evaluate@.contains(v) {
                let k = choose|k: int| 0 <= k < to_evaluate@.len() && to_evaluate@[k] == v;
                assert(all@[k] == v);
            }
            if augmented@.contains(v) {
                let k = choose|k: int| 0 <= k < augmented@.len() && augmented@[k] == v;
                assert(all@[to_evaluate@.len() + k] == v);
            }
            if all@.contains(v) {
                let k = choose|k: int| 0 <= k < all@.len() && all@[k] == v;
                if k < to_evaluate@.len() {
                    assert(to_evaluate@[k] == v);
                } else {
                    assert(augmented@[k - to_evaluate@.len()] == v);
                }
            }
        }
        assert(all@.to_set() =~= union);
    }
    sorted_distinct(&all)
}

/// The entry of the vertex.
pub open spec fn deps_of(entries: Seq<(VertexId, Vec<VertexId>)>, v: u32) -> Option<Seq<u32>>
    decreases entries.len(),
{
    if entries.len() == 0 {
        None
    } else if entries.last().0 == v {
        Some(entries.last().1@)
    } else {
        deps_of(entries.drop_last(), v)
    }
}

/// Whether no vertex has two entries.
pub open spec fn has_distinct_keys(entries: Seq<(VertexId, Vec<VertexId>)>) -> bool {
    forall|i: int, j: int|
        0 <= i < j < entries.len() ==> (#[trigger] entries[i]).0 != (#[trigger] entries[j]).0
}

proof fn lemma_deps_of(entries: Seq<(VertexId, Vec<VertexId>)>, v: u32)
    requires
        has_distinct_keys(entries),
    ensures
        forall|i: int|
            0 <= i < entries.len() && (#[trigger] entries[i]).0 == v ==> deps_of(entries, v)
                == Some(entries[i].1@),
        (forall|i: int| 0 <= i < entries.len() ==> (#[trigger] entries[i]).0 != v) ==> deps_of(
            entries,
            v,
        ) is None,
    decreases entries.len(),
{
    if entries.len() > 0 {
        let front = entries.drop_last();
        assert forall|i: int, j: int| 0 <= i < j < front.len() implies (#[trigger] front[i]).0 != (
        #[trigger] front[j]).0 by {
            assert(entries[i].0 != entries[j].0);
        }
        lemma_deps_of(front, v);
        assert forall|i: int|
            0 <= i < entries.len() && (#[trigger] entries[i]).0 == v implies deps_of(entries, v)
            == Some(entries[i].1@) by {
            if i < front.len() {
                assert(front[i] == entries[i]);
                assert(entries[i].0 != entries[entries.len() - 1].0);
            }
        }
        if forall|i: int| 0 <= i < entries.len() ==> (#[trigger] entries[i]).0 != v {
            assert(entries[entries.len() - 1].0 != v);
            assert forall|i: int| 0 <= i < front.len() implies (#[trigger] front[i]).0 != v by {
                assert(entries[i].0 != v);
            }
        }
    }
}

/// Where each key stands.
spec fn is_index(entries: Seq<(VertexId, Vec<VertexId>)>, n: int, index: Map<u32, usize>) -> bool {
    &&& forall|v: u32| #[trigger]
        index.contains_key(v) ==> index[v] < n && entries[index[v] as int].0 == v
    &&& forall|i: int| 0 <= i < n ==> index.contains_key((#[trigger] entries[i]).0)
}

fn index_entries(entries: &Vec<(VertexId, Vec<VertexId>)>) -> (index: FxHashMap<u32, usize>)
    ensures
        is_index(entries@, entries@.len() as int, index@),
{
    let mut index: FxHashMap<u32, usize> = FxHashMap::default();
    let mut i: usize = 0;
    while i < entries.len()
        invariant
            i <= entries@.len(),
            is_index(entries@, i as int, index@),
        decreases entries@.len() - i,
    {
        map_insert(&mut index, entries[i].0, i);
        i = i + 1;
    }
    index
}

/// The vertices whose virtual dependencies differ between two builds, each once. Without dynamic
/// vertices nothing can differ.
pub fn changed_virtual_dep_vertices(
    any_dynamic: bool,
    old_deps: &VirtualDeps,
    new_deps: &VirtualDeps,
) -> (r: Vec<VertexId>)
    requires
        has_distinct_keys(old_deps.entries@),
        has_distinct_keys(new_deps.entries@),
    ensures
        r@.no_duplicates(),
        forall|v: u32| #[trigger]
            r@.contains(v) <==> any_dynamic && deps_of(old_deps.entries@, v) != deps_of(
                new_deps.entries@,
                v,
            ),
{
    let mut changed: Vec<VertexId> = Vec::new();
    if !any_dynamic {
        return changed;
    }
    let ghost before = old_deps.entries@;
    let ghost after = new_deps.entries@;
    let old_index = index_entries(&old_deps.entries);
    let new_index = index_entries(&new_deps.entries);
    let mut i: usize = 0;
    while i < old_deps.entries.len()
        invariant
            i <= before.len(),
            before == old_deps.entries@,
            after == new_deps.entries@,
            has_distinct_keys(before),
            has_distinct_keys(after),
            is_index(after, after.len() as int, new_index@),
            changed@.no_duplicates(),
            forall|v: u32| #[trigger]
                changed@.contains(v) <==> (exists|k: int|
                    0 <= k < i && (#[trigger] before[k]).0 == v) && deps_of(before, v) != deps_of(
                    after,
                    v,
                ),
        decreases before.len() - i,
    {
        let v = old_deps.entries[i].0;
        let differs = match map_get(&new_index, &v) {
            Some(j) => !same_ids(&old_deps.entries[i].1, &new_deps.entries[*j].1),
            None => true,
        };
        let ghost prior = changed@;
        proof {
            lemma_deps_of(before, v);
            lemma_deps_of(after, v);
            assert(before[i as int].0 == v);
            assert(differs == (deps_of(before, v) != deps_of(after, v)));
            if prior.contains(v) {
                let k = choose|k: int| 0 <= k < i && (#[trigger] before[k]).0 == v;
                assert(before[k].0 != before[i as int].0);
            }
        }
        if differs {
            changed.push(v);
        }
        proof {
            assert forall|u: u32| #[trigger] changed@.contains(u) <==> (exists|k: int|
                0 <= k < i + 1 && (#[trigger] before[k]).0 == u) && deps_of(before, u) != deps_of(
                after,
                u,
            ) by {
                if prior.contains(u) {
                    let m = choose|m: int| 0 <= m < prior.len() && prior[m] == u;
                    assert(changed@[m] == u);
                    let k = choose|k: int| 0 <= k < i && (#[trigger] before[k]).0 == u;
                    assert(before[k].0 == u);
                }
                if u == v {
                    assert(before[i as int].0 == u);
                    if differs {
                        assert(changed@[prior.len() as int] == v);
                    }
                }
                if changed@.contains(u) && !prior.contains(u) {
                    let m = choose|m: int| 0 <= m < changed@.len() && changed@[m] == u;
                    if m < prior.len() {
                        assert(prior[m] == u);
                    }
                }
            }
        }
        i = i + 1;
    }
    let mut j: usize = 0;
    while j < new_deps.entries.len()
        invariant
            j <= after.len(),
            before == old_deps.entries@,
            after == new_deps.entries@,
            has_distinct_keys(before),
            has_distinct_keys(after),
            is_index(before, before.len() as int, old_index@),
            changed@.no_duplicates(),
            forall|v: u32| #[trigger]
                changed@.contains(v) <==> ((exists|k: int|
                    0 <= k < before.len() && (#[trigger] before[k]).0 == v) || (exists|k: int|
                    0 <= k < j && (#[trigger] after[k]).0 == v)) && deps_of(before, v) != deps_of(
                    after,
                    v,
                ),
        decreases after.len() - j,
    {
        let v = new_deps.entries[j].0;
        let fresh = map_get(&old_index, &v).is_none();
        let ghost prior = changed@;
        proof {
            lemma_deps_of(before, v);
            lemma_deps_of(after, v);
            assert(after[j as int].0 == v);
            if fresh {
                assert forall|k: int| 0 <= k < before.len() implies (#[trigger] before[k]).0
                    != v by {
                    assert(old_index@.contains_key(before[k].0));
                }
                if prior.contains(v) {
                    let k = choose|k: int| 0 <= k < j && (#[trigger] after[k]).0 == v;
                    assert(after[k].0 != after[j as int].0);
                }
            } else {
                assert(before[old_index@[v] as int].0 == v);
            }
        }
        if fresh {
            changed.push(v);
        }
        proof {
            assert forall|u: u32| #[trigger] changed@.contains(u) <==> ((exists|k: int|
                0 <= k < before.len() && (#[trigger] before[k]).0 == u) || (exists|k: int|
                0 <= k < j + 1 && (#[trigger] after[k]).0 == u)) && deps_of(before, u) != deps_of(
                after,
                u,
            ) by {
                if prior.contains(u) {
                    let m = choose|m: int| 0 <= m < prior.len() && prior[m] == u;
                    assert(changed@[m] == u);
                    if exists|k: int| 0 <= k < j && (#[trigger] after[k]).0 == u {
                        let k = choose|k: int| 0 <= k < j && (#[trigger] after[k]).0 == u;
                        assert(after[k].0 == u);
                    }
                }
                if u == v {
                    assert(after[j as int].0 == u);
                    if fresh {
                        assert(changed@[prior.len() as int] == v);
                    }
                }
                if changed@.contains(u) && !prior.contains(u) {
                    let m = choose|m: int| 0 <= m < changed@.len() && changed@[m] == u;
                    if m < prior.len() {
                        assert(prior[m] == u);
                    }
                }
            }
        }
        j = j + 1;
    }
    proof {
        assert forall|v: u32| #[trigger] changed@.contains(v) <==> deps_of(before, v) != deps_of(
            after,
            v,
        ) by {
            lemma_deps_of(before, v);
            lemma_deps_of(after, v);
        }
    }
    changed
}

/// One layer of a previewed evaluation.
#[derive(Debug)]
pub struct LayerInfo {
    pub vertex_count: usize,
    pub parallel_eligible: bool,
    /// The addresses of up to five cells of the layer.
    pub sample_cells: Vec<String>,
}

/// A preview of an evaluation.
#[derive(Debug)]
pub struct EvalPlan {
    pub total_vertices_to_evaluate: usize,
    pub layers: Vec<LayerInfo>,
    pub cycles_detected: usize,
    pub dirty_count: usize,
    pub volatile_count: usize,
    pub parallel_enabled: bool,
    pub estimated_parallel_layers: usize,
    pub target_cells: Vec<String>,
}

/// The characters of each text of a list.
pub open spec fn texts_view(texts: Seq<String>) -> Seq<Seq<char>> {
    Seq::new(texts.len(), |i: int| texts[i]@)
}

/// A cell by the name of its sheet and its zero-based row and column.
#[derive(Debug)]
pub struct NamedCell {
    pub sheet: String,
    pub row: u32,
    pub col: u32,
}

/// Whether all cells have one-based addresses.
pub open spec fn addressable(cells: Map<u32, NamedCell>) -> bool {
    forall|v: u32| #[trigger]
        cells.contains_key(v) ==> cells[v].row < u32::MAX && cells[v].col < u32::MAX
}

/// The addresses of those of the first `n` vertices that stand in a cell.
pub open spec fn samples(vertices: Seq<u32>, cells: Map<u32, NamedCell>, n: nat) -> Seq<Seq<char>>
    decreases n,
{
    if n == 0 {
        Seq::empty()
    } else {
        let front = samples(vertices, cells, (n - 1) as nat);
        let v = vertices[n - 1];
        if cells.contains_key(v) {
            front.push(
                address(
                    cells[v].sheet@,
                    (cells[v].row + 1) as u32,
                    (cells[v].col + 1) as u32,
                ),
            )
        } else {
            front
        }
    }
}

/// How many vertices of a layer are looked at for samples.
pub const SAMPLE_VERTICES: usize = 5;

/// Whether the description fits the layer.
pub open spec fn describes(
    info: LayerInfo,
    vertices: Seq<u32>,
    cells: Map<u32, NamedCell>,
    parallel_enabled: bool,
) -> bool {
    &&& info.vertex_count == vertices.len()
    &&& info.parallel_eligible == (parallel_enabled && vertices.len() > 1)
    &&& texts_view(info.sample_cells@) == samples(
        vertices,
        cells,
        if vertices.len() < SAMPLE_VERTICES {
            vertices.len()
        } else {
            SAMPLE_VERTICES as nat
        },
    )
}

fn describe_layer(layer: &Layer, cells: &FxHashMap<u32, NamedCell>, parallel_enabled: bool) -> (r:
    LayerInfo)
    requires
        addressable(cells@),
    ensures
        describes(r, layer.vertices@, cells@, parallel_enabled),
{
    let mut sample_cells: Vec<String> = Vec::new();
    let count: usize = if layer.vertices.len() < SAMPLE_VERTICES {
        layer.vertices.len()
    } else {
        SAMPLE_VERTICES
    };
    let mut i: usize = 0;
    assert(texts_view(sample_cells@) =~= samples(layer.vertices@, cells@, 0));
    while i < count
        invariant
            i <= count <= layer.vertices@.len(),
            addressable(cells@),
            texts_view(sample_cells@) == samples(layer.vertices@, cells@, i as nat),
        decreases count - i,
    {
        let v = layer.vertices[i];
        if let Some(cell) = map_get(cells, &v) {
            assert(cells@.contains_key(v));
            let text = cell_address(cell.sheet.as_str(), cell.row + 1, cell.col + 1);
            let ghost front = sample_cells@;
            sample_cells.push(text);
            assert(texts_view(sample_cells@) =~= texts_view(front).push(text@));
        }
        i = i + 1;
    }
    LayerInfo {
        vertex_count: layer.vertices.len(),
        parallel_eligible: parallel_enabled && layer.vertices.len() > 1,
        sample_cells,
    }
}

/// Whether a vertex that is to be evaluated is dirty and whether it is volatile.
#[derive(Clone, Copy, Debug, PartialEq, Eq, Structural)]
pub struct PrecedentFacts {
    pub dirty: bool,
    pub volatile: bool,
}

pub open spec fn dirty_count(facts: Seq<PrecedentFacts>) -> nat
    decreases facts.len(),
{
    if facts.len() == 0 {
        0
    } else {
        dirty_count(facts.drop_last()) + (if facts.last().dirty {
            1nat
        } else {
            0
        })
    }
}

pub open spec fn volatile_count(facts: Seq<PrecedentFacts>) -> nat
    decreases facts.len(),
{
    if facts.len() == 0 {
        0
    } else {
        volatile_count(facts.drop_last()) + (if facts.last().volatile {
            1nat
        } else {
            0
        })
    }
}

/// How many layers hold more than one vertex.
pub open spec fn wide_layers(layers: Seq<Layer>, n: nat) -> nat
    decreases n,
{
    if n == 0 {
        0
    } else {
        wide_layers(layers, (n - 1) as nat) + (if layers[n - 1].vertices@.len() > 1 {
            1nat
        } else {
            0
        })
    }
}

/// The addresses of the targets.
pub open spec fn target_addresses(targets: Seq<(String, u32, u32)>) -> Seq<Seq<char>> {
    Seq::new(targets.len(), |i: int| address(targets[i].0@, targets[i].1, targets[i].2))
}

fn list_targets(targets: &Vec<(String, u32, u32)>) -> (r: Vec<String>)
    ensures
        texts_view(r@) == target_addresses(targets@),
{
    let mut out: Vec<String> = Vec::new();
    let mut i: usize = 0;
    while i < targets.len()
        invariant
            i <= targets@.len(),
            out@.len() == i,
            forall|k: int|
                0 <= k < i ==> (#[trigger] out@[k])@ == address(
                    targets@[k].0@,
                    targets@[k].1,
                    targets@[k].2,
                ),
        decreases targets@.len() - i,
    {
        out.push(cell_address(targets[i].0.as_str(), targets[i].1, targets[i].2));
        i = i + 1;
    }
    assert(texts_view(out@) =~= target_addresses(targets@));
    out
}

/// Whether the plan says that there is nothing to evaluate.
pub open spec fn plans_nothing(p: EvalPlan, parallel_enabled: bool) -> bool {
    &&& p.total_vertices_to_evaluate == 0
    &&& p.layers@.len() == 0
    &&& p.cycles_detected == 0
    &&& p.dirty_count == 0
    &&& p.volatile_count == 0
    &&& p.parallel_enabled == parallel_enabled
    &&& p.estimated_parallel_layers == 0
}

/// The preview of an evaluation: nothing for no targets; an error while formulas are staged that
/// the graph does not know; nothing but the addresses where no target or no precedent is known;
/// and else the counts and the layers of the schedule.
pub fn get_eval_plan(
    targets: &Vec<(String, u32, u32)>,
    parallel_enabled: bool,
    staged_formulas_pending: bool,
    known_targets: usize,
    precedents: &Vec<PrecedentFacts>,
    schedule: &Schedule,
    cells: &FxHashMap<u32, NamedCell>,
) -> (r: Result<EvalPlan, ExcelError>)
    requires
        addressable(cells@),
        !staged_formulas_pending ==> forall|i: int|
            0 <= i < targets@.len() ==> (#[trigger] targets@[i]).2 >= 1,
    ensures
        match r {
            Err(e) => {
                &&& targets@.len() > 0 && staged_formulas_pending
                &&& e@ == error_with(
                    ErrorKind::Value,
                    "Evaluation plan requested with deferred graph; build first or call evaluate_*"@,
                )
            },
            Ok(p) => {
                &&& targets@.len() == 0 || !staged_formulas_pending
                &&& texts_view(p.target_cells@) == target_addresses(targets@)
                &&& if targets@.len() == 0 || known_targets == 0 || precedents@.len() == 0 {
                    plans_nothing(p, parallel_enabled)
                } else {
                    &&& p.total_vertices_to_evaluate == precedents@.len()
                    &&& p.cycles_detected == schedule.cycles@.len()
                    &&& p.dirty_count == dirty_count(precedents@)
                    &&& p.volatile_count == volatile_count(precedents@)
                    &&& p.parallel_enabled == parallel_enabled
                    &&& p.estimated_parallel_layers == (if parallel_enabled {
                        wide_layers(schedule.layers@, schedule.layers@.len())
                    } else {
                        0
                    })
                    &&& p.layers@.len() == schedule.layers@.len()
                    &&& forall|i: int|
                        0 <= i < p.layers@.len() ==> describes(
                            #[trigger] p.layers@[i],
                            schedule.layers@[i].vertices@,
                            cells@,
                            parallel_enabled,
                        )
                }
            },
        },
{
    if targets.len() > 0 && staged_formulas_pending {
        return Err(
            ExcelError::new(ErrorKind::Value).with_message(
                "Evaluation plan requested with deferred graph; build first or call evaluate_*",
            ),
        );
    }
    let target_cells = list_targets(targets);
    if targets.len() == 0 || known_targets == 0 || precedents.len() == 0 {
        return Ok(
            EvalPlan {
                total_vertices_to_evaluate: 0,
                layers: Vec::new(),
                cycles_detected: 0,
                dirty_count: 0,
                volatile_count: 0,
                parallel_enabled,
                estimated_parallel_layers: 0,
                target_cells,
            },
        );
    }
    let mut dirty: usize = 0;
    let mut volatile: usize = 0;
    let mut i: usize = 0;
    while i < precedents.len()
        invariant
            i <= precedents@.len(),
            dirty <= i,
            volatile <= i,
            dirty == dirty_count(precedents@.take(i as int)),
            volatile == volatile_count(precedents@.take(i as int)),
        decreases precedents@.len() - i,
    {
        assert(precedents@.take(i + 1).drop_last() =~= precedents@.take(i as int));
        if precedents[i].dirty {
            dirty = dirty + 1;
        }
        if precedents[i].volatile {
            volatile = volatile + 1;
        }
        i = i + 1;
    }
    assert(precedents@.take(i as int) =~= precedents@);
    let mut layers: Vec<LayerInfo> = Vec::new();
    let mut wide: usize = 0;
    let mut j: usize = 0;
    while j < schedule.layers.len()
        invariant
            j <= schedule.layers@.len(),
            addressable(cells@),
            layers@.len() == j,
            wide <= j,
            wide == (if parallel_enabled {
                wide_layers(schedule.layers@, j as nat)
            } else {
                0
            }),
            forall|k: int|
                0 <= k < j ==> describes(
                    #[trigger] layers@[k],
                    schedule.layers@[k].vertices@,
                    cells@,
                    parallel_enabled,
                ),
        decreases schedule.layers@.len() - j,
    {
        let layer = &schedule.layers[j];
        if parallel_enabled && layer.vertices.len() > 1 {
            wide = wide + 1;
        }
        layers.push(describe_layer(layer, cells, parallel_enabled));
        j = j + 1;
    }
    Ok(
        EvalPlan {
            total_vertices_to_evaluate: precedents.len(),
            layers,
            cycles_detected: schedule.cycles.len(),
            dirty_count: dirty,
            volatile_count: volatile,
            parallel_enabled,
            estimated_parallel_layers: wide,
            target_cells,
        },
    )
}

/// A schedule is kept only for candidates none of which reads ranges or refers to cells that are known
/// only at run time, and only where there is any.
pub proof fn only_static_candidates_are_kept(facts: Seq<CacheFacts>)
    ensures
        is_static(facts) <==> facts.len() > 0 && !exists|i: int|
            0 <= i < facts.len() && ((#[trigger] facts[i]).dynamic || facts[i].has_ranges),
{
}

/// A kept schedule is used only for the candidates and the topology that it was made for.
pub proof fn kept_schedules_fit_their_request(
    cache: Option<CacheView>,
    eligible: bool,
    topology_epoch: u64,
    candidates: Seq<VertexId>,
)
    ensures
        cached_for(cache, eligible, topology_epoch, candidates) matches Some(s) ==> eligible && cache is Some
            && cache->Some_0.topology_epoch == topology_epoch && cache->Some_0.candidates == candidates && s
            == cache->Some_0.schedule,
        eligible && cache is Some && cache->Some_0.topology_epoch == topology_epoch
            && cache->Some_0.candidates == candidates ==> cached_for(
            cache,
            eligible,
            topology_epoch,
            candidates,
        ) is Some,
{
}

/// A schedule with dependencies that are known only at run time is never kept, and what was kept stays.
pub proof fn schedules_with_virtual_dependencies_are_not_kept(
    cache: Option<CacheView>,
    eligible: bool,
    topology_epoch: u64,
    candidates: Seq<VertexId>,
    schedule: ScheduleView,
    vdeps: usize,
)
    ensures
        vdeps > 0 || !eligible ==> cache_after(cache, eligible, topology_epoch, candidates, schedule, vdeps)
            == cache,
        vdeps == 0 && eligible ==> (cache_after(
            cache,
            eligible,
            topology_epoch,
            candidates,
            schedule,
            vdeps,
        ) matches Some(c) && c.topology_epoch == topology_epoch && c.candidates == candidates && c.schedule
            == schedule),
{
}

/// What is said of a schedule that was built: the candidates, the vertices with dependencies at run
/// time and whether there are any; the edges and the time only where they are asked for.
pub proof fn built_schedules_say_what_they_hold(
    candidates: usize,
    vdeps_vertices: usize,
    vdeps_edges: usize,
    elapsed_ms: u128,
    eligible: bool,
    telemetry: bool,
)
    ensures
        ({
            let m = built_meta(candidates, vdeps_vertices, vdeps_edges, elapsed_ms, eligible, telemetry);
            &&& m.candidate_vertices == candidates && m.vdeps_vertices == vdeps_vertices
            &&& m.used_virtual_schedule <==> vdeps_vertices > 0
            &&& m.schedule_cache_eligible == eligible && !m.schedule_cache_hit
            &&& telemetry ==> m.vdeps_edges == vdeps_edges && m.builder_elapsed_ms == elapsed_ms
            &&& !telemetry ==> m.vdeps_edges == 0 && m.builder_elapsed_ms == 0
        }),
{
}

/// The dependencies of a vertex are those of its entry; without an entry there are none.
pub proof fn dependencies_are_those_of_the_entry(entries: Seq<(VertexId, Vec<VertexId>)>, i: int, v: u32)
    requires
        has_distinct_keys(entries),
    ensures
        0 <= i < entries.len() && entries[i].0 == v ==> deps_of(entries, v) == Some(entries[i].1@),
        (forall|k: int| 0 <= k < entries.len() ==> (#[trigger] entries[k]).0 != v) ==> deps_of(entries, v)
            is None,
    decreases entries.len(),
{
    if entries.len() > 0 {
        let front = entries.drop_last();
        assert(has_distinct_keys(front)) by {
            assert forall|a: int, b: int| 0 <= a < b < front.len() implies (#[trigger] front[a]).0 != (
            #[trigger] front[b]).0 by {
                assert(entries[a].0 != entries[b].0);
            }
        }
        dependencies_are_those_of_the_entry(front, i, v);
        if 0 <= i < front.len() && entries[i].0 == v {
            assert(entries[i].0 != entries[entries.len() - 1].0);
            assert(front[i] == entries[i]);
        }
        if forall|k: int| 0 <= k < entries.len() ==> (#[trigger] entries[k]).0 != v {
            assert(entries[entries.len() - 1].0 != v);
            assert forall|k: int| 0 <= k < front.len() implies (#[trigger] front[k]).0 != v by {
                assert(entries[k].0 != v);
            }
        }
    }
}

/// A layer is sampled by five addresses at most, or by one for each vertex where all stand in cells and
/// there are fewer. The first is that of the first vertex, where that stands in a cell: the sheet, the
/// column's letters and the row's number, counted from one.
pub proof fn a_layer_is_sampled_by_addresses(
    info: LayerInfo,
    vertices: Seq<u32>,
    cells: Map<u32, NamedCell>,
    parallel_enabled: bool,
)
    requires
        describes(info, vertices, cells, parallel_enabled),
        addressable(cells),
    ensures
        info.vertex_count == vertices.len(),
        info.parallel_eligible <==> parallel_enabled && vertices.len() >= 2,
        info.sample_cells@.len() <= 5,
        info.sample_cells@.len() <= vertices.len(),
        vertices.len() > 0 && cells.contains_key(vertices[0]) ==> info.sample_cells@.len() > 0
            && info.sample_cells@[0]@ == cells[vertices[0]].sheet@ + seq!['!'] + crate::text::column_letters(
            (cells[vertices[0]].col + 1) as nat,
        ) + crate::text::decimal((cells[vertices[0]].row + 1) as nat),
        (forall|i: int| 0 <= i < vertices.len() ==> cells.contains_key(#[trigger] vertices[i]))
            ==> info.sample_cells@.len() == (if vertices.len() < 5 {
            vertices.len()
        } else {
            5
        }),
{
    let n = if vertices.len() < SAMPLE_VERTICES {
        vertices.len()
    } else {
        SAMPLE_VERTICES as nat
    };
    lemma_samples(vertices, cells, n);
    assert(texts_view(info.sample_cells@).len() == info.sample_cells@.len());
    if vertices.len() > 0 && cells.contains_key(vertices[0]) {
        let c = cells[vertices[0]];
        assert(texts_view(info.sample_cells@)[0] == info.sample_cells@[0]@);
        assert(address(c.sheet@, (c.row + 1) as u32, (c.col + 1) as u32) =~= c.sheet@ + seq!['!']
            + crate::text::column_letters((c.col + 1) as nat) + crate::text::decimal((c.row + 1) as nat));
    }
}

proof fn lemma_samples(vertices: Seq<u32>, cells: Map<u32, NamedCell>, n: nat)
    requires
        n <= vertices.len(),
    ensures
        samples(vertices, cells, n).len() <= n,
        n > 0 && cells.contains_key(vertices[0]) ==> samples(vertices, cells, n).len() > 0 && samples(
            vertices,
            cells,
            n,
        )[0] == address(
            cells[vertices[0]].sheet@,
            (cells[vertices[0]].row + 1) as u32,
            (cells[vertices[0]].col + 1) as u32,
        ),
        (forall|i: int| 0 <= i < n ==> cells.contains_key(#[trigger] vertices[i])) ==> samples(
            vertices,
            cells,
            n,
        ).len() == n,
    decreases n,
{
    if n > 0 {
        lemma_samples(vertices, cells, (n - 1) as nat);
    }
}

/// What is counted of the vertices to evaluate: those that are dirty, those that are volatile, and the
/// layers of more than one vertex.
pub proof fn facts_are_counted_one_by_one(facts: Seq<PrecedentFacts>, layers: Seq<Layer>, n: nat)
    requires
        n <= layers.len(),
    ensures
        dirty_count(facts) == facts.filter(|f: PrecedentFacts| f.dirty).len(),
        volatile_count(facts) == facts.filter(|f: PrecedentFacts| f.volatile).len(),
        wide_layers(layers, n) == layers.take(n as int).filter(|l: Layer| l.vertices@.len() >= 2).len(),
    decreases facts.len() + n,
{
    reveal(Seq::filter);
    if facts.len() > 0 {
        facts_are_counted_one_by_one(facts.drop_last(), layers, n);
    }
    if n > 0 {
        facts_are_counted_one_by_one(facts, layers, (n - 1) as nat);
        let long = layers.take(n as int);
        assert(long.drop_last() =~= layers.take(n - 1));
        assert(long.last() == layers[n - 1]);
    }
}

/// The targets of a plan are named by their addresses, and a plan of nothing counts nothing.
pub proof fn targets_are_named_by_their_addresses(targets: Seq<(String, u32, u32)>, i: int, p: EvalPlan, parallel: bool)
    ensures
        target_addresses(targets).len() == targets.len(),
        0 <= i < targets.len() ==> target_addresses(targets)[i] == targets[i].0@ + seq!['!']
            + crate::text::column_letters(targets[i].2 as nat) + crate::text::decimal(targets[i].1 as nat),
        plans_nothing(p, parallel) ==> p.total_vertices_to_evaluate == 0 && p.layers@.len() == 0
            && p.cycles_detected == 0 && p.dirty_count == 0 && p.volatile_count == 0
            && p.estimated_parallel_layers == 0,
{
    if 0 <= i < targets.len() {
        let t = targets[i];
        assert(target_addresses(targets)[i] =~= t.0@ + seq!['!'] + crate::text::column_letters(t.2 as nat)
            + crate::text::decimal(t.1 as nat));
    }
}

/// The dirty part of a list are its dirty vertices, in their order.
pub proof fn the_dirty_part_keeps_the_order(ids: Seq<u32>, dirty: Set<u32>)
    ensures
        dirty_part(ids, dirty) == ids.filter(|v: u32| dirty.contains(v)),
    decreases ids.len(),
{
    reveal(Seq::filter);
    if ids.len() > 0 {
        the_dirty_part_keeps_the_order(ids.drop_last(), dirty);
    }
}

} // verus!
