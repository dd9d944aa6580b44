//! Counters of evaluation requests.
use crate::number::is_nan;
use crate::scc_task::SccReport;
use std::time::Duration;
use vstd::prelude::*;

verus! {

/// What an evaluation request did.
#[derive(Clone, Copy, Debug)]
pub struct EvalResult {
    pub computed_vertices: usize,
    pub cycle_errors: usize,
    pub elapsed: Duration,
}

/// Counters for benchmarks. Collecting them changes nothing.
#[derive(Clone, Copy, Debug, PartialEq, Eq)]
pub struct EngineBaselineStats {
    pub graph_vertex_count: usize,
    pub graph_formula_vertex_count: usize,
    pub graph_edge_count: usize,
    pub dirty_vertex_count: usize,
    pub evaluation_vertex_count: usize,
    pub formula_ast_root_count: usize,
    pub formula_ast_node_count: usize,
    pub staged_formula_count: usize,
    pub formula_plane_active_span_count: usize,
    pub formula_plane_producer_result_entries: usize,
    pub formula_plane_consumer_read_entries: usize,
    /// Spans demoted because a member took part in a cycle.
    pub formula_plane_cycle_member_span_demotions: u64,
}

/// Counters of the schedules that virtual dependencies asked for.
#[derive(Clone, Copy, Debug)]
pub struct VirtualDepTelemetry {
    pub candidate_vertices_total: usize,
    pub vdeps_vertices_total: usize,
    pub vdeps_edges_total: usize,
    pub builder_elapsed_ms_total: u128,
    pub schedule_virtual_passes: usize,
    pub schedule_static_passes: usize,
    pub schedule_cache_hits: usize,
    pub schedule_cache_misses: usize,
    pub reused_schedule_vertices_total: usize,
    pub replan_iterations: usize,
    pub changed_vdeps_total: usize,
    pub bailout_reason: Option<&'static str>,
    pub fallback_mode_activations: u64,
}

/// Counters at zero, with the given number of fallbacks.
pub open spec fn fresh_telemetry(fallback_mode_activations: u64) -> VirtualDepTelemetry {
    VirtualDepTelemetry {
        candidate_vertices_total: 0,
        vdeps_vertices_total: 0,
        vdeps_edges_total: 0,
        builder_elapsed_ms_total: 0,
        schedule_virtual_passes: 0,
        schedule_static_passes: 0,
        schedule_cache_hits: 0,
        schedule_cache_misses: 0,
        reused_schedule_vertices_total: 0,
        replan_iterations: 0,
        changed_vdeps_total: 0,
        bailout_reason: None,
        fallback_mode_activations,
    }
}

pub fn start_virtual_dep_telemetry(fallback_mode_activations: u64) -> (t: VirtualDepTelemetry)
    ensures
        t == fresh_telemetry(fallback_mode_activations),
{
    VirtualDepTelemetry {
        candidate_vertices_total: 0,
        vdeps_vertices_total: 0,
        vdeps_edges_total: 0,
        builder_elapsed_ms_total: 0,
        schedule_virtual_passes: 0,
        schedule_static_passes: 0,
        schedule_cache_hits: 0,
        schedule_cache_misses: 0,
        reused_schedule_vertices_total: 0,
        replan_iterations: 0,
        changed_vdeps_total: 0,
        bailout_reason: None,
        fallback_mode_activations,
    }
}

impl Default for VirtualDepTelemetry {
    fn default() -> (t: VirtualDepTelemetry)
        ensures
            t == fresh_telemetry(0),
    {
        start_virtual_dep_telemetry(0)
    }
}

/// How a schedule came about.
#[derive(Clone, Copy, Debug, PartialEq, Eq, Structural)]
pub struct ScheduleBuildMeta {
    pub candidate_vertices: usize,
    pub vdeps_vertices: usize,
    pub vdeps_edges: usize,
    pub builder_elapsed_ms: u128,
    pub used_virtual_schedule: bool,
    pub schedule_cache_hit: bool,
    pub schedule_cache_eligible: bool,
}

/// The larger of two doubles that are not negative, held by their bits; a NaN counts for nothing.
pub open spec fn larger_double(a: u64, b: u64) -> u64 {
    if is_nan(b) {
        a
    } else if is_nan(a) {
        b
    } else if a < b {
        b
    } else {
        a
    }
}

pub fn max_double(a: u64, b: u64) -> (r: u64)
    ensures
        r == larger_double(a, b),
{
    let nan_a = a % crate::number::SIGN_BIT > crate::number::INFINITY_BITS;
    let nan_b = b % crate::number::SIGN_BIT > crate::number::INFINITY_BITS;
    if nan_b {
        a
    } else if nan_a {
        b
    } else if a < b {
        b
    } else {
        a
    }
}

/// Whether the counters can take the counts of one more schedule.
pub open spec fn has_room_for(t: VirtualDepTelemetry, meta: ScheduleBuildMeta) -> bool {
    &&& t.candidate_vertices_total + meta.candidate_vertices <= usize::MAX
    &&& t.vdeps_vertices_total + meta.vdeps_vertices <= usize::MAX
    &&& t.vdeps_edges_total + meta.vdeps_edges <= usize::MAX
    &&& t.builder_elapsed_ms_total + meta.builder_elapsed_ms <= u128::MAX
    &&& t.reused_schedule_vertices_total + meta.candidate_vertices <= usize::MAX
    &&& t.schedule_cache_hits < usize::MAX
    &&& t.schedule_cache_misses < usize::MAX
    &&& t.schedule_virtual_passes < usize::MAX
    &&& t.schedule_static_passes < usize::MAX
}

/// The counters with the counts of one more schedule.
pub open spec fn with_schedule(t: VirtualDepTelemetry, meta: ScheduleBuildMeta) -> VirtualDepTelemetry {
    let hit = meta.schedule_cache_eligible && meta.schedule_cache_hit;
    let miss = meta.schedule_cache_eligible && !meta.schedule_cache_hit;
    VirtualDepTelemetry {
        candidate_vertices_total: (t.candidate_vertices_total + meta.candidate_vertices) as usize,
        vdeps_vertices_total: (t.vdeps_vertices_total + meta.vdeps_vertices) as usize,
        vdeps_edges_total: (t.vdeps_edges_total + meta.vdeps_edges) as usize,
        builder_elapsed_ms_total: (t.builder_elapsed_ms_total + meta.builder_elapsed_ms) as u128,
        schedule_cache_hits: (t.schedule_cache_hits + if hit {
            1int
        } else {
            0
        }) as usize,
        schedule_cache_misses: (t.schedule_cache_misses + if miss {
            1int
        } else {
            0
        }) as usize,
        reused_schedule_vertices_total: (t.reused_schedule_vertices_total + if hit {
            meta.candidate_vertices as int
        } else {
            0
        }) as usize,
        schedule_virtual_passes: (t.schedule_virtual_passes + if meta.used_virtual_schedule {
            1int
        } else {
            0
        }) as usize,
        schedule_static_passes: (t.schedule_static_passes + if meta.used_virtual_schedule {
            0int
        } else {
            1
        }) as usize,
        ..t
    }
}

pub fn accumulate_schedule_meta(t: &mut VirtualDepTelemetry, meta: &ScheduleBuildMeta)
    requires
        has_room_for(*old(t), *meta),
    ensures
        *final(t) == with_schedule(*old(t), *meta),
{
    t.candidate_vertices_total = t.candidate_vertices_total + meta.candidate_vertices;
    t.vdeps_vertices_total = t.vdeps_vertices_total + meta.vdeps_vertices;
    t.vdeps_edges_total = t.vdeps_edges_total + meta.vdeps_edges;
    t.builder_elapsed_ms_total = t.builder_elapsed_ms_total + meta.builder_elapsed_ms;
    if meta.schedule_cache_eligible {
        if meta.schedule_cache_hit {
            t.schedule_cache_hits = t.schedule_cache_hits + 1;
            t.reused_schedule_vertices_total = t.reused_schedule_vertices_total
                + meta.candidate_vertices;
        } else {
            t.schedule_cache_misses = t.schedule_cache_misses + 1;
        }
    }
    if meta.used_virtual_schedule {
        t.schedule_virtual_passes = t.schedule_virtual_passes + 1;
    } else {
        t.schedule_static_passes = t.schedule_static_passes + 1;
    }
}

/// Counters of the cycles that one evaluation request evaluated.
#[derive(Clone, Copy, Debug, PartialEq, Eq, Structural)]
pub struct CycleTelemetry {
    pub static_sccs: usize,
    pub phantom_sccs: usize,
    pub live_cycles_witnessed: usize,
    pub circ_cells_stamped: usize,
    pub settle_passes_total: usize,
    pub max_passes_single_scc: usize,
    pub iterated_sccs: usize,
    pub converged_sccs: usize,
    pub capped_sccs: usize,
    /// The bits of the largest change that a member made in the last pass of an iteration.
    pub max_abs_delta_at_stop: u64,
    pub nan_converged: usize,
    pub elapsed_ms: u128,
}

pub open spec fn no_cycles() -> CycleTelemetry {
    CycleTelemetry {
        static_sccs: 0,
        phantom_sccs: 0,
        live_cycles_witnessed: 0,
        circ_cells_stamped: 0,
        settle_passes_total: 0,
        max_passes_single_scc: 0,
        iterated_sccs: 0,
        converged_sccs: 0,
        capped_sccs: 0,
        max_abs_delta_at_stop: 0,
        nan_converged: 0,
        elapsed_ms: 0,
    }
}

impl Default for CycleTelemetry {
    fn default() -> (t: CycleTelemetry)
        ensures
            t == no_cycles(),
    {
        CycleTelemetry {
            static_sccs: 0,
            phantom_sccs: 0,
            live_cycles_witnessed: 0,
            circ_cells_stamped: 0,
            settle_passes_total: 0,
            max_passes_single_scc: 0,
            iterated_sccs: 0,
            converged_sccs: 0,
            capped_sccs: 0,
            max_abs_delta_at_stop: 0,
            nan_converged: 0,
            elapsed_ms: 0,
        }
    }
}

/// One where the condition holds, zero where not.
pub open spec fn one_if(b: bool) -> int {
    if b {
        1
    } else {
        0
    }
}

/// The counters with one more cycle.
pub open spec fn with_cycle(
    t: CycleTelemetry,
    r: SccReport,
    max_abs_delta: u64,
    nan_converged: usize,
    elapsed_ms: u128,
) -> CycleTelemetry {
    CycleTelemetry {
        static_sccs: (t.static_sccs + 1) as usize,
        phantom_sccs: (t.phantom_sccs + one_if(r.phantom)) as usize,
        live_cycles_witnessed: (t.live_cycles_witnessed + r.witnessed_cycles) as usize,
        circ_cells_stamped: (t.circ_cells_stamped + r.stamped) as usize,
        settle_passes_total: (t.settle_passes_total + r.passes) as usize,
        max_passes_single_scc: if t.max_passes_single_scc < r.passes {
            r.passes
        } else {
            t.max_passes_single_scc
        },
        iterated_sccs: (t.iterated_sccs + one_if(r.iterated)) as usize,
        converged_sccs: (t.converged_sccs + one_if(r.iterated && r.converged)) as usize,
        capped_sccs: (t.capped_sccs + one_if(r.capped)) as usize,
        max_abs_delta_at_stop: if r.iterated {
            larger_double(t.max_abs_delta_at_stop, max_abs_delta)
        } else {
            t.max_abs_delta_at_stop
        },
        nan_converged: (t.nan_converged + if r.iterated {
            nan_converged as int
        } else {
            0
        }) as usize,
        elapsed_ms: (t.elapsed_ms + elapsed_ms) as u128,
    }
}

/// Whether the counters can take one more cycle.
pub open spec fn has_room_for_cycle(
    t: CycleTelemetry,
    r: SccReport,
    nan_converged: usize,
    elapsed_ms: u128,
) -> bool {
    &&& t.static_sccs < usize::MAX
    &&& t.phantom_sccs < usize::MAX
    &&& t.live_cycles_witnessed + r.witnessed_cycles <= usize::MAX
    &&& t.circ_cells_stamped + r.stamped <= usize::MAX
    &&& t.settle_passes_total + r.passes <= usize::MAX
    &&& t.iterated_sccs < usize::MAX
    &&& t.converged_sccs < usize::MAX
    &&& t.capped_sccs < usize::MAX
    &&& t.nan_converged + nan_converged <= usize::MAX
    &&& t.elapsed_ms + elapsed_ms <= u128::MAX
}

impl CycleTelemetry {
    pub fn add_cycle(
        &mut self,
        r: SccReport,
        max_abs_delta: u64,
        nan_converged: usize,
        elapsed_ms: u128,
    )
        requires
            has_room_for_cycle(*old(self), r, nan_converged, elapsed_ms),
        ensures
            *final(self) == with_cycle(*old(self), r, max_abs_delta, nan_converged, elapsed_ms),
    {
        self.static_sccs = self.static_sccs + 1;
        if r.phantom {
            self.phantom_sccs = self.phantom_sccs + 1;
        }
        self.live_cycles_witnessed = self.live_cycles_witnessed + r.witnessed_cycles;
        self.circ_cells_stamped = self.circ_cells_stamped + r.stamped;
        self.settle_passes_total = self.settle_passes_total + r.passes;
        if self.max_passes_single_scc < r.passes {
            self.max_passes_single_scc = r.passes;
        }
        if r.iterated {
            self.iterated_sccs = self.iterated_sccs + 1;
            if r.converged {
                self.converged_sccs = self.converged_sccs + 1;
            }
            self.max_abs_delta_at_stop = max_double(self.max_abs_delta_at_stop, max_abs_delta);
            self.nan_converged = self.nan_converged + nan_converged;
        }
        if r.capped {
            self.capped_sccs = self.capped_sccs + 1;
        }
        self.elapsed_ms = self.elapsed_ms + elapsed_ms;
    }
}

/// The larger of two doubles without a sign is one of them and no smaller than either; one that is no
/// number counts for nothing beside another.
pub proof fn the_larger_double_is_no_smaller(a: u64, b: u64)
    ensures
        larger_double(a, b) == a || larger_double(a, b) == b,
        !is_nan(a) && !is_nan(b) ==> larger_double(a, b) >= a && larger_double(a, b) >= b,
        is_nan(a) && !is_nan(b) ==> larger_double(a, b) == b,
        is_nan(b) ==> larger_double(a, b) == a,
{
}

/// A schedule that could be kept is counted as a hit or as a miss, never both, and every schedule as a
/// virtual or as a static pass; what it has scheduled is added up.
pub proof fn schedules_are_counted_once(t: VirtualDepTelemetry, meta: ScheduleBuildMeta)
    requires
        has_room_for(t, meta),
    ensures
        ({
            let u = with_schedule(t, meta);
            let hits = u.schedule_cache_hits - t.schedule_cache_hits;
            let misses = u.schedule_cache_misses - t.schedule_cache_misses;
            let virtuals = u.schedule_virtual_passes - t.schedule_virtual_passes;
            let statics = u.schedule_static_passes - t.schedule_static_passes;
            &&& 0 <= hits && 0 <= misses && hits + misses == (if meta.schedule_cache_eligible {
                1int
            } else {
                0
            })
            &&& hits == 1 ==> meta.schedule_cache_hit
            &&& misses == 1 ==> !meta.schedule_cache_hit
            &&& 0 <= virtuals && 0 <= statics && virtuals + statics == 1
            &&& virtuals == 1 <==> meta.used_virtual_schedule
            &&& u.candidate_vertices_total - t.candidate_vertices_total == meta.candidate_vertices
            &&& u.vdeps_vertices_total - t.vdeps_vertices_total == meta.vdeps_vertices
            &&& u.vdeps_edges_total - t.vdeps_edges_total == meta.vdeps_edges
            &&& u.builder_elapsed_ms_total - t.builder_elapsed_ms_total == meta.builder_elapsed_ms
            &&& u.reused_schedule_vertices_total - t.reused_schedule_vertices_total == hits
                * meta.candidate_vertices
            &&& u.replan_iterations == t.replan_iterations && u.changed_vdeps_total
                == t.changed_vdeps_total && u.bailout_reason == t.bailout_reason
                && u.fallback_mode_activations == t.fallback_mode_activations
        }),
{
    let u = with_schedule(t, meta);
    let hits = u.schedule_cache_hits - t.schedule_cache_hits;
    assert(hits * meta.candidate_vertices == (if hits == 1 {
        meta.candidate_vertices as int
    } else {
        0
    })) by (nonlinear_arith)
        requires
            hits == 0 || hits == 1,
    ;
}

/// Every cycle is counted: as one cycle, with its passes, its stamped cells and its live cycles added
/// up, the longest run kept, and as phantom, iterated, converged and capped only where it is so; only
/// one that was iterated can count as converged.
pub proof fn cycles_are_counted_once(
    t: CycleTelemetry,
    r: SccReport,
    max_abs_delta: u64,
    nan_converged: usize,
    elapsed_ms: u128,
)
    requires
        has_room_for_cycle(t, r, nan_converged, elapsed_ms),
    ensures
        ({
            let u = with_cycle(t, r, max_abs_delta, nan_converged, elapsed_ms);
            let one = |b: bool|
                if b {
                    1int
                } else {
                    0
                };
            &&& u.static_sccs == t.static_sccs + 1
            &&& u.phantom_sccs - t.phantom_sccs == one(r.phantom)
            &&& u.iterated_sccs - t.iterated_sccs == one(r.iterated)
            &&& u.converged_sccs - t.converged_sccs == one(r.iterated && r.converged)
            &&& u.capped_sccs - t.capped_sccs == one(r.capped)
            &&& u.live_cycles_witnessed - t.live_cycles_witnessed == r.witnessed_cycles
            &&& u.circ_cells_stamped - t.circ_cells_stamped == r.stamped
            &&& u.settle_passes_total - t.settle_passes_total == r.passes
            &&& u.max_passes_single_scc >= t.max_passes_single_scc && u.max_passes_single_scc >= r.passes
            &&& u.max_passes_single_scc == t.max_passes_single_scc || u.max_passes_single_scc == r.passes
            &&& u.elapsed_ms == t.elapsed_ms + elapsed_ms
            &&& !r.iterated ==> u.max_abs_delta_at_stop == t.max_abs_delta_at_stop && u.nan_converged
                == t.nan_converged
            &&& r.iterated ==> u.nan_converged == t.nan_converged + nan_converged
            &&& r.iterated && !is_nan(t.max_abs_delta_at_stop) && !is_nan(max_abs_delta)
                ==> u.max_abs_delta_at_stop >= max_abs_delta && u.max_abs_delta_at_stop
                >= t.max_abs_delta_at_stop
        }),
{
}

/// Counting begins at nothing.
pub proof fn counting_begins_at_nothing(n: u64)
    ensures
        ({
            let t = fresh_telemetry(n);
            let c = no_cycles();
            &&& t.candidate_vertices_total == 0 && t.vdeps_vertices_total == 0 && t.vdeps_edges_total == 0
            &&& t.schedule_virtual_passes == 0 && t.schedule_static_passes == 0 && t.schedule_cache_hits == 0
            &&& t.schedule_cache_misses == 0 && t.reused_schedule_vertices_total == 0
            &&& t.replan_iterations == 0 && t.changed_vdeps_total == 0 && t.builder_elapsed_ms_total == 0
            &&& t.bailout_reason is None && t.fallback_mode_activations == n
            &&& c.static_sccs == 0 && c.phantom_sccs == 0 && c.live_cycles_witnessed == 0
            &&& c.circ_cells_stamped == 0 && c.settle_passes_total == 0 && c.max_passes_single_scc == 0
            &&& c.iterated_sccs == 0 && c.converged_sccs == 0 && c.capped_sccs == 0
            &&& c.max_abs_delta_at_stop == 0 && c.nan_converged == 0 && c.elapsed_ms == 0
        }),
{
}

} // verus!
