//! The coordinator that evaluates formula spans together with legacy formulas.
use crate::mixed_schedule::{MixedScheduleFallback, MixedScheduleFallbackReason, SpanSeedMode};
use crate::region::{PlacementDomain, Region, domain_region};
use crate::value::{ErrorKind, ExcelError, error_with};
use vstd::prelude::*;

verus! {

/// How often cyclic spans are demoted before the coordinator gives up on spans.
pub const MAX_CYCLE_DEMOTE_ITERS: usize = 64;

/// What the coordinator does next.
#[derive(Clone, Copy, Debug, PartialEq, Eq, Structural)]
pub enum CoordinatorStep {
    /// Hand everything to the legacy evaluator.
    Legacy,
    /// Build a mixed schedule, with spans seeded this way.
    Build(SpanSeedMode),
    /// Run the mixed schedule.
    Run,
    /// Demote the spans that take part in a cycle.
    DemoteCyclic,
    /// Settle the cycles among legacy formulas.
    SettleCycles,
}

/// The state of the coordinator between its schedules.
#[derive(Clone, Copy, Debug, PartialEq, Eq, Structural)]
pub struct Coordinator {
    pub cycle_demote_iters: usize,
    pub prepass_cycle_errors: usize,
    pub capacity_bailouts: u64,
}

/// `a + b`, stopping at the largest number.
pub open spec fn capped_sum(a: usize, b: usize) -> usize {
    if a + b <= usize::MAX {
        (a + b) as usize
    } else {
        usize::MAX
    }
}

/// How the coordinator begins: without spans, and where the spans are known to be up to date,
/// there is legacy work only; spans that were not evaluated under the current indexes run whole.
pub fn begin(active_spans: usize, epoch_seen: u64, indexes_epoch: u64, nothing_pending: bool) -> (r:
    CoordinatorStep)
    ensures
        r == first_step(active_spans, epoch_seen, indexes_epoch, nothing_pending),
{
    if active_spans == 0 {
        return CoordinatorStep::Legacy;
    }
    if epoch_seen != indexes_epoch {
        return CoordinatorStep::Build(SpanSeedMode::WholeAll);
    }
    if nothing_pending {
        return CoordinatorStep::Legacy;
    }
    CoordinatorStep::Build(SpanSeedMode::DirtyClosure)
}

/// Whether a fallback names a cycle.
pub open spec fn names_cycle(fallbacks: Seq<MixedScheduleFallback>) -> bool {
    exists|i: int|
        0 <= i < fallbacks.len() && (#[trigger] fallbacks[i]).reason
            == MixedScheduleFallbackReason::CycleDetected
}

impl Coordinator {
    pub fn new(capacity_bailouts: u64) -> (c: Coordinator)
        ensures
            c == (Coordinator { cycle_demote_iters: 0, prepass_cycle_errors: 0, capacity_bailouts }),
    {
        Coordinator { cycle_demote_iters: 0, prepass_cycle_errors: 0, capacity_bailouts }
    }

    /// What follows a schedule: a safe one runs; one that fell back over cycles has its cyclic
    /// spans demoted; any other fallback would come back unchanged and goes to the legacy
    /// evaluator, which is counted.
    pub fn scheduled(
        &mut self,
        safe: bool,
        cycle_count: usize,
        fallbacks: &Vec<MixedScheduleFallback>,
    ) -> (r: CoordinatorStep)
        ensures
            r == scheduled_step(safe, cycle_count, fallbacks@),
            *final(self) == (Coordinator {
                capacity_bailouts: if r == CoordinatorStep::Legacy && old(self).capacity_bailouts
                    < u64::MAX {
                    (old(self).capacity_bailouts + 1) as u64
                } else {
                    old(self).capacity_bailouts
                },
                ..*old(self)
            }),
    {
        if safe {
            return CoordinatorStep::Run;
        }
        let mut cyclic = cycle_count > 0;
        let mut i: usize = 0;
        while i < fallbacks.len() && !cyclic
            invariant
                i <= fallbacks@.len(),
                !cyclic ==> forall|k: int|
                    0 <= k < i ==> (#[trigger] fallbacks@[k]).reason
                        != MixedScheduleFallbackReason::CycleDetected,
                cyclic ==> cycle_count > 0 || names_cycle(fallbacks@),
                cycle_count > 0 ==> cyclic,
            decreases fallbacks@.len() - i,
        {
            if fallbacks[i].reason == MixedScheduleFallbackReason::CycleDetected {
                assert(fallbacks@[i as int].reason == MixedScheduleFallbackReason::CycleDetected);
                cyclic = true;
            }
            i = i + 1;
        }
        if cyclic {
            return CoordinatorStep::DemoteCyclic;
        }
        self.capacity_bailouts = self.capacity_bailouts.saturating_add(1);
        CoordinatorStep::Legacy
    }

    /// What follows a demotion: without any span left the legacy evaluator takes over; else the
    /// cycles that are left among legacy formulas are settled first.
    pub fn demoted(&self, active_spans: usize) -> (r: CoordinatorStep)
        ensures
            r == (if active_spans == 0 {
                CoordinatorStep::Legacy
            } else {
                CoordinatorStep::SettleCycles
            }),
    {
        if active_spans == 0 {
            CoordinatorStep::Legacy
        } else {
            CoordinatorStep::SettleCycles
        }
    }

    /// What follows once the cycles among legacy formulas are settled: their errors are added up,
    /// and everything is scheduled anew with every span whole. Once the demotions are used up the
    /// legacy evaluator takes over.
    pub fn settled(&mut self, cycle_errors: usize) -> (r: CoordinatorStep)
        requires
            old(self).cycle_demote_iters < MAX_CYCLE_DEMOTE_ITERS,
        ensures
            r == (if old(self).cycle_demote_iters + 1 >= MAX_CYCLE_DEMOTE_ITERS {
                CoordinatorStep::Legacy
            } else {
                CoordinatorStep::Build(SpanSeedMode::WholeAll)
            }),
            r != CoordinatorStep::Legacy ==> final(self).cycle_demote_iters
                < MAX_CYCLE_DEMOTE_ITERS,
            *final(self) == (Coordinator {
                cycle_demote_iters: (old(self).cycle_demote_iters + 1) as usize,
                prepass_cycle_errors: capped_sum(old(self).prepass_cycle_errors, cycle_errors),
                ..*old(self)
            }),
    {
        self.prepass_cycle_errors = self.prepass_cycle_errors.saturating_add(cycle_errors);
        self.cycle_demote_iters = self.cycle_demote_iters + 1;
        if self.cycle_demote_iters >= MAX_CYCLE_DEMOTE_ITERS {
            return CoordinatorStep::Legacy;
        }
        CoordinatorStep::Build(SpanSeedMode::WholeAll)
    }
}

/// The error of a layer that names a stale span.
pub fn stale_span_error() -> (e: ExcelError)
    ensures
        e@ == error_with(ErrorKind::NImpl, "FormulaPlane schedule referenced a stale span"@),
{
    ExcelError::new(ErrorKind::NImpl).with_message("FormulaPlane schedule referenced a stale span")
}

/// Demotion ends: from a fresh coordinator, no run of demotions that keeps asking for schedules is
/// longer than the bound.
pub proof fn demotions_end(states: Seq<Coordinator>)
    requires
        states.len() > 0,
        states[0].cycle_demote_iters == 0,
        forall|i: int|
            0 <= i < states.len() - 1 ==> (#[trigger] states[i + 1]).cycle_demote_iters
                == states[i].cycle_demote_iters + 1 && states[i + 1].cycle_demote_iters
                < MAX_CYCLE_DEMOTE_ITERS,
    ensures
        states.len() <= MAX_CYCLE_DEMOTE_ITERS,
{
    lemma_demotions(states, states.len() - 1);
}

proof fn lemma_demotions(states: Seq<Coordinator>, n: int)
    requires
        states.len() > 0,
        states[0].cycle_demote_iters == 0,
        0 <= n < states.len(),
        forall|i: int|
            0 <= i < states.len() - 1 ==> (#[trigger] states[i + 1]).cycle_demote_iters
                == states[i].cycle_demote_iters + 1 && states[i + 1].cycle_demote_iters
                < MAX_CYCLE_DEMOTE_ITERS,
    ensures
        states[n].cycle_demote_iters == n,
        n < MAX_CYCLE_DEMOTE_ITERS,
    decreases n,
{
    if n > 0 {
        lemma_demotions(states, n - 1);
        assert(states[(n - 1) + 1].cycle_demote_iters == states[n - 1].cycle_demote_iters + 1);
    }
}

/// The regions of the first `n` cyclic spans that still exist.
pub open spec fn regions_of(domains: Seq<Option<PlacementDomain>>, n: nat) -> Seq<Region>
    decreases n,
{
    if n == 0 {
        Seq::empty()
    } else {
        let before = regions_of(domains, (n - 1) as nat);
        match domains[n - 1] {
            Some(d) => before.push(domain_region(d)),
            None => before,
        }
    }
}

/// The regions that are taken apart because spans in them are part of a cycle. The placements of
/// the spans are given; one that is gone has none.
pub fn demote_cyclic_spans(domains: &Vec<Option<PlacementDomain>>) -> (r: Vec<Region>)
    ensures
        r@ == regions_of(domains@, domains@.len()),
{
    let mut out: Vec<Region> = Vec::new();
    let mut i: usize = 0;
    while i < domains.len()
        invariant
            i <= domains@.len(),
            out@ == regions_of(domains@, i as nat),
        decreases domains@.len() - i,
    {
        if let Some(d) = &domains[i] {
            out.push(Region::from_domain(d));
        }
        i = i + 1;
    }
    out
}

/// How many spans were taken apart because of cycles, once `n` more are.
pub fn count_cycle_demotions(so_far: u64, n: u64) -> (r: u64)
    ensures
        r == (if so_far + n <= u64::MAX {
            (so_far + n) as u64
        } else {
            u64::MAX
        }),
{
    so_far.saturating_add(n)
}

/// Every demoted span that still has a domain leaves its region, and there are no more regions than spans.
pub proof fn demoted_spans_leave_their_regions(domains: Seq<Option<PlacementDomain>>, n: nat, i: int)
    requires
        n <= domains.len(),
        0 <= i < n,
        domains[i] is Some,
    ensures
        regions_of(domains, n).contains(domain_region(domains[i]->Some_0)),
        regions_of(domains, n).len() <= n,
    decreases n,
{
    let m = (n - 1) as nat;
    let before = regions_of(domains, m);
    lemma_fewer_regions(domains, m);
    if i == m {
        assert(regions_of(domains, n).last() == domain_region(domains[i]->Some_0));
    } else {
        demoted_spans_leave_their_regions(domains, m, i);
        let k = choose|k: int| 0 <= k < before.len() && before[k] == domain_region(domains[i]->Some_0);
        assert(regions_of(domains, n)[k] == before[k]);
    }
}

proof fn lemma_fewer_regions(domains: Seq<Option<PlacementDomain>>, n: nat)
    requires
        n <= domains.len(),
    ensures
        regions_of(domains, n).len() <= n,
    decreases n,
{
    if n > 0 {
        lemma_fewer_regions(domains, (n - 1) as nat);
    }
}

/// A cycle is known of where a producer fell back because of one.
pub proof fn any_cycle_is_noticed(fallbacks: Seq<MixedScheduleFallback>, i: int, a: usize, b: usize)
    ensures
        0 <= i < fallbacks.len() && fallbacks[i].reason == MixedScheduleFallbackReason::CycleDetected
            ==> names_cycle(fallbacks),
        (forall|k: int|
            0 <= k < fallbacks.len() ==> (#[trigger] fallbacks[k]).reason
                != MixedScheduleFallbackReason::CycleDetected) ==> !names_cycle(fallbacks),
        a + b <= usize::MAX ==> capped_sum(a, b) == a + b,
        a + b > usize::MAX ==> capped_sum(a, b) == usize::MAX,
{
}

/// How spans are begun with.
pub open spec fn first_step(active_spans: usize, epoch_seen: u64, indexes_epoch: u64, nothing_pending: bool) -> CoordinatorStep {
    if active_spans == 0 {
        CoordinatorStep::Legacy
    } else if epoch_seen != indexes_epoch {
        CoordinatorStep::Build(SpanSeedMode::WholeAll)
    } else if nothing_pending {
        CoordinatorStep::Legacy
    } else {
        CoordinatorStep::Build(SpanSeedMode::DirtyClosure)
    }
}

/// What follows a schedule of spans and formulas.
pub open spec fn scheduled_step(safe: bool, cycle_count: usize, fallbacks: Seq<MixedScheduleFallback>) -> CoordinatorStep {
    if safe {
        CoordinatorStep::Run
    } else if cycle_count > 0 || names_cycle(fallbacks) {
        CoordinatorStep::DemoteCyclic
    } else {
        CoordinatorStep::Legacy
    }
}

/// Spans are all evaluated where the graph has changed since they were last seen, only the dirty ones
/// where it has not, and none where there are none or nothing is pending. A schedule is run only where
/// it is safe; one with a cycle has the spans on it taken apart.
pub proof fn spans_are_evaluated_where_they_can_be_dirty(
    active_spans: usize,
    epoch_seen: u64,
    indexes_epoch: u64,
    nothing_pending: bool,
    safe: bool,
    cycle_count: usize,
    fallbacks: Seq<MixedScheduleFallback>,
    i: int,
)
    ensures
        ({
            let r = first_step(active_spans, epoch_seen, indexes_epoch, nothing_pending);
            &&& r == CoordinatorStep::Legacy <==> active_spans == 0 || (epoch_seen == indexes_epoch
                && nothing_pending)
            &&& r == CoordinatorStep::Build(SpanSeedMode::WholeAll) <==> active_spans > 0 && epoch_seen
                != indexes_epoch
            &&& r == CoordinatorStep::Build(SpanSeedMode::DirtyClosure) <==> active_spans > 0 && epoch_seen
                == indexes_epoch && !nothing_pending
        }),
        ({
            let r = scheduled_step(safe, cycle_count, fallbacks);
            &&& r == CoordinatorStep::Run <==> safe
            &&& !safe && cycle_count > 0 ==> r == CoordinatorStep::DemoteCyclic
            &&& !safe && 0 <= i < fallbacks.len() && fallbacks[i].reason
                == MixedScheduleFallbackReason::CycleDetected ==> r == CoordinatorStep::DemoteCyclic
            &&& !safe && cycle_count == 0 && (forall|k: int|
                0 <= k < fallbacks.len() ==> (#[trigger] fallbacks[k]).reason
                    != MixedScheduleFallbackReason::CycleDetected) ==> r == CoordinatorStep::Legacy
        }),
{
}

} // verus!
