//! The evaluation of one cycle from its beginning to its end: which member runs next, when the reads
//! of a pass are classified, and what is done with the members then. The interpreter and the analysis
//! of reads answer; what comes next is decided here.
use crate::coord::{CellRef, VertexId};
use crate::grid::{DeltaCollector, DeltaView, Grid, GridView};
use crate::outcome::failing;
use crate::recalc::{CancelPoint, cancelled_at, check_cancel};
use crate::scc::{CyclePolicy, SccVertex, are_distinct, circ_value, is_member_order, is_rearranged, taken_from};
use crate::scc_task::{ConvergenceOutcome, ConvergenceRound, LiveAnalysis, SccReport, SccStep, TaskView, decided, fits, is_edge_list, iteration_goes_on_until_all_converge, kept, members_where, nan_count, rank_keys, round_delta};
use crate::scc_unit::{SccUnit, begin_scc_unit, begun, changed_members, commit_member, cycles_begin_alike_in_any_order, finish_scc_unit, finished_delta, given_up, kept_view, stamp_members, stamped_grid, vertices_at};
use crate::sort::{is_stable_order, lemma_one_stable_order};
use crate::spill::ShimSpillManager;
use crate::value::{ExcelError, LiteralValue, ValueView};
use rustc_hash::FxHashMap;
use vstd::prelude::*;

verus! {

/// What the evaluation of a cycle waits for.
#[derive(Clone, Copy, Debug, PartialEq, Eq, Structural)]
pub enum CyclePhase {
    /// The beginning of a pass.
    Opening,
    /// The result of a member.
    Running,
    /// The classification of the reads of a pass.
    Classifying,
    /// Nothing.
    Ended,
}

/// What is done next for a cycle.
#[derive(Debug)]
pub enum CycleAction {
    /// Begin a pass.
    OpenPass,
    /// Run this member.
    Run { member: usize, vertex: VertexId },
    /// Classify these reads, and test which members converged.
    Classify(Vec<(u32, u32)>),
    /// End.
    Finish,
}

/// A cycle under evaluation.
#[derive(Debug)]
pub struct CycleRun {
    unit: SccUnit,
    list: Vec<usize>,
    next: usize,
    edges: Vec<(u32, u32)>,
    last: bool,
    round: Option<ConvergenceRound>,
    phase: CyclePhase,
}

/// The model of a [`CycleRun`].
#[verifier::ext_equal]
pub struct RunView {
    pub members: Seq<u32>,
    pub cells: Seq<Option<CellRef>>,
    pub task: TaskView,
    /// The members of the pass, in the order in which they run.
    pub list: Seq<usize>,
    /// How many of them have run.
    pub next: int,
    /// The reads of the pass.
    pub edges: Seq<(u32, u32)>,
    /// Whether the pass is the last one.
    pub last: bool,
    /// What the last tests of convergence amount to.
    pub round: Option<ConvergenceRound>,
    pub phase: CyclePhase,
}

/// The reads of a member that are of members.
pub open spec fn reads_of(member: usize, reads: Seq<u32>, size: nat) -> Seq<(u32, u32)>
    decreases reads.len(),
{
    if reads.len() == 0 {
        Seq::empty()
    } else {
        let front = reads_of(member, reads.drop_last(), size);
        if reads.last() < size {
            front.push((member as u32, reads.last()))
        } else {
            front
        }
    }
}

/// What the tests of convergence of a pass amount to.
pub open spec fn round_of(t: TaskView, outcomes: Seq<ConvergenceOutcome>) -> ConvergenceRound {
    ConvergenceRound {
        nan_converged: nan_count(t, outcomes, outcomes.len()) as usize,
        max_delta: round_delta(t, outcomes, outcomes.len()),
    }
}

/// Which members converged.
pub open spec fn flags_of(outcomes: Seq<ConvergenceOutcome>) -> Seq<bool> {
    Seq::new(outcomes.len(), |i: int| outcomes[i].converged)
}

impl RunView {
    /// The evaluation as it goes on with its pass: the next member runs; behind the last one the
    /// reads are taken down, and classified where there are any, unless the pass is the last one.
    pub open spec fn advanced(self) -> RunView {
        if self.next < self.list.len() {
            RunView { phase: CyclePhase::Running, ..self }
        } else if self.last {
            RunView { phase: CyclePhase::Ended, ..self }
        } else {
            let task = self.task.with_edges(self.edges);
            RunView {
                task,
                phase: if task.has_no_reads() {
                    CyclePhase::Ended
                } else {
                    CyclePhase::Classifying
                },
                ..self
            }
        }
    }

    /// The evaluation once a pass is begun.
    pub open spec fn opened(self, cancelled: bool) -> RunView {
        if cancelled {
            RunView { phase: CyclePhase::Ended, ..self }
        } else {
            self.advanced()
        }
    }

    /// The evaluation once the next member has run.
    pub open spec fn having_run(self, value: ValueView, reads: Seq<u32>) -> RunView {
        let i = self.list[self.next];
        RunView {
            task: self.task.running(i as int, value, self.next as usize),
            edges: self.edges + reads_of(i, reads, self.members.len()),
            next: self.next + 1,
            ..self
        }.advanced()
    }

    /// The evaluation once the reads are classified and the task has decided.
    pub open spec fn classified(
        self,
        live: LiveAnalysis,
        outcomes: Seq<ConvergenceOutcome>,
        step: SccStep,
        task: TaskView,
    ) -> RunView {
        let tested = RunView {
            task,
            round: if live.cycle_count > 0 && self.task.policy is Iterate && self.task.prev is Some {
                Some(round_of(self.task, outcomes))
            } else {
                self.round
            },
            ..self
        };
        match step {
            SccStep::Done => RunView { phase: CyclePhase::Ended, ..tested },
            SccStep::StampRest(_) => RunView { phase: CyclePhase::Ended, ..tested },
            SccStep::Run(run) => RunView {
                list: run@,
                next: 0,
                edges: Seq::empty(),
                phase: CyclePhase::Opening,
                ..tested
            },
            SccStep::StampAndSettle { run, .. } => RunView {
                list: run@,
                next: 0,
                edges: Seq::empty(),
                last: true,
                phase: CyclePhase::Opening,
                ..tested
            },
        }
    }

    /// The grid and the locks once the next member has run: a member that would spill is marked.
    pub open spec fn committed(
        self,
        g: GridView,
        locks: Map<u32, u64>,
        value: ValueView,
    ) -> (GridView, Map<u32, u64>) {
        let i = self.list[self.next];
        let v = self.members[i as int];
        if self.cells[i as int] is Some && value is Array {
            (failing(g, v, circ_value()), locks.remove(v))
        } else {
            (g.holding(v, value), locks)
        }
    }

    /// The members that the decision of the task marks.
    pub open spec fn marked(self, step: SccStep) -> Seq<u32> {
        match step {
            SccStep::StampAndSettle { stamp, .. } => vertices_at(self.members, stamp@),
            SccStep::StampRest(stamp) => vertices_at(self.members, stamp@),
            _ => Seq::empty(),
        }
    }
}

/// Whether the action is the one for the evaluation as it is.
pub open spec fn is_action(v: RunView, action: CycleAction) -> bool {
    match v.phase {
        CyclePhase::Opening => action is OpenPass,
        CyclePhase::Running => action == (CycleAction::Run {
            member: v.list[v.next],
            vertex: v.members[v.list[v.next] as int],
        }),
        CyclePhase::Classifying => action matches CycleAction::Classify(edges) && is_edge_list(
            v.task,
            edges@,
        ),
        CyclePhase::Ended => action is Finish,
    }
}

/// Whether the analysis speaks of the members, and puts none of them into its order twice.
pub open spec fn is_analysis(live: LiveAnalysis, n: nat) -> bool {
    fits(live, n) && live.topo@.no_duplicates()
}

/// Whether the members are different ones that are still evaluated.
pub open spec fn can_run(t: TaskView, list: Seq<usize>, from: int) -> bool {
    &&& forall|k: int|
        from <= k < list.len() ==> (#[trigger] list[k]) < t.size() && !t.excluded[list[k] as int]
    &&& forall|k: int, l: int|
        from <= k < l < list.len() ==> #[trigger] list[k] != #[trigger] list[l]
}

/// Whether the reads are of members by members that ran.
pub open spec fn are_reads(t: TaskView, edges: Seq<(u32, u32)>) -> bool {
    forall|k: int|
        0 <= k < edges.len() ==> (#[trigger] edges[k]).0 < t.size() && edges[k].1 < t.size()
            && t.pos[edges[k].0 as int] is Some
}

proof fn lemma_members_where(n: nat, keep: spec_fn(int) -> bool)
    requires
        n <= usize::MAX,
    ensures
        forall|k: int|
            0 <= k < members_where(n, keep).len() ==> #[trigger] members_where(n, keep)[k] < n && keep(
                members_where(n, keep)[k] as int,
            ),
        forall|k: int, l: int|
            0 <= k < l < members_where(n, keep).len() ==> #[trigger] members_where(n, keep)[k]
                < #[trigger] members_where(n, keep)[l],
    decreases n,
{
    if n > 0 {
        let m = (n - 1) as nat;
        lemma_members_where(m, keep);
        let front = members_where(m, keep);
        let all = members_where(n, keep);
        assert forall|k: int| 0 <= k < all.len() implies #[trigger] all[k] < n && keep(
            all[k] as int,
        ) by {
            if k < front.len() {
                assert(all[k] == front[k]);
            }
        }
        assert forall|k: int, l: int| 0 <= k < l < all.len() implies #[trigger] all[k]
            < #[trigger] all[l] by {
            assert(all[k] == front[k]);
            if l < front.len() {
                assert(all[l] == front[l]);
            }
        }
    }
}

proof fn lemma_kept(topo: Seq<u32>, excluded: Seq<bool>)
    requires
        topo.no_duplicates(),
        forall|k: int| 0 <= k < topo.len() ==> (#[trigger] topo[k]) < excluded.len(),
        excluded.len() <= usize::MAX,
    ensures
        forall|k: int|
            0 <= k < kept(topo, excluded).len() ==> #[trigger] kept(topo, excluded)[k] < excluded.len()
                && !excluded[kept(topo, excluded)[k] as int] && topo.contains(
                kept(topo, excluded)[k] as u32,
            ) && kept(topo, excluded)[k] <= u32::MAX,
        forall|k: int, l: int|
            0 <= k < l < kept(topo, excluded).len() ==> #[trigger] kept(topo, excluded)[k]
                != #[trigger] kept(topo, excluded)[l],
    decreases topo.len(),
{
    if topo.len() > 0 {
        let front = topo.drop_last();
        assert(front.no_duplicates());
        assert forall|k: int| 0 <= k < front.len() implies (#[trigger] front[k]) < excluded.len() by {
            assert(front[k] == topo[k]);
        }
        lemma_kept(front, excluded);
        let before = kept(front, excluded);
        let all = kept(topo, excluded);
        assert(topo[topo.len() - 1] < excluded.len());
        assert forall|k: int| 0 <= k < all.len() implies #[trigger] all[k] < excluded.len()
            && !excluded[all[k] as int] && topo.contains(all[k] as u32) && all[k] <= u32::MAX by {
            if k < before.len() {
                assert(all[k] == before[k]);
                assert(front.contains(before[k] as u32));
                let m = choose|m: int| 0 <= m < front.len() && front[m] == before[k] as u32;
                assert(topo[m] == before[k] as u32);
            } else {
                assert(topo[topo.len() - 1] == all[k] as u32);
            }
        }
        assert forall|k: int, l: int| 0 <= k < l < all.len() implies #[trigger] all[k]
            != #[trigger] all[l] by {
            assert(all[k] == before[k]);
            if l < before.len() {
                assert(all[l] == before[l]);
            } else {
                assert(front.contains(before[k] as u32));
                let m = choose|m: int| 0 <= m < front.len() && front[m] == before[k] as u32;
                assert(topo[m] != topo[topo.len() - 1]);
            }
        }
    }
}

/// What the task decides to run can run.
proof fn lemma_decided_runs(
    before: TaskView,
    live: LiveAnalysis,
    converged: Seq<bool>,
    step: SccStep,
    after: TaskView,
)
    requires
        before.wf(),
        before.size() <= usize::MAX,
        is_analysis(live, before.size()),
        decided(before, live, converged, step, after),
    ensures
        after.is_cell == before.is_cell,
        step is Done || step is StampRest ==> after.pos == before.pos,
        step matches SccStep::Run(run) ==> can_run(after, run@, 0),
        step matches SccStep::StampAndSettle { run, .. } ==> can_run(after, run@, 0),
        step matches SccStep::StampAndSettle { stamp, .. } ==> forall|k: int|
            0 <= k < stamp@.len() ==> (#[trigger] stamp@[k]) < before.size(),
        step matches SccStep::StampRest(stamp) ==> forall|k: int|
            0 <= k < stamp@.len() ==> (#[trigger] stamp@[k]) < before.size(),
{
    let n = before.size();
    lemma_members_where(n, |i: int| !before.excluded[i]);
    lemma_members_where(n, |i: int| live.in_cycle@[i] && !before.excluded[i]);
    lemma_members_where(n, |i: int| before.is_stale(i));
    match step {
        SccStep::StampAndSettle { stamp, run } => {
            lemma_kept(live.topo@, after.excluded);
        },
        SccStep::Run(run) => {
            if live.cycle_count == 0 {
                let members = before.stale();
                let order = choose|order: Seq<usize>|
                    {
                        &&& #[trigger] is_stable_order(rank_keys(live.topo@, members), order)
                        &&& run@ == Seq::new(members.len(), |k: int| members[order[k] as int])
                    };
                assert forall|k: int| 0 <= k < run@.len() implies (#[trigger] run@[k])
                    < after.size() && !after.excluded[run@[k] as int] by {
                    assert(order[k] < members.len());
                    assert(members[order[k] as int] < n);
                }
                assert forall|k: int, l: int| 0 <= k < l < run@.len() implies #[trigger] run@[k]
                    != #[trigger] run@[l] by {
                    assert(order[k] != order[l]);
                    let (p, q) = (order[k] as int, order[l] as int);
                    if p < q {
                        assert(members[p] < members[q]);
                    } else {
                        assert(members[q] < members[p]);
                    }
                }
            }
        },
        _ => {},
    }
}

proof fn lemma_reads_of(member: usize, reads: Seq<u32>, t: TaskView)
    requires
        member < t.size(),
        member <= u32::MAX,
        t.pos[member as int] is Some,
    ensures
        are_reads(t, reads_of(member, reads, t.size())),
    decreases reads.len(),
{
    if reads.len() > 0 {
        lemma_reads_of(member, reads.drop_last(), t);
    }
}

impl CycleRun {
    pub closed spec fn view(&self) -> RunView {
        RunView {
            members: self.unit.members@,
            cells: self.unit.cells@,
            task: self.unit.task@,
            list: self.list@,
            next: self.next as int,
            edges: self.edges@,
            last: self.last,
            round: self.round,
            phase: self.phase,
        }
    }

    /// The members ahead can run, and the reads are of members that did. There are no more members
    /// than reads can number.
    pub closed spec fn wf(&self) -> bool {
        &&& self.unit.wf()
        &&& self.unit.members@.len() <= u32::MAX
        &&& self.next <= self.list@.len()
        &&& can_run(self.unit.task@, self.list@, self.next as int)
        &&& are_reads(self.unit.task@, self.edges@)
        &&& self.phase == CyclePhase::Running ==> self.next < self.list@.len()
        &&& self.phase == CyclePhase::Classifying ==> self.next == self.list@.len()
    }

    /// Begins the evaluation of a cycle. The second answer holds the locks to release.
    pub fn begin(
        locks: &mut ShimSpillManager,
        grid: &mut Grid,
        delta: &mut DeltaCollector,
        policy: CyclePolicy,
        cycle: &Vec<SccVertex>,
        kept: &FxHashMap<u32, LiteralValue>,
    ) -> (r: (CycleRun, Vec<u64>))
        requires
            old(grid).wf(),
            old(delta).wf(),
            cycle@.len() <= u32::MAX,
        ensures
            final(grid).wf(),
            final(delta).wf(),
            r.0.wf(),
            exists|order: Seq<usize>, unit: SccUnit|
                {
                    &&& #[trigger] is_member_order(cycle@, order)
                    &&& #[trigger] beginning(unit) == r.0@
                    &&& begun(
                        old(locks)@,
                        old(grid)@,
                        old(delta)@,
                        policy,
                        taken_from(cycle@, order),
                        kept_view(kept@),
                        unit,
                        r.1@,
                        final(locks)@,
                        final(grid)@,
                        final(delta)@,
                    )
                },
    {
        let ghost l0 = locks@;
        let ghost g0 = grid@;
        let ghost d0 = delta@;
        let (unit, released) = begin_scc_unit(locks, grid, delta, policy, cycle, kept);
        let ghost order = choose|order: Seq<usize>|
            is_member_order(cycle@, order) && begun(
                l0,
                g0,
                d0,
                policy,
                #[trigger] taken_from(cycle@, order),
                kept_view(kept@),
                unit,
                released@,
                locks@,
                grid@,
                delta@,
            );
        let ghost model = unit;
        let list = unit.task.evaluable();
        proof {
            assert(unit.members@.len() == order.len());
            lemma_members_where(unit.task@.size(), |i: int| !unit.task@.excluded[i]);
        }
        let run = CycleRun {
            unit,
            list,
            next: 0,
            edges: Vec::new(),
            last: false,
            round: None,
            phase: CyclePhase::Opening,
        };
        assert(run@.edges =~= Seq::empty());
        assert(beginning(model) == run@);
        assert(is_member_order(cycle@, order));
        assert(begun(
            l0,
            g0,
            d0,
            policy,
            taken_from(cycle@, order),
            kept_view(kept@),
            model,
            released@,
            locks@,
            grid@,
            delta@,
        ));
        (run, released)
    }

    /// What is done next.
    pub fn action(&self) -> (action: CycleAction)
        requires
            self.wf(),
        ensures
            is_action(self@, action),
    {
        match self.phase {
            CyclePhase::Opening => CycleAction::OpenPass,
            CyclePhase::Running => {
                let member = self.list[self.next];
                CycleAction::Run { member, vertex: self.unit.members[member] }
            },
            CyclePhase::Classifying => CycleAction::Classify(self.unit.task.live_edges()),
            CyclePhase::Ended => CycleAction::Finish,
        }
    }

    fn advance(&mut self)
        requires
            old(self).unit.wf(),
            old(self).unit.members@.len() <= u32::MAX,
            old(self).next <= old(self).list@.len(),
            can_run(old(self).unit.task@, old(self).list@, old(self).next as int),
            are_reads(old(self).unit.task@, old(self).edges@),
        ensures
            final(self).wf(),
            final(self)@ == old(self)@.advanced(),
    {
        if self.next < self.list.len() {
            self.phase = CyclePhase::Running;
            return;
        }
        if self.last {
            self.phase = CyclePhase::Ended;
            return;
        }
        self.unit.task.record_edges(&self.edges);
        self.phase = if self.unit.task.has_no_reads() {
            CyclePhase::Ended
        } else {
            CyclePhase::Classifying
        };
    }

    /// Begins a pass, unless the evaluation is cancelled.
    pub fn open(&mut self, cancelled: bool) -> (r: Result<(), ExcelError>)
        requires
            old(self).wf(),
            old(self)@.phase == CyclePhase::Opening,
        ensures
            final(self).wf(),
            final(self)@ == old(self)@.opened(cancelled),
            match r {
                Ok(()) => !cancelled,
                Err(e) => cancelled && e@ == cancelled_at(CancelPoint::CyclePass),
            },
    {
        if let Err(e) = check_cancel(CancelPoint::CyclePass, cancelled) {
            self.phase = CyclePhase::Ended;
            return Err(e);
        }
        self.advance();
        Ok(())
    }

    /// Takes over the result of the member that ran, and which members it read. The answer is the
    /// lock to release.
    pub fn ran(
        &mut self,
        locks: &mut ShimSpillManager,
        grid: &mut Grid,
        value: LiteralValue,
        reads: &Vec<u32>,
    ) -> (released: Option<u64>)
        requires
            old(self).wf(),
            old(self)@.phase == CyclePhase::Running,
            old(grid).wf(),
        ensures
            final(self).wf(),
            final(grid).wf(),
            final(self)@ == old(self)@.having_run(value@, reads@),
            (final(grid)@, final(locks)@) == old(self)@.committed(
                old(grid)@,
                old(locks)@,
                value@,
            ),
            ({
                let i = old(self)@.list[old(self)@.next];
                let v = old(self)@.members[i as int];
                released == (if old(self)@.cells[i as int] is Some && value@ is Array && old(
                    locks,
                )@.contains_key(v) {
                    Some(old(locks)@[v])
                } else {
                    None
                })
            }),
    {
        let ghost v0 = self@;
        let member = self.list[self.next];
        let released = commit_member(locks, grid, &mut self.unit, member, value, self.next);
        let n: usize = self.unit.members.len();
        let total: usize = self.list.len();
        let ghost before = self.edges@;
        let ghost t = self.unit.task@;
        let mut k: usize = 0;
        assert(reads@.take(0) =~= Seq::empty());
        assert(before =~= before + reads_of(member, reads@.take(0), n as nat));
        while k < reads.len()
            invariant
                k <= reads@.len(),
                n <= u32::MAX,
                member < n,
                self.edges@ == before + reads_of(member, reads@.take(k as int), n as nat),
                self.unit.task@ == t,
                self.unit.members@.len() == n,
                self.unit.wf(),
                self.list@ == v0.list,
                self.next == v0.next,
                self.next < total,
                total == self.list@.len(),
                self.last == v0.last,
                self.round == v0.round,
                self.unit.members@ == v0.members,
                self.unit.cells@ == v0.cells,
            decreases reads@.len() - k,
        {
            assert(reads@.take(k + 1).drop_last() =~= reads@.take(k as int));
            let ghost prior = self.edges@;
            if (reads[k] as usize) < n {
                self.edges.push((member as u32, reads[k]));
            }
            assert(self.edges@ =~= before + reads_of(member, reads@.take(k + 1), n as nat));
            k = k + 1;
        }
        assert(reads@.take(k as int) =~= reads@);
        self.next = self.next + 1;
        proof {
            lemma_reads_of(member, reads@, t);
            let added = reads_of(member, reads@, n as nat);
            assert forall|k: int| 0 <= k < self.edges@.len() implies (#[trigger] self.edges@[k]).0
                < t.size() && self.edges@[k].1 < t.size() && t.pos[self.edges@[k].0 as int] is Some by {
                if k < before.len() {
                    assert(self.edges@[k] == before[k]);
                } else {
                    assert(self.edges@[k] == added[k - before.len()]);
                }
            }
            assert forall|k: int| self.next <= k < self.list@.len() implies (
            #[trigger] self.list@[k]) < t.size() && !t.excluded[self.list@[k] as int] by {
                assert(self.list@[v0.next] != self.list@[k]);
            }
        }
        self.advance();
        released
    }

    /// Takes over the classification of the reads of the pass and the tests of convergence, and goes
    /// on as the task decides. The answer holds the locks to release.
    pub fn classified(
        &mut self,
        locks: &mut ShimSpillManager,
        grid: &mut Grid,
        live: &LiveAnalysis,
        outcomes: &Vec<ConvergenceOutcome>,
    ) -> (released: Vec<u64>)
        requires
            old(self).wf(),
            old(self)@.phase == CyclePhase::Classifying,
            old(grid).wf(),
            is_analysis(*live, old(self)@.members.len()),
            outcomes@.len() == old(self)@.members.len(),
            old(self)@.task.passes < usize::MAX,
        ensures
            final(self).wf(),
            final(grid).wf(),
            exists|step: SccStep, task: TaskView|
                {
                    let vs = old(self)@.marked(step);
                    &&& #[trigger] decided(
                        old(self)@.task,
                        *live,
                        flags_of(outcomes@),
                        step,
                        task,
                    )
                    &&& final(self)@ == old(self)@.classified(*live, outcomes@, step, task)
                    &&& final(grid)@ == stamped_grid(old(grid)@, vs, None, vs.len())
                    &&& (final(locks)@, released@) == given_up(old(locks)@, vs, None, vs.len())
                },
    {
        let ghost v0 = self@;
        let ghost g0 = grid@;
        let ghost l0 = locks@;
        let n: usize = self.unit.members.len();
        if live.cycle_count > 0 && self.unit.task.iterates_again() {
            self.round = Some(self.unit.task.round(outcomes));
        }
        let mut converged: Vec<bool> = Vec::new();
        let mut i: usize = 0;
        while i < outcomes.len()
            invariant
                i <= outcomes@.len(),
                converged@ == flags_of(outcomes@).take(i as int),
            decreases outcomes@.len() - i,
        {
            converged.push(outcomes[i].converged);
            assert(converged@ =~= flags_of(outcomes@).take(i + 1));
            i = i + 1;
        }
        assert(converged@ =~= flags_of(outcomes@));
        let step = self.unit.task.decide(live, &converged);
        let ghost decision = step;
        let ghost task = self.unit.task@;
        proof {
            lemma_decided_runs(v0.task, *live, flags_of(outcomes@), decision, task);
            let none = v0.marked(SccStep::Done);
            assert(stamped_grid(g0, none, None, 0) == g0);
            assert(given_up(l0, none, None, 0) == (l0, Seq::<u64>::empty()));
        }
        let mut released: Vec<u64> = Vec::new();
        assert(released@ =~= Seq::empty());
        match step {
            SccStep::Done => {
                self.phase = CyclePhase::Ended;
            },
            SccStep::StampRest(stamp) => {
                released = stamp_members(locks, grid, &self.unit, &stamp);
                self.phase = CyclePhase::Ended;
            },
            SccStep::Run(run) => {
                self.list = run;
                self.next = 0;
                self.edges = Vec::new();
                self.phase = CyclePhase::Opening;
            },
            SccStep::StampAndSettle { stamp, run } => {
                released = stamp_members(locks, grid, &self.unit, &stamp);
                self.list = run;
                self.next = 0;
                self.edges = Vec::new();
                self.last = true;
                self.phase = CyclePhase::Opening;
            },
        }
        proof {
            assert(decided(v0.task, *live, flags_of(outcomes@), decision, task));
            assert(self@ =~= v0.classified(*live, outcomes@, decision, task));
        }
        released
    }

    /// How many members the cycle has.
    pub fn size(&self) -> (n: usize)
        ensures
            n == self@.members.len(),
    {
        self.unit.members.len()
    }

    /// The vertices of the members, in their order.
    pub fn members(&self) -> (members: &Vec<VertexId>)
        ensures
            members@ == self@.members,
    {
        &self.unit.members
    }

    /// The values of a member before and after the last full pass, for the test of convergence.
    pub fn convergence_pair(&self, i: usize) -> (r: Option<(&LiteralValue, &LiteralValue)>)
        requires
            self.wf(),
            i < self@.members.len(),
        ensures
            match (r, self@.task.prev) {
                (Some((a, b)), Some(prev)) => a@ == prev[i as int] && b@
                    == self@.task.last[i as int],
                (None, None) => true,
                _ => false,
            },
    {
        self.unit.task.convergence_pair(i)
    }

    /// What the evaluation amounts to.
    pub fn report(&self) -> (r: SccReport)
        ensures
            r.stamped == self@.task.stamped,
            r.passes == self@.task.passes,
            r.witnessed_cycles == self@.task.witnessed_cycles,
            r.phantom == (self@.task.witnessed_cycles == 0 && self@.task.stamped == 0
                && !self@.task.capped),
            r.iterated == self@.task.iterating,
            r.converged == (self@.task.converged || (self@.task.iterating && !self@.task.capped)),
            r.capped == self@.task.capped,
    {
        self.unit.task.report()
    }

    /// What the last tests of convergence amount to.
    pub fn round(&self) -> (r: Option<ConvergenceRound>)
        ensures
            r == self@.round,
    {
        self.round
    }

    /// Ends the evaluation: each member in a cell is collected once, where its value differs from
    /// the one before. The answer holds the members that have to be evaluated again at every
    /// recalculation.
    pub fn finish(&self, delta: &mut DeltaCollector) -> (redirty: Vec<VertexId>)
        requires
            self.wf(),
            old(delta).wf(),
        ensures
            final(delta).wf(),
            final(delta)@ == self@.finished(old(delta)@),
            redirty@ == self@.redirtied(),
    {
        finish_scc_unit(&self.unit, delta)
    }
}

impl RunView {
    /// The collected cells once the evaluation has ended.
    pub open spec fn finished(self, d: DeltaView) -> DeltaView {
        finished_delta(
            d,
            self.cells,
            changed_members(self.task),
            changed_members(self.task).len(),
        )
    }

    /// The members that have to be evaluated again at every recalculation.
    pub open spec fn redirtied(self) -> Seq<u32> {
        if self.task.iterating {
            self.members
        } else {
            Seq::empty()
        }
    }

    /// The lock that is released once the next member has run.
    pub open spec fn freed(self, locks: Map<u32, u64>, value: ValueView) -> Seq<u64> {
        let i = self.list[self.next];
        let v = self.members[i as int];
        if self.cells[i as int] is Some && value is Array && locks.contains_key(v) {
            seq![locks[v]]
        } else {
            Seq::empty()
        }
    }
}

/// A cycle under evaluation, with what its members show and the locks that are held. `released` holds
/// the locks that were released on the way.
#[verifier::ext_equal]
pub struct CycleState {
    pub run: RunView,
    pub grid: GridView,
    pub locks: Map<u32, u64>,
    pub released: Seq<u64>,
}

/// What the surroundings answer to an action.
pub enum CycleEvent {
    /// A pass may begin, unless the evaluation is cancelled.
    Opened { cancelled: bool },
    /// The member came to a value, and read these members.
    Ran { value: ValueView, reads: Seq<u32> },
    /// The reads were classified, and the members tested.
    Classified { live: LiveAnalysis, outcomes: Seq<ConvergenceOutcome> },
}

/// Whether the answer leads from one state to another.
pub open spec fn is_step(s: CycleState, event: CycleEvent, t: CycleState) -> bool {
    match event {
        CycleEvent::Opened { cancelled } => {
            &&& s.run.phase == CyclePhase::Opening
            &&& t == (CycleState { run: s.run.opened(cancelled), ..s })
        },
        CycleEvent::Ran { value, reads } => {
            &&& s.run.phase == CyclePhase::Running
            &&& t == (CycleState {
                run: s.run.having_run(value, reads),
                grid: s.run.committed(s.grid, s.locks, value).0,
                locks: s.run.committed(s.grid, s.locks, value).1,
                released: s.released + s.run.freed(s.locks, value),
            })
        },
        CycleEvent::Classified { live, outcomes } => {
            &&& s.run.phase == CyclePhase::Classifying
            &&& exists|step: SccStep, task: TaskView|
                {
                    let vs = s.run.marked(step);
                    &&& #[trigger] decided(s.run.task, live, flags_of(outcomes), step, task)
                    &&& t == (CycleState {
                        run: s.run.classified(live, outcomes, step, task),
                        grid: stamped_grid(s.grid, vs, None, vs.len()),
                        locks: given_up(s.locks, vs, None, vs.len()).0,
                        released: s.released + given_up(s.locks, vs, None, vs.len()).1,
                    })
                }
        },
    }
}

/// Any state: one that lies between two others.
pub open spec fn on_the_way(mid: CycleState) -> bool {
    true
}

/// Whether `n` answers lead from one state to another, where the surroundings answer by the state.
pub open spec fn is_run(
    s: CycleState,
    answers: spec_fn(CycleState) -> CycleEvent,
    n: nat,
    t: CycleState,
) -> bool
    decreases n,
{
    if n == 0 {
        t == s
    } else {
        exists|mid: CycleState|
            {
                &&& #[trigger] on_the_way(mid)
                &&& is_run(s, answers, (n - 1) as nat, mid)
                &&& is_step(mid, answers(mid), t)
            }
    }
}

/// What the task decides is determined by the classified reads and the tests.
proof fn lemma_decided_once(
    before: TaskView,
    live: LiveAnalysis,
    converged: Seq<bool>,
    a: SccStep,
    x: TaskView,
    b: SccStep,
    y: TaskView,
)
    requires
        decided(before, live, converged, a, x),
        decided(before, live, converged, b, y),
    ensures
        x == y,
        a is Done == b is Done,
        a matches SccStep::Run(p) ==> (b matches SccStep::Run(q) && p@ == q@),
        a matches SccStep::StampRest(p) ==> (b matches SccStep::StampRest(q) && p@ == q@),
        a matches SccStep::StampAndSettle { stamp: p, run: r } ==> (
        b matches SccStep::StampAndSettle { stamp: q, run: s } && p@ == q@ && r@ == s@),
{
    if a is Run && live.cycle_count == 0 {
        let members = before.stale();
        let keys = rank_keys(live.topo@, members);
        let (p, q) = (a->Run_0@, b->Run_0@);
        let m = choose|order: Seq<usize>|
            {
                &&& #[trigger] is_stable_order(keys, order)
                &&& p == Seq::new(members.len(), |k: int| members[order[k] as int])
            };
        let n = choose|order: Seq<usize>|
            {
                &&& #[trigger] is_stable_order(keys, order)
                &&& q == Seq::new(members.len(), |k: int| members[order[k] as int])
            };
        lemma_one_stable_order(keys, m, n);
    }
}

/// An answer leads to one state.
pub proof fn cycle_steps_are_determined(s: CycleState, event: CycleEvent, t: CycleState, u: CycleState)
    requires
        is_step(s, event, t),
        is_step(s, event, u),
    ensures
        t == u,
{
    if let CycleEvent::Classified { live, outcomes } = event {
        let flags = flags_of(outcomes);
        let (a, x) = choose|step: SccStep, task: TaskView|
            {
                let vs = s.run.marked(step);
                &&& #[trigger] decided(s.run.task, live, flags, step, task)
                &&& t == (CycleState {
                    run: s.run.classified(live, outcomes, step, task),
                    grid: stamped_grid(s.grid, vs, None, vs.len()),
                    locks: given_up(s.locks, vs, None, vs.len()).0,
                    released: s.released + given_up(s.locks, vs, None, vs.len()).1,
                })
            };
        let (b, y) = choose|step: SccStep, task: TaskView|
            {
                let vs = s.run.marked(step);
                &&& #[trigger] decided(s.run.task, live, flags, step, task)
                &&& u == (CycleState {
                    run: s.run.classified(live, outcomes, step, task),
                    grid: stamped_grid(s.grid, vs, None, vs.len()),
                    locks: given_up(s.locks, vs, None, vs.len()).0,
                    released: s.released + given_up(s.locks, vs, None, vs.len()).1,
                })
            };
        lemma_decided_once(s.run.task, live, flags, a, x, b, y);
    }
}

/// The same answers lead to one state.
proof fn lemma_one_run(
    s: CycleState,
    answers: spec_fn(CycleState) -> CycleEvent,
    n: nat,
    t: CycleState,
    u: CycleState,
)
    requires
        is_run(s, answers, n, t),
        is_run(s, answers, n, u),
    ensures
        t == u,
    decreases n,
{
    if n > 0 {
        let a = choose|mid: CycleState|
            {
                &&& #[trigger] on_the_way(mid)
                &&& is_run(s, answers, (n - 1) as nat, mid)
                &&& is_step(mid, answers(mid), t)
            };
        let b = choose|mid: CycleState|
            {
                &&& #[trigger] on_the_way(mid)
                &&& is_run(s, answers, (n - 1) as nat, mid)
                &&& is_step(mid, answers(mid), u)
            };
        lemma_one_run(s, answers, (n - 1) as nat, a, b);
        cycle_steps_are_determined(a, answers(a), t, u);
    }
}

/// The order in which the members of a cycle are given does not matter: for another list of the same
/// vertices the evaluation ends alike. The members have the same values and show them in the same
/// cells, as many of them are marked, the same cells are collected, the same locks are released, and
/// the same members are evaluated again at every recalculation.
pub proof fn cycles_end_alike_in_any_order(
    locks: Map<u32, u64>,
    g: GridView,
    d: DeltaView,
    policy: CyclePolicy,
    a: Seq<SccVertex>,
    x: Seq<usize>,
    b: Seq<SccVertex>,
    y: Seq<usize>,
    kept: Map<u32, ValueView>,
    units: (SccUnit, SccUnit),
    starts: (CycleState, CycleState),
    deltas: (DeltaView, DeltaView),
    answers: spec_fn(CycleState) -> CycleEvent,
    n: nat,
    ends: (CycleState, CycleState),
)
    requires
        are_distinct(a),
        is_rearranged(a, b),
        is_member_order(a, x),
        is_member_order(b, y),
        begun(
            locks,
            g,
            d,
            policy,
            taken_from(a, x),
            kept,
            units.0,
            starts.0.released,
            starts.0.locks,
            starts.0.grid,
            deltas.0,
        ),
        starts.0.run == beginning(units.0),
        begun(
            locks,
            g,
            d,
            policy,
            taken_from(b, y),
            kept,
            units.1,
            starts.1.released,
            starts.1.locks,
            starts.1.grid,
            deltas.1,
        ),
        starts.1.run == beginning(units.1),
        is_run(starts.0, answers, n, ends.0),
        is_run(starts.1, answers, n, ends.1),
    ensures
        ends.0 == ends.1,
        ends.0.run.task.stamped == ends.1.run.task.stamped,
        ends.0.run.finished(deltas.0) == ends.1.run.finished(deltas.1),
        ends.0.run.redirtied() == ends.1.run.redirtied(),
{
    cycles_begin_alike_in_any_order(
        locks,
        g,
        d,
        policy,
        a,
        x,
        b,
        y,
        kept,
        units,
        (starts.0.released, starts.1.released),
        (starts.0.locks, starts.1.locks),
        (starts.0.grid, starts.1.grid),
        deltas,
    );
    assert(starts.0 =~= starts.1);
    lemma_one_run(starts.0, answers, n, ends.0, ends.1);
}

/// The evaluation of a cycle before its first pass.
pub open spec fn beginning(unit: SccUnit) -> RunView {
    RunView {
        members: unit.members@,
        cells: unit.cells@,
        task: unit.task@,
        list: unit.task@.evaluable(),
        next: 0,
        edges: Seq::empty(),
        last: false,
        round: None,
        phase: CyclePhase::Opening,
    }
}

/// A cycle counts as converged only by a classification in which every member that is still evaluated
/// had converged since a full pass before.
pub proof fn a_cycle_converges_only_as_a_whole(s: CycleState, event: CycleEvent, t: CycleState, i: int)
    requires
        is_step(s, event, t),
        s.run.task.wf(),
        s.run.task.size() <= usize::MAX,
        s.run.task.policy is Iterate,
        event matches CycleEvent::Classified { live, .. } ==> live.cycle_count > 0,
        0 <= i < s.run.task.size(),
        !s.run.task.excluded[i],
        s.run.task.out_edges[i].len() > 0,
    ensures
        t.run.task.converged && !s.run.task.converged ==> (event matches CycleEvent::Classified {
            outcomes,
            ..
        } && s.run.task.prev is Some && forall|j: int|
            0 <= j < s.run.task.size() && !s.run.task.excluded[j] && j < outcomes.len()
                ==> (#[trigger] outcomes[j]).converged),
{
    if let CycleEvent::Classified { live, outcomes } = event {
        let (step, task) = choose|step: SccStep, task: TaskView|
            {
                let vs = s.run.marked(step);
                &&& #[trigger] decided(s.run.task, live, flags_of(outcomes), step, task)
                &&& t == (CycleState {
                    run: s.run.classified(live, outcomes, step, task),
                    grid: stamped_grid(s.grid, vs, None, vs.len()),
                    locks: given_up(s.locks, vs, None, vs.len()).0,
                    released: s.released + given_up(s.locks, vs, None, vs.len()).1,
                })
            };
        assert(t.run.task == task);
        let max = s.run.task.policy->max_iterations;
        iteration_goes_on_until_all_converge(
            s.run.task,
            live,
            flags_of(outcomes),
            step,
            task,
            max,
            i,
        );
        if task.converged && !s.run.task.converged {
            assert forall|j: int|
                0 <= j < s.run.task.size() && !s.run.task.excluded[j] && j < outcomes.len() implies (
            #[trigger] outcomes[j]).converged by {
                assert(flags_of(outcomes)[j] == outcomes[j].converged);
            }
        }
    }
}

/// The value of a member that ran stands in the grid; an array in a cell becomes the error of a cycle,
/// and the lock of the array is given up.
pub proof fn a_members_value_is_committed(v: RunView, g: GridView, locks: Map<u32, u64>, value: ValueView)
    requires
        0 <= v.next < v.list.len(),
        v.list[v.next] < v.members.len(),
    ensures
        ({
            let i = v.list[v.next] as int;
            let (h, after) = v.committed(g, locks, value);
            let u = v.members[i];
            let refused = v.cells[i] is Some && value is Array;
            &&& h.values.contains_key(u)
            &&& !refused ==> h.values[u] == value && after == locks
            &&& refused ==> (h.values[u] matches ValueView::Error(e) && e.kind == crate::value::ErrorKind::Circ)
                && !after.contains_key(u) && (locks.contains_key(u) ==> v.freed(locks, value) == seq![
                locks[u],
            ])
            &&& !refused ==> v.freed(locks, value).len() == 0
        }),
{
}

/// What a member read is taken down as an edge to each member read, and only to members.
pub proof fn reads_are_taken_down_as_edges(member: usize, reads: Seq<u32>, size: nat, k: int)
    requires
        member <= u32::MAX,
        0 <= k < reads.len(),
    ensures
        reads[k] < size ==> reads_of(member, reads, size).contains((member as u32, reads[k])),
        forall|e: int|
            0 <= e < reads_of(member, reads, size).len() ==> (#[trigger] reads_of(member, reads, size)[e]).0
                == member && reads_of(member, reads, size)[e].1 < size,
    decreases reads.len(),
{
    let front = reads_of(member, reads.drop_last(), size);
    lemma_edges_of(member, reads.drop_last(), size);
    if k < reads.len() - 1 {
        assert(reads.drop_last()[k] == reads[k]);
        reads_are_taken_down_as_edges(member, reads.drop_last(), size, k);
        if reads[k] < size {
            let e = choose|e: int| 0 <= e < front.len() && front[e] == (member as u32, reads[k]);
            assert(reads_of(member, reads, size)[e] == front[e]);
        }
    } else if reads[k] < size {
        assert(reads_of(member, reads, size)[front.len() as int] == (member as u32, reads[k]));
    }
}

proof fn lemma_edges_of(member: usize, reads: Seq<u32>, size: nat)
    requires
        member <= u32::MAX,
    ensures
        forall|e: int|
            0 <= e < reads_of(member, reads, size).len() ==> (#[trigger] reads_of(member, reads, size)[e]).0
                == member && reads_of(member, reads, size)[e].1 < size,
    decreases reads.len(),
{
    if reads.len() > 0 {
        let front = reads_of(member, reads.drop_last(), size);
        lemma_edges_of(member, reads.drop_last(), size);
        assert forall|e: int| 0 <= e < reads_of(member, reads, size).len() implies (#[trigger] reads_of(
            member,
            reads,
            size,
        )[e]).0 == member && reads_of(member, reads, size)[e].1 < size by {
            if e < front.len() {
                assert(reads_of(member, reads, size)[e] == front[e]);
            }
        }
    }
}

/// A pass runs its members one after the other; a cancelled one ends the cycle. A pass that ran all of
/// its members is classified, unless it was the last or nothing was read.
pub proof fn a_pass_runs_to_its_end(v: RunView)
    ensures
        v.opened(true).phase == CyclePhase::Ended,
        v.opened(true).task == v.task,
        v.next < v.list.len() ==> v.advanced().phase == CyclePhase::Running && v.opened(false).phase
            == CyclePhase::Running && v.advanced().task == v.task,
        v.next >= v.list.len() && v.last ==> v.advanced().phase == CyclePhase::Ended,
        v.next >= v.list.len() && !v.last ==> v.advanced().phase == CyclePhase::Ended
            || v.advanced().phase == CyclePhase::Classifying,
        v.redirtied() == (if v.task.iterating {
            v.members
        } else {
            Seq::empty()
        }),
{
}

/// After a classification the cycle ends where nothing is left to run, and else opens a pass over the
/// members to run, which is the last one where others were stamped.
pub proof fn a_classification_ends_or_opens_a_pass(
    v: RunView,
    live: LiveAnalysis,
    outcomes: Seq<ConvergenceOutcome>,
    step: SccStep,
    task: TaskView,
)
    ensures
        ({
            let w = v.classified(live, outcomes, step, task);
            &&& w.task == task && w.members == v.members && w.cells == v.cells
            &&& step is Done || step is StampRest ==> w.phase == CyclePhase::Ended && v.marked(step).len()
                == (if step is Done {
                0
            } else {
                step->StampRest_0@.len()
            })
            &&& step matches SccStep::Run(run) ==> w.phase == CyclePhase::Opening && w.list == run@ && w.next
                == 0 && w.edges.len() == 0 && w.last == v.last && v.marked(step).len() == 0
            &&& step matches SccStep::StampAndSettle { stamp, run } ==> w.phase == CyclePhase::Opening && w.list
                == run@ && w.next == 0 && w.edges.len() == 0 && w.last && v.marked(step).len()
                == stamp@.len()
        }),
{
}

/// A cycle begins with a pass over the members that can run in it.
pub proof fn a_cycle_begins_with_all_that_can_run(unit: SccUnit, i: int)
    requires
        unit.task@.size() <= usize::MAX,
        0 <= i < unit.task@.size(),
    ensures
        beginning(unit).list.contains(i as usize) <==> !unit.task@.excluded[i],
        beginning(unit).phase == CyclePhase::Opening,
        beginning(unit).next == 0,
        !beginning(unit).last,
{
    let t = unit.task@;
    let keep = |i: int| !t.excluded[i];
    crate::scc_task::lemma_listed(t.size(), keep);
    assert(keep(i) == !t.excluded[i]);
}

/// The round of a pass has a change as large as that of every member which is still evaluated, and
/// counts those that have converged without a number.
pub proof fn a_round_bounds_the_changes_of_its_members(t: TaskView, outcomes: Seq<ConvergenceOutcome>, i: int)
    requires
        outcomes.len() <= usize::MAX,
        0 <= i < outcomes.len(),
        !t.excluded[i],
    ensures
        outcomes[i].abs_delta matches Some(d) ==> (!crate::number::is_nan(d) ==> round_of(
            t,
            outcomes,
        ).max_delta >= d),
        outcomes[i].nan_converged ==> round_of(t, outcomes).nan_converged > 0,
        (forall|k: int| 0 <= k < outcomes.len() ==> t.excluded[k] || !(#[trigger] outcomes[k]).nan_converged)
            ==> round_of(t, outcomes).nan_converged == 0,
{
    if outcomes[i].abs_delta matches Some(d) && !crate::number::is_nan(d) {
        crate::scc_task::the_largest_change_bounds_all(t, outcomes, outcomes.len(), i);
    }
    crate::scc_task::members_without_a_number_are_counted(t, outcomes, outcomes.len(), i);
}

} // verus!
