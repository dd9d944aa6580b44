//! The evaluation of one cycle, pass by pass.
//!
//! The driver evaluates members and classifies the reads that occurred; everything that follows
//! from that is decided here: which members run next, which are stamped, and when to stop.
use crate::scc::{CyclePolicy, circ_error, circ_value};
use crate::sort::{is_ascending, is_stable_order, sort_order, sorted_distinct};
use crate::number::ZERO_BITS;
use crate::telemetry::{larger_double, max_double};
use crate::value::{LiteralValue, ValueView, duplicate_row, row_view, value_eq};
use crate::vertex::VertexKind;
use vstd::prelude::*;

verus! {

/// The classification of the reads that occurred: how many live cycles there are, which members
/// lie in one, and an order of the others in which everything comes after what it reads.
#[derive(Debug)]
pub struct LiveAnalysis {
    pub cycle_count: usize,
    pub in_cycle: Vec<bool>,
    pub topo: Vec<u32>,
}

/// Whether the analysis speaks of `n` members.
pub open spec fn fits(live: LiveAnalysis, n: nat) -> bool {
    &&& live.in_cycle@.len() == n
    &&& forall|k: int| 0 <= k < live.topo@.len() ==> (#[trigger] live.topo@[k]) < n
}

/// The state of the evaluation of one cycle.
#[derive(Debug)]
pub struct SccTask {
    policy: CyclePolicy,
    is_cell: Vec<bool>,
    snapshot: Vec<LiteralValue>,
    last_value: Vec<LiteralValue>,
    excluded: Vec<bool>,
    out_edges: Vec<Vec<u32>>,
    pos: Vec<Option<usize>>,
    changed: Vec<bool>,
    prev_pass: Option<Vec<LiteralValue>>,
    stamped: usize,
    passes: usize,
    settle_passes: usize,
    witnessed_cycles: usize,
    capped: bool,
    iterating: bool,
    converged: bool,
}

/// The model of an [`SccTask`].
#[verifier::ext_equal]
pub struct TaskView {
    pub policy: CyclePolicy,
    /// Which members stand in a cell.
    pub is_cell: Seq<bool>,
    /// The values before the task.
    pub snapshot: Seq<ValueView>,
    /// The value that each member has now.
    pub last: Seq<ValueView>,
    /// The members that are not evaluated any more.
    pub excluded: Seq<bool>,
    /// The members that each member was last seen to read.
    pub out_edges: Seq<Seq<u32>>,
    /// The place of each member in the last pass, where it ran.
    pub pos: Seq<Option<usize>>,
    /// Which members changed in the last pass.
    pub changed: Seq<bool>,
    /// The values before the last pass, where that pass ran all members.
    pub prev: Option<Seq<ValueView>>,
    pub stamped: nat,
    pub passes: nat,
    pub settle_passes: nat,
    pub witnessed_cycles: nat,
    pub capped: bool,
    pub iterating: bool,
    pub converged: bool,
}

pub open spec fn edges_view(edges: Seq<Vec<u32>>) -> Seq<Seq<u32>> {
    Seq::new(edges.len(), |i: int| edges[i]@)
}

impl TaskView {
    pub open spec fn size(self) -> nat {
        self.is_cell.len()
    }

    /// All parts speak of the same members, reads name members, at most as many members were
    /// stamped as are left out, and the passes keep within their budgets: at most one settling pass
    /// more than there are members, and at most `max_iterations` passes besides.
    pub open spec fn wf(self) -> bool {
        &&& self.snapshot.len() == self.size()
        &&& self.last.len() == self.size()
        &&& self.excluded.len() == self.size()
        &&& self.out_edges.len() == self.size()
        &&& self.pos.len() == self.size()
        &&& self.changed.len() == self.size()
        &&& forall|i: int, k: int|
            0 <= i < self.size() && 0 <= k < self.out_edges[i].len()
                ==> #[trigger] self.out_edges[i][k] < self.size()
        &&& self.stamped <= count_true(self.excluded)
        &&& self.settle_passes <= self.size() + 1
        &&& self.settle_passes < self.passes
        &&& self.prev matches Some(prev) ==> prev.len() == self.size()
        &&& self.policy matches CyclePolicy::Iterate { max_iterations } ==> self.passes
            <= self.settle_passes + (if max_iterations == 0 {
            1
        } else {
            max_iterations as int
        })
    }

    /// The members that are evaluated, in order.
    pub open spec fn evaluable(self) -> Seq<usize> {
        members_where(self.size(), |i: int| !self.excluded[i])
    }

    /// Whether the member read a value that changed after it read it.
    pub open spec fn is_stale(self, i: int) -> bool {
        !self.excluded[i] && exists|k: int|
            0 <= k < self.out_edges[i].len() && self.read_too_early(
                i,
                #[trigger] self.out_edges[i][k] as int,
            )
    }

    /// Whether `t` changed in the last pass, and `i` did not run in it or ran before `t`.
    pub open spec fn read_too_early(self, i: int, t: int) -> bool {
        self.changed[t] && match self.pos[i] {
            None => true,
            Some(p) => match self.pos[t] {
                None => false,
                Some(q) => p < q,
            },
        }
    }

    /// The members that read too early.
    pub open spec fn stale(self) -> Seq<usize> {
        members_where(self.size(), |i: int| self.is_stale(i))
    }

    /// The task with every marked member stamped.
    pub open spec fn stamping(self, marks: Seq<bool>) -> TaskView {
        TaskView {
            last: Seq::new(
                self.size(),
                |i: int|
                    if marks[i] && !self.excluded[i] {
                        circ_value()
                    } else {
                        self.last[i]
                    },
            ),
            excluded: Seq::new(self.size(), |i: int| self.excluded[i] || marks[i]),
            stamped: self.stamped + count_true(
                Seq::new(self.size(), |i: int| marks[i] && !self.excluded[i]),
            ),
            ..self
        }
    }

    /// The task as a new pass begins.
    pub open spec fn clearing_marks(self) -> TaskView {
        TaskView {
            pos: Seq::new(self.size(), |i: int| None),
            changed: Seq::new(self.size(), |i: int| false),
            passes: self.passes + 1,
            ..self
        }
    }

    /// The task once member `i` has run with the given result, at place `place` of its pass.
    /// A member in a cell that would spill is stamped and left out from then on.
    pub open spec fn running(self, i: int, value: ValueView, place: usize) -> TaskView {
        let spills = self.is_cell[i] && value is Array;
        let committed = if spills {
            circ_value()
        } else {
            value
        };
        TaskView {
            last: self.last.update(i, committed),
            changed: self.changed.update(i, !value_eq(self.last[i], committed)),
            excluded: if spills {
                self.excluded.update(i, true)
            } else {
                self.excluded
            },
            stamped: if spills {
                self.stamped + 1
            } else {
                self.stamped
            },
            pos: self.pos.update(i, Some(place)),
            ..self
        }
    }

    /// The task once the reads of the last pass are known: a member that ran has the reads that
    /// were recorded for it, any other keeps those of before.
    pub open spec fn with_edges(self, drained: Seq<(u32, u32)>) -> TaskView {
        TaskView {
            out_edges: Seq::new(
                self.size(),
                |i: int|
                    if self.pos[i] is Some {
                        targets(drained, i)
                    } else {
                        self.out_edges[i]
                    },
            ),
            ..self
        }
    }

    /// Whether no member that is still evaluated reads a member.
    pub open spec fn has_no_reads(self) -> bool {
        forall|i: int| 0 <= i < self.size() && !self.excluded[i] ==> (#[trigger] self.out_edges[i]).len()
            == 0
    }

    /// Whether a member that is still evaluated reads a member.
    pub open spec fn live_edge(self, from: int, to: int) -> bool {
        0 <= from < self.size() && !self.excluded[from] && exists|k: int|
            0 <= k < self.out_edges[from].len() && #[trigger] self.out_edges[from][k] == to
    }
}

/// How many entries are true.
pub open spec fn count_true(flags: Seq<bool>) -> nat
    decreases flags.len(),
{
    if flags.len() == 0 {
        0
    } else {
        count_true(flags.drop_last()) + (if flags.last() {
            1nat
        } else {
            0nat
        })
    }
}

/// The members below `n` for which `keep` holds, in order.
pub open spec fn members_where(n: nat, keep: spec_fn(int) -> bool) -> Seq<usize>
    decreases n,
{
    if n == 0 {
        Seq::empty()
    } else if keep(n - 1) {
        members_where((n - 1) as nat, keep).push((n - 1) as usize)
    } else {
        members_where((n - 1) as nat, keep)
    }
}

/// The targets of the edges that leave `from`, in the order of the edges.
pub open spec fn targets(edges: Seq<(u32, u32)>, from: int) -> Seq<u32>
    decreases edges.len(),
{
    if edges.len() == 0 {
        Seq::empty()
    } else if edges.last().0 == from {
        targets(edges.drop_last(), from).push(edges.last().1)
    } else {
        targets(edges.drop_last(), from)
    }
}

proof fn lemma_targets_known(edges: Seq<(u32, u32)>, from: int, n: nat)
    requires
        forall|k: int| 0 <= k < edges.len() ==> (#[trigger] edges[k]).1 < n,
    ensures
        forall|k: int| 0 <= k < targets(edges, from).len() ==> #[trigger] targets(edges, from)[k] < n,
    decreases edges.len(),
{
    if edges.len() > 0 {
        assert(edges[edges.len() - 1].1 < n);
        let front = targets(edges.drop_last(), from);
        lemma_targets_known(edges.drop_last(), from, n);
        assert forall|k: int| 0 <= k < targets(edges, from).len() implies #[trigger] targets(
            edges,
            from,
        )[k] < n by {
            if k < front.len() {
                assert(front[k] < n);
            }
        }
    }
}

proof fn lemma_count_update(flags: Seq<bool>, i: int)
    requires
        0 <= i < flags.len(),
        !flags[i],
    ensures
        count_true(flags.update(i, true)) == count_true(flags) + 1,
    decreases flags.len(),
{
    let updated = flags.update(i, true);
    if i == flags.len() - 1 {
        assert(updated.drop_last() =~= flags.drop_last());
    } else {
        assert(updated.drop_last() =~= flags.drop_last().update(i, true));
        lemma_count_update(flags.drop_last(), i);
    }
}

proof fn lemma_count_bound(flags: Seq<bool>)
    ensures
        count_true(flags) <= flags.len(),
    decreases flags.len(),
{
    if flags.len() > 0 {
        lemma_count_bound(flags.drop_last());
    }
}

proof fn lemma_count_union(flags: Seq<bool>, extra: Seq<bool>, both: Seq<bool>)
    requires
        flags.len() == extra.len() == both.len(),
        forall|i: int|
            0 <= i < flags.len() ==> #[trigger] both[i] == (flags[i] || extra[i]) && !(flags[i]
                && extra[i]),
    ensures
        count_true(both) == count_true(flags) + count_true(extra),
    decreases flags.len(),
{
    if flags.len() > 0 {
        assert(both[flags.len() - 1] == (flags.last() || extra.last()));
        lemma_count_union(flags.drop_last(), extra.drop_last(), both.drop_last());
    }
}

/// What the driver does next.
pub enum SccStep {
    /// Run these members in this order, then classify their reads.
    Run(Vec<usize>),
    /// Stamp these members, run these others in this order, and stop.
    StampAndSettle { stamp: Vec<usize>, run: Vec<usize> },
    /// Stamp these members and stop.
    StampRest(Vec<usize>),
    /// Stop.
    Done,
}

/// What a run of the task amounts to.
#[derive(Clone, Copy, Debug, PartialEq, Eq, Structural)]
pub struct SccReport {
    pub stamped: usize,
    pub passes: usize,
    pub witnessed_cycles: usize,
    pub phantom: bool,
    pub iterated: bool,
    pub converged: bool,
    pub capped: bool,
}

/// Whether a vertex of this kind is evaluated in a cycle.
pub open spec fn runs_in_cycle(kind: VertexKind) -> bool {
    kind == VertexKind::FormulaScalar || kind == VertexKind::NamedScalar || kind
        == VertexKind::NamedArray
}

/// The task before its first pass. A member that anchors a spill is stamped, a member that is no
/// formula and no name is left out; neither is evaluated.
pub open spec fn initial_task(
    policy: CyclePolicy,
    kinds: Seq<VertexKind>,
    is_cell: Seq<bool>,
    snapshot: Seq<ValueView>,
) -> TaskView {
    let n = kinds.len();
    TaskView {
        policy,
        is_cell,
        snapshot,
        last: Seq::new(
            n,
            |i: int|
                if kinds[i] == VertexKind::FormulaArray {
                    circ_value()
                } else {
                    snapshot[i]
                },
        ),
        excluded: Seq::new(n, |i: int| !runs_in_cycle(kinds[i])),
        out_edges: Seq::new(n, |i: int| Seq::empty()),
        pos: Seq::new(n, |i: int| None),
        changed: Seq::new(n, |i: int| false),
        prev: None,
        stamped: count_true(Seq::new(n, |i: int| kinds[i] == VertexKind::FormulaArray)),
        passes: 1,
        settle_passes: 0,
        witnessed_cycles: 0,
        capped: false,
        iterating: false,
        converged: false,
    }
}

impl SccTask {
    pub closed spec fn view(&self) -> TaskView {
        TaskView {
            policy: self.policy,
            is_cell: self.is_cell@,
            snapshot: row_view(self.snapshot@),
            last: row_view(self.last_value@),
            excluded: self.excluded@,
            out_edges: edges_view(self.out_edges@),
            pos: self.pos@,
            changed: self.changed@,
            prev: match self.prev_pass {
                Some(prev) => Some(row_view(prev@)),
                None => None,
            },
            stamped: self.stamped as nat,
            passes: self.passes as nat,
            settle_passes: self.settle_passes as nat,
            witnessed_cycles: self.witnessed_cycles as nat,
            capped: self.capped,
            iterating: self.iterating,
            converged: self.converged,
        }
    }

    /// The task of a cycle whose members, in member order, have these kinds and values.
    pub fn new(
        policy: CyclePolicy,
        kinds: &Vec<VertexKind>,
        is_cell: Vec<bool>,
        snapshot: Vec<LiteralValue>,
    ) -> (t: SccTask)
        requires
            kinds@.len() == is_cell@.len(),
            kinds@.len() == snapshot@.len(),
        ensures
            t@ == initial_task(policy, kinds@, is_cell@, row_view(snapshot@)),
            t@.wf(),
    {
        let n: usize = kinds.len();
        let ghost goal = initial_task(policy, kinds@, is_cell@, row_view(snapshot@));
        let ghost arrays = Seq::new(kinds@.len(), |i: int| kinds@[i] == VertexKind::FormulaArray);
        let mut last_value: Vec<LiteralValue> = Vec::new();
        let mut excluded: Vec<bool> = Vec::new();
        let mut out_edges: Vec<Vec<u32>> = Vec::new();
        let mut pos: Vec<Option<usize>> = Vec::new();
        let mut changed: Vec<bool> = Vec::new();
        let mut stamped: usize = 0;
        let mut i: usize = 0;
        while i < n
            invariant
                n == kinds@.len(),
                i <= n,
                snapshot@.len() == n,
                arrays == Seq::new(kinds@.len(), |i: int| kinds@[i] == VertexKind::FormulaArray),
                last_value@.len() == i,
                excluded@.len() == i,
                out_edges@.len() == i,
                pos@.len() == i,
                changed@.len() == i,
                stamped == count_true(arrays.take(i as int)),
                stamped <= count_true(excluded@),
                stamped <= i,
                forall|k: int|
                    0 <= k < i ==> (#[trigger] last_value@[k])@ == (if kinds@[k]
                        == VertexKind::FormulaArray {
                        circ_value()
                    } else {
                        snapshot@[k]@
                    }),
                forall|k: int| 0 <= k < i ==> #[trigger] excluded@[k] == !runs_in_cycle(kinds@[k]),
                forall|k: int| 0 <= k < i ==> (#[trigger] out_edges@[k])@ == Seq::<u32>::empty(),
                forall|k: int| 0 <= k < i ==> #[trigger] pos@[k] == None::<usize>,
                forall|k: int| 0 <= k < i ==> #[trigger] changed@[k] == false,
            decreases n - i,
        {
            let ghost before = excluded@;
            proof {
                assert(arrays.take(i + 1).drop_last() =~= arrays.take(i as int));
                assert(arrays.take(i + 1).last() == arrays[i as int]);
            }
            match kinds[i] {
                VertexKind::FormulaArray => {
                    last_value.push(circ_error());
                    excluded.push(true);
                    stamped = stamped + 1;
                },
                VertexKind::FormulaScalar | VertexKind::NamedScalar | VertexKind::NamedArray => {
                    last_value.push(snapshot[i].duplicate());
                    excluded.push(false);
                },
                _ => {
                    last_value.push(snapshot[i].duplicate());
                    excluded.push(true);
                },
            }
            assert(excluded@.drop_last() =~= before);
            out_edges.push(Vec::new());
            pos.push(None);
            changed.push(false);
            i = i + 1;
        }
        assert(arrays.take(i as int) =~= arrays);
        let t = SccTask {
            policy,
            is_cell,
            snapshot,
            last_value,
            excluded,
            out_edges,
            pos,
            changed,
            prev_pass: None,
            stamped,
            passes: 1,
            settle_passes: 0,
            witnessed_cycles: 0,
            capped: false,
            iterating: false,
            converged: false,
        };
        proof {
            assert(t@.last =~= goal.last);
            assert(t@.excluded =~= goal.excluded);
            assert(t@.out_edges =~= goal.out_edges);
            assert(t@.pos =~= goal.pos);
            assert(t@.changed =~= goal.changed);
        }
        t
    }

    /// The members of a full pass.
    pub fn evaluable(&self) -> (r: Vec<usize>)
        requires
            self@.wf(),
        ensures
            r@ == self@.evaluable(),
    {
        let ghost keep = |i: int| !self@.excluded[i];
        let mut out: Vec<usize> = Vec::new();
        let mut i: usize = 0;
        while i < self.excluded.len()
            invariant
                i <= self.excluded@.len(),
                self.excluded@ == self@.excluded,
                keep == (|i: int| !self@.excluded[i]),
                out@ == members_where(i as nat, keep),
            decreases self.excluded@.len() - i,
        {
            if !self.excluded[i] {
                out.push(i);
            }
            i = i + 1;
        }
        out
    }

    /// Takes over the result of running member `i` at place `place` of its pass. The answer says
    /// whether the member was stamped because it would spill.
    pub fn record(&mut self, i: usize, value: LiteralValue, place: usize) -> (stamp: bool)
        requires
            old(self)@.wf(),
            i < old(self)@.size(),
            !old(self)@.excluded[i as int],
        ensures
            final(self)@ == old(self)@.running(i as int, value@, place),
            final(self)@.wf(),
            stamp == (old(self)@.is_cell[i as int] && value@ is Array),
    {
        let ghost before = self@;
        let spills = self.is_cell[i] && matches!(value, LiteralValue::Array(_));
        let committed = if spills {
            circ_error()
        } else {
            value
        };
        proof {
            lemma_count_bound(self.excluded@);
            if spills {
                lemma_count_update(self.excluded@, i as int);
                lemma_count_bound(self.excluded@.update(i as int, true));
            }
        }
        let same = self.last_value[i].same(&committed);
        self.changed.set(i, !same);
        self.last_value.set(i, committed);
        self.pos.set(i, Some(place));
        if spills {
            self.excluded.set(i, true);
            let size: usize = self.excluded.len();
            assert(self.stamped < size);
            self.stamped = self.stamped + 1;
        }
        proof {
            let goal = before.running(i as int, value@, place);
            assert(self@.last =~= goal.last);
            assert(self@.changed =~= goal.changed);
            assert(self@.excluded =~= goal.excluded);
            assert(self@.pos =~= goal.pos);
        }
        spills
    }

    /// Takes over the reads of the last pass.
    pub fn record_edges(&mut self, drained: &Vec<(u32, u32)>)
        requires
            old(self)@.wf(),
            forall|k: int|
                0 <= k < drained@.len() ==> (#[trigger] drained@[k]).0 < old(self)@.size()
                    && drained@[k].1 < old(self)@.size()
                    && old(self)@.pos[drained@[k].0 as int] is Some,
        ensures
            final(self)@ == old(self)@.with_edges(drained@),
            final(self)@.wf(),
    {
        let ghost before = self@;
        let mut cleared: Vec<Vec<u32>> = Vec::new();
        let n: usize = self.pos.len();
        let mut i: usize = 0;
        while i < n
            invariant
                i <= n,
                n == self.pos@.len(),
                self@ == before,
                before.wf(),
                before.size() == n,
                cleared@.len() == i,
                forall|k: int|
                    0 <= k < i ==> (#[trigger] cleared@[k])@ == (if before.pos[k] is Some {
                        targets(drained@.take(0), k)
                    } else {
                        before.out_edges[k]
                    }),
            decreases n - i,
        {
            if self.pos[i].is_some() {
                cleared.push(Vec::new());
            } else {
                let mut copy: Vec<u32> = Vec::new();
                let mut j: usize = 0;
                while j < self.out_edges[i].len()
                    invariant
                        i < n,
                        self@ == before,
                        before.wf(),
                        before.size() == n,
                        self.out_edges@.len() == n,
                        before.out_edges[i as int] == self.out_edges@[i as int]@,
                        j <= self.out_edges@[i as int]@.len(),
                        copy@ == self.out_edges@[i as int]@.take(j as int),
                    decreases self.out_edges@[i as int]@.len() - j,
                {
                    let ghost row = self.out_edges@[i as int]@;
                    copy.push(self.out_edges[i][j]);
                    assert(copy@ =~= row.take(j + 1));
                    j = j + 1;
                }
                assert(copy@ =~= before.out_edges[i as int]);
                cleared.push(copy);
            }
            i = i + 1;
        }
        let mut k: usize = 0;
        while k < drained.len()
            invariant
                k <= drained@.len(),
                cleared@.len() == n,
                before.size() == n,
                forall|k: int|
                    0 <= k < drained@.len() ==> (#[trigger] drained@[k]).0 < n
                        && before.pos[drained@[k].0 as int] is Some,
                forall|m: int|
                    0 <= m < n ==> (#[trigger] cleared@[m])@ == (if before.pos[m] is Some {
                        targets(drained@.take(k as int), m)
                    } else {
                        before.out_edges[m]
                    }),
            decreases drained@.len() - k,
        {
            let (from, to) = drained[k];
            assert(drained@[k as int].0 < n);
            let ghost prior = cleared@;
            cleared[from as usize].push(to);
            proof {
                let head = drained@.take(k + 1);
                assert(head.drop_last() =~= drained@.take(k as int));
                assert(head.last() == drained@[k as int]);
                assert forall|m: int| 0 <= m < n implies (#[trigger] cleared@[m])@ == (
                if before.pos[m] is Some {
                    targets(head, m)
                } else {
                    before.out_edges[m]
                }) by {
                    if m == from as int {
                        assert(cleared@[m]@ == prior[m]@.push(to));
                    } else {
                        assert(cleared@[m] == prior[m]);
                    }
                }
            }
            k = k + 1;
        }
        assert(drained@.take(k as int) =~= drained@);
        self.out_edges = cleared;
        proof {
            let goal = before.with_edges(drained@);
            assert(self@.out_edges =~= goal.out_edges);
            assert forall|i: int, k: int|
                0 <= i < self@.size() && 0 <= k < self@.out_edges[i].len() implies #[trigger] self@.out_edges[i][k]
                < self@.size() by {
                lemma_targets_known(drained@, i, n as nat);
                if before.pos[i] is Some {
                    assert(self@.out_edges[i] == targets(drained@, i));
                } else {
                    assert(self@.out_edges[i] == before.out_edges[i]);
                    assert(before.out_edges[i][k] < before.size());
                }
            }
        }
    }
}

/// The place of a member in the list; behind the end where the list lacks it.
pub open spec fn rank(topo: Seq<u32>, member: int) -> nat
    decreases topo.len(),
{
    if topo.len() == 0 || topo[0] == member {
        0
    } else {
        1 + rank(topo.drop_first(), member)
    }
}

fn rank_of(topo: &Vec<u32>, member: usize) -> (r: usize)
    ensures
        r == rank(topo@, member as int),
        r <= topo@.len(),
{
    let mut k: usize = 0;
    assert(topo@.skip(0) =~= topo@);
    while k < topo.len()
        invariant
            k <= topo@.len(),
            rank(topo@, member as int) == k + rank(topo@.skip(k as int), member as int),
        decreases topo@.len() - k,
    {
        if topo[k] as usize == member {
            return k;
        }
        assert(topo@.skip(k as int).drop_first() =~= topo@.skip(k + 1));
        k = k + 1;
    }
    k
}

/// The keys by which members are sorted into the order of the list.
pub open spec fn rank_keys(topo: Seq<u32>, members: Seq<usize>) -> Seq<(u64, u64)> {
    Seq::new(members.len(), |k: int| (rank(topo, members[k] as int) as u64, 0u64))
}

/// Whether `sorted` holds the members in the order of the list.
pub open spec fn is_sorted_by(topo: Seq<u32>, members: Seq<usize>, sorted: Seq<usize>) -> bool {
    exists|order: Seq<usize>|
        {
            &&& #[trigger] is_stable_order(rank_keys(topo, members), order)
            &&& sorted == Seq::new(members.len(), |k: int| members[order[k] as int])
        }
}

fn sort_by_rank(topo: &Vec<u32>, members: &Vec<usize>) -> (sorted: Vec<usize>)
    ensures
        is_sorted_by(topo@, members@, sorted@),
{
    let mut keys: Vec<(u64, u64)> = Vec::new();
    let mut i: usize = 0;
    while i < members.len()
        invariant
            i <= members@.len(),
            keys@ == rank_keys(topo@, members@).take(i as int),
        decreases members@.len() - i,
    {
        keys.push((rank_of(topo, members[i]) as u64, 0));
        assert(keys@ =~= rank_keys(topo@, members@).take(i + 1));
        i = i + 1;
    }
    assert(keys@ =~= rank_keys(topo@, members@));
    let order = sort_order(&keys);
    let mut sorted: Vec<usize> = Vec::new();
    let mut j: usize = 0;
    while j < order.len()
        invariant
            j <= order@.len(),
            order@.len() == members@.len(),
            is_stable_order(rank_keys(topo@, members@), order@),
            sorted@ == Seq::new(members@.len(), |k: int| members@[order@[k] as int]).take(j as int),
        decreases order@.len() - j,
    {
        assert(order@[j as int] < members@.len());
        sorted.push(members[order[j]]);
        assert(sorted@ =~= Seq::new(members@.len(), |k: int| members@[order@[k] as int]).take(
            j + 1,
        ));
        j = j + 1;
    }
    assert(sorted@ =~= Seq::new(members@.len(), |k: int| members@[order@[k] as int]));
    sorted
}

/// The members of the list that are not left out, in the order of the list.
pub open spec fn kept(topo: Seq<u32>, excluded: Seq<bool>) -> Seq<usize>
    decreases topo.len(),
{
    if topo.len() == 0 {
        Seq::empty()
    } else {
        let front = kept(topo.drop_last(), excluded);
        if excluded[topo.last() as int] {
            front
        } else {
            front.push(topo.last() as usize)
        }
    }
}

impl SccTask {
    fn is_stale(&self, i: usize) -> (b: bool)
        requires
            self@.wf(),
            i < self@.size(),
        ensures
            b == self@.is_stale(i as int),
    {
        if self.excluded[i] {
            return false;
        }
        let mut k: usize = 0;
        while k < self.out_edges[i].len()
            invariant
                self@.wf(),
                i < self@.size(),
                !self@.excluded[i as int],
                self.out_edges@[i as int]@ == self@.out_edges[i as int],
                k <= self.out_edges@[i as int]@.len(),
                forall|m: int|
                    0 <= m < k ==> !self@.read_too_early(
                        i as int,
                        #[trigger] self@.out_edges[i as int][m] as int,
                    ),
            decreases self.out_edges@[i as int]@.len() - k,
        {
            let t = self.out_edges[i][k] as usize;
            assert(self@.out_edges[i as int][k as int] < self@.size());
            let early = self.changed[t] && match self.pos[i] {
                None => true,
                Some(p) => match self.pos[t] {
                    None => false,
                    Some(q) => p < q,
                },
            };
            if early {
                assert(self@.read_too_early(i as int, self@.out_edges[i as int][k as int] as int));
                return true;
            }
            k = k + 1;
        }
        false
    }

    fn stale_members(&self) -> (r: Vec<usize>)
        requires
            self@.wf(),
        ensures
            r@ == self@.stale(),
    {
        let ghost keep = |i: int| self@.is_stale(i);
        let mut out: Vec<usize> = Vec::new();
        let mut i: usize = 0;
        while i < self.excluded.len()
            invariant
                self@.wf(),
                self.excluded@.len() == self@.size(),
                i <= self.excluded@.len(),
                keep == (|i: int| self@.is_stale(i)),
                out@ == members_where(i as nat, keep),
            decreases self.excluded@.len() - i,
        {
            if self.is_stale(i) {
                out.push(i);
            }
            i = i + 1;
        }
        out
    }

    /// Stamps every evaluated member that is marked, and returns them.
    fn stamp(&mut self, marked: &Vec<bool>) -> (stamped: Vec<usize>)
        requires
            old(self)@.wf(),
            marked@.len() == old(self)@.size(),
        ensures
            final(self)@ == old(self)@.stamping(marked@),
            final(self)@.wf(),
            stamped@ == members_where(
                old(self)@.size(),
                |i: int| marked@[i] && !old(self)@.excluded[i],
            ),
    {
        let ghost before = self@;
        let ghost goal = before.stamping(marked@);
        let ghost keep = |i: int| marked@[i] && !before.excluded[i];
        let ghost fresh = Seq::new(before.size(), |i: int| marked@[i] && !before.excluded[i]);
        let n: usize = self.excluded.len();
        let mut out: Vec<usize> = Vec::new();
        proof {
            lemma_count_union(before.excluded, fresh, goal.excluded);
            lemma_count_bound(goal.excluded);
            assert(goal.excluded.len() == n);
        }
        let mut i: usize = 0;
        while i < n
            invariant
                i <= n,
                n == before.size(),
                marked@.len() == n,
                before.wf(),
                self.policy == before.policy,
                self.is_cell@ == before.is_cell,
                row_view(self.snapshot@) == before.snapshot,
                edges_view(self.out_edges@) == before.out_edges,
                self.pos@ == before.pos,
                self.changed@ == before.changed,
                self@.prev == before.prev,
                self.passes == before.passes,
                self.settle_passes == before.settle_passes,
                self.witnessed_cycles == before.witnessed_cycles,
                self.capped == before.capped,
                self.iterating == before.iterating,
                self.converged == before.converged,
                self.excluded@.len() == n,
                self.last_value@.len() == n,
                fresh == Seq::new(before.size(), |i: int| marked@[i] && !before.excluded[i]),
                keep == (|i: int| marked@[i] && !before.excluded[i]),
                self.stamped == before.stamped + count_true(fresh.take(i as int)),
                count_true(fresh.take(i as int)) <= count_true(fresh),
                before.stamped + count_true(fresh) <= n,
                out@ == members_where(i as nat, keep),
                forall|k: int|
                    0 <= k < n ==> #[trigger] self.excluded@[k] == (before.excluded[k] || (k < i
                        && marked@[k])),
                forall|k: int|
                    0 <= k < n ==> (#[trigger] self.last_value@[k])@ == (if k < i && marked@[k]
                        && !before.excluded[k] {
                        circ_value()
                    } else {
                        before.last[k]
                    }),
            decreases n - i,
        {
            proof {
                assert(fresh.take(i + 1).drop_last() =~= fresh.take(i as int));
                assert(fresh.take(i + 1).last() == fresh[i as int]);
                lemma_count_prefix(fresh, i + 1);
            }
            assert(self.excluded@[i as int] == before.excluded[i as int]);
            if marked[i] && !self.excluded[i] {
                self.excluded.set(i, true);
                self.last_value.set(i, circ_error());
                self.stamped = self.stamped + 1;
                out.push(i);
            }
            i = i + 1;
        }
        proof {
            assert(fresh.take(n as int) =~= fresh);
            assert(self@.excluded =~= goal.excluded);
            assert(self@.last =~= goal.last);
        }
        out
    }

    fn clear_marks(&mut self)
        requires
            old(self)@.wf(),
            old(self)@.passes < usize::MAX,
        ensures
            final(self)@ == old(self)@.clearing_marks(),
    {
        let ghost before = self@;
        let n: usize = self.excluded.len();
        let mut pos: Vec<Option<usize>> = Vec::new();
        let mut changed: Vec<bool> = Vec::new();
        let mut i: usize = 0;
        while i < n
            invariant
                i <= n,
                pos@.len() == i,
                changed@.len() == i,
                forall|k: int| 0 <= k < i ==> #[trigger] pos@[k] == None::<usize>,
                forall|k: int| 0 <= k < i ==> #[trigger] changed@[k] == false,
            decreases n - i,
        {
            pos.push(None);
            changed.push(false);
            i = i + 1;
        }
        self.pos = pos;
        self.changed = changed;
        self.passes = self.passes + 1;
        proof {
            assert(self@.pos =~= before.clearing_marks().pos);
            assert(self@.changed =~= before.clearing_marks().changed);
        }
    }
}

proof fn lemma_count_prefix(flags: Seq<bool>, n: int)
    requires
        0 <= n <= flags.len(),
    ensures
        count_true(flags.take(n)) <= count_true(flags),
    decreases flags.len(),
{
    if n == flags.len() {
        assert(flags.take(n) =~= flags);
    } else {
        lemma_count_prefix(flags.drop_last(), n);
        assert(flags.drop_last().take(n) =~= flags.take(n));
    }
}

impl SccTask {
    /// The members that are not left out, in the order of the list.
    fn kept_members(&self, topo: &Vec<u32>) -> (r: Vec<usize>)
        requires
            self@.wf(),
            forall|k: int| 0 <= k < topo@.len() ==> (#[trigger] topo@[k]) < self@.size(),
        ensures
            r@ == kept(topo@, self@.excluded),
    {
        let mut out: Vec<usize> = Vec::new();
        let mut k: usize = 0;
        while k < topo.len()
            invariant
                self@.wf(),
                k <= topo@.len(),
                forall|k: int| 0 <= k < topo@.len() ==> (#[trigger] topo@[k]) < self@.size(),
                out@ == kept(topo@.take(k as int), self@.excluded),
            decreases topo@.len() - k,
        {
            assert(topo@[k as int] < self@.size());
            proof {
                assert(topo@.take(k + 1).drop_last() =~= topo@.take(k as int));
                assert(topo@.take(k + 1).last() == topo@[k as int]);
            }
            let member = topo[k] as usize;
            if !self.excluded[member] {
                out.push(member);
            }
            k = k + 1;
        }
        assert(topo@.take(k as int) =~= topo@);
        out
    }

    /// Decides what follows the last pass, once its reads are recorded and classified.
    ///
    /// Without reads among the members the task is done. A live cycle is stamped under the error
    /// policy, and the others run once more in topological order; under the iteration policy the
    /// task is done once every evaluated member has converged since the last full pass or the
    /// passes are used up, and else runs another full pass. Without a live cycle the task is done
    /// once no member read too early; else those that did run again, in topological order, unless
    /// the settling passes are used up and the rest is stamped.
    pub fn decide(&mut self, live: &LiveAnalysis, converged: &Vec<bool>) -> (step: SccStep)
        requires
            old(self)@.wf(),
            fits(*live, old(self)@.size()),
            converged@.len() == old(self)@.size(),
            old(self)@.passes < usize::MAX,
        ensures
            final(self)@.wf(),
            decided(old(self)@, *live, converged@, step, final(self)@),
    {
        let ghost before = self@;
        if self.has_no_reads() {
            return SccStep::Done;
        }
        if live.cycle_count > 0 {
            if self.witnessed_cycles < live.cycle_count {
                self.witnessed_cycles = live.cycle_count;
            }
            match self.policy {
                CyclePolicy::Error => {
                    let stamp = self.stamp(&live.in_cycle);
                    let run = self.kept_members(&live.topo);
                    if run.len() > 0 {
                        self.passes = self.passes + 1;
                    }
                    SccStep::StampAndSettle { stamp, run }
                },
                CyclePolicy::Iterate { max_iterations } => {
                    self.iterating = true;
                    let all = self.all_evaluated(converged);
                    if self.prev_pass.is_some() && all {
                        self.converged = true;
                        return SccStep::Done;
                    }
                    if self.passes >= max_iterations as usize {
                        self.capped = true;
                        return SccStep::Done;
                    }
                    let prev = duplicate_row(&self.last_value);
                    self.prev_pass = Some(prev);
                    self.clear_marks();
                    let run = self.evaluable();
                    SccStep::Run(run)
                },
            }
        } else {
            let stale = self.stale_members();
            if stale.len() == 0 {
                return SccStep::Done;
            }
            let n: usize = self.excluded.len();
            if self.settle_passes > n {
                let mut all: Vec<bool> = Vec::new();
                let mut i: usize = 0;
                while i < n
                    invariant
                        i <= n,
                        all@.len() == i,
                        forall|k: int| 0 <= k < i ==> #[trigger] all@[k] == true,
                    decreases n - i,
                {
                    all.push(true);
                    i = i + 1;
                }
                let stamped = self.stamp(&all);
                self.capped = true;
                proof {
                    assert(all@ =~= Seq::new(before.size(), |i: int| true));
                    lemma_members_agree(
                        before.size(),
                        |i: int| all@[i] && !before.excluded[i],
                        |i: int| !before.excluded[i],
                    );
                }
                return SccStep::StampRest(stamped);
            }
            let run = sort_by_rank(&live.topo, &stale);
            self.prev_pass = None;
            self.clear_marks();
            self.settle_passes = self.settle_passes + 1;
            SccStep::Run(run)
        }
    }

    /// Whether cycles iterate, and a full pass came before the last one.
    pub fn iterates_again(&self) -> (b: bool)
        ensures
            b == (self@.policy is Iterate && self@.prev is Some),
    {
        matches!(self.policy, CyclePolicy::Iterate { .. }) && self.prev_pass.is_some()
    }

    /// Whether no member that is still evaluated reads a member.
    pub fn has_no_reads(&self) -> (b: bool)
        requires
            self@.wf(),
        ensures
            b == self@.has_no_reads(),
    {
        let mut i: usize = 0;
        while i < self.excluded.len()
            invariant
                self@.wf(),
                i <= self.excluded@.len(),
                forall|k: int|
                    0 <= k < i && !self@.excluded[k] ==> (#[trigger] self@.out_edges[k]).len() == 0,
            decreases self.excluded@.len() - i,
        {
            assert(self@.out_edges[i as int] == self.out_edges@[i as int]@);
            if !self.excluded[i] && self.out_edges[i].len() > 0 {
                return false;
            }
            i = i + 1;
        }
        true
    }

    /// The reads among the members that are still evaluated, in order and each once.
    pub fn live_edges(&self) -> (r: Vec<(u32, u32)>)
        requires
            self@.wf(),
            self@.size() <= u32::MAX,
        ensures
            is_edge_list(self@, r@),
    {
        let mut out: Vec<(u32, u32)> = Vec::new();
        let mut i: usize = 0;
        while i < self.excluded.len()
            invariant
                self@.wf(),
                self.excluded@.len() == self@.size() <= u32::MAX,
                i <= self.excluded@.len(),
                forall|a: int, b: int|
                    0 <= a < b < out@.len() ==> edge_lt(#[trigger] out@[a], #[trigger] out@[b]),
                forall|a: int| 0 <= a < out@.len() ==> (#[trigger] out@[a]).0 < i,
                forall|from: u32, to: u32|
                    from < i ==> (#[trigger] out@.contains((from, to)) <==> self@.live_edge(
                        from as int,
                        to as int,
                    )),
            decreases self.excluded@.len() - i,
        {
            let ghost before = out@;
            if !self.excluded[i] {
                assert(self@.out_edges[i as int] == self.out_edges@[i as int]@);
                let ghost reads = self.out_edges@[i as int]@;
                let ts = sorted_distinct(&self.out_edges[i]);
                let mut k: usize = 0;
                while k < ts.len()
                    invariant
                        i < self@.size() <= u32::MAX,
                        k <= ts@.len(),
                        is_ascending(ts@, reads.to_set()),
                        out@.len() == before.len() + k,
                        forall|a: int| 0 <= a < before.len() ==> #[trigger] out@[a] == before[a],
                        forall|a: int|
                            before.len() <= a < out@.len() ==> #[trigger] out@[a] == (
                                i as u32,
                                ts@[a - before.len()],
                            ),
                    decreases ts@.len() - k,
                {
                    out.push((i as u32, ts[k]));
                    k = k + 1;
                }
                proof {
                    assert forall|a: int, b: int| 0 <= a < b < out@.len() implies edge_lt(
                        #[trigger] out@[a],
                        #[trigger] out@[b],
                    ) by {
                        if b < before.len() {
                            assert(out@[a] == before[a] && out@[b] == before[b]);
                        } else if a < before.len() {
                            assert(out@[a] == before[a]);
                        } else {
                            assert(ts@[a - before.len()] < ts@[b - before.len()]);
                        }
                    }
                    assert forall|from: u32, to: u32| from < i + 1 implies (
                    #[trigger] out@.contains((from, to)) <==> self@.live_edge(
                        from as int,
                        to as int,
                    )) by {
                        if from == i {
                            if out@.contains((from, to)) {
                                let a = choose|a: int| 0 <= a < out@.len() && out@[a] == (from, to);
                                if a < before.len() {
                                    assert(out@[a] == before[a]);
                                    assert(before[a].0 < i);
                                }
                                assert(ts@[a - before.len()] == to);
                                assert(ts@.contains(to));
                                assert(reads.to_set().contains(to));
                                let q = choose|q: int| 0 <= q < reads.len() && reads[q] == to;
                                assert(self@.out_edges[i as int][q] == to);
                            }
                            if self@.live_edge(from as int, to as int) {
                                let q = choose|q: int|
                                    0 <= q < self@.out_edges[i as int].len()
                                        && #[trigger] self@.out_edges[i as int][q] == to;
                                assert(reads[q] == to);
                                assert(reads.to_set().contains(to));
                                assert(ts@.contains(to));
                                let a = choose|a: int| 0 <= a < ts@.len() && ts@[a] == to;
                                assert(out@[before.len() + a] == (from, to));
                            }
                        } else {
                            assert(before.contains((from, to)) <==> self@.live_edge(
                                from as int,
                                to as int,
                            ));
                            if out@.contains((from, to)) {
                                let a = choose|a: int| 0 <= a < out@.len() && out@[a] == (from, to);
                                assert(a < before.len());
                                assert(before[a] == (from, to));
                            }
                            if before.contains((from, to)) {
                                let a = choose|a: int|
                                    0 <= a < before.len() && before[a] == (from, to);
                                assert(out@[a] == (from, to));
                            }
                        }
                    }
                    assert forall|a: int| 0 <= a < out@.len() implies (#[trigger] out@[a]).0 < i + 1 by {
                        if a < before.len() {
                            assert(out@[a] == before[a]);
                        }
                    }
                }
            } else {
                assert forall|from: u32, to: u32| from < i + 1 implies (
                #[trigger] out@.contains((from, to)) <==> self@.live_edge(
                    from as int,
                    to as int,
                )) by {
                    if from == i && out@.contains((from, to)) {
                        let a = choose|a: int| 0 <= a < out@.len() && out@[a] == (from, to);
                        assert(out@[a].0 < i);
                    }
                }
            }
            i = i + 1;
        }
        assert forall|from: u32, to: u32| #[trigger] out@.contains((from, to))
            <==> self@.live_edge(from as int, to as int) by {
            if from >= i && out@.contains((from, to)) {
                let a = choose|a: int| 0 <= a < out@.len() && out@[a] == (from, to);
                assert(out@[a].0 < i);
            }
        }
        out
    }

    fn all_evaluated(&self, flags: &Vec<bool>) -> (b: bool)
        requires
            self@.wf(),
            flags@.len() == self@.size(),
        ensures
            b == forall|i: int| 0 <= i < self@.size() && !self@.excluded[i] ==> #[trigger] flags@[i],
    {
        let mut i: usize = 0;
        while i < flags.len()
            invariant
                self@.wf(),
                flags@.len() == self@.size(),
                i <= flags@.len(),
                forall|k: int| 0 <= k < i && !self@.excluded[k] ==> #[trigger] flags@[k],
            decreases flags@.len() - i,
        {
            if !self.excluded[i] && !flags[i] {
                assert(!flags@[i as int]);
                return false;
            }
            i = i + 1;
        }
        true
    }

    /// The values of a member before and after the last full pass, for the test of convergence.
    pub fn convergence_pair(&self, i: usize) -> (r: Option<(&LiteralValue, &LiteralValue)>)
        requires
            self@.wf(),
            i < self@.size(),
        ensures
            match (r, self@.prev) {
                (Some((a, b)), Some(prev)) => a@ == prev[i as int] && b@ == self@.last[i as int],
                (None, None) => true,
                _ => false,
            },
    {
        match &self.prev_pass {
            Some(prev) => {
                assert(row_view(prev@).len() == prev@.len());
                assert(row_view(self.last_value@).len() == self.last_value@.len());
                Some((&prev[i], &self.last_value[i]))
            },
            None => None,
        }
    }

    /// The members in a cell whose value differs from the one before the task.
    pub fn changed_cells(&self) -> (r: Vec<usize>)
        requires
            self@.wf(),
        ensures
            r@ == members_where(
                self@.size(),
                |i: int| self@.is_cell[i] && !value_eq(self@.last[i], self@.snapshot[i]),
            ),
    {
        let ghost keep = |i: int| self@.is_cell[i] && !value_eq(self@.last[i], self@.snapshot[i]);
        assert(row_view(self.snapshot@).len() == self.snapshot@.len());
        assert(row_view(self.last_value@).len() == self.last_value@.len());
        let mut out: Vec<usize> = Vec::new();
        let mut i: usize = 0;
        while i < self.is_cell.len()
            invariant
                self@.wf(),
                self.is_cell@.len() == self@.size(),
                self.snapshot@.len() == self@.size(),
                self.last_value@.len() == self@.size(),
                i <= self.is_cell@.len(),
                keep == (|i: int|
                    self@.is_cell[i] && !value_eq(self@.last[i], self@.snapshot[i])),
                out@ == members_where(i as nat, keep),
            decreases self.is_cell@.len() - i,
        {
            if self.is_cell[i] && !self.last_value[i].same(&self.snapshot[i]) {
                out.push(i);
            }
            i = i + 1;
        }
        out
    }

    /// What the task amounts to. A task that iterated and neither met its threshold nor its cap
    /// ended because the cycle dissolved, which counts as convergence.
    pub fn report(&self) -> (r: SccReport)
        ensures
            r.stamped == self@.stamped,
            r.passes == self@.passes,
            r.witnessed_cycles == self@.witnessed_cycles,
            r.phantom == (self@.witnessed_cycles == 0 && self@.stamped == 0 && !self@.capped),
            r.iterated == self@.iterating,
            r.converged == (self@.converged || (self@.iterating && !self@.capped)),
            r.capped == self@.capped,
    {
        SccReport {
            stamped: self.stamped,
            passes: self.passes,
            witnessed_cycles: self.witnessed_cycles,
            phantom: self.witnessed_cycles == 0 && self.stamped == 0 && !self.capped,
            iterated: self.iterating,
            converged: self.converged || (self.iterating && !self.capped),
            capped: self.capped,
        }
    }
}

proof fn lemma_members_agree(n: nat, a: spec_fn(int) -> bool, b: spec_fn(int) -> bool)
    requires
        forall|i: int| 0 <= i < n ==> #[trigger] a(i) == b(i),
    ensures
        members_where(n, a) == members_where(n, b),
    decreases n,
{
    if n > 0 {
        lemma_members_agree((n - 1) as nat, a, b);
    }
}

/// The order of reads: by reader, then by what is read.
pub open spec fn edge_lt(a: (u32, u32), b: (u32, u32)) -> bool {
    a.0 < b.0 || (a.0 == b.0 && a.1 < b.1)
}

/// Whether the list holds the reads of the members that are still evaluated, in order and each
/// once.
pub open spec fn is_edge_list(t: TaskView, list: Seq<(u32, u32)>) -> bool {
    &&& forall|a: int, b: int|
        0 <= a < b < list.len() ==> edge_lt(#[trigger] list[a], #[trigger] list[b])
    &&& forall|from: u32, to: u32| #[trigger] list.contains((from, to)) <==> t.live_edge(
        from as int,
        to as int,
    )
}

/// What the test of convergence says of one member.
#[derive(Clone, Copy, Debug, PartialEq, Eq, Structural)]
pub struct ConvergenceOutcome {
    pub converged: bool,
    pub nan_converged: bool,
    /// How far a number moved, as the bits of a double.
    pub abs_delta: Option<u64>,
}

/// What the tests of one round amount to.
#[derive(Clone, Copy, Debug, PartialEq, Eq, Structural)]
pub struct ConvergenceRound {
    pub nan_converged: usize,
    pub max_delta: u64,
}

/// How many of the first `n` members that are still evaluated count as converged without being
/// numbers.
pub open spec fn nan_count(t: TaskView, outcomes: Seq<ConvergenceOutcome>, n: nat) -> nat
    decreases n,
{
    if n == 0 {
        0
    } else {
        nan_count(t, outcomes, (n - 1) as nat) + (if !t.excluded[n - 1] && outcomes[n
            - 1].nan_converged {
            1nat
        } else {
            0nat
        })
    }
}

/// How far a number of the first `n` members that are still evaluated moved at most.
pub open spec fn round_delta(t: TaskView, outcomes: Seq<ConvergenceOutcome>, n: nat) -> u64
    decreases n,
{
    if n == 0 {
        ZERO_BITS
    } else {
        let before = round_delta(t, outcomes, (n - 1) as nat);
        match outcomes[n - 1].abs_delta {
            Some(d) if !t.excluded[n - 1] => larger_double(before, d),
            _ => before,
        }
    }
}

impl SccTask {
    /// What the tests of a round amount to: a member that is left out has settled.
    pub fn round(&self, outcomes: &Vec<ConvergenceOutcome>) -> (r: ConvergenceRound)
        requires
            self@.wf(),
            outcomes@.len() == self@.size(),
        ensures
            r.nan_converged == nan_count(self@, outcomes@, outcomes@.len()),
            r.max_delta == round_delta(self@, outcomes@, outcomes@.len()),
    {
        let mut nan: usize = 0;
        let mut delta: u64 = ZERO_BITS;
        let mut i: usize = 0;
        while i < outcomes.len()
            invariant
                self@.wf(),
                outcomes@.len() == self@.size(),
                i <= outcomes@.len(),
                nan <= i,
                nan == nan_count(self@, outcomes@, i as nat),
                delta == round_delta(self@, outcomes@, i as nat),
            decreases outcomes@.len() - i,
        {
            if !self.excluded[i] {
                if outcomes[i].nan_converged {
                    nan = nan + 1;
                }
                if let Some(d) = outcomes[i].abs_delta {
                    delta = max_double(delta, d);
                }
            }
            i = i + 1;
        }
        ConvergenceRound { nan_converged: nan, max_delta: delta }
    }
}

/// Under the error policy a live cycle is stamped and nothing else: every member outside keeps the
/// value that it had.
pub proof fn only_live_cycles_are_stamped(
    before: TaskView,
    live: LiveAnalysis,
    converged: Seq<bool>,
    step: SccStep,
    after: TaskView,
    i: int,
)
    requires
        before.wf(),
        before.policy == CyclePolicy::Error,
        !before.has_no_reads(),
        live.cycle_count > 0,
        fits(live, before.size()),
        decided(before, live, converged, step, after),
        0 <= i < before.size(),
    ensures
        live.in_cycle@[i] && !before.excluded[i] ==> after.last[i] == circ_value()
            && after.excluded[i],
        !live.in_cycle@[i] ==> after.last[i] == before.last[i] && after.excluded[i]
            == before.excluded[i],
        step matches SccStep::StampAndSettle { run, .. } && forall|k: int|
            0 <= k < run@.len() ==> !live.in_cycle@[#[trigger] run@[k] as int],
{
    let seen = TaskView {
        witnessed_cycles: if before.witnessed_cycles < live.cycle_count {
            live.cycle_count as nat
        } else {
            before.witnessed_cycles
        },
        ..before
    };
    lemma_kept_are_in(live.topo@, seen.stamping(live.in_cycle@).excluded, before.size());
    match step {
        SccStep::StampAndSettle { stamp, run } => {
            assert forall|k: int| 0 <= k < run@.len() implies !live.in_cycle@[#[trigger] run@[k] as int] by {
                assert(!seen.stamping(live.in_cycle@).excluded[run@[k] as int]);
            }
        },
        _ => {},
    }
}

proof fn lemma_kept_are_in(topo: Seq<u32>, excluded: Seq<bool>, n: nat)
    requires
        excluded.len() == n,
        forall|k: int| 0 <= k < topo.len() ==> (#[trigger] topo[k]) < n,
    ensures
        forall|k: int|
            0 <= k < kept(topo, excluded).len() ==> #[trigger] kept(topo, excluded)[k] < n
                && !excluded[kept(topo, excluded)[k] as int],
    decreases topo.len(),
{
    if topo.len() > 0 {
        assert(topo[topo.len() - 1] < n);
        lemma_kept_are_in(topo.drop_last(), excluded, n);
        let front = kept(topo.drop_last(), excluded);
        let all = kept(topo, excluded);
        assert forall|k: int| 0 <= k < all.len() implies #[trigger] all[k] < n
            && !excluded[all[k] as int] by {
            if k < front.len() {
                assert(all[k] == front[k]);
            }
        }
    }
}

/// Without a live cycle a task stops only where every value is exact, because no member read a
/// value that changed after it was read, or where its settling passes are used up.
pub proof fn a_settled_task_has_no_early_reader(
    before: TaskView,
    live: LiveAnalysis,
    converged: Seq<bool>,
    step: SccStep,
    after: TaskView,
    i: int,
)
    requires
        before.wf(),
        live.cycle_count == 0,
        decided(before, live, converged, step, after),
        step is Done,
        0 <= i < before.size(),
    ensures
        after == before,
        !before.is_stale(i),
{
    if before.has_no_reads() {
        if before.is_stale(i) {
            let k = choose|k: int|
                0 <= k < before.out_edges[i].len() && before.read_too_early(
                    i,
                    #[trigger] before.out_edges[i][k] as int,
                );
            assert(before.out_edges[i].len() == 0);
        }
    } else if before.is_stale(i) {
        lemma_members_complete(before.size(), |i: int| before.is_stale(i), i);
    }
}

proof fn lemma_members_complete(n: nat, keep: spec_fn(int) -> bool, i: int)
    requires
        0 <= i < n,
        keep(i),
    ensures
        members_where(n, keep).len() > 0,
    decreases n,
{
    if i < n - 1 {
        lemma_members_complete((n - 1) as nat, keep, i);
    }
}

/// A live cycle under the iteration policy stops after at most `max_iterations` passes besides the
/// settling ones, and keeps the values that it has; with one iteration every member runs once.
pub proof fn iteration_stops_and_keeps_its_values(
    before: TaskView,
    live: LiveAnalysis,
    converged: Seq<bool>,
    step: SccStep,
    after: TaskView,
    max_iterations: u32,
)
    requires
        before.wf(),
        before.policy == (CyclePolicy::Iterate { max_iterations }),
        !before.has_no_reads(),
        live.cycle_count > 0,
        decided(before, live, converged, step, after),
    ensures
        before.passes >= max_iterations ==> step is Done,
        step is Done ==> after.last == before.last && after.stamped == before.stamped,
        max_iterations == 1 ==> step is Done,
{
}

/// Whether `step` and `after` are what follows from the state before, the classified reads and the
/// tests of convergence.
pub open spec fn decided(
    before: TaskView,
    live: LiveAnalysis,
    converged: Seq<bool>,
    step: SccStep,
    after: TaskView,
) -> bool {
    let n = before.size();
    if before.has_no_reads() {
        step is Done && after == before
    } else if live.cycle_count > 0 {
        let seen = TaskView {
            witnessed_cycles: if before.witnessed_cycles < live.cycle_count {
                live.cycle_count as nat
            } else {
                before.witnessed_cycles
            },
            ..before
        };
        match before.policy {
            CyclePolicy::Error => {
                let stamped = seen.stamping(live.in_cycle@);
                let order = kept(live.topo@, stamped.excluded);
                &&& step matches SccStep::StampAndSettle { stamp, run } && {
                    &&& stamp@ == members_where(
                        n,
                        |i: int| live.in_cycle@[i] && !before.excluded[i],
                    )
                    &&& run@ == order
                }
                &&& after == TaskView {
                    passes: if order.len() > 0 {
                        stamped.passes + 1
                    } else {
                        stamped.passes
                    },
                    ..stamped
                }
            },
            CyclePolicy::Iterate { max_iterations } => {
                let iterating = TaskView { iterating: true, ..seen };
                if before.prev is Some && (forall|i: int|
                    0 <= i < n && !before.excluded[i] ==> #[trigger] converged[i]) {
                    step is Done && after == TaskView { converged: true, ..iterating }
                } else if before.passes >= max_iterations {
                    step is Done && after == TaskView { capped: true, ..iterating }
                } else {
                    &&& step matches SccStep::Run(run) && run@ == before.evaluable()
                    &&& after == TaskView {
                        prev: Some(before.last),
                        ..iterating.clearing_marks()
                    }
                }
            },
        }
    } else if before.stale().len() == 0 {
        step is Done && after == before
    } else if before.settle_passes > n {
        &&& step matches SccStep::StampRest(stamped) && stamped@ == before.evaluable()
        &&& after == TaskView { capped: true, ..before.stamping(Seq::new(n, |i: int| true)) }
    } else {
        &&& step matches SccStep::Run(run) && is_sorted_by(live.topo@, before.stale(), run@)
        &&& after == TaskView {
            prev: None,
            settle_passes: before.settle_passes + 1,
            ..before.clearing_marks()
        }
    }
}

/// Iteration stops early only once every member that is still evaluated has converged since a full
/// pass before. As long as one has not, and passes are left, all members that are still evaluated run
/// once more, in their order.
pub proof fn iteration_goes_on_until_all_converge(
    before: TaskView,
    live: LiveAnalysis,
    converged: Seq<bool>,
    step: SccStep,
    after: TaskView,
    max_iterations: u32,
    reader: int,
)
    requires
        before.wf(),
        before.size() <= usize::MAX,
        before.policy == (CyclePolicy::Iterate { max_iterations }),
        live.cycle_count > 0,
        0 <= reader < before.size(),
        !before.excluded[reader],
        before.out_edges[reader].len() > 0,
        decided(before, live, converged, step, after),
    ensures
        step is Done || step is Run,
        step is Done ==> before.passes >= max_iterations || (before.prev is Some && forall|i: int|
            0 <= i < before.size() && !before.excluded[i] ==> #[trigger] converged[i]),
        step is Done && before.passes < max_iterations ==> after.converged && after.capped
            == before.capped,
        after.converged && !before.converged ==> step is Done && before.prev is Some && forall|i: int|
            0 <= i < before.size() && !before.excluded[i] ==> #[trigger] converged[i],
        after.capped && !before.capped ==> step is Done && before.passes >= max_iterations,
        (exists|i: int| 0 <= i < before.size() && !before.excluded[i] && !#[trigger] converged[i])
            && before.passes < max_iterations ==> step is Run,
        before.prev is None && before.passes < max_iterations ==> step is Run,
        step matches SccStep::Run(run) ==> {
            &&& forall|i: int|
                0 <= i < before.size() ==> (run@.contains(i as usize) <==> !(
                #[trigger] before.excluded[i]))
            &&& forall|k: int, l: int|
                0 <= k < l < run@.len() ==> #[trigger] run@[k] < #[trigger] run@[l]
            &&& after.prev == Some(before.last)
            &&& after.passes == before.passes + 1
        },
        after.iterating,
        after.last == before.last,
        after.excluded == before.excluded,
        after.stamped == before.stamped,
{
    assert(!before.has_no_reads()) by {
        assert(before.out_edges[reader].len() > 0);
    }
    let keep = |i: int| !before.excluded[i];
    lemma_listed(before.size(), keep);
    if let SccStep::Run(run) = step {
        assert forall|i: int| 0 <= i < before.size() implies (run@.contains(i as usize) <==> !(
        #[trigger] before.excluded[i])) by {
            assert(keep(i) == !before.excluded[i]);
        }
    }
}

/// The members below `n` for which `keep` holds are listed, each once and in order, and no others.
pub proof fn lemma_listed(n: nat, keep: spec_fn(int) -> bool)
    requires
        n <= usize::MAX,
    ensures
        forall|i: int|
            0 <= i < n ==> (members_where(n, keep).contains(i as usize) <==> #[trigger] keep(i)),
        forall|k: int|
            0 <= k < members_where(n, keep).len() ==> 0 <= (#[trigger] members_where(n, keep)[k]) < n,
        forall|k: int, l: int|
            0 <= k < l < members_where(n, keep).len() ==> #[trigger] members_where(n, keep)[k]
                < #[trigger] members_where(n, keep)[l],
    decreases n,
{
    if n > 0 {
        let m = (n - 1) as nat;
        lemma_listed(m, keep);
        let front = members_where(m, keep);
        let all = members_where(n, keep);
        assert forall|i: int| 0 <= i < n implies (all.contains(i as usize) <==> #[trigger] keep(i)) by {
            if i < m {
                if front.contains(i as usize) {
                    let k = choose|k: int| 0 <= k < front.len() && front[k] == i as usize;
                    assert(all[k] == i as usize);
                }
                if all.contains(i as usize) {
                    let k = choose|k: int| 0 <= k < all.len() && all[k] == i as usize;
                    if k < front.len() {
                        assert(front[k] == i as usize);
                    }
                }
            } else {
                if keep(i) {
                    assert(all[front.len() as int] == i as usize);
                } else if all.contains(i as usize) {
                    let k = choose|k: int| 0 <= k < all.len() && all[k] == i as usize;
                    assert(front[k] < m);
                }
            }
        }
        assert forall|k: int, l: int| 0 <= k < l < all.len() implies #[trigger] all[k]
            < #[trigger] all[l] by {
            assert(all[k] == front[k]);
            if l < front.len() {
                assert(all[l] == front[l]);
            }
        }
    }
}

/// Under the error policy a live cycle is marked: the members in it that are still evaluated are
/// listed, get the error of a cycle and are left out from then on; all others keep their values, and
/// those that are still evaluated run once more.
pub proof fn members_of_live_cycles_get_the_error(
    before: TaskView,
    live: LiveAnalysis,
    converged: Seq<bool>,
    step: SccStep,
    after: TaskView,
    reader: int,
)
    requires
        before.wf(),
        before.size() <= usize::MAX,
        fits(live, before.size()),
        before.policy == CyclePolicy::Error,
        live.cycle_count > 0,
        0 <= reader < before.size(),
        !before.excluded[reader],
        before.out_edges[reader].len() > 0,
        decided(before, live, converged, step, after),
    ensures
        step is StampAndSettle,
        forall|i: int|
            #![trigger live.in_cycle@[i]]
            0 <= i < before.size() ==> step->StampAndSettle_stamp@.contains(i as usize) == (
            live.in_cycle@[i] && !before.excluded[i]),
        forall|i: int|
            0 <= i < before.size() && step->StampAndSettle_run@.contains(i as usize)
                ==> !live.in_cycle@[i] && !(#[trigger] before.excluded[i]) && live.topo@.contains(
                i as u32,
            ),
        forall|i: int|
            0 <= i < before.size() && !live.in_cycle@[i] && !(#[trigger] before.excluded[i]) && i
                <= u32::MAX && live.topo@.contains(i as u32) ==> step->StampAndSettle_run@.contains(
                i as usize,
            ),
        forall|i: int|
            0 <= i < before.size() ==> (#[trigger] after.last[i]) == (if live.in_cycle@[i]
                && !before.excluded[i] {
                ValueView::Error(
                    crate::value::error_with(
                        crate::value::ErrorKind::Circ,
                        "Circular dependency detected"@,
                    ),
                )
            } else {
                before.last[i]
            }),
        forall|i: int|
            0 <= i < before.size() ==> (#[trigger] after.excluded[i]) == (before.excluded[i]
                || live.in_cycle@[i]),
        !after.iterating == !before.iterating,
{
    assert(!before.has_no_reads()) by {
        assert(before.out_edges[reader].len() > 0);
    }
    let keep = |i: int| live.in_cycle@[i] && !before.excluded[i];
    lemma_listed(before.size(), keep);
    lemma_kept_listed(live.topo@, after.excluded);
    assert(step is StampAndSettle);
    let stamp = step->StampAndSettle_stamp@;
    assert(stamp == members_where(before.size(), keep));
    let run = step->StampAndSettle_run@;
    assert forall|i: int| 0 <= i < before.size() && run.contains(i as usize) implies !live.in_cycle@[i]
        && !(#[trigger] before.excluded[i]) && live.topo@.contains(i as u32) by {
        assert(after.excluded[i] == (before.excluded[i] || live.in_cycle@[i]));
    }
    assert forall|i: int|
        0 <= i < before.size() && !live.in_cycle@[i] && !(#[trigger] before.excluded[i]) && i <= u32::MAX
            && live.topo@.contains(i as u32) implies run.contains(i as usize) by {
        assert(after.excluded[i] == (before.excluded[i] || live.in_cycle@[i]));
    }
    assert forall|i: int|
        #![trigger live.in_cycle@[i]]
        0 <= i < before.size() implies step->StampAndSettle_stamp@.contains(i as usize) == (
    live.in_cycle@[i] && !before.excluded[i]) by {
        assert(keep(i) == (live.in_cycle@[i] && !before.excluded[i]));
        assert(stamp.contains(i as usize) <==> keep(i));
    }
}

/// The members of a list that are not left out are those of it that are not.
proof fn lemma_kept_listed(topo: Seq<u32>, excluded: Seq<bool>)
    requires
        forall|k: int| 0 <= k < topo.len() ==> (#[trigger] topo[k]) < excluded.len(),
        excluded.len() <= usize::MAX,
    ensures
        forall|i: usize|
            #[trigger] kept(topo, excluded).contains(i) <==> i < excluded.len() && i <= u32::MAX
                && topo.contains(i as u32) && !excluded[i as int],
    decreases topo.len(),
{
    if topo.len() > 0 {
        let front = topo.drop_last();
        assert forall|k: int| 0 <= k < front.len() implies (#[trigger] front[k]) < excluded.len() by {
            assert(front[k] == topo[k]);
        }
        lemma_kept_listed(front, excluded);
        let before = kept(front, excluded);
        let all = kept(topo, excluded);
        let last = topo[topo.len() - 1];
        assert(last < excluded.len());
        assert forall|i: usize|
            #[trigger] all.contains(i) <==> i < excluded.len() && i <= u32::MAX && topo.contains(
                i as u32,
            ) && !excluded[i as int] by {
            assert(topo.contains(i as u32) <==> front.contains(i as u32) || last == i as u32) by {
                let x = i as u32;
                if front.contains(x) {
                    let k = choose|k: int| 0 <= k < front.len() && front[k] == x;
                    assert(topo[k] == x);
                }
                if topo.contains(x) {
                    let k = choose|k: int| 0 <= k < topo.len() && topo[k] == x;
                    if k < front.len() {
                        assert(front[k] == x);
                    }
                }
                if last == x {
                    assert(topo[topo.len() - 1] == x);
                }
            }
            if before.contains(i) {
                let k = choose|k: int| 0 <= k < before.len() && before[k] == i;
                assert(all[k] == i);
            }
            if all.contains(i) {
                let k = choose|k: int| 0 <= k < all.len() && all[k] == i;
                if k < before.len() {
                    assert(before[k] == i);
                }
            }
            if last as usize == i && !excluded[i as int] {
                assert(all[before.len() as int] == i);
            }
        }
    }
}

/// Without a live cycle the task is done once no member that is still evaluated read a member before
/// that changed; else exactly those that did run again, unless more settling passes were made than
/// there are members, and then all of them get the error of a cycle.
pub proof fn early_readers_run_again(
    before: TaskView,
    live: LiveAnalysis,
    converged: Seq<bool>,
    step: SccStep,
    after: TaskView,
    i: int,
)
    requires
        before.wf(),
        before.size() <= usize::MAX,
        live.cycle_count == 0,
        0 <= i < before.size(),
        decided(before, live, converged, step, after),
    ensures
        ({
            let early = !before.excluded[i] && exists|k: int|
                {
                    let t = #[trigger] before.out_edges[i][k] as int;
                    &&& 0 <= k < before.out_edges[i].len()
                    &&& before.changed[t]
                    &&& match (before.pos[i], before.pos[t]) {
                        (None, _) => true,
                        (Some(_), None) => false,
                        (Some(p), Some(q)) => p < q,
                    }
                };
            &&& early ==> !(step is Done)
            &&& step matches SccStep::Run(run) ==> (run@.contains(i as usize) <==> early)
            &&& early && before.settle_passes <= before.size() ==> step is Run
            &&& step is StampRest ==> before.settle_passes > before.size() && after.capped
                && after.excluded[i] && (before.excluded[i] || after.last[i] == ValueView::Error(
                crate::value::error_with(
                    crate::value::ErrorKind::Circ,
                    "Circular dependency detected"@,
                ),
            ))
        }),
        !(step is StampAndSettle),
        step is Done ==> after == before,
        step is Run ==> after.last == before.last && after.excluded == before.excluded
            && after.passes == before.passes + 1,
{
    let early = !before.excluded[i] && exists|k: int|
        {
            let t = #[trigger] before.out_edges[i][k] as int;
            &&& 0 <= k < before.out_edges[i].len()
            &&& before.changed[t]
            &&& match (before.pos[i], before.pos[t]) {
                (None, _) => true,
                (Some(_), None) => false,
                (Some(p), Some(q)) => p < q,
            }
        };
    if early {
        let k = choose|k: int|
            {
                let t = #[trigger] before.out_edges[i][k] as int;
                &&& 0 <= k < before.out_edges[i].len()
                &&& before.changed[t]
                &&& match (before.pos[i], before.pos[t]) {
                    (None, _) => true,
                    (Some(_), None) => false,
                    (Some(p), Some(q)) => p < q,
                }
            };
        assert(before.read_too_early(i, before.out_edges[i][k] as int));
        assert(before.out_edges[i].len() > 0);
    }
    assert(before.is_stale(i) == early);
    lemma_listed(before.size(), |j: int| before.is_stale(j));
    let keep = |j: int| before.is_stale(j);
    assert(keep(i) == before.is_stale(i));
    let stale = before.stale();
    assert(stale.contains(i as usize) <==> early);
    if let SccStep::Run(run) = step {
        let order = choose|order: Seq<usize>|
            {
                &&& #[trigger] is_stable_order(rank_keys(live.topo@, stale), order)
                &&& run@ == Seq::new(stale.len(), |k: int| stale[order[k] as int])
            };
        if stale.contains(i as usize) {
            let k = choose|k: int| 0 <= k < stale.len() && stale[k] == i as usize;
            crate::sort::lemma_permutation_hits(order, stale.len(), k);
            let m = choose|m: int| 0 <= m < stale.len() && #[trigger] order[m] == k;
            assert(run@[m] == i as usize);
        }
        if run@.contains(i as usize) {
            let m = choose|m: int| 0 <= m < run@.len() && run@[m] == i as usize;
            assert(order[m] < stale.len());
            assert(stale[order[m] as int] == i as usize);
        }
    }
}

/// A member that ran has the value that it came to, unless it stands in a cell and would spill: then
/// it gets the error of a cycle and is left out from then on. It counts as changed exactly where its
/// value differs, and no other member is touched.
pub proof fn a_run_member_has_its_value(
    before: TaskView,
    i: int,
    value: ValueView,
    place: usize,
    other: int,
)
    requires
        before.wf(),
        0 <= i < before.size(),
        0 <= other < before.size(),
    ensures
        ({
            let after = before.running(i, value, place);
            let circ = ValueView::Error(
                crate::value::error_with(
                    crate::value::ErrorKind::Circ,
                    "Circular dependency detected"@,
                ),
            );
            let spills = before.is_cell[i] && value is Array;
            &&& after.last[i] == (if spills {
                circ
            } else {
                value
            })
            &&& spills ==> after.excluded[i] && after.stamped == before.stamped + 1
            &&& !spills ==> after.excluded[i] == before.excluded[i] && after.stamped == before.stamped
            &&& after.changed[i] == !value_eq(before.last[i], after.last[i])
            &&& after.pos[i] == Some(place)
            &&& other != i ==> after.last[other] == before.last[other] && after.excluded[other]
                == before.excluded[other] && after.changed[other] == before.changed[other]
                && after.pos[other] == before.pos[other]
            &&& after.passes == before.passes
        }),
{
}

/// How a task begins: array formulas have the error of a cycle and take no part; scalar formulas and
/// names run, everything else does not; every member else has the value that it had.
pub proof fn only_scalar_formulas_and_names_run(
    policy: CyclePolicy,
    kinds: Seq<VertexKind>,
    is_cell: Seq<bool>,
    snapshot: Seq<ValueView>,
    i: int,
)
    requires
        0 <= i < kinds.len(),
        snapshot.len() == kinds.len(),
    ensures
        ({
            let t = initial_task(policy, kinds, is_cell, snapshot);
            &&& t.excluded[i] <==> !(kinds[i] == VertexKind::FormulaScalar || kinds[i]
                == VertexKind::NamedScalar || kinds[i] == VertexKind::NamedArray)
            &&& kinds[i] == VertexKind::FormulaArray ==> (t.last[i] matches ValueView::Error(e) && e.kind
                == crate::value::ErrorKind::Circ)
            &&& kinds[i] != VertexKind::FormulaArray ==> t.last[i] == snapshot[i]
            &&& t.snapshot[i] == snapshot[i]
            &&& t.passes == 1 && t.settle_passes == 0 && t.witnessed_cycles == 0
            &&& !t.capped && !t.iterating && !t.converged && t.prev is None && t.pos[i] is None
        }),
{
}

/// What is counted of a decision: the largest number of live cycles seen, one pass more exactly where
/// members run again, and one settling pass more exactly where early readers do.
pub proof fn decisions_count_their_passes(
    before: TaskView,
    live: LiveAnalysis,
    converged: Seq<bool>,
    step: SccStep,
    after: TaskView,
)
    requires
        decided(before, live, converged, step, after),
    ensures
        after.witnessed_cycles >= before.witnessed_cycles,
        after.witnessed_cycles > before.witnessed_cycles ==> after.witnessed_cycles == live.cycle_count,
        (exists|i: int|
            0 <= i < before.size() && !before.excluded[i] && (#[trigger] before.out_edges[i]).len() > 0)
            ==> after.witnessed_cycles >= live.cycle_count,
        step is Run ==> after.passes == before.passes + 1,
        step is Done || step is StampRest ==> after.passes == before.passes,
        step matches SccStep::StampAndSettle { run, .. } ==> after.passes == before.passes + (if run@.len()
            > 0 {
            1nat
        } else {
            0nat
        }),
        live.cycle_count == 0 && step is Run ==> after.settle_passes == before.settle_passes + 1,
        !(live.cycle_count == 0 && step is Run) ==> after.settle_passes == before.settle_passes,
        after.stamped >= before.stamped,
        step is Run || step is Done ==> after.stamped == before.stamped && after.last == before.last
            && after.excluded == before.excluded,
        after.iterating && !before.iterating ==> live.cycle_count > 0 && before.policy is Iterate,
        live.cycle_count > 0 && step is Run ==> after.iterating && after.prev == Some(before.last),
        live.cycle_count == 0 && step is Run ==> after.prev is None,
        after.snapshot == before.snapshot,
        after.is_cell == before.is_cell,
        after.policy == before.policy,
{
    if before.has_no_reads() {
        assert(!exists|i: int|
            0 <= i < before.size() && !before.excluded[i] && (#[trigger] before.out_edges[i]).len() > 0);
    }
}

/// Without live cycles a task ends once no member has read too early; where members still do after as
/// many settling passes as there are members and one more, all that are left get the error.
pub proof fn settling_ends(
    before: TaskView,
    live: LiveAnalysis,
    converged: Seq<bool>,
    step: SccStep,
    after: TaskView,
    i: int,
)
    requires
        before.wf(),
        before.size() <= usize::MAX,
        live.cycle_count == 0,
        decided(before, live, converged, step, after),
        0 <= i < before.size(),
    ensures
        step is Done || step is Run || step is StampRest,
        step is StampRest ==> before.settle_passes > before.size() && after.capped && after.excluded[i] && (
        !before.excluded[i] ==> (after.last[i] matches ValueView::Error(e) && e.kind
            == crate::value::ErrorKind::Circ)),
        step matches SccStep::StampRest(list) ==> (list@.contains(i as usize) <==> !before.excluded[i]),
        step is Run ==> before.settle_passes <= before.size(),
        step is Done ==> after == before,
{
    let keep = |k: int| !before.excluded[k];
    lemma_listed(before.size(), keep);
    assert(keep(i) == !before.excluded[i]);
}

/// The flags that are set.
pub proof fn set_flags_are_counted(flags: Seq<bool>)
    ensures
        count_true(flags) == flags.filter(|b: bool| b).len(),
    decreases flags.len(),
{
    reveal(Seq::filter);
    if flags.len() > 0 {
        set_flags_are_counted(flags.drop_last());
    }
}

/// What a member was seen to read in a pass: the targets of its edges, and nothing where it ran without
/// reading; members that did not run keep what they were seen to read before.
pub proof fn reads_of_a_pass_replace_the_old_ones(t: TaskView, drained: Seq<(u32, u32)>, i: int, to: u32)
    requires
        0 <= i < t.size(),
        t.out_edges.len() == t.size(),
        i <= u32::MAX,
    ensures
        t.pos[i] is Some ==> (t.with_edges(drained).out_edges[i].contains(to) <==> drained.contains(
            (i as u32, to),
        )),
        t.pos[i] is None ==> t.with_edges(drained).out_edges[i] == t.out_edges[i],
{
    lemma_targets_are_edges(drained, i, to);
}

proof fn lemma_targets_are_edges(edges: Seq<(u32, u32)>, from: int, to: u32)
    requires
        0 <= from <= u32::MAX,
    ensures
        targets(edges, from).contains(to) <==> edges.contains((from as u32, to)),
    decreases edges.len(),
{
    if edges.len() > 0 {
        let front = edges.drop_last();
        lemma_targets_are_edges(front, from, to);
        let list = targets(front, from);
        let e = (from as u32, to);
        if front.contains(e) {
            let k = choose|k: int| 0 <= k < front.len() && front[k] == e;
            assert(edges[k] == e);
        }
        if edges.contains(e) && edges.last() != e {
            let k = choose|k: int| 0 <= k < edges.len() && edges[k] == e;
            assert(front[k] == e);
        }
        if edges.last().0 == from {
            let all = list.push(edges.last().1);
            assert(all[list.len() as int] == edges.last().1);
            if list.contains(to) {
                let k = choose|k: int| 0 <= k < list.len() && list[k] == to;
                assert(all[k] == to);
            }
            if all.contains(to) && edges.last().1 != to {
                let k = choose|k: int| 0 <= k < all.len() && all[k] == to;
                assert(list[k] == to);
            }
            if edges.last().1 == to {
                assert(edges[edges.len() - 1] == e);
            }
        }
    }
}

/// No member that is still evaluated has a larger change than the largest one of the round; changes
/// that are no numbers count for nothing.
pub proof fn the_largest_change_bounds_all(t: TaskView, outcomes: Seq<ConvergenceOutcome>, n: nat, i: int)
    requires
        n <= outcomes.len(),
        0 <= i < n,
        !t.excluded[i],
        outcomes[i].abs_delta matches Some(d) && !crate::number::is_nan(d),
    ensures
        !crate::number::is_nan(round_delta(t, outcomes, n)),
        round_delta(t, outcomes, n) >= outcomes[i].abs_delta->Some_0,
    decreases n,
{
    let before = round_delta(t, outcomes, (n - 1) as nat);
    lemma_round_is_a_number(t, outcomes, (n - 1) as nat);
    if i < n - 1 {
        the_largest_change_bounds_all(t, outcomes, (n - 1) as nat, i);
    }
    if let Some(d) = outcomes[n - 1].abs_delta {
        crate::telemetry::the_larger_double_is_no_smaller(before, d);
    }
}

proof fn lemma_round_is_a_number(t: TaskView, outcomes: Seq<ConvergenceOutcome>, n: nat)
    requires
        n <= outcomes.len(),
    ensures
        !crate::number::is_nan(round_delta(t, outcomes, n)),
    decreases n,
{
    if n > 0 {
        lemma_round_is_a_number(t, outcomes, (n - 1) as nat);
    }
}

/// Converged members that are no numbers are counted among those that are still evaluated.
pub proof fn members_without_a_number_are_counted(t: TaskView, outcomes: Seq<ConvergenceOutcome>, n: nat, i: int)
    requires
        n <= outcomes.len(),
        0 <= i < n,
    ensures
        nan_count(t, outcomes, n) <= n,
        !t.excluded[i] && outcomes[i].nan_converged ==> nan_count(t, outcomes, n) > 0,
        (forall|k: int| 0 <= k < n ==> t.excluded[k] || !(#[trigger] outcomes[k]).nan_converged)
            ==> nan_count(t, outcomes, n) == 0,
    decreases n,
{
    reveal_with_fuel(nan_count, 2);
    if n > 1 {
        members_without_a_number_are_counted(
            t,
            outcomes,
            (n - 1) as nat,
            if i < n - 1 {
                i
            } else {
                0
            },
        );
    }
}

/// Members that are left run in the order of the analysis.
pub proof fn members_that_are_left_keep_the_order(topo: Seq<u32>, excluded: Seq<bool>) -> (places: Seq<int>)
    ensures
        places.len() == kept(topo, excluded).len(),
        forall|k: int|
            #![trigger places[k]]
            0 <= k < places.len() ==> 0 <= places[k] < topo.len() && kept(topo, excluded)[k]
                == topo[places[k]] && !excluded[topo[places[k]] as int],
        forall|k: int, l: int| 0 <= k < l < places.len() ==> #[trigger] places[k] < #[trigger] places[l],
        forall|i: int|
            0 <= i < topo.len() && !excluded[#[trigger] topo[i] as int] ==> places.contains(i),
    decreases topo.len(),
{
    if topo.len() == 0 {
        Seq::empty()
    } else {
        let before = members_that_are_left_keep_the_order(topo.drop_last(), excluded);
        let last = topo.len() - 1;
        let places = if excluded[topo.last() as int] {
            before
        } else {
            before.push(last)
        };
        assert forall|i: int| 0 <= i < topo.len() && !excluded[#[trigger] topo[i] as int] implies places.contains(
            i,
        ) by {
            if i < last {
                assert(topo.drop_last()[i] == topo[i]);
                let k = choose|k: int| 0 <= k < before.len() && before[k] == i;
                assert(places[k] == i);
            } else {
                assert(places[before.len() as int] == i);
            }
        }
        places
    }
}

} // verus!
