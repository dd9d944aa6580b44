//! One cycle of a schedule on the grid: how it is stamped or evaluated.
use crate::coord::{CellRef, VertexId};
use crate::fx::{map_get, map_insert, set_contains};
use crate::grid::{DeltaCollector, DeltaMode, DeltaView, Grid, GridView, changes_view, emptied, recorded};
use crate::outcome::{failing, own_change, update_vertex_value_with_delta};
use crate::scc::{CycleDetection, CyclePolicy, SccVertex, are_distinct, circ_error, circ_value, is_member_order, is_rearranged, member_class, members_run_in_one_order, order_members, taken_from};
use crate::scc_task::{SccTask, TaskView, initial_task, members_where};
use crate::spill::ShimSpillManager;
use crate::value::{LiteralValue, ValueView, row_view, value_eq};
use crate::vertex::VertexKind;
use rustc_hash::{FxHashMap, FxHashSet};
use vstd::prelude::*;

verus! {

/// The collected cells once the vertex is marked as part of a cycle.
pub open spec fn stamp_delta(d: DeltaView, g: GridView, v: u32) -> DeltaView {
    let cells = g.spill_cells(v);
    let own = own_change(g.clearing(v), v, circ_value());
    recorded(recorded(d, g, emptied(cells), cells.len()), g.clearing(v), own, own.len())
}

/// Marks a vertex as part of a cycle. An array that it has spilled is taken back first, and a lock
/// that it still holds is given up: the answer is the lock to release.
pub fn stamp_cycle_error(
    locks: &mut ShimSpillManager,
    grid: &mut Grid,
    delta: &mut DeltaCollector,
    v: VertexId,
) -> (r: Option<u64>)
    requires
        old(grid).wf(),
        old(delta).wf(),
    ensures
        final(grid).wf(),
        final(delta).wf(),
        final(grid)@ == failing(old(grid)@, v, circ_value()),
        final(delta)@ == stamp_delta(old(delta)@, old(grid)@, v),
        final(locks)@ == old(locks)@.remove(v),
        r == (if old(locks)@.contains_key(v) {
            Some(old(locks)@[v])
        } else {
            None
        }),
{
    grid.clear_spill_projection_and_mirror(v, delta);
    let released = locks.release_owner(v);
    let value = circ_error();
    update_vertex_value_with_delta(grid, delta, v, &value);
    released
}

/// Whether the vertex passes the filter; without one every vertex does.
pub open spec fn passes(filter: Option<Set<u32>>, v: u32) -> bool {
    filter matches Some(set) ==> set.contains(v)
}

pub open spec fn filter_view(filter: Option<&FxHashSet<u32>>) -> Option<Set<u32>> {
    match filter {
        Some(set) => Some(set@),
        None => None,
    }
}

/// The grid once those of the first `n` vertices that pass the filter are marked.
pub open spec fn stamped_grid(g: GridView, cycle: Seq<u32>, filter: Option<Set<u32>>, n: nat) -> GridView
    decreases n,
{
    if n == 0 {
        g
    } else {
        let before = stamped_grid(g, cycle, filter, (n - 1) as nat);
        if passes(filter, cycle[n - 1]) {
            failing(before, cycle[n - 1], circ_value())
        } else {
            before
        }
    }
}

/// The collected cells once those of the first `n` vertices that pass the filter are marked.
pub open spec fn stamped_delta(
    d: DeltaView,
    g: GridView,
    cycle: Seq<u32>,
    filter: Option<Set<u32>>,
    n: nat,
) -> DeltaView
    decreases n,
{
    if n == 0 {
        d
    } else {
        let before = stamped_delta(d, g, cycle, filter, (n - 1) as nat);
        if passes(filter, cycle[n - 1]) {
            stamp_delta(before, stamped_grid(g, cycle, filter, (n - 1) as nat), cycle[n - 1])
        } else {
            before
        }
    }
}

/// How many of the first `n` vertices pass the filter.
pub open spec fn passing_count(cycle: Seq<u32>, filter: Option<Set<u32>>, n: nat) -> nat
    decreases n,
{
    if n == 0 {
        0
    } else {
        passing_count(cycle, filter, (n - 1) as nat) + (if passes(filter, cycle[n - 1]) {
            1nat
        } else {
            0nat
        })
    }
}

/// The locks that those of the first `n` vertices that pass the filter give up.
pub open spec fn given_up(
    locks: Map<u32, u64>,
    cycle: Seq<u32>,
    filter: Option<Set<u32>>,
    n: nat,
) -> (Map<u32, u64>, Seq<u64>)
    decreases n,
{
    if n == 0 {
        (locks, Seq::empty())
    } else {
        let (held, out) = given_up(locks, cycle, filter, (n - 1) as nat);
        let v = cycle[n - 1];
        if passes(filter, v) && held.contains_key(v) {
            (held.remove(v), out.push(held[v]))
        } else {
            (held, out)
        }
    }
}

fn lets_through(filter: Option<&FxHashSet<u32>>, v: VertexId) -> (b: bool)
    ensures
        b == passes(filter_view(filter), v),
{
    match filter {
        Some(set) => set_contains(set, &v),
        None => true,
    }
}

/// Marks the members of a cycle, or those that pass the filter. The answers are how many were
/// marked, and the locks to release.
pub fn apply_cycle_outcome(
    locks: &mut ShimSpillManager,
    grid: &mut Grid,
    delta: &mut DeltaCollector,
    cycle: &Vec<VertexId>,
    filter: Option<&FxHashSet<u32>>,
) -> (r: (usize, Vec<u64>))
    requires
        old(grid).wf(),
        old(delta).wf(),
    ensures
        final(grid).wf(),
        final(delta).wf(),
        final(grid)@ == stamped_grid(old(grid)@, cycle@, filter_view(filter), cycle@.len()),
        final(delta)@ == stamped_delta(
            old(delta)@,
            old(grid)@,
            cycle@,
            filter_view(filter),
            cycle@.len(),
        ),
        r.0 == passing_count(cycle@, filter_view(filter), cycle@.len()),
        (final(locks)@, r.1@) == given_up(
            old(locks)@,
            cycle@,
            filter_view(filter),
            cycle@.len(),
        ),
{
    let ghost f = filter_view(filter);
    let mut stamped: usize = 0;
    let mut released: Vec<u64> = Vec::new();
    let mut i: usize = 0;
    while i < cycle.len()
        invariant
            grid.wf(),
            delta.wf(),
            i <= cycle@.len(),
            f == filter_view(filter),
            stamped <= i,
            grid@ == stamped_grid(old(grid)@, cycle@, f, i as nat),
            delta@ == stamped_delta(old(delta)@, old(grid)@, cycle@, f, i as nat),
            stamped == passing_count(cycle@, f, i as nat),
            (locks@, released@) == given_up(old(locks)@, cycle@, f, i as nat),
        decreases cycle@.len() - i,
    {
        let v = cycle[i];
        if lets_through(filter, v) {
            let ghost held = locks@;
            match stamp_cycle_error(locks, grid, delta, v) {
                Some(id) => {
                    released.push(id);
                },
                None => {
                    assert(held.remove(v) =~= held);
                },
            }
            stamped = stamped + 1;
        }
        i = i + 1;
    }
    (stamped, released)
}

/// What is done about a cycle of the schedule.
#[derive(Debug)]
pub enum CycleStep {
    /// The cycle is settled: this many members were marked, and these locks are to release.
    Settled { stamped: usize, released: Vec<u64> },
    /// The cycle has to be evaluated.
    Evaluate,
}

/// Handles a cycle. Where cycles are found in the schedule alone its members are marked, or those
/// that pass the filter; where they are found by evaluation it is evaluated as a whole, unless no
/// member passes the filter.
pub fn handle_cycle_unit(
    locks: &mut ShimSpillManager,
    grid: &mut Grid,
    delta: &mut DeltaCollector,
    detection: CycleDetection,
    cycle: &Vec<VertexId>,
    filter: Option<&FxHashSet<u32>>,
) -> (r: CycleStep)
    requires
        old(grid).wf(),
        old(delta).wf(),
    ensures
        final(grid).wf(),
        final(delta).wf(),
        match detection {
            CycleDetection::Static => {
                let f = filter_view(filter);
                let n = cycle@.len();
                &&& r matches CycleStep::Settled { stamped, released } && stamped == passing_count(
                    cycle@,
                    f,
                    n,
                ) && (final(locks)@, released@) == given_up(old(locks)@, cycle@, f, n)
                &&& final(grid)@ == stamped_grid(old(grid)@, cycle@, f, n)
                &&& final(delta)@ == stamped_delta(old(delta)@, old(grid)@, cycle@, f, n)
            },
            CycleDetection::Runtime => {
                &&& final(locks)@ == old(locks)@
                &&& final(grid)@ == old(grid)@
                &&& final(delta)@ == old(delta)@
                &&& if filter is Some && forall|k: int|
                    0 <= k < cycle@.len() ==> !passes(filter_view(filter), #[trigger] cycle@[k]) {
                    r matches CycleStep::Settled { stamped, released } && stamped == 0
                        && released@.len() == 0
                } else {
                    r is Evaluate
                }
            },
        },
{
    match detection {
        CycleDetection::Static => {
            let (stamped, released) = apply_cycle_outcome(locks, grid, delta, cycle, filter);
            CycleStep::Settled { stamped, released }
        },
        CycleDetection::Runtime => {
            if filter.is_some() {
                let mut i: usize = 0;
                while i < cycle.len() && !lets_through(filter, cycle[i])
                    invariant
                        i <= cycle@.len(),
                        forall|k: int|
                            0 <= k < i ==> !passes(filter_view(filter), #[trigger] cycle@[k]),
                    decreases cycle@.len() - i,
                {
                    i = i + 1;
                }
                if i == cycle.len() {
                    return CycleStep::Settled { stamped: 0, released: Vec::new() };
                }
                assert(passes(filter_view(filter), cycle@[i as int]));
            }
            CycleStep::Evaluate
        },
    }
}

/// A cycle under evaluation.
#[derive(Debug)]
pub struct SccUnit {
    pub members: Vec<VertexId>,
    pub cells: Vec<Option<CellRef>>,
    pub task: SccTask,
}

impl SccUnit {
    /// Both lists speak of the members of the task; a member has a cell exactly where the task
    /// knows it as one in a cell.
    pub open spec fn wf(&self) -> bool {
        &&& self.task@.wf()
        &&& self.members@.len() == self.task@.size()
        &&& self.cells@.len() == self.task@.size()
        &&& forall|i: int|
            0 <= i < self.cells@.len() ==> (#[trigger] self.cells@[i] is Some)
                == self.task@.is_cell[i]
    }
}

/// The member's cell, which only a formula in a cell has.
pub open spec fn member_cell(v: SccVertex) -> Option<CellRef> {
    if member_class(v) == 0 {
        v.cell
    } else {
        None
    }
}

/// The cells that get back the value that a cycle left in them: those of the first `n` members
/// that show nothing although a value is kept for them.
pub open spec fn restores(
    g: GridView,
    members: Seq<SccVertex>,
    kept: Map<u32, ValueView>,
    n: nat,
) -> Seq<(CellRef, ValueView)>
    decreases n,
{
    if n == 0 {
        Seq::empty()
    } else {
        let before = restores(g, members, kept, (n - 1) as nat);
        let m = members[n - 1];
        match member_cell(m) {
            Some(cell) if kept.contains_key(m.vertex) && g.reading(cell) == ValueView::Empty =>
                before.push((cell, kept[m.vertex])),
            _ => before,
        }
    }
}

pub open spec fn kept_view(kept: Map<u32, LiteralValue>) -> Map<u32, ValueView> {
    kept.map_values(|v: LiteralValue| v@)
}

fn cell_of_member(v: &SccVertex) -> (r: Option<CellRef>)
    ensures
        r == member_cell(*v),
{
    match v.kind {
        VertexKind::FormulaScalar | VertexKind::FormulaArray => v.cell,
        _ => None,
    }
}

fn list_restores(
    grid: &Grid,
    cycle: &Vec<SccVertex>,
    order: &Vec<usize>,
    kept: &FxHashMap<u32, LiteralValue>,
) -> (r: Vec<(CellRef, LiteralValue)>)
    requires
        grid.wf(),
        is_member_order(cycle@, order@),
    ensures
        changes_view(r@) == restores(
            grid@,
            taken_from(cycle@, order@),
            kept_view(kept@),
            order@.len(),
        ),
        r@.len() == restores(
            grid@,
            taken_from(cycle@, order@),
            kept_view(kept@),
            order@.len(),
        ).len(),
{
    let ghost members = taken_from(cycle@, order@);
    let mut out: Vec<(CellRef, LiteralValue)> = Vec::new();
    assert(changes_view(out@) =~= restores(grid@, members, kept_view(kept@), 0));
    let mut i: usize = 0;
    while i < order.len()
        invariant
            grid.wf(),
            is_member_order(cycle@, order@),
            members == taken_from(cycle@, order@),
            i <= order@.len(),
            changes_view(out@) == restores(grid@, members, kept_view(kept@), i as nat),
        decreases order@.len() - i,
    {
        assert(order@[i as int] < cycle@.len());
        let m = &cycle[order[i]];
        assert(members[i as int] == *m);
        if let Some(cell) = cell_of_member(m) {
            if let Some(value) = map_get(kept, &m.vertex) {
                if grid.read_cell(cell).is_empty() {
                    let ghost before = out@;
                    out.push((cell, value.duplicate()));
                    assert(changes_view(out@) =~= changes_view(before).push((cell, value@)));
                }
            }
        }
        i = i + 1;
    }
    out
}

/// The grid before the first pass, once kept values are restored.
pub open spec fn restored(g: GridView, members: Seq<SccVertex>, kept: Map<u32, ValueView>) -> GridView {
    let changes = restores(g, members, kept, members.len());
    g.showing(changes, changes.len())
}

/// The value of a member: what its cell shows, or what the vertex holds.
pub open spec fn member_value(g: GridView, m: SccVertex) -> ValueView {
    match member_cell(m) {
        Some(cell) => g.reading(cell),
        None => if g.values.contains_key(m.vertex) {
            g.values[m.vertex]
        } else {
            ValueView::Empty
        },
    }
}

/// The members that anchor a spilled array, in order.
pub open spec fn anchors(members: Seq<SccVertex>, n: nat) -> Seq<u32>
    decreases n,
{
    if n == 0 {
        Seq::empty()
    } else if members[n - 1].kind == VertexKind::FormulaArray {
        anchors(members, (n - 1) as nat).push(members[n - 1].vertex)
    } else {
        anchors(members, (n - 1) as nat)
    }
}

/// Begins the evaluation of a cycle: orders its members, gives back the values that an earlier
/// evaluation left and that were lost since, takes down what the members show, and marks those
/// that have spilled an array. The second answer holds the locks to release.
pub fn begin_scc_unit(
    locks: &mut ShimSpillManager,
    grid: &mut Grid,
    delta: &mut DeltaCollector,
    policy: CyclePolicy,
    cycle: &Vec<SccVertex>,
    kept: &FxHashMap<u32, LiteralValue>,
) -> (r: (SccUnit, Vec<u64>))
    requires
        old(grid).wf(),
        old(delta).wf(),
    ensures
        final(grid).wf(),
        final(delta).wf(),
        r.0.wf(),
        exists|order: Seq<usize>|
            is_member_order(cycle@, order) && begun(
                old(locks)@,
                old(grid)@,
                old(delta)@,
                policy,
                #[trigger] taken_from(cycle@, order),
                kept_view(kept@),
                r.0,
                r.1@,
                final(locks)@,
                final(grid)@,
                final(delta)@,
            ),
{
    let ghost g0 = grid@;
    let ghost d0 = delta@;
    let ghost l0 = locks@;
    let order = order_members(cycle);
    let ghost members = taken_from(cycle@, order@);
    let n: usize = order.len();
    let changes = list_restores(grid, cycle, &order, kept);
    grid.show_all(&changes);
    let ghost g1 = grid@;
    assert(g1 == restored(g0, members, kept_view(kept@)));
    let mut ids: Vec<VertexId> = Vec::new();
    let mut cells: Vec<Option<CellRef>> = Vec::new();
    let mut kinds: Vec<VertexKind> = Vec::new();
    let mut is_cell: Vec<bool> = Vec::new();
    let mut snapshot: Vec<LiteralValue> = Vec::new();
    let mut spilled: Vec<VertexId> = Vec::new();
    let mut i: usize = 0;
    while i < n
        invariant
            grid.wf(),
            grid@ == g1,
            is_member_order(cycle@, order@),
            members == taken_from(cycle@, order@),
            n == order@.len(),
            i <= n,
            ids@.len() == i,
            cells@.len() == i,
            kinds@.len() == i,
            is_cell@.len() == i,
            snapshot@.len() == i,
            spilled@ == anchors(members, i as nat),
            forall|k: int| 0 <= k < i ==> #[trigger] ids@[k] == members[k].vertex,
            forall|k: int| 0 <= k < i ==> #[trigger] cells@[k] == member_cell(members[k]),
            forall|k: int| 0 <= k < i ==> #[trigger] kinds@[k] == members[k].kind,
            forall|k: int| 0 <= k < i ==> #[trigger] is_cell@[k] == (member_cell(members[k]) is Some),
            forall|k: int| 0 <= k < i ==> (#[trigger] snapshot@[k])@ == member_value(g1, members[k]),
        decreases n - i,
    {
        assert(order@[i as int] < cycle@.len());
        let m = &cycle[order[i]];
        assert(members[i as int] == *m);
        let cell = cell_of_member(m);
        let value = match cell {
            Some(c) => grid.read_cell(c),
            None => match grid.vertex_value(m.vertex) {
                Some(x) => x,
                None => LiteralValue::Empty,
            },
        };
        ids.push(m.vertex);
        cells.push(cell);
        kinds.push(m.kind);
        is_cell.push(cell.is_some());
        snapshot.push(value);
        if m.kind == VertexKind::FormulaArray {
            spilled.push(m.vertex);
        }
        i = i + 1;
    }
    let (_, released) = apply_cycle_outcome(locks, grid, delta, &spilled, None);
    let ghost flags = is_cell@;
    let ghost values = row_view(snapshot@);
    let task = SccTask::new(policy, &kinds, is_cell, snapshot);
    let unit = SccUnit { members: ids, cells, task };
    proof {
        assert(kinds@ =~= Seq::new(members.len(), |i: int| members[i].kind));
        assert(flags =~= Seq::new(members.len(), |i: int| member_cell(members[i]) is Some));
        assert(values =~= Seq::new(members.len(), |i: int| member_value(g1, members[i])));
        assert(unit.members@ =~= Seq::new(members.len(), |i: int| members[i].vertex));
        assert(unit.cells@ =~= Seq::new(members.len(), |i: int| member_cell(members[i])));
        assert(begun(
            l0,
            g0,
            d0,
            policy,
            taken_from(cycle@, order@),
            kept_view(kept@),
            unit,
            released@,
            locks@,
            grid@,
            delta@,
        ));
    }
    (unit, released)
}

/// Whether a unit, the locks to release, and the state after it are those of a cycle that begins
/// with the given members.
pub open spec fn begun(
    locks: Map<u32, u64>,
    g: GridView,
    d: DeltaView,
    policy: CyclePolicy,
    members: Seq<SccVertex>,
    kept: Map<u32, ValueView>,
    unit: SccUnit,
    released: Seq<u64>,
    locks_after: Map<u32, u64>,
    g_after: GridView,
    d_after: DeltaView,
) -> bool {
    let n = members.len();
    let g1 = restored(g, members, kept);
    let spilled = anchors(members, n);
    &&& unit.members@ == Seq::new(n, |i: int| members[i].vertex)
    &&& unit.cells@ == Seq::new(n, |i: int| member_cell(members[i]))
    &&& unit.task@ == initial_task(
        policy,
        Seq::new(n, |i: int| members[i].kind),
        Seq::new(n, |i: int| member_cell(members[i]) is Some),
        Seq::new(n, |i: int| member_value(g1, members[i])),
    )
    &&& (locks_after, released) == given_up(locks, spilled, None, spilled.len())
    &&& g_after == stamped_grid(g1, spilled, None, spilled.len())
    &&& d_after == stamped_delta(d, g1, spilled, None, spilled.len())
}

/// The order in which the members of a cycle are given does not matter: for another list of the same
/// vertices the unit is the same, and so are the locks, the grid and the collected cells.
pub proof fn cycles_begin_alike_in_any_order(
    locks: Map<u32, u64>,
    g: GridView,
    d: DeltaView,
    policy: CyclePolicy,
    a: Seq<SccVertex>,
    x: Seq<usize>,
    b: Seq<SccVertex>,
    y: Seq<usize>,
    kept: Map<u32, ValueView>,
    units: (SccUnit, SccUnit),
    released: (Seq<u64>, Seq<u64>),
    locks_after: (Map<u32, u64>, Map<u32, u64>),
    g_after: (GridView, GridView),
    d_after: (DeltaView, DeltaView),
)
    requires
        are_distinct(a),
        is_rearranged(a, b),
        is_member_order(a, x),
        is_member_order(b, y),
        begun(
            locks,
            g,
            d,
            policy,
            taken_from(a, x),
            kept,
            units.0,
            released.0,
            locks_after.0,
            g_after.0,
            d_after.0,
        ),
        begun(
            locks,
            g,
            d,
            policy,
            taken_from(b, y),
            kept,
            units.1,
            released.1,
            locks_after.1,
            g_after.1,
            d_after.1,
        ),
    ensures
        units.0.members@ == units.1.members@,
        units.0.cells@ == units.1.cells@,
        units.0.task@ == units.1.task@,
        released.0 == released.1,
        locks_after.0 == locks_after.1,
        g_after.0 == g_after.1,
        d_after.0 == d_after.1,
{
    members_run_in_one_order(a, x, b, y);
}

/// Takes over the result of running a member: it is stored and shown at once, so that later members
/// read it; a member that would spill is marked instead. The answer is the lock to release.
pub fn commit_member(
    locks: &mut ShimSpillManager,
    grid: &mut Grid,
    unit: &mut SccUnit,
    i: usize,
    value: LiteralValue,
    place: usize,
) -> (r: Option<u64>)
    requires
        old(grid).wf(),
        old(unit).wf(),
        i < old(unit).task@.size(),
        !old(unit).task@.excluded[i as int],
    ensures
        final(grid).wf(),
        final(unit).wf(),
        final(unit).members == old(unit).members,
        final(unit).cells == old(unit).cells,
        final(unit).task@ == old(unit).task@.running(i as int, value@, place),
        ({
            let v = old(unit).members@[i as int];
            if old(unit).cells@[i as int] is Some && value@ is Array {
                &&& final(grid)@ == failing(old(grid)@, v, circ_value())
                &&& final(locks)@ == old(locks)@.remove(v)
                &&& r == (if old(locks)@.contains_key(v) {
                    Some(old(locks)@[v])
                } else {
                    None
                })
            } else {
                &&& final(grid)@ == old(grid)@.holding(v, value@)
                &&& final(locks)@ == old(locks)@
                &&& r is None
            }
        }),
{
    let v = unit.members[i];
    assert((unit.cells@[i as int] is Some) == unit.task@.is_cell[i as int]);
    let copy = value.duplicate();
    let stamp = unit.task.record(i, value, place);
    if stamp {
        let mut off = DeltaCollector::new(DeltaMode::Off);
        stamp_cycle_error(locks, grid, &mut off, v)
    } else {
        grid.hold(v, &copy);
        None
    }
}

/// The vertices of the listed members.
pub open spec fn vertices_at(members: Seq<u32>, list: Seq<usize>) -> Seq<u32> {
    Seq::new(list.len(), |k: int| members[list[k] as int])
}

/// Marks the listed members. The answer holds the locks to release.
pub fn stamp_members(
    locks: &mut ShimSpillManager,
    grid: &mut Grid,
    unit: &SccUnit,
    list: &Vec<usize>,
) -> (released: Vec<u64>)
    requires
        old(grid).wf(),
        forall|k: int| 0 <= k < list@.len() ==> (#[trigger] list@[k]) < unit.members@.len(),
    ensures
        final(grid).wf(),
        ({
            let vs = vertices_at(unit.members@, list@);
            &&& final(grid)@ == stamped_grid(old(grid)@, vs, None, vs.len())
            &&& (final(locks)@, released@) == given_up(old(locks)@, vs, None, vs.len())
        }),
{
    let mut vs: Vec<VertexId> = Vec::new();
    let mut i: usize = 0;
    while i < list.len()
        invariant
            forall|k: int| 0 <= k < list@.len() ==> (#[trigger] list@[k]) < unit.members@.len(),
            i <= list@.len(),
            vs@ =~= vertices_at(unit.members@, list@.take(i as int)),
        decreases list@.len() - i,
    {
        assert(list@[i as int] < unit.members@.len());
        vs.push(unit.members[list[i]]);
        i = i + 1;
    }
    assert(list@.take(i as int) =~= list@);
    let mut off = DeltaCollector::new(DeltaMode::Off);
    let (_, released) = apply_cycle_outcome(locks, grid, &mut off, &vs, None);
    released
}

/// The collected cells once the first `n` listed members, whose values changed over the whole
/// evaluation, are collected.
pub open spec fn finished_delta(
    d: DeltaView,
    cells: Seq<Option<CellRef>>,
    changed: Seq<usize>,
    n: nat,
) -> DeltaView
    decreases n,
{
    if n == 0 || d.mode == DeltaMode::Off {
        d
    } else {
        let before = finished_delta(d, cells, changed, (n - 1) as nat);
        match cells[changed[n - 1] as int] {
            Some(cell) => DeltaView {
                cells: crate::grid::push_cell(before.cells, cell),
                ..before
            },
            None => before,
        }
    }
}

proof fn lemma_finished_mode(d: DeltaView, cells: Seq<Option<CellRef>>, changed: Seq<usize>, n: nat)
    ensures
        finished_delta(d, cells, changed, n).mode == d.mode,
    decreases n,
{
    if n > 0 && d.mode != DeltaMode::Off {
        lemma_finished_mode(d, cells, changed, (n - 1) as nat);
    }
}

/// The members whose value differs from the one that they had before the evaluation.
pub open spec fn changed_members(t: TaskView) -> Seq<usize> {
    members_where(t.size(), |i: int| t.is_cell[i] && !value_eq(t.last[i], t.snapshot[i]))
}

proof fn lemma_members_below(n: nat, keep: spec_fn(int) -> bool)
    requires
        n <= usize::MAX,
    ensures
        forall|k: int|
            0 <= k < members_where(n, keep).len() ==> #[trigger] members_where(n, keep)[k] < n,
    decreases n,
{
    if n > 0 {
        lemma_members_below((n - 1) as nat, keep);
        let front = members_where((n - 1) as nat, keep);
        let all = members_where(n, keep);
        assert forall|k: int| 0 <= k < all.len() implies #[trigger] all[k] < n by {
            if k < front.len() {
                assert(all[k] == front[k]);
            }
        }
    }
}

/// Ends the evaluation of a cycle: each member in a cell is collected once, where its value
/// differs from the one before. The answer holds the members that have to be evaluated again at
/// every recalculation, which are all of them where the cycle iterated, and else none.
pub fn finish_scc_unit(unit: &SccUnit, delta: &mut DeltaCollector) -> (redirty: Vec<VertexId>)
    requires
        unit.wf(),
        old(delta).wf(),
    ensures
        final(delta).wf(),
        final(delta)@ == finished_delta(
            old(delta)@,
            unit.cells@,
            changed_members(unit.task@),
            changed_members(unit.task@).len(),
        ),
        redirty@ == (if unit.task@.iterating {
            unit.members@
        } else {
            Seq::empty()
        }),
{
    let changed = unit.task.changed_cells();
    let ghost before = delta@;
    let size: usize = unit.members.len();
    proof {
        assert(unit.task@.size() == size);
        lemma_members_below(
            unit.task@.size(),
            |i: int|
                unit.task@.is_cell[i] && !value_eq(unit.task@.last[i], unit.task@.snapshot[i]),
        );
    }
    let mut i: usize = 0;
    while i < changed.len()
        invariant
            unit.wf(),
            delta.wf(),
            i <= changed@.len(),
            forall|k: int| 0 <= k < changed@.len() ==> (#[trigger] changed@[k]) < unit.cells@.len(),
            delta@ == finished_delta(before, unit.cells@, changed@, i as nat),
        decreases changed@.len() - i,
    {
        assert(changed@[i as int] < unit.cells@.len());
        proof {
            lemma_finished_mode(before, unit.cells@, changed@, i as nat);
        }
        if let Some(cell) = unit.cells[changed[i]] {
            delta.record_cell(cell);
        }
        i = i + 1;
    }
    let mut redirty: Vec<VertexId> = Vec::new();
    if unit.task.report().iterated {
        let mut k: usize = 0;
        while k < unit.members.len()
            invariant
                k <= unit.members@.len(),
                redirty@ == unit.members@.take(k as int),
            decreases unit.members@.len() - k,
        {
            redirty.push(unit.members[k]);
            assert(redirty@ =~= unit.members@.take(k + 1));
            k = k + 1;
        }
        assert(unit.members@.take(k as int) =~= unit.members@);
    }
    redirty
}

/// The values that are kept for members that iterated, once the first `n` are looked at: what their
/// cells show, unless that is nothing.
pub open spec fn kept_values(
    g: GridView,
    pending: Seq<u32>,
    exists_now: Seq<bool>,
    n: nat,
) -> Map<u32, ValueView>
    decreases n,
{
    if n == 0 {
        Map::empty()
    } else {
        let before = kept_values(g, pending, exists_now, (n - 1) as nat);
        let v = pending[n - 1];
        if exists_now[n - 1] && g.cells.contains_key(v) && g.reading(g.cells[v])
            != ValueView::Empty {
            before.insert(v, g.reading(g.cells[v]))
        } else {
            before
        }
    }
}

/// Takes down what the members of cycles that iterated show at the end of a recalculation, so that
/// it survives edits that drop computed values. `exists_now` tells which of them still exist.
pub fn redirty_for_next_recalc(grid: &Grid, pending: &Vec<VertexId>, exists_now: &Vec<bool>) -> (r: FxHashMap<
    u32,
    LiteralValue,
>)
    requires
        grid.wf(),
        pending@.len() == exists_now@.len(),
    ensures
        kept_view(r@) == kept_values(grid@, pending@, exists_now@, pending@.len()),
{
    let mut out: FxHashMap<u32, LiteralValue> = FxHashMap::default();
    assert(kept_view(out@) =~= Map::<u32, ValueView>::empty());
    let mut i: usize = 0;
    while i < pending.len()
        invariant
            grid.wf(),
            pending@.len() == exists_now@.len(),
            i <= pending@.len(),
            kept_view(out@) == kept_values(grid@, pending@, exists_now@, i as nat),
        decreases pending@.len() - i,
    {
        let v = pending[i];
        if exists_now[i] {
            if let Some(cell) = grid.cell_of(v) {
                let value = grid.read_cell(cell);
                if !value.is_empty() {
                    let ghost before = kept_view(out@);
                    let ghost model = value@;
                    map_insert(&mut out, v, value);
                    assert(kept_view(out@) =~= before.insert(v, model));
                }
            }
        }
        i = i + 1;
    }
    out
}

/// Stamping gives every vertex that passes the filter the error of a cycle, and leaves the values of all
/// others.
pub proof fn stamped_members_hold_the_error(
    g: GridView,
    cycle: Seq<u32>,
    filter: Option<Set<u32>>,
    n: nat,
    v: u32,
)
    requires
        n <= cycle.len(),
    ensures
        ({
            let h = stamped_grid(g, cycle, filter, n);
            let listed = cycle.take(n as int).contains(v) && (filter matches Some(set) ==> set.contains(v));
            &&& listed ==> h.values.contains_key(v) && (h.values[v] matches ValueView::Error(e) && e.kind
                == crate::value::ErrorKind::Circ)
            &&& !listed ==> h.values.contains_key(v) == g.values.contains_key(v) && (g.values.contains_key(v)
                ==> h.values[v] == g.values[v])
            &&& h.edits == g.edits
        }),
    decreases n,
{
    if n > 0 {
        let m = (n - 1) as nat;
        stamped_members_hold_the_error(g, cycle, filter, m, v);
        let (short, long) = (cycle.take(m as int), cycle.take(n as int));
        let u = cycle[n - 1];
        assert(long =~= short.push(u));
        assert(long.contains(v) <==> short.contains(v) || v == u) by {
            if short.contains(v) {
                let i = choose|i: int| 0 <= i < short.len() && short[i] == v;
                assert(long[i] == v);
            }
            if v == u {
                assert(long[n - 1] == v);
            }
            if long.contains(v) && v != u {
                let i = choose|i: int| 0 <= i < long.len() && long[i] == v;
                assert(short[i] == v);
            }
        }
        let before = stamped_grid(g, cycle, filter, m);
        let cells = before.spill_cells(u);
        if cells.len() > 0 {
            let forgotten = GridView {
                spills: before.spills.remove(u),
                owners: before.owners.remove_keys(crate::coord::cell_keys(cells)),
                ..before
            };
            crate::spill::lemma_showing_keeps(forgotten.telling(cells), emptied(cells), cells.len());
        }
    } else {
        assert(cycle.take(0) =~= Seq::empty());
    }
}

/// The locks of the vertices that pass are given up, and handed out to be released; all others are kept.
pub proof fn stamped_members_give_up_their_locks(
    locks: Map<u32, u64>,
    cycle: Seq<u32>,
    filter: Option<Set<u32>>,
    n: nat,
    v: u32,
)
    requires
        n <= cycle.len(),
    ensures
        ({
            let (held, out) = given_up(locks, cycle, filter, n);
            let listed = cycle.take(n as int).contains(v) && (filter matches Some(set) ==> set.contains(v));
            &&& listed ==> !held.contains_key(v)
            &&& listed && locks.contains_key(v) ==> out.contains(locks[v])
            &&& !listed ==> held.contains_key(v) == locks.contains_key(v)
            &&& held.contains_key(v) ==> locks.contains_key(v) && held[v] == locks[v]
        }),
    decreases n,
{
    if n > 0 {
        let m = (n - 1) as nat;
        let u = cycle[n - 1];
        stamped_members_give_up_their_locks(locks, cycle, filter, m, v);
        stamped_members_give_up_their_locks(locks, cycle, filter, m, u);
        let (short, long) = (cycle.take(m as int), cycle.take(n as int));
        assert(long =~= short.push(u));
        assert(long.contains(v) <==> short.contains(v) || v == u) by {
            if short.contains(v) {
                let i = choose|i: int| 0 <= i < short.len() && short[i] == v;
                assert(long[i] == v);
            }
            if v == u {
                assert(long[n - 1] == v);
            }
            if long.contains(v) && v != u {
                let i = choose|i: int| 0 <= i < long.len() && long[i] == v;
                assert(short[i] == v);
            }
        }
        let (held, out) = given_up(locks, cycle, filter, m);
        if passes(filter, u) && held.contains_key(u) {
            let more = out.push(held[u]);
            assert(more[out.len() as int] == held[u]);
            if locks.contains_key(v) && out.contains(locks[v]) {
                let i = choose|i: int| 0 <= i < out.len() && out[i] == locks[v];
                assert(more[i] == locks[v]);
            }
        }
    } else {
        assert(cycle.take(0) =~= Seq::empty());
    }
}

/// A kept value comes back exactly where its member stands in a cell that shows nothing.
pub proof fn kept_values_come_back_into_empty_cells(
    g: GridView,
    members: Seq<SccVertex>,
    kept: Map<u32, ValueView>,
    n: nat,
    i: int,
)
    requires
        n <= members.len(),
        0 <= i < n,
    ensures
        ({
            let m = members[i];
            let all = restores(g, members, kept, n);
            let in_cell = (m.kind == VertexKind::FormulaScalar || m.kind == VertexKind::FormulaArray)
                && m.cell is Some;
            &&& in_cell && kept.contains_key(m.vertex) && g.reading(m.cell->Some_0) == ValueView::Empty
                ==> all.contains((m.cell->Some_0, kept[m.vertex]))
            &&& forall|k: int|
                0 <= k < all.len() ==> g.reading((#[trigger] all[k]).0) == ValueView::Empty
        }),
    decreases n,
{
    let p = (n - 1) as nat;
    let before = restores(g, members, kept, p);
    lemma_restores(g, members, kept, p);
    let m = members[i];
    if i == p {
        let all = restores(g, members, kept, n);
        if all.len() > before.len() {
            assert(all[before.len() as int] == all.last());
        }
    } else {
        kept_values_come_back_into_empty_cells(g, members, kept, p, i);
        if m.cell is Some && kept.contains_key(m.vertex) && before.contains(
            (m.cell->Some_0, kept[m.vertex]),
        ) {
            let k = choose|k: int|
                0 <= k < before.len() && before[k] == (m.cell->Some_0, kept[m.vertex]);
            assert(restores(g, members, kept, n)[k] == before[k]);
        }
    }
}

proof fn lemma_restores(g: GridView, members: Seq<SccVertex>, kept: Map<u32, ValueView>, n: nat)
    requires
        n <= members.len(),
    ensures
        forall|k: int|
            0 <= k < restores(g, members, kept, n).len() ==> g.reading(
                (#[trigger] restores(g, members, kept, n)[k]).0,
            ) == ValueView::Empty,
    decreases n,
{
    if n > 0 {
        lemma_restores(g, members, kept, (n - 1) as nat);
    }
}

/// Of the members, those of arrays are stamped at the start, and no others.
pub proof fn array_formulas_are_stamped_at_the_start(members: Seq<SccVertex>, n: nat, v: u32)
    requires
        n <= members.len(),
    ensures
        anchors(members, n).contains(v) <==> exists|i: int|
            0 <= i < n && (#[trigger] members[i]).vertex == v && members[i].kind == VertexKind::FormulaArray,
    decreases n,
{
    if n > 0 {
        let m = (n - 1) as nat;
        array_formulas_are_stamped_at_the_start(members, m, v);
        let before = anchors(members, m);
        let last = members[n - 1];
        if last.kind == VertexKind::FormulaArray {
            let all = before.push(last.vertex);
            assert(all[before.len() as int] == last.vertex);
            if before.contains(v) {
                let k = choose|k: int| 0 <= k < before.len() && before[k] == v;
                assert(all[k] == v);
            }
            if all.contains(v) && v != last.vertex {
                let k = choose|k: int| 0 <= k < all.len() && all[k] == v;
                assert(before[k] == v);
            }
        }
    }
}

/// The members that a cycle has changed are those in cells whose value is not the one they had before.
pub proof fn changed_members_are_those_with_another_value(t: TaskView, i: int)
    requires
        t.size() <= usize::MAX,
        0 <= i < t.size(),
    ensures
        changed_members(t).contains(i as usize) <==> t.is_cell[i] && !value_eq(t.last[i], t.snapshot[i]),
{
    let keep = |i: int| t.is_cell[i] && !value_eq(t.last[i], t.snapshot[i]);
    crate::scc_task::lemma_listed(t.size(), keep);
    assert(keep(i) == (t.is_cell[i] && !value_eq(t.last[i], t.snapshot[i])));
}

/// The cells of the changed members are collected, where changes are collected at all.
pub proof fn changed_members_are_collected(
    d: DeltaView,
    cells: Seq<Option<CellRef>>,
    changed: Seq<usize>,
    n: nat,
    k: int,
)
    requires
        d.mode == DeltaMode::Cells,
        n <= changed.len(),
        0 <= k < n,
        cells[changed[k] as int] is Some,
    ensures
        finished_delta(d, cells, changed, n).cells.contains(cells[changed[k] as int]->Some_0),
    decreases n,
{
    let m = (n - 1) as nat;
    let before = finished_delta(d, cells, changed, m).cells;
    if k < m {
        changed_members_are_collected(d, cells, changed, m, k);
        let c = cells[changed[k] as int]->Some_0;
        let i = choose|i: int| 0 <= i < before.len() && before[i] == c;
        if let Some(cell) = cells[changed[n - 1] as int] {
            assert(before.push(cell)[i] == c);
        }
    } else if let Some(cell) = cells[changed[n - 1] as int] {
        assert(before.push(cell)[before.len() as int] == cell);
    }
}

/// What is kept over an evaluation is what each vertex that still exists shows, where it shows anything.
pub proof fn shown_values_are_kept(g: GridView, pending: Seq<u32>, exists_now: Seq<bool>, n: nat, i: int)
    requires
        n <= pending.len(),
        n <= exists_now.len(),
        0 <= i < n,
        exists_now[i],
        g.cells.contains_key(pending[i]),
        g.reading(g.cells[pending[i]]) != ValueView::Empty,
    ensures
        kept_values(g, pending, exists_now, n).contains_pair(
            pending[i],
            g.reading(g.cells[pending[i]]),
        ),
    decreases n,
{
    if i < n - 1 {
        shown_values_are_kept(g, pending, exists_now, (n - 1) as nat, i);
    }
}

/// Nothing else is kept.
pub proof fn only_shown_values_are_kept(g: GridView, pending: Seq<u32>, exists_now: Seq<bool>, n: nat, v: u32)
    requires
        n <= pending.len(),
        n <= exists_now.len(),
        kept_values(g, pending, exists_now, n).contains_key(v),
    ensures
        g.cells.contains_key(v),
        kept_values(g, pending, exists_now, n)[v] == g.reading(g.cells[v]),
        g.reading(g.cells[v]) != ValueView::Empty,
        exists|i: int| 0 <= i < n && #[trigger] pending[i] == v && exists_now[i],
    decreases n,
{
    if n > 0 {
        let before = kept_values(g, pending, exists_now, (n - 1) as nat);
        let u = pending[n - 1];
        let taken = exists_now[n - 1] && g.cells.contains_key(u) && g.reading(g.cells[u])
            != ValueView::Empty;
        if !(taken && u == v) {
            only_shown_values_are_kept(g, pending, exists_now, (n - 1) as nat, v);
        }
    }
}

/// Only the members that pass the filter are counted.
pub proof fn passing_members_are_counted(cycle: Seq<u32>, filter: Option<Set<u32>>, n: nat)
    requires
        n <= cycle.len(),
    ensures
        passing_count(cycle, filter, n) == cycle.take(n as int).filter(
            |v: u32| filter matches Some(set) ==> set.contains(v),
        ).len(),
    decreases n,
{
    reveal(Seq::filter);
    let keep = |v: u32| filter matches Some(set) ==> set.contains(v);
    if n > 0 {
        passing_members_are_counted(cycle, filter, (n - 1) as nat);
        let long = cycle.take(n as int);
        assert(long.drop_last() =~= cycle.take(n - 1));
        assert(long.last() == cycle[n - 1]);
        assert(keep(cycle[n - 1]) == passes(filter, cycle[n - 1]));
    }
}

/// What a member had before a cycle: in a cell what the cell shows, else the value that it holds, and
/// nothing where it holds none.
pub proof fn members_begin_with_what_they_show(g: GridView, m: SccVertex)
    ensures
        ({
            let in_cell = (m.kind == VertexKind::FormulaScalar || m.kind == VertexKind::FormulaArray)
                && m.cell is Some;
            &&& in_cell ==> member_value(g, m) == g.reading(m.cell->Some_0)
            &&& !in_cell && g.values.contains_key(m.vertex) ==> member_value(g, m) == g.values[m.vertex]
            &&& !in_cell && !g.values.contains_key(m.vertex) ==> member_value(g, m) == ValueView::Empty
        }),
{
}

} // verus!
