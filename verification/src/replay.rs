//! Why a recalculation by a kept plan comes to what an evaluation of everything comes to.
//!
//! Vertices are evaluated in groups: a vertex of a layer by itself, the members of a cycle together. A
//! group comes to values by what its precedents, and its own members, held before.
use crate::coord::CellRef;
use crate::evaluation::{Action, EvaluationView, Phase, Scope, goes_on, settles, takes_work};
use crate::grid::{GridView, shown};
use crate::scc::circ_value;
use crate::scc_unit::stamped_grid;
use crate::schedule::{ScheduleUnit, ScheduleView, dirty_part};
use crate::telemetry::ScheduleBuildMeta;
use crate::value::ValueView;
use crate::vertex::is_formula;
use crate::walk::{WalkView, a_replayed_plan_evaluates_the_dirty_vertices, due_units, is_due, layer_work, walked, work_of};
use vstd::prelude::*;

verus! {

/// A vertex by itself.
pub open spec fn alone(v: u32) -> Set<u32> {
    Set::empty().insert(v)
}

/// The vertices of a list, each by itself.
pub open spec fn singles(vertices: Seq<u32>) -> Seq<Set<u32>> {
    Seq::new(vertices.len(), |i: int| alone(vertices[i]))
}

/// Whether a vertex of the group is dirty; without a set every group counts as dirty.
pub open spec fn is_touched(group: Set<u32>, dirty: Option<Set<u32>>) -> bool {
    match dirty {
        Some(d) => exists|v: u32| #[trigger] group.contains(v) && d.contains(v),
        None => true,
    }
}

/// The groups of a unit that are evaluated.
pub open spec fn unit_groups(s: ScheduleView, dirty: Option<Set<u32>>, u: int) -> Seq<Set<u32>> {
    match s.units[u] {
        ScheduleUnit::Cycle(i) => if is_touched(s.cycles[i as int].to_set(), dirty) {
            seq![s.cycles[i as int].to_set()]
        } else {
            Seq::empty()
        },
        ScheduleUnit::Layer(i) => singles(layer_work(s, dirty, i as int)),
    }
}

/// The groups of the units that are evaluated, in order.
pub open spec fn groups_of(s: ScheduleView, dirty: Option<Set<u32>>, units: Seq<int>) -> Seq<Set<u32>>
    decreases units.len(),
{
    if units.len() == 0 {
        Seq::empty()
    } else {
        unit_groups(s, dirty, units[0]) + groups_of(s, dirty, units.drop_first())
    }
}

/// The groups that a walk over the whole schedule evaluates, in order.
pub open spec fn walked_groups(s: ScheduleView, dirty: Option<Set<u32>>) -> Seq<Set<u32>> {
    groups_of(s, dirty, due_units(s, dirty, 0))
}

/// Whether the two hold the same for the vertex.
pub open spec fn holds_alike(a: Map<u32, ValueView>, b: Map<u32, ValueView>, v: u32) -> bool {
    a.contains_key(v) == b.contains_key(v) && (a.contains_key(v) ==> a[v] == b[v])
}

/// Whether a group comes to a value for each of its vertices, by nothing but what its precedents and
/// its own vertices hold before.
pub open spec fn reads_precedents(
    value: spec_fn(Set<u32>, Map<u32, ValueView>) -> Map<u32, ValueView>,
    precedents: spec_fn(Set<u32>) -> Set<u32>,
) -> bool {
    &&& forall|b: Set<u32>, x: Map<u32, ValueView>| #[trigger] value(b, x).dom() == b
    &&& forall|b: Set<u32>, x: Map<u32, ValueView>, y: Map<u32, ValueView>|
        (forall|p: u32|
            precedents(b).contains(p) || b.contains(p) ==> #[trigger] holds_alike(x, y, p)) ==> (
        #[trigger] value(b, x)) == (#[trigger] value(b, y))
}

/// Whether the groups have no vertex in common, and every group comes behind those of its precedents
/// that are in the list.
pub open spec fn is_sorted(groups: Seq<Set<u32>>, precedents: spec_fn(Set<u32>) -> Set<u32>) -> bool {
    forall|i: int, j: int, v: u32|
        #![trigger groups[i], groups[j].contains(v)]
        0 <= i < j < groups.len() && groups[j].contains(v) ==> !groups[i].contains(v) && !precedents(
            groups[i],
        ).contains(v)
}

/// Whether the vertex is a formula that stands in the cell.
pub open spec fn stands_in(g: GridView, v: u32, cell: CellRef) -> bool {
    is_formula(g.kind(v)) && g.cells.contains_key(v) && g.cells[v] == cell
}

/// Whether no two formulas stand in the same cell.
pub open spec fn stand_apart(g: GridView) -> bool {
    forall|v: u32, w: u32, cell: CellRef|
        #[trigger] stands_in(g, v, cell) && #[trigger] stands_in(g, w, cell) ==> v == w
}

/// Whether `h` is the grid once the vertices of a group hold the given values, and the cells show them
/// in which its formulas stand.
pub open spec fn is_evaluated(
    g: GridView,
    group: Set<u32>,
    values: Map<u32, ValueView>,
    h: GridView,
) -> bool {
    &&& h.values == g.values.union_prefer_right(values)
    &&& h.kinds == g.kinds
    &&& h.cells == g.cells
    &&& h.edits == g.edits
    &&& forall|v: u32, cell: CellRef|
        group.contains(v) && #[trigger] stands_in(g, v, cell) ==> h.under[cell] == shown(values[v])
    &&& forall|cell: CellRef|
        (forall|v: u32| group.contains(v) ==> !#[trigger] stands_in(g, v, cell))
            ==> #[trigger] h.under[cell] == g.under[cell]
}

/// Any grid: one that lies between two others.
pub open spec fn halfway(mid: GridView) -> bool {
    true
}

/// Whether evaluating the groups in order leads from one grid to another.
pub open spec fn is_worked(
    g: GridView,
    groups: Seq<Set<u32>>,
    value: spec_fn(Set<u32>, Map<u32, ValueView>) -> Map<u32, ValueView>,
    h: GridView,
) -> bool
    decreases groups.len(),
{
    if groups.len() == 0 {
        h == g
    } else {
        exists|mid: GridView|
            {
                &&& #[trigger] halfway(mid)
                &&& is_worked(g, groups.drop_last(), value, mid)
                &&& is_evaluated(mid, groups.last(), value(groups.last(), mid.values), h)
            }
    }
}

/// A vertex that comes to a single value is evaluated by holding it.
pub proof fn holding_is_an_evaluation(g: GridView, v: u32, value: ValueView)
    ensures
        is_evaluated(g, alone(v), Map::empty().insert(v, value), g.holding(v, value)),
{
    let h = g.holding(v, value);
    assert(h.values =~= g.values.union_prefer_right(Map::empty().insert(v, value)));
    assert forall|cell: CellRef|
        (forall|w: u32| alone(v).contains(w) ==> !#[trigger] stands_in(g, w, cell)) implies #[trigger] h.under[cell]
        == g.under[cell] by {
        assert(alone(v).contains(v));
        assert(!stands_in(g, v, cell));
    }
}

/// The members of a cycle that have spilled nothing are evaluated by marking them, where the group
/// comes to the mark of a cycle for each of them.
pub proof fn marking_is_an_evaluation(g: GridView, cycle: Seq<u32>, filter: Option<Set<u32>>)
    requires
        stand_apart(g),
        forall|i: int| 0 <= i < cycle.len() ==> crate::scc_unit::passes(filter, #[trigger] cycle[i]),
        forall|i: int| 0 <= i < cycle.len() ==> g.spill_cells(#[trigger] cycle[i]).len() == 0,
    ensures
        is_evaluated(
            g,
            cycle.to_set(),
            cycle.to_set().mk_map(|v: u32| circ_value()),
            stamped_grid(g, cycle, filter, cycle.len()),
        ),
{
    lemma_marked(g, cycle, filter, cycle.len());
    assert(cycle.take(cycle.len() as int) =~= cycle);
}

proof fn lemma_marked(g: GridView, cycle: Seq<u32>, filter: Option<Set<u32>>, n: nat)
    requires
        stand_apart(g),
        n <= cycle.len(),
        forall|i: int| 0 <= i < cycle.len() ==> crate::scc_unit::passes(filter, #[trigger] cycle[i]),
        forall|i: int| 0 <= i < cycle.len() ==> g.spill_cells(#[trigger] cycle[i]).len() == 0,
    ensures
        ({
            let group = cycle.take(n as int).to_set();
            let h = stamped_grid(g, cycle, filter, n);
            &&& is_evaluated(g, group, group.mk_map(|v: u32| circ_value()), h)
            &&& h.spills == g.spills
        }),
    decreases n,
{
    let group = cycle.take(n as int).to_set();
    let values = group.mk_map(|v: u32| circ_value());
    let h = stamped_grid(g, cycle, filter, n);
    if n == 0 {
        assert(group =~= Set::empty());
        assert(h.values =~= g.values.union_prefer_right(values));
    } else {
        let m = (n - 1) as nat;
        lemma_marked(g, cycle, filter, m);
        let front = cycle.take(m as int).to_set();
        let before = stamped_grid(g, cycle, filter, m);
        let v = cycle[n - 1];
        assert forall|w: u32| group.contains(w) <==> front.contains(w) || w == v by {
            if group.contains(w) {
                let i = choose|i: int| 0 <= i < n && cycle.take(n as int)[i] == w;
                if i < m {
                    assert(cycle.take(m as int)[i] == w);
                }
            }
            if front.contains(w) {
                let i = choose|i: int| 0 <= i < m && cycle.take(m as int)[i] == w;
                assert(cycle.take(n as int)[i] == w);
            }
            assert(cycle.take(n as int)[n - 1] == v);
        }
        assert(crate::scc_unit::passes(filter, v));
        assert(before.spill_cells(v) == g.spill_cells(v));
        assert(h == before.holding(v, circ_value()));
        assert(h.values =~= g.values.union_prefer_right(values));
        assert(before.kind(v) == g.kind(v));
        assert forall|w: u32, cell: CellRef|
            group.contains(w) && #[trigger] stands_in(g, w, cell) implies h.under[cell] == shown(
            values[w],
        ) by {
            if stands_in(g, v, cell) {
                assert(w == v);
            }
        }
        assert forall|cell: CellRef|
            (forall|w: u32| group.contains(w) ==> !#[trigger] stands_in(g, w, cell)) implies #[trigger] h.under[cell]
            == g.under[cell] by {
            assert(group.contains(v));
            assert(!stands_in(g, v, cell));
            assert forall|w: u32| front.contains(w) implies !#[trigger] stands_in(g, w, cell) by {
                assert(group.contains(w));
            }
            assert(before.under[cell] == g.under[cell]);
        }
    }
}

/// What the vertices hold in the end, but for the group, whose vertices hold what they held at first.
spec fn seen(first: Map<u32, ValueView>, end: Map<u32, ValueView>, group: Set<u32>) -> Map<u32, ValueView> {
    Map::new(
        |v: u32|
            if group.contains(v) {
                first.contains_key(v)
            } else {
                end.contains_key(v)
            },
        |v: u32|
            if group.contains(v) {
                first[v]
            } else {
                end[v]
            },
    )
}

proof fn lemma_front_sorted(groups: Seq<Set<u32>>, precedents: spec_fn(Set<u32>) -> Set<u32>)
    requires
        is_sorted(groups, precedents),
        groups.len() > 0,
    ensures
        is_sorted(groups.drop_last(), precedents),
{
    let front = groups.drop_last();
    assert forall|i: int, j: int, v: u32|
        #![trigger front[i], front[j].contains(v)]
        0 <= i < j < front.len() && front[j].contains(v) implies !front[i].contains(v) && !precedents(
        front[i],
    ).contains(v) by {
        assert(groups[i] == front[i] && groups[j] == front[j]);
        assert(groups[j].contains(v));
    }
}

/// A vertex outside the groups holds what it held.
proof fn lemma_outside_kept(
    g: GridView,
    groups: Seq<Set<u32>>,
    value: spec_fn(Set<u32>, Map<u32, ValueView>) -> Map<u32, ValueView>,
    precedents: spec_fn(Set<u32>) -> Set<u32>,
    h: GridView,
    v: u32,
)
    requires
        reads_precedents(value, precedents),
        is_worked(g, groups, value, h),
        forall|i: int| 0 <= i < groups.len() ==> !(#[trigger] groups[i]).contains(v),
    ensures
        holds_alike(h.values, g.values, v),
    decreases groups.len(),
{
    if groups.len() > 0 {
        let front = groups.drop_last();
        let mid = choose|mid: GridView|
            {
                &&& #[trigger] halfway(mid)
                &&& is_worked(g, front, value, mid)
                &&& is_evaluated(mid, groups.last(), value(groups.last(), mid.values), h)
            };
        assert forall|i: int| 0 <= i < front.len() implies !(#[trigger] front[i]).contains(v) by {
            assert(groups[i] == front[i]);
        }
        lemma_outside_kept(g, front, value, precedents, mid, v);
        assert(!groups[groups.len() - 1].contains(v));
        assert(value(groups.last(), mid.values).dom() == groups.last());
    }
}

/// Once sorted groups are evaluated, every vertex of a group holds the value to which the group comes
/// by what the vertices hold in the end, and its own vertices held at first.
proof fn lemma_fixed(
    g: GridView,
    groups: Seq<Set<u32>>,
    value: spec_fn(Set<u32>, Map<u32, ValueView>) -> Map<u32, ValueView>,
    precedents: spec_fn(Set<u32>) -> Set<u32>,
    h: GridView,
    i: int,
)
    requires
        reads_precedents(value, precedents),
        is_sorted(groups, precedents),
        is_worked(g, groups, value, h),
        0 <= i < groups.len(),
    ensures
        ({
            let end = value(groups[i], seen(g.values, h.values, groups[i]));
            forall|v: u32|
                groups[i].contains(v) ==> #[trigger] h.values.contains_key(v) && h.values[v] == end[v]
        }),
    decreases groups.len(),
{
    let front = groups.drop_last();
    let last = groups.last();
    let mid = choose|mid: GridView|
        {
            &&& #[trigger] halfway(mid)
            &&& is_worked(g, front, value, mid)
            &&& is_evaluated(mid, last, value(last, mid.values), h)
        };
    let group = groups[i];
    let results = value(last, mid.values);
    assert(results.dom() == last);
    let n = groups.len() - 1;
    lemma_front_sorted(groups, precedents);
    if i == n {
        assert forall|p: u32|
            precedents(group).contains(p) || group.contains(p) implies #[trigger] holds_alike(
            mid.values,
            seen(g.values, h.values, group),
            p,
        ) by {
            if group.contains(p) {
                assert forall|k: int| 0 <= k < front.len() implies !(#[trigger] front[k]).contains(p) by {
                    assert(groups[k] == front[k]);
                    assert(groups[n].contains(p));
                }
                lemma_outside_kept(g, front, value, precedents, mid, p);
            }
        }
        assert(value(group, mid.values) == value(group, seen(g.values, h.values, group)));
        assert forall|v: u32| group.contains(v) implies #[trigger] h.values.contains_key(v)
            && h.values[v] == value(group, seen(g.values, h.values, group))[v] by {
            assert(results.contains_key(v));
        }
    } else {
        assert(front[i] == group);
        lemma_fixed(g, front, value, precedents, mid, i);
        assert forall|p: u32|
            precedents(group).contains(p) || group.contains(p) implies #[trigger] holds_alike(
            seen(g.values, mid.values, group),
            seen(g.values, h.values, group),
            p,
        ) by {
            if !group.contains(p) && groups[n].contains(p) {
                assert(!precedents(groups[i]).contains(p));
            }
        }
        assert(value(group, seen(g.values, mid.values, group)) == value(
            group,
            seen(g.values, h.values, group),
        ));
        assert forall|v: u32| group.contains(v) implies #[trigger] h.values.contains_key(v)
            && h.values[v] == value(group, seen(g.values, h.values, group))[v] by {
            assert(mid.values.contains_key(v));
            if groups[n].contains(v) {
                assert(!groups[i].contains(v));
            }
        }
    }
}

/// Up to a place of the first list the vertices hold the same.
proof fn lemma_alike_until(
    g: GridView,
    a: Seq<Set<u32>>,
    b: Seq<Set<u32>>,
    value: spec_fn(Set<u32>, Map<u32, ValueView>) -> Map<u32, ValueView>,
    precedents: spec_fn(Set<u32>) -> Set<u32>,
    h: GridView,
    k: GridView,
    n: nat,
)
    requires
        reads_precedents(value, precedents),
        is_sorted(a, precedents),
        is_sorted(b, precedents),
        forall|x: Set<u32>| #[trigger] a.contains(x) <==> b.contains(x),
        is_worked(g, a, value, h),
        is_worked(g, b, value, k),
        n <= a.len(),
    ensures
        forall|i: int, v: u32|
            #![trigger a[i].contains(v)]
            0 <= i < n && a[i].contains(v) ==> holds_alike(h.values, k.values, v),
    decreases n,
{
    if n > 0 {
        lemma_alike_until(g, a, b, value, precedents, h, k, (n - 1) as nat);
        let group = a[n - 1];
        assert(a.contains(group));
        let j = choose|j: int| 0 <= j < b.len() && b[j] == group;
        lemma_fixed(g, a, value, precedents, h, n - 1);
        lemma_fixed(g, b, value, precedents, k, j);
        let (x, y) = (seen(g.values, h.values, group), seen(g.values, k.values, group));
        assert forall|p: u32|
            precedents(group).contains(p) || group.contains(p) implies #[trigger] holds_alike(
            x,
            y,
            p,
        ) by {
            if !group.contains(p) {
                if exists|i: int| 0 <= i < a.len() && (#[trigger] a[i]).contains(p) {
                    let i = choose|i: int| 0 <= i < a.len() && (#[trigger] a[i]).contains(p);
                    if i > n - 1 {
                        assert(a[i].contains(p));
                        assert(!precedents(a[n - 1]).contains(p));
                    }
                    assert(a[i].contains(p));
                } else {
                    assert forall|i: int| 0 <= i < b.len() implies !(#[trigger] b[i]).contains(p) by {
                        assert(b.contains(b[i]));
                        assert(a.contains(b[i]));
                        let m = choose|m: int| 0 <= m < a.len() && a[m] == b[i];
                        assert(!a[m].contains(p));
                    }
                    lemma_outside_kept(g, a, value, precedents, h, p);
                    lemma_outside_kept(g, b, value, precedents, k, p);
                }
            }
        }
        assert(value(group, x) == value(group, y));
        assert forall|i: int, v: u32|
            #![trigger a[i].contains(v)]
            0 <= i < n && a[i].contains(v) implies holds_alike(h.values, k.values, v) by {
            if i == n - 1 {
                assert(h.values.contains_key(v) && k.values.contains_key(v));
            }
        }
    }
}

/// What a cell shows once groups are evaluated: what its formula holds where that is in a group, and
/// else what it showed.
proof fn lemma_shown(
    g: GridView,
    groups: Seq<Set<u32>>,
    value: spec_fn(Set<u32>, Map<u32, ValueView>) -> Map<u32, ValueView>,
    precedents: spec_fn(Set<u32>) -> Set<u32>,
    h: GridView,
    cell: CellRef,
)
    requires
        reads_precedents(value, precedents),
        is_sorted(groups, precedents),
        stand_apart(g),
        is_worked(g, groups, value, h),
    ensures
        h.kinds == g.kinds,
        h.cells == g.cells,
        h.edits == g.edits,
        forall|i: int, v: u32|
            #![trigger groups[i].contains(v)]
            0 <= i < groups.len() && groups[i].contains(v) && stands_in(g, v, cell) ==> h.under[cell]
                == shown(h.values[v]),
        (forall|i: int, v: u32|
            #![trigger groups[i].contains(v)]
            0 <= i < groups.len() && groups[i].contains(v) ==> !stands_in(g, v, cell))
            ==> h.under[cell] == g.under[cell],
    decreases groups.len(),
{
    if groups.len() > 0 {
        let front = groups.drop_last();
        let last = groups.last();
        let n = groups.len() - 1;
        let mid = choose|mid: GridView|
            {
                &&& #[trigger] halfway(mid)
                &&& is_worked(g, front, value, mid)
                &&& is_evaluated(mid, last, value(last, mid.values), h)
            };
        let results = value(last, mid.values);
        assert(results.dom() == last);
        lemma_front_sorted(groups, precedents);
        lemma_shown(g, front, value, precedents, mid, cell);
        assert forall|v: u32| #[trigger] stands_in(mid, v, cell) == stands_in(g, v, cell) by {
            assert(mid.kind(v) == g.kind(v));
        }
        assert forall|i: int, v: u32|
            #![trigger groups[i].contains(v)]
            0 <= i < groups.len() && groups[i].contains(v) && stands_in(g, v, cell) implies h.under[cell]
            == shown(h.values[v]) by {
            assert(stands_in(mid, v, cell));
            if i == n {
                assert(results.contains_key(v));
            } else {
                assert(front[i].contains(v));
                lemma_fixed(g, front, value, precedents, mid, i);
                assert(mid.values.contains_key(v));
                if groups[n].contains(v) {
                    assert(!groups[i].contains(v));
                }
                assert forall|w: u32| last.contains(w) implies !#[trigger] stands_in(mid, w, cell) by {
                    if stands_in(mid, w, cell) {
                        assert(stands_in(g, w, cell) && stands_in(g, v, cell));
                    }
                }
                assert(h.under[cell] == mid.under[cell]);
            }
        }
        if forall|i: int, v: u32|
            #![trigger groups[i].contains(v)]
            0 <= i < groups.len() && groups[i].contains(v) ==> !stands_in(g, v, cell) {
            assert forall|i: int, v: u32|
                #![trigger front[i].contains(v)]
                0 <= i < front.len() && front[i].contains(v) implies !stands_in(g, v, cell) by {
                assert(groups[i].contains(v));
            }
            assert forall|w: u32| last.contains(w) implies !#[trigger] stands_in(mid, w, cell) by {
                assert(groups[n].contains(w));
            }
            assert(h.under[cell] == mid.under[cell]);
        }
    }
}

/// The order in which groups are evaluated does not matter, as long as every group comes behind its
/// precedents: the vertices hold the same values, and every cell reads the same.
pub proof fn sorted_groups_come_to_the_same(
    g: GridView,
    a: Seq<Set<u32>>,
    b: Seq<Set<u32>>,
    value: spec_fn(Set<u32>, Map<u32, ValueView>) -> Map<u32, ValueView>,
    precedents: spec_fn(Set<u32>) -> Set<u32>,
    h: GridView,
    k: GridView,
    cell: CellRef,
)
    requires
        reads_precedents(value, precedents),
        is_sorted(a, precedents),
        is_sorted(b, precedents),
        stand_apart(g),
        forall|x: Set<u32>| #[trigger] a.contains(x) <==> b.contains(x),
        is_worked(g, a, value, h),
        is_worked(g, b, value, k),
    ensures
        h.values == k.values,
        h.reading(cell) == k.reading(cell),
{
    lemma_alike_until(g, a, b, value, precedents, h, k, a.len());
    assert forall|v: u32| #[trigger] holds_alike(h.values, k.values, v) by {
        if exists|i: int| 0 <= i < a.len() && (#[trigger] a[i]).contains(v) {
            let i = choose|i: int| 0 <= i < a.len() && (#[trigger] a[i]).contains(v);
            assert(a[i].contains(v));
        } else {
            assert forall|i: int| 0 <= i < b.len() implies !(#[trigger] b[i]).contains(v) by {
                lemma_in_both(b, a, i);
            }
            lemma_outside_kept(g, a, value, precedents, h, v);
            lemma_outside_kept(g, b, value, precedents, k, v);
        }
    }
    assert forall|v: u32|
        #![trigger h.values.dom().contains(v)]
        #![trigger h.values[v]]
        h.values.contains_key(v) == k.values.contains_key(v) && (h.values.contains_key(v)
            ==> h.values[v] == k.values[v]) by {
        assert(holds_alike(h.values, k.values, v));
    }
    assert(h.values =~= k.values);
    lemma_shown(g, a, value, precedents, h, cell);
    lemma_shown(g, b, value, precedents, k, cell);
    if exists|i: int, v: u32|
        #![trigger a[i].contains(v)]
        0 <= i < a.len() && a[i].contains(v) && stands_in(g, v, cell) {
        let (i, v) = choose|i: int, v: u32|
            #![trigger a[i].contains(v)]
            0 <= i < a.len() && a[i].contains(v) && stands_in(g, v, cell);
        lemma_in_both(a, b, i);
        let j = choose|j: int| 0 <= j < b.len() && b[j] == a[i];
        assert(b[j].contains(v));
    } else {
        assert forall|j: int, v: u32|
            #![trigger b[j].contains(v)]
            0 <= j < b.len() && b[j].contains(v) implies !stands_in(g, v, cell) by {
            lemma_in_both(b, a, j);
            let i = choose|i: int| 0 <= i < a.len() && a[i] == b[j];
            assert(a[i].contains(v));
        }
    }
}

proof fn lemma_in_both(a: Seq<Set<u32>>, b: Seq<Set<u32>>, i: int)
    requires
        0 <= i < a.len(),
        forall|x: Set<u32>| #[trigger] a.contains(x) <==> b.contains(x),
    ensures
        exists|j: int| 0 <= j < b.len() && #[trigger] b[j] == a[i],
{
    assert(a.contains(a[i]));
    assert(b.contains(a[i]));
}

/// The groups of a list that are touched, in its order.
pub open spec fn touched_part(groups: Seq<Set<u32>>, dirty: Set<u32>) -> Seq<Set<u32>>
    decreases groups.len(),
{
    if groups.len() == 0 {
        Seq::empty()
    } else if is_touched(groups.last(), Some(dirty)) {
        touched_part(groups.drop_last(), dirty).push(groups.last())
    } else {
        touched_part(groups.drop_last(), dirty)
    }
}

proof fn lemma_touched_joined(a: Seq<Set<u32>>, b: Seq<Set<u32>>, dirty: Set<u32>)
    ensures
        touched_part(a + b, dirty) == touched_part(a, dirty) + touched_part(b, dirty),
    decreases b.len(),
{
    if b.len() == 0 {
        assert(a + b =~= a);
        assert(touched_part(a, dirty) + touched_part(b, dirty) =~= touched_part(a, dirty));
    } else {
        lemma_touched_joined(a, b.drop_last(), dirty);
        assert((a + b).drop_last() =~= a + b.drop_last());
        assert((a + b).last() == b.last());
        assert(touched_part(a + b, dirty) =~= touched_part(a, dirty) + touched_part(b, dirty));
    }
}

proof fn lemma_alone(v: u32, dirty: Set<u32>)
    ensures
        is_touched(alone(v), Some(dirty)) <==> dirty.contains(v),
{
    assert(alone(v).contains(v));
    if is_touched(alone(v), Some(dirty)) {
        let w = choose|w: u32| #[trigger] alone(v).contains(w) && dirty.contains(w);
        assert(w == v);
        assert(dirty.contains(v));
    }
    if dirty.contains(v) {
        assert(is_touched(alone(v), Some(dirty)));
    }
}

proof fn lemma_touched_singles(ids: Seq<u32>, dirty: Set<u32>)
    ensures
        touched_part(singles(ids), dirty) == singles(dirty_part(ids, dirty)),
    decreases ids.len(),
{
    if ids.len() > 0 {
        lemma_touched_singles(ids.drop_last(), dirty);
        assert(singles(ids).drop_last() =~= singles(ids.drop_last()));
        let group = alone(ids.last());
        assert(singles(ids).last() == group);
        assert(group.contains(ids.last()));
        lemma_alone(ids.last(), dirty);
        assert(touched_part(singles(ids), dirty) =~= singles(dirty_part(ids, dirty)));
    } else {
        assert(singles(ids) =~= Seq::empty());
        assert(singles(dirty_part(ids, dirty)) =~= Seq::empty());
    }
}

proof fn lemma_touched_units(s: ScheduleView, dirty: Set<u32>, from: int)
    requires
        0 <= from,
    ensures
        groups_of(s, Some(dirty), due_units(s, Some(dirty), from)) == touched_part(
            groups_of(s, None, due_units(s, None, from)),
            dirty,
        ),
    decreases s.units.len() - from,
{
    if from < s.units.len() {
        lemma_touched_units(s, dirty, from + 1);
        let some = due_units(s, Some(dirty), from);
        let all = due_units(s, None, from);
        let rest = groups_of(s, None, due_units(s, None, from + 1));
        let here = unit_groups(s, None, from);
        assert(all[0] == from);
        assert(all.drop_first() =~= due_units(s, None, from + 1));
        lemma_touched_joined(here, rest, dirty);
        assert(touched_part(here, dirty) == unit_groups(s, Some(dirty), from)) by {
            match s.units[from] {
                ScheduleUnit::Cycle(i) => {
                    let c = s.cycles[i as int].to_set();
                    assert(here == seq![c]);
                    assert(here.drop_last() =~= Seq::empty());
                    assert(here.last() == c);
                    assert(touched_part(here.drop_last(), dirty) =~= Seq::empty());
                    assert(touched_part(here, dirty) =~= unit_groups(s, Some(dirty), from));
                },
                ScheduleUnit::Layer(i) => {
                    lemma_touched_singles(s.layers[i as int], dirty);
                },
            }
        }
        if is_due(s, Some(dirty), from) {
            assert(some[0] == from);
            assert(some.drop_first() =~= due_units(s, Some(dirty), from + 1));
        } else {
            assert(unit_groups(s, Some(dirty), from) =~= Seq::empty());
            assert(touched_part(here, dirty) + touched_part(rest, dirty) =~= touched_part(rest, dirty));
        }
    }
}

proof fn lemma_touched(groups: Seq<Set<u32>>, dirty: Set<u32>, precedents: spec_fn(Set<u32>) -> Set<u32>)
    requires
        is_sorted(groups, precedents),
    ensures
        is_sorted(touched_part(groups, dirty), precedents),
        forall|x: Set<u32>| #[trigger]
            touched_part(groups, dirty).contains(x) <==> groups.contains(x) && is_touched(
                x,
                Some(dirty),
            ),
    decreases groups.len(),
{
    if groups.len() > 0 {
        let front = groups.drop_last();
        let last = groups.last();
        let n = groups.len() - 1;
        lemma_front_sorted(groups, precedents);
        lemma_touched(front, dirty, precedents);
        let part = touched_part(front, dirty);
        let all = touched_part(groups, dirty);
        assert forall|x: Set<u32>| #[trigger] all.contains(x) <==> groups.contains(x) && is_touched(
            x,
            Some(dirty),
        ) by {
            if all.contains(x) {
                let i = choose|i: int| 0 <= i < all.len() && all[i] == x;
                if i < part.len() {
                    assert(part[i] == x);
                    assert(part.contains(x));
                    let m = choose|m: int| 0 <= m < front.len() && front[m] == x;
                    assert(groups[m] == x);
                } else {
                    assert(groups[n] == x);
                }
            }
            if groups.contains(x) && is_touched(x, Some(dirty)) {
                let i = choose|i: int| 0 <= i < groups.len() && groups[i] == x;
                if i < n {
                    assert(front[i] == x);
                    assert(part.contains(x));
                    let m = choose|m: int| 0 <= m < part.len() && part[m] == x;
                    assert(all[m] == x);
                } else {
                    assert(all[all.len() - 1] == x);
                }
            }
        }
        assert forall|i: int, j: int, v: u32|
            #![trigger all[i], all[j].contains(v)]
            0 <= i < j < all.len() && all[j].contains(v) implies !all[i].contains(v) && !precedents(
            all[i],
        ).contains(v) by {
            assert(all[i] == part[i]);
            if j < part.len() {
                assert(all[j] == part[j]);
                assert(part[j].contains(v));
            } else {
                assert(part.contains(part[i]));
                let m = choose|m: int| 0 <= m < front.len() && front[m] == part[i];
                assert(groups[m] == all[i]);
                assert(groups[n].contains(v));
            }
        }
    }
}

/// Groups that are evaluated one list behind the other are evaluated as one list.
proof fn lemma_worked_joined(
    g: GridView,
    a: Seq<Set<u32>>,
    b: Seq<Set<u32>>,
    value: spec_fn(Set<u32>, Map<u32, ValueView>) -> Map<u32, ValueView>,
    mid: GridView,
    h: GridView,
)
    requires
        is_worked(g, a, value, mid),
        is_worked(mid, b, value, h),
    ensures
        is_worked(g, a + b, value, h),
    decreases b.len(),
{
    if b.len() == 0 {
        assert(a + b =~= a);
    } else {
        let m = choose|m: GridView|
            {
                &&& #[trigger] halfway(m)
                &&& is_worked(mid, b.drop_last(), value, m)
                &&& is_evaluated(m, b.last(), value(b.last(), m.values), h)
            };
        lemma_worked_joined(g, a, b.drop_last(), value, mid, m);
        assert((a + b).drop_last() =~= a + b.drop_last());
        assert((a + b).last() == b.last());
        assert(halfway(m));
    }
}

/// The groups that an action asks to evaluate. Of a cycle without a dirty member nothing is evaluated.
pub open spec fn action_groups(action: Action, dirty: Option<Set<u32>>) -> Seq<Set<u32>> {
    match action {
        Action::Layer { vertices, .. } => singles(vertices@),
        Action::Cycle(members) => if is_touched(members@.to_set(), dirty) {
            seq![members@.to_set()]
        } else {
            Seq::empty()
        },
        _ => Seq::empty(),
    }
}

/// Whether `x` is the evaluation with what the action counted: the vertices of a layer, or a cycle in
/// which some members were marked.
pub open spec fn counts_on(v: EvaluationView, action: Action, x: EvaluationView) -> bool {
    match action {
        Action::Layer { vertices, .. } => x == v.counting(vertices@.len()),
        Action::Cycle(_) => exists|stamped: usize| x == #[trigger] v.erring(stamped),
        _ => false,
    }
}

/// Whether the evaluation of `n` layers and cycles leads from one point of an evaluation to another.
pub open spec fn is_driven(
    v: EvaluationView,
    action: Action,
    g: GridView,
    value: spec_fn(Set<u32>, Map<u32, ValueView>) -> Map<u32, ValueView>,
    dirty: Option<Set<u32>>,
    n: nat,
    end: EvaluationView,
    last: Action,
    h: GridView,
) -> bool
    decreases n,
{
    if n == 0 {
        end == v && last == action && h == g
    } else {
        exists|x: EvaluationView, a: Action, w: EvaluationView, mid: GridView|
            {
                &&& counts_on(v, action, x)
                &&& #[trigger] goes_on(x, false, a, w)
                &&& #[trigger] halfway(mid)
                &&& is_worked(g, action_groups(action, dirty), value, mid)
                &&& is_driven(w, a, mid, value, dirty, (n - 1) as nat, end, last, h)
            }
    }
}

/// The vertices that are evaluated in the layers ahead, in order.
pub open spec fn work_ahead(w: WalkView) -> Seq<u32> {
    work_of(w.schedule, w.dirty, w.ahead)
}

/// The groups that are evaluated ahead, in order.
pub open spec fn groups_ahead(w: WalkView) -> Seq<Set<u32>> {
    groups_of(w.schedule, w.dirty, w.ahead)
}

/// An evaluation that is driven until no unit is left has evaluated what is ahead, in order.
proof fn lemma_driven(
    before: EvaluationView,
    v: EvaluationView,
    action: Action,
    g: GridView,
    value: spec_fn(Set<u32>, Map<u32, ValueView>) -> Map<u32, ValueView>,
    n: nat,
    end: EvaluationView,
    last: Action,
    h: GridView,
)
    requires
        before.walk is Some,
        goes_on(before, false, action, v),
        is_driven(v, action, g, value, before.walk->Some_0.dirty, n, end, last, h),
        !(last is Layer),
        !(last is Cycle),
        before.counts.computed_vertices + work_ahead(before.walk->Some_0).len() <= usize::MAX,
    ensures
        is_worked(g, groups_ahead(before.walk->Some_0), value, h),
        end.counts.computed_vertices == before.counts.computed_vertices + work_ahead(
            before.walk->Some_0,
        ).len(),
        end.counts.replan_iterations == before.counts.replan_iterations,
        end.scope == before.scope,
        end.work == before.work,
        before.scope == Scope::Everything ==> last is Compare && end.phase == Phase::Comparing,
        before.scope != Scope::Everything ==> (last matches Action::Settle { clean, dirty, again }
            && clean@ == before.work && dirty@.len() == 0 && !again && end.phase == Phase::Ended),
    decreases before.walk->Some_0.ahead.len(),
{
    let walk = before.walk->Some_0;
    let dirty = walk.dirty;
    if walk.ahead.len() == 0 {
        assert(n == 0) by {
            if n > 0 {
                let (x, a, w, mid) = choose|x: EvaluationView, a: Action, w: EvaluationView, mid: GridView|
                    {
                        &&& counts_on(v, action, x)
                        &&& #[trigger] goes_on(x, false, a, w)
                        &&& #[trigger] halfway(mid)
                        &&& is_worked(g, action_groups(action, dirty), value, mid)
                        &&& is_driven(w, a, mid, value, dirty, (n - 1) as nat, end, last, h)
                    };
                assert(counts_on(v, action, x));
            }
        }
    } else {
        let unit = walk.schedule.units[walk.ahead[0]];
        let rest = WalkView { ahead: walk.ahead.drop_first(), ..walk };
        assert(n > 0);
        let (x, a, w, mid) = choose|x: EvaluationView, a: Action, w: EvaluationView, mid: GridView|
            {
                &&& counts_on(v, action, x)
                &&& #[trigger] goes_on(x, false, a, w)
                &&& #[trigger] halfway(mid)
                &&& is_worked(g, action_groups(action, dirty), value, mid)
                &&& is_driven(w, a, mid, value, dirty, (n - 1) as nat, end, last, h)
            };
        assert(v.walk == Some(rest));
        assert(x.walk == Some(rest));
        let here = unit_groups(walk.schedule, dirty, walk.ahead[0]);
        assert(action_groups(action, dirty) == here);
        match unit {
            ScheduleUnit::Layer(i) => {
                let vertices = action->Layer_vertices@;
                assert(vertices == layer_work(walk.schedule, dirty, i as int));
                assert(work_ahead(walk) == vertices + work_ahead(rest));
                assert(x.counts.computed_vertices == before.counts.computed_vertices + vertices.len());
            },
            ScheduleUnit::Cycle(i) => {
                assert(work_ahead(walk) == work_ahead(rest));
            },
        }
        lemma_driven(x, w, a, mid, value, (n - 1) as nat, end, last, h);
        assert(groups_ahead(walk) == here + groups_ahead(rest));
        lemma_worked_joined(g, here, groups_ahead(rest), value, mid, h);
    }
}

proof fn lemma_as_many(a: Seq<u32>, b: Seq<u32>)
    requires
        a.no_duplicates(),
        b.no_duplicates(),
        forall|v: u32| #[trigger] a.contains(v) <==> b.contains(v),
    ensures
        a.len() == b.len(),
{
    a.unique_seq_to_set();
    b.unique_seq_to_set();
    assert(a.to_set() =~= b.to_set()) by {
        assert forall|v: u32| a.to_set().contains(v) <==> b.to_set().contains(v) by {
            assert(a.contains(v) <==> b.contains(v));
        }
    }
}

/// One evaluation that is driven until no unit is left: how it begins to walk, and how it ends.
pub struct Drive {
    pub begun: EvaluationView,
    pub first: Action,
    pub steps: nat,
    pub end: EvaluationView,
    pub last: Action,
    pub grid: GridView,
}

/// Whether the evaluation, from where it begins to walk, is driven until no unit is left.
pub open spec fn is_driven_out(
    before: EvaluationView,
    g: GridView,
    value: spec_fn(Set<u32>, Map<u32, ValueView>) -> Map<u32, ValueView>,
    dirty: Option<Set<u32>>,
    d: Drive,
) -> bool {
    &&& goes_on(before, false, d.first, d.begun)
    &&& is_driven(d.begun, d.first, g, value, dirty, d.steps, d.end, d.last, d.grid)
    &&& !(d.last is Layer)
    &&& !(d.last is Cycle)
}

/// A recalculation by a kept plan ends as an evaluation of everything does: the vertices hold the same
/// values, every cell reads the same, as many vertices were computed in layers, and the same ones are
/// marked as clean. Both schedules put every group behind its precedents, and the fresh one has those
/// groups of the plan that hold a vertex that is out of date.
pub proof fn a_replay_ends_as_an_evaluation_of_everything(
    plan: ScheduleView,
    fresh: ScheduleView,
    meta: ScheduleBuildMeta,
    work: Seq<u32>,
    has_pool: bool,
    g: GridView,
    value: spec_fn(Set<u32>, Map<u32, ValueView>) -> Map<u32, ValueView>,
    precedents: spec_fn(Set<u32>) -> Set<u32>,
    replay: Drive,
    asked: EvaluationView,
    scheduling: Action,
    taken: EvaluationView,
    full: Drive,
    settling: Action,
    settled: EvaluationView,
    cell: CellRef,
)
    requires
        reads_precedents(value, precedents),
        stand_apart(g),
        is_sorted(walked_groups(plan, None), precedents),
        is_sorted(walked_groups(fresh, None), precedents),
        forall|x: Set<u32>| #[trigger]
            walked_groups(fresh, None).contains(x) <==> walked_groups(plan, None).contains(x)
                && is_touched(x, Some(work.to_set())),
        walked(plan, None).no_duplicates(),
        walked(fresh, None).no_duplicates(),
        forall|v: u32| #[trigger]
            walked(fresh, None).contains(v) <==> walked(plan, None).contains(v) && work.to_set().contains(
                v,
            ),
        walked(fresh, None).len() <= usize::MAX,
        work.len() > 0,
        is_driven_out(
            EvaluationView::replaying(plan, work, work.to_set(), has_pool),
            g,
            value,
            Some(work.to_set()),
            replay,
        ),
        asked.scope == Scope::Everything,
        asked.counts.computed_vertices == 0,
        takes_work(asked, work, false, scheduling, taken),
        is_driven_out(taken.walking(fresh, meta), g, value, None, full),
        settles(full.end, Seq::empty(), settling, settled),
    ensures
        replay.grid.values == full.grid.values,
        replay.grid.reading(cell) == full.grid.reading(cell),
        replay.end.counts.computed_vertices == settled.counts.computed_vertices,
        replay.end.phase == Phase::Ended,
        settled.phase == Phase::Ended,
        replay.last matches Action::Settle { clean, dirty, again } && clean@ == work && dirty@.len()
            == 0 && !again,
        settling matches Action::Settle { clean, dirty, again } && clean@ == work && dirty@.len()
            == 0 && !again,
{
    let dirty = work.to_set();
    let begun = EvaluationView::replaying(plan, work, dirty, has_pool);
    let walking = taken.walking(fresh, meta);
    a_replayed_plan_evaluates_the_dirty_vertices(plan, dirty);
    lemma_as_many(walked(plan, Some(dirty)), walked(fresh, None));
    lemma_driven(
        begun,
        replay.begun,
        replay.first,
        g,
        value,
        replay.steps,
        replay.end,
        replay.last,
        replay.grid,
    );
    lemma_driven(
        walking,
        full.begun,
        full.first,
        g,
        value,
        full.steps,
        full.end,
        full.last,
        full.grid,
    );
    lemma_touched_units(plan, dirty, 0);
    lemma_touched(walked_groups(plan, None), dirty, precedents);
    sorted_groups_come_to_the_same(
        g,
        walked_groups(plan, Some(dirty)),
        walked_groups(fresh, None),
        value,
        precedents,
        replay.grid,
        full.grid,
        cell,
    );
}

/// A kept plan that is replayed while nothing is out of date computes nothing and changes nothing.
pub proof fn a_second_replay_computes_nothing(
    plan: ScheduleView,
    has_pool: bool,
    g: GridView,
    value: spec_fn(Set<u32>, Map<u32, ValueView>) -> Map<u32, ValueView>,
    d: Drive,
)
    requires
        is_driven_out(
            EvaluationView::replaying(plan, Seq::empty(), Set::empty(), has_pool),
            g,
            value,
            Some(Set::empty()),
            d,
        ),
    ensures
        d.end.counts.computed_vertices == 0,
        d.end.phase == Phase::Ended,
        d.grid == g,
        d.last matches Action::Settle { clean, dirty, again } && clean@.len() == 0 && dirty@.len() == 0
            && !again,
{
    let none = Set::<u32>::empty();
    a_replayed_plan_evaluates_the_dirty_vertices(plan, none);
    lemma_touched_units(plan, none, 0);
    lemma_nothing_touched(walked_groups(plan, None));
    lemma_driven(
        EvaluationView::replaying(plan, Seq::empty(), none, has_pool),
        d.begun,
        d.first,
        g,
        value,
        d.steps,
        d.end,
        d.last,
        d.grid,
    );
}

proof fn lemma_nothing_touched(groups: Seq<Set<u32>>)
    ensures
        touched_part(groups, Set::empty()).len() == 0,
    decreases groups.len(),
{
    if groups.len() > 0 {
        lemma_nothing_touched(groups.drop_last());
    }
}

} // verus!
