//! Cycles: the order of their members, and the passes by which a cycle is evaluated.
use crate::coord::{CellRef, VertexId};
use crate::number::{INFINITY_BITS, SIGN_BIT};
use crate::sort::{is_permutation, lemma_permutation_hits};
use crate::text::{lemma_text_lt_total, lemma_text_lt_transitive, text_less, text_lt};
use crate::value::{ErrorKind, ExcelError, LiteralValue, ValueView, error_with};
use crate::vertex::VertexKind;
use vstd::prelude::*;

verus! {

/// How cycles are found.
#[derive(Clone, Copy, Debug, PartialEq, Eq, Structural)]
pub enum CycleDetection {
    Static,
    Runtime,
}

/// What is done about a cycle that really runs in a circle.
#[derive(Clone, Copy, Debug, PartialEq, Eq, Structural)]
pub enum CyclePolicy {
    Error,
    Iterate { max_iterations: u32 },
}

/// The value that marks a member of a cycle.
pub open spec fn circ_value() -> ValueView {
    ValueView::Error(error_with(ErrorKind::Circ, "Circular dependency detected"@))
}

pub fn circ_error() -> (v: LiteralValue)
    ensures
        v@ == circ_value(),
{
    LiteralValue::Error(
        ExcelError::new(ErrorKind::Circ).with_message("Circular dependency detected"),
    )
}

/// A vertex of a cycle as far as the order of members reads it.
#[derive(Debug)]
pub struct SccVertex {
    pub vertex: VertexId,
    pub kind: VertexKind,
    pub cell: Option<CellRef>,
    pub name_key: Option<String>,
}

/// Cells come first, then names, then all other vertices.
pub open spec fn member_class(v: SccVertex) -> int {
    match v.kind {
        VertexKind::FormulaScalar | VertexKind::FormulaArray => if v.cell is Some {
            0
        } else {
            2
        },
        VertexKind::NamedScalar | VertexKind::NamedArray => if v.name_key is Some {
            1
        } else {
            2
        },
        _ => 2,
    }
}

/// The order of cells: by sheet, row and column.
pub open spec fn cell_lt(a: CellRef, b: CellRef) -> bool {
    a.sheet_id < b.sheet_id || (a.sheet_id == b.sheet_id && (a.row < b.row || (a.row == b.row && a.col
        < b.col)))
}

/// The order of members: cells by address, names by key and then vertex, others by vertex.
pub open spec fn member_lt(a: SccVertex, b: SccVertex) -> bool {
    if member_class(a) != member_class(b) {
        member_class(a) < member_class(b)
    } else if member_class(a) == 0 {
        cell_lt(a.cell->Some_0, b.cell->Some_0)
    } else if member_class(a) == 1 {
        text_lt(a.name_key->Some_0@, b.name_key->Some_0@) || (a.name_key->Some_0@
            == b.name_key->Some_0@ && a.vertex < b.vertex)
    } else {
        a.vertex < b.vertex
    }
}

proof fn lemma_member_lt_transitive(a: SccVertex, b: SccVertex, c: SccVertex)
    requires
        !member_lt(b, a),
        !member_lt(c, b),
    ensures
        !member_lt(c, a),
{
    if member_class(a) == 1 && member_class(b) == 1 && member_class(c) == 1 {
        let x = a.name_key->Some_0@;
        let y = b.name_key->Some_0@;
        let z = c.name_key->Some_0@;
        lemma_text_lt_total(x, y);
        lemma_text_lt_total(y, z);
        lemma_text_lt_total(x, z);
        if text_lt(x, y) && text_lt(y, z) {
            lemma_text_lt_transitive(x, y, z);
        }
    }
}

proof fn lemma_member_lt_asymmetric(a: SccVertex, b: SccVertex)
    requires
        member_lt(a, b),
    ensures
        !member_lt(b, a),
{
    if member_class(a) == 1 && member_class(b) == 1 {
        lemma_text_lt_total(a.name_key->Some_0@, b.name_key->Some_0@);
    }
}

fn class_of(v: &SccVertex) -> (c: u8)
    ensures
        c == member_class(*v),
{
    match v.kind {
        VertexKind::FormulaScalar | VertexKind::FormulaArray => if v.cell.is_some() {
            0
        } else {
            2
        },
        VertexKind::NamedScalar | VertexKind::NamedArray => if v.name_key.is_some() {
            1
        } else {
            2
        },
        _ => 2,
    }
}

fn before(a: &SccVertex, b: &SccVertex) -> (r: bool)
    ensures
        r == member_lt(*a, *b),
{
    let x = class_of(a);
    let y = class_of(b);
    if x != y {
        return x < y;
    }
    if x == 0 {
        match (a.cell, b.cell) {
            (Some(p), Some(q)) => p.sheet_id < q.sheet_id || (p.sheet_id == q.sheet_id && (p.row
                < q.row || (p.row == q.row && p.col < q.col))),
            _ => false,
        }
    } else if x == 1 {
        match (&a.name_key, &b.name_key) {
            (Some(p), Some(q)) => text_less(p, q) || (*p == *q && a.vertex < b.vertex),
            _ => false,
        }
    } else {
        a.vertex < b.vertex
    }
}

/// Whether `order` lists the positions of all vertices in the order of members.
pub open spec fn is_member_order(cycle: Seq<SccVertex>, order: Seq<usize>) -> bool {
    &&& is_permutation(order, cycle.len())
    &&& forall|i: int, j: int|
        0 <= i < j < order.len() ==> !member_lt(
            cycle[(#[trigger] order[j]) as int],
            cycle[(#[trigger] order[i]) as int],
        )
}

/// The members of a cycle in the order in which a pass runs them.
pub fn order_members(cycle: &Vec<SccVertex>) -> (order: Vec<usize>)
    ensures
        is_member_order(cycle@, order@),
{
    let mut order: Vec<usize> = Vec::new();
    let mut i: usize = 0;
    while i < cycle.len()
        invariant
            i <= cycle@.len(),
            is_permutation(order@, i as nat),
            forall|a: int, b: int|
                0 <= a < b < order@.len() ==> !member_lt(
                    cycle@[(#[trigger] order@[b]) as int],
                    cycle@[(#[trigger] order@[a]) as int],
                ),
        decreases cycle@.len() - i,
    {
        let mut p: usize = 0;
        while p < order.len() && !before(&cycle[i], &cycle[order[p]])
            invariant
                i < cycle@.len(),
                p <= order@.len(),
                order@.len() == i,
                forall|k: int| 0 <= k < i ==> (#[trigger] order@[k]) < i,
                forall|k: int|
                    0 <= k < p ==> !member_lt(
                        cycle@[i as int],
                        cycle@[(#[trigger] order@[k]) as int],
                    ),
            decreases order@.len() - p,
        {
            p = p + 1;
        }
        let ghost old_order = order@;
        order.insert(p, i);
        proof {
            assert forall|a: int, b: int| 0 <= a < b < order@.len() implies !member_lt(
                cycle@[(#[trigger] order@[b]) as int],
                cycle@[(#[trigger] order@[a]) as int],
            ) by {
                let x = cycle@[i as int];
                if a < p && b == p {
                    assert(order@[a] == old_order[a]);
                } else if a == p {
                    assert(order@[b] == old_order[b - 1]);
                    let first = cycle@[old_order[p as int] as int];
                    lemma_member_lt_asymmetric(x, first);
                    if b - 1 > p {
                        assert(!member_lt(
                            cycle@[old_order[b - 1] as int],
                            cycle@[old_order[p as int] as int],
                        ));
                        lemma_member_lt_transitive(x, first, cycle@[old_order[b - 1] as int]);
                    }
                } else {
                    let a0 = if a < p { a } else { a - 1 };
                    let b0 = if b < p { b } else { b - 1 };
                    assert(order@[a] == old_order[a0] && order@[b] == old_order[b0]);
                    assert(a0 < b0);
                }
            }
            assert forall|a: int, b: int| 0 <= a < b < order@.len() implies #[trigger] order@[a]
                != #[trigger] order@[b] by {
                if a != p && b != p {
                    let a0 = if a < p { a } else { a - 1 };
                    let b0 = if b < p { b } else { b - 1 };
                    assert(order@[a] == old_order[a0] && order@[b] == old_order[b0]);
                } else if a == p {
                    assert(order@[b] == old_order[b - 1]);
                } else {
                    assert(order@[a] == old_order[a]);
                }
            }
            assert forall|k: int| 0 <= k < i + 1 implies (#[trigger] order@[k]) < i + 1 by {
                if k < p {
                    assert(order@[k] == old_order[k]);
                } else if k > p {
                    assert(order@[k] == old_order[k - 1]);
                }
            }
        }
        i = i + 1;
    }
    order
}

/// Whether `b` lists the vertices of `a`, each once, maybe in another order.
pub open spec fn is_rearranged(a: Seq<SccVertex>, b: Seq<SccVertex>) -> bool {
    exists|places: Seq<usize>|
        {
            &&& #[trigger] is_permutation(places, a.len())
            &&& b == taken_from(a, places)
        }
}

/// The vertices at the given places.
pub open spec fn taken_from(cycle: Seq<SccVertex>, places: Seq<usize>) -> Seq<SccVertex> {
    Seq::new(places.len(), |i: int| cycle[places[i] as int])
}

/// Whether the vertices are different ones, and no two of them stand in the same cell.
pub open spec fn are_distinct(cycle: Seq<SccVertex>) -> bool {
    forall|i: int, j: int|
        0 <= i < j < cycle.len() ==> {
            &&& (#[trigger] cycle[i]).vertex != (#[trigger] cycle[j]).vertex
            &&& member_class(cycle[i]) == 0 && member_class(cycle[j]) == 0 ==> cycle[i].cell
                != cycle[j].cell
        }
}

/// Of two different vertices one comes first.
proof fn lemma_member_lt_total(cycle: Seq<SccVertex>, i: int, j: int)
    requires
        are_distinct(cycle),
        0 <= i < cycle.len(),
        0 <= j < cycle.len(),
        i != j,
    ensures
        member_lt(cycle[i], cycle[j]) || member_lt(cycle[j], cycle[i]),
{
    let (a, b) = (cycle[i], cycle[j]);
    if i < j {
        assert(cycle[i].vertex != cycle[j].vertex);
    } else {
        assert(cycle[j].vertex != cycle[i].vertex);
    }
    if member_class(a) == 1 && member_class(b) == 1 {
        lemma_text_lt_total(a.name_key->Some_0@, b.name_key->Some_0@);
    }
}

/// Members in order are strictly in order where the vertices are different ones.
proof fn lemma_strictly_in_order(cycle: Seq<SccVertex>, order: Seq<usize>, i: int, j: int)
    requires
        are_distinct(cycle),
        is_member_order(cycle, order),
        0 <= i < j < order.len(),
    ensures
        member_lt(cycle[order[i] as int], cycle[order[j] as int]),
{
    assert(order[i] != order[j]);
    assert(!member_lt(cycle[order[j] as int], cycle[order[i] as int]));
    lemma_member_lt_total(cycle, order[i] as int, order[j] as int);
}

/// Another list of the same different vertices is one of different vertices, and holds each of them.
proof fn lemma_rearranged(a: Seq<SccVertex>, b: Seq<SccVertex>, places: Seq<usize>)
    requires
        is_permutation(places, a.len()),
        b == taken_from(a, places),
        are_distinct(a),
    ensures
        are_distinct(b),
        forall|i: int| 0 <= i < a.len() ==> b.contains(#[trigger] a[i]),
        forall|i: int| 0 <= i < b.len() ==> a.contains(#[trigger] b[i]),
{
    assert forall|i: int, j: int| 0 <= i < j < b.len() implies {
        &&& (#[trigger] b[i]).vertex != (#[trigger] b[j]).vertex
        &&& member_class(b[i]) == 0 && member_class(b[j]) == 0 ==> b[i].cell != b[j].cell
    } by {
        assert(places[i] != places[j]);
        let (p, q) = (places[i] as int, places[j] as int);
        assert(b[i] == a[p] && b[j] == a[q]);
        if p < q {
            assert(a[p].vertex != a[q].vertex);
        } else {
            assert(a[q].vertex != a[p].vertex);
        }
    }
    assert forall|i: int| 0 <= i < a.len() implies b.contains(#[trigger] a[i]) by {
        lemma_permutation_hits(places, a.len(), i);
        let k = choose|k: int| 0 <= k < places.len() && #[trigger] places[k] == i;
        assert(b[k] == a[i]);
    }
    assert forall|i: int| 0 <= i < b.len() implies a.contains(#[trigger] b[i]) by {
        assert(b[i] == a[places[i] as int]);
    }
}

/// Members in order begin alike for both lists.
proof fn lemma_same_beginning(
    a: Seq<SccVertex>,
    x: Seq<usize>,
    b: Seq<SccVertex>,
    y: Seq<usize>,
    n: nat,
)
    requires
        are_distinct(a),
        are_distinct(b),
        a.len() == b.len(),
        forall|i: int| 0 <= i < a.len() ==> b.contains(#[trigger] a[i]),
        forall|i: int| 0 <= i < b.len() ==> a.contains(#[trigger] b[i]),
        is_member_order(a, x),
        is_member_order(b, y),
        n <= a.len(),
    ensures
        forall|i: int| 0 <= i < n ==> #[trigger] taken_from(a, x)[i] == taken_from(b, y)[i],
    decreases n,
{
    if n > 0 {
        let k = n - 1;
        lemma_same_beginning(a, x, b, y, k as nat);
        let (p, q) = (taken_from(a, x), taken_from(b, y));
        if p[k] != q[k] {
            assert(b.contains(a[x[k] as int]));
            let i = choose|i: int| 0 <= i < b.len() && b[i] == a[x[k] as int];
            lemma_permutation_hits(y, b.len(), i);
            let j = choose|j: int| 0 <= j < y.len() && #[trigger] y[j] == i;
            assert(q[j] == p[k]);
            assert(a.contains(b[y[k] as int]));
            let e = choose|e: int| 0 <= e < a.len() && a[e] == b[y[k] as int];
            lemma_permutation_hits(x, a.len(), e);
            let l = choose|l: int| 0 <= l < x.len() && #[trigger] x[l] == e;
            assert(p[l] == q[k]);
            if j < k {
                assert(p[j] == q[j]);
                lemma_strictly_in_order(a, x, j, k);
                lemma_member_lt_asymmetric(p[j], p[k]);
            }
            if l < k {
                assert(p[l] == q[l]);
                lemma_strictly_in_order(b, y, l, k);
                lemma_member_lt_asymmetric(q[l], q[k]);
            }
            lemma_strictly_in_order(b, y, k, j);
            lemma_strictly_in_order(a, x, k, l);
            lemma_member_lt_asymmetric(q[k], p[k]);
        }
    }
}

/// The order in which the members of a cycle are given does not matter: another list of the same
/// vertices has the same order of members.
pub proof fn members_run_in_one_order(
    a: Seq<SccVertex>,
    x: Seq<usize>,
    b: Seq<SccVertex>,
    y: Seq<usize>,
)
    requires
        are_distinct(a),
        is_rearranged(a, b),
        is_member_order(a, x),
        is_member_order(b, y),
    ensures
        taken_from(a, x) == taken_from(b, y),
{
    let places = choose|places: Seq<usize>|
        {
            &&& #[trigger] is_permutation(places, a.len())
            &&& b == taken_from(a, places)
        };
    lemma_rearranged(a, b, places);
    lemma_same_beginning(a, x, b, y, a.len());
    assert(taken_from(a, x) =~= taken_from(b, y));
}

/// Whether the settings for cycles are valid: cycles iterate only where they are found by
/// evaluation, at least once, and up to a threshold that is a finite number and not negative.
pub open spec fn is_valid_cycle_config(detection: CycleDetection, policy: CyclePolicy, max_change: u64) -> bool {
    match policy {
        CyclePolicy::Error => true,
        CyclePolicy::Iterate { max_iterations } => {
            &&& detection == CycleDetection::Runtime
            &&& max_iterations > 0
            &&& (max_change < INFINITY_BITS || max_change == SIGN_BIT)
        },
    }
}

/// Checks the settings for cycles; `max_change` holds the bits of the threshold.
pub fn validate_cycle_config(detection: CycleDetection, policy: CyclePolicy, max_change: u64) -> (b: bool)
    ensures
        b == is_valid_cycle_config(detection, policy, max_change),
{
    match policy {
        CyclePolicy::Error => true,
        CyclePolicy::Iterate { max_iterations } => detection == CycleDetection::Runtime
            && max_iterations > 0 && (max_change < INFINITY_BITS || max_change == SIGN_BIT),
    }
}

/// Iteration needs detection at run time, at least one pass, and a largest change that is a number, not
/// negative and not infinite. Without iteration anything goes.
pub proof fn iteration_needs_passes_and_a_finite_change(detection: CycleDetection, max_iterations: u32, max_change: u64)
    ensures
        is_valid_cycle_config(detection, CyclePolicy::Error, max_change),
        is_valid_cycle_config(detection, CyclePolicy::Iterate { max_iterations }, max_change) <==> detection
            == CycleDetection::Runtime && max_iterations >= 1 && (max_change < 0x7ff0_0000_0000_0000
            || max_change == 0x8000_0000_0000_0000),
{
}

/// Members run sheet by sheet, row by row and in a row from left to right; names come after the cells,
/// by their keys, and everything else last.
pub proof fn members_run_cell_by_cell(a: SccVertex, b: SccVertex)
    ensures
        ({
            let cell = |v: SccVertex|
                (v.kind == VertexKind::FormulaScalar || v.kind == VertexKind::FormulaArray) && v.cell is Some;
            let name = |v: SccVertex|
                (v.kind == VertexKind::NamedScalar || v.kind == VertexKind::NamedArray) && v.name_key is Some;
            &&& cell(a) && cell(b) ==> (member_lt(a, b) <==> {
                let (x, y) = (a.cell->Some_0, b.cell->Some_0);
                ||| x.sheet_id < y.sheet_id
                ||| x.sheet_id == y.sheet_id && x.row < y.row
                ||| x.sheet_id == y.sheet_id && x.row == y.row && x.col < y.col
            })
            &&& cell(a) && !cell(b) ==> member_lt(a, b) && !member_lt(b, a)
            &&& name(a) && !cell(b) && !name(b) ==> member_lt(a, b) && !member_lt(b, a)
            &&& name(a) && name(b) && a.name_key->Some_0@ != b.name_key->Some_0@ ==> member_lt(a, b)
                == text_lt(a.name_key->Some_0@, b.name_key->Some_0@)
            &&& name(a) && name(b) && a.name_key->Some_0@ == b.name_key->Some_0@ ==> member_lt(a, b) == (
            a.vertex < b.vertex)
            &&& !cell(a) && !name(a) && !cell(b) && !name(b) ==> member_lt(a, b) == (a.vertex < b.vertex)
        }),
{
    if a.name_key is Some && b.name_key is Some {
        lemma_text_lt_total(a.name_key->Some_0@, b.name_key->Some_0@);
        crate::text::texts_are_ordered_by_the_first_difference(
            a.name_key->Some_0@,
            a.name_key->Some_0@,
            a.name_key->Some_0@.len() as int,
        );
    }
}

/// The error of a cycle.
pub proof fn cycles_show_the_circular_error()
    ensures
        circ_value() matches ValueView::Error(e) && e.kind == ErrorKind::Circ && e.message == Some(
            "Circular dependency detected"@,
        ),
{
}

} // verus!
