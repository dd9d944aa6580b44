//! The names of the workbook in the order in which they are listed.
use crate::coord::SheetId;
use crate::named::NameScope;
use crate::sort::is_permutation;
use crate::text::{lemma_text_lt_total, lemma_text_lt_transitive, text_less, text_lt};
use vstd::prelude::*;

verus! {

/// A name as far as the order of names reads it.
#[derive(Debug)]
pub struct NameKey {
    pub name: String,
    pub scope: NameScope,
}

/// Names of the workbook come first, then those of sheets by sheet; names of one scope by their
/// text.
pub open spec fn name_before(a: NameKey, b: NameKey) -> bool {
    if scope_rank(a.scope) != scope_rank(b.scope) {
        scope_rank(a.scope) < scope_rank(b.scope)
    } else {
        text_lt(a.name@, b.name@)
    }
}

/// The place of a scope among scopes.
pub open spec fn scope_rank(scope: NameScope) -> int {
    match scope {
        NameScope::Workbook => 0,
        NameScope::Sheet(id) => 1 + id,
    }
}

fn rank_of(scope: NameScope) -> (r: u32)
    ensures
        r == scope_rank(scope),
{
    match scope {
        NameScope::Workbook => 0,
        NameScope::Sheet(id) => 1 + id as u32,
    }
}

fn comes_before(a: &NameKey, b: &NameKey) -> (r: bool)
    ensures
        r == name_before(*a, *b),
{
    let x = rank_of(a.scope);
    let y = rank_of(b.scope);
    if x != y {
        x < y
    } else {
        text_less(&a.name, &b.name)
    }
}

proof fn lemma_not_before_transitive(a: NameKey, b: NameKey, c: NameKey)
    requires
        !name_before(b, a),
        !name_before(c, b),
    ensures
        !name_before(c, a),
{
    let (x, y, z) = (a.name@, b.name@, c.name@);
    lemma_text_lt_total(x, y);
    lemma_text_lt_total(y, z);
    lemma_text_lt_total(x, z);
    if text_lt(x, y) && text_lt(y, z) {
        lemma_text_lt_transitive(x, y, z);
    }
}

proof fn lemma_before_asymmetric(a: NameKey, b: NameKey)
    requires
        name_before(a, b),
    ensures
        !name_before(b, a),
{
    lemma_text_lt_total(a.name@, b.name@);
}

/// Whether `order` lists all names in order; names that do not differ in it stay as they are.
pub open spec fn is_name_order(names: Seq<NameKey>, order: Seq<usize>) -> bool {
    &&& is_permutation(order, names.len())
    &&& forall|i: int, j: int|
        0 <= i < j < order.len() ==> !name_before(
            names[(#[trigger] order[j]) as int],
            names[(#[trigger] order[i]) as int],
        )
    &&& forall|i: int, j: int|
        0 <= i < j < order.len() && !name_before(
            names[(#[trigger] order[i]) as int],
            names[(#[trigger] order[j]) as int],
        ) ==> order[i] < order[j]
}

/// The names in the order in which they are listed.
pub fn named_ranges_snapshot(names: &Vec<NameKey>) -> (order: Vec<usize>)
    ensures
        is_name_order(names@, order@),
{
    let mut order: Vec<usize> = Vec::new();
    let mut i: usize = 0;
    while i < names.len()
        invariant
            i <= names@.len(),
            is_permutation(order@, i as nat),
            forall|a: int, b: int|
                0 <= a < b < order@.len() ==> !name_before(
                    names@[(#[trigger] order@[b]) as int],
                    names@[(#[trigger] order@[a]) as int],
                ),
            forall|a: int, b: int|
                0 <= a < b < order@.len() && !name_before(
                    names@[(#[trigger] order@[a]) as int],
                    names@[(#[trigger] order@[b]) as int],
                ) ==> order@[a] < order@[b],
        decreases names@.len() - i,
    {
        let mut p: usize = 0;
        while p < order.len() && !comes_before(&names[i], &names[order[p]])
            invariant
                i < names@.len(),
                p <= order@.len(),
                order@.len() == i,
                forall|k: int| 0 <= k < i ==> (#[trigger] order@[k]) < i,
                forall|k: int|
                    0 <= k < p ==> !name_before(
                        names@[i as int],
                        names@[(#[trigger] order@[k]) as int],
                    ),
            decreases order@.len() - p,
        {
            p = p + 1;
        }
        let ghost old_order = order@;
        order.insert(p, i);
        proof {
            let x = names@[i as int];
            assert forall|a: int, b: int| 0 <= a < b < order@.len() implies !name_before(
                names@[(#[trigger] order@[b]) as int],
                names@[(#[trigger] order@[a]) as int],
            ) && (!name_before(names@[order@[a] as int], names@[order@[b] as int]) ==> order@[a]
                < order@[b]) by {
                if b == p {
                    assert(order@[a] == old_order[a]);
                } else if a == p {
                    assert(order@[b] == old_order[b - 1]);
                    let first = names@[old_order[p as int] as int];
                    lemma_before_asymmetric(x, first);
                    if b - 1 > p {
                        assert(!name_before(
                            names@[old_order[b - 1] as int],
                            names@[old_order[p as int] as int],
                        ));
                        lemma_not_before_transitive(x, first, names@[old_order[b - 1] as int]);
                        lemma_strict(x, first, names@[old_order[b - 1] as int]);
                    }
                } else {
                    let a0 = if a < p {
                        a
                    } else {
                        a - 1
                    };
                    let b0 = if b < p {
                        b
                    } else {
                        b - 1
                    };
                    assert(order@[a] == old_order[a0] && order@[b] == old_order[b0]);
                    assert(a0 < b0);
                }
            }
            assert forall|a: int, b: int| 0 <= a < b < order@.len() implies #[trigger] order@[a]
                != #[trigger] order@[b] by {
                if a != p && b != p {
                    let a0 = if a < p {
                        a
                    } else {
                        a - 1
                    };
                    let b0 = if b < p {
                        b
                    } else {
                        b - 1
                    };
                    assert(order@[a] == old_order[a0] && order@[b] == old_order[b0]);
                } else if a == p {
                    assert(order@[b] == old_order[b - 1]);
                } else {
                    assert(order@[a] == old_order[a]);
                }
            }
            assert forall|k: int| 0 <= k < i + 1 implies (#[trigger] order@[k]) < i + 1 by {
                if k < p {
                    assert(order@[k] == old_order[k]);
                } else if k > p {
                    assert(order@[k] == old_order[k - 1]);
                }
            }
        }
        i = i + 1;
    }
    order
}

proof fn lemma_strict(a: NameKey, b: NameKey, c: NameKey)
    requires
        name_before(a, b),
        !name_before(c, b),
    ensures
        name_before(a, c),
{
    let (x, y, z) = (a.name@, b.name@, c.name@);
    lemma_text_lt_total(y, z);
    lemma_text_lt_total(x, y);
    if scope_rank(a.scope) == scope_rank(b.scope) && scope_rank(b.scope) == scope_rank(c.scope) {
        if text_lt(y, z) {
            lemma_text_lt_transitive(x, y, z);
        }
    }
}

/// Those of the first `n` listed names that can be used on the sheet.
pub open spec fn names_on(names: Seq<NameKey>, order: Seq<usize>, sheet_id: SheetId, n: nat) -> Seq<usize>
    decreases n,
{
    if n == 0 {
        Seq::empty()
    } else {
        let before = names_on(names, order, sheet_id, (n - 1) as nat);
        match names[order[n - 1] as int].scope {
            NameScope::Sheet(id) if id != sheet_id => before,
            _ => before.push(order[n - 1]),
        }
    }
}

/// The names that can be used on a sheet: those of the workbook and its own.
pub fn named_ranges_snapshot_for_sheet(names: &Vec<NameKey>, order: &Vec<usize>, sheet_id: SheetId) -> (r: Vec<
    usize,
>)
    requires
        is_name_order(names@, order@),
    ensures
        r@ == names_on(names@, order@, sheet_id, order@.len()),
{
    let mut out: Vec<usize> = Vec::new();
    let mut i: usize = 0;
    while i < order.len()
        invariant
            is_name_order(names@, order@),
            i <= order@.len(),
            out@ == names_on(names@, order@, sheet_id, i as nat),
        decreases order@.len() - i,
    {
        assert(order@[i as int] < names@.len());
        let keep = match names[order[i]].scope {
            NameScope::Workbook => true,
            NameScope::Sheet(id) => id == sheet_id,
        };
        if keep {
            out.push(order[i]);
        }
        i = i + 1;
    }
    out
}

/// Names of the workbook come before those of sheets, the sheets in the order of their numbers, and
/// within one scope the names by their text.
pub proof fn names_are_ordered_by_scope_and_text(a: NameKey, b: NameKey)
    ensures
        a.scope is Workbook && b.scope is Sheet ==> name_before(a, b) && !name_before(b, a),
        a.scope is Sheet && b.scope is Sheet && a.scope->Sheet_0 < b.scope->Sheet_0 ==> name_before(a, b)
            && !name_before(b, a),
        a.scope == b.scope ==> name_before(a, b) == text_lt(a.name@, b.name@),
{
}

/// On a sheet those names are seen that belong to it or to the workbook.
pub proof fn a_sheet_sees_its_names_and_those_of_the_workbook(
    names: Seq<NameKey>,
    order: Seq<usize>,
    sheet_id: SheetId,
    n: nat,
    i: int,
)
    requires
        n <= order.len(),
        0 <= i < n,
    ensures
        names[order[i] as int].scope == NameScope::Workbook || names[order[i] as int].scope
            == NameScope::Sheet(sheet_id) ==> names_on(names, order, sheet_id, n).contains(order[i]),
        forall|k: int|
            0 <= k < names_on(names, order, sheet_id, n).len() ==> (names[(#[trigger] names_on(
                names,
                order,
                sheet_id,
                n,
            )[k]) as int].scope matches NameScope::Sheet(id) ==> id == sheet_id),
    decreases n,
{
    let m = (n - 1) as nat;
    let before = names_on(names, order, sheet_id, m);
    lemma_names_on(names, order, sheet_id, m);
    if i < m {
        a_sheet_sees_its_names_and_those_of_the_workbook(names, order, sheet_id, m, i);
        if before.contains(order[i]) {
            let k = choose|k: int| 0 <= k < before.len() && before[k] == order[i];
            assert(before.push(order[n - 1])[k] == order[i]);
        }
    } else {
        assert(before.push(order[n - 1])[before.len() as int] == order[i]);
    }
}

proof fn lemma_names_on(names: Seq<NameKey>, order: Seq<usize>, sheet_id: SheetId, n: nat)
    requires
        n <= order.len(),
    ensures
        forall|k: int|
            0 <= k < names_on(names, order, sheet_id, n).len() ==> (names[(#[trigger] names_on(
                names,
                order,
                sheet_id,
                n,
            )[k]) as int].scope matches NameScope::Sheet(id) ==> id == sheet_id),
    decreases n,
{
    if n > 0 {
        lemma_names_on(names, order, sheet_id, (n - 1) as nat);
    }
}

/// The names that a sheet sees stand in the order of all names.
pub proof fn the_names_of_a_sheet_keep_their_order(
    names: Seq<NameKey>,
    order: Seq<usize>,
    sheet_id: SheetId,
    n: nat,
)
    requires
        n <= order.len(),
    ensures
        names_on(names, order, sheet_id, n) == order.take(n as int).filter(
            |i: usize|
                names[i as int].scope == NameScope::Workbook || names[i as int].scope == NameScope::Sheet(
                    sheet_id,
                ),
        ),
    decreases n,
{
    reveal(Seq::filter);
    if n > 0 {
        the_names_of_a_sheet_keep_their_order(names, order, sheet_id, (n - 1) as nat);
        let long = order.take(n as int);
        assert(long.drop_last() =~= order.take(n - 1));
        assert(long.last() == order[n - 1]);
    } else {
        assert(order.take(0) =~= Seq::empty());
    }
}

} // verus!
