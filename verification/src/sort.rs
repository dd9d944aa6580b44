//! Sorting by integer keys.
use vstd::prelude::*;

verus! {

/// The lexicographic order of triples.
pub open spec fn triple_le(a: (u64, u64, u64), b: (u64, u64, u64)) -> bool {
    a.0 < b.0 || (a.0 == b.0 && (a.1 < b.1 || (a.1 == b.1 && a.2 <= b.2)))
}

/// `slice::sort_unstable` on triples of integers: the same items in lexicographic order.
#[verifier::external_body]
fn sort_triples(v: &mut Vec<(u64, u64, u64)>)
    ensures
        final(v)@.to_multiset() == old(v)@.to_multiset(),
        forall|i: int, j: int|
            0 <= i <= j < final(v)@.len() ==> triple_le(
                #[trigger] final(v)@[i],
                #[trigger] final(v)@[j],
            ),
{
    v.sort_unstable();
}

/// Whether `order` lists every index below `n` once.
pub open spec fn is_permutation(order: Seq<usize>, n: nat) -> bool {
    &&& order.len() == n
    &&& forall|i: int| 0 <= i < n ==> (#[trigger] order[i]) < n
    &&& forall|i: int, j: int| 0 <= i < j < n ==> #[trigger] order[i] != #[trigger] order[j]
}

/// The order of pairs.
pub open spec fn pair_lt(a: (u64, u64), b: (u64, u64)) -> bool {
    a.0 < b.0 || (a.0 == b.0 && a.1 < b.1)
}

/// Whether `order` lists the positions of the keys from the smallest key to the largest, equal
/// keys in the order in which they stand.
pub open spec fn is_stable_order(keys: Seq<(u64, u64)>, order: Seq<usize>) -> bool {
    &&& is_permutation(order, keys.len())
    &&& forall|i: int, j: int|
        0 <= i < j < order.len() ==> pair_lt(
            keys[(#[trigger] order[i]) as int],
            keys[(#[trigger] order[j]) as int],
        ) || (keys[order[i] as int] == keys[order[j] as int] && order[i] < order[j])
}

spec fn tagged(keys: Seq<(u64, u64)>) -> Seq<(u64, u64, u64)> {
    Seq::new(keys.len(), |i: int| (keys[i].0, keys[i].1, i as u64))
}

/// The stable order of the keys.
pub fn sort_order(keys: &Vec<(u64, u64)>) -> (order: Vec<usize>)
    ensures
        is_stable_order(keys@, order@),
{
    let mut items: Vec<(u64, u64, u64)> = Vec::new();
    let mut i: usize = 0;
    while i < keys.len()
        invariant
            i <= keys@.len(),
            items@ == tagged(keys@).take(i as int),
        decreases keys@.len() - i,
    {
        let k = keys[i];
        items.push((k.0, k.1, i as u64));
        assert(items@ =~= tagged(keys@).take(i + 1));
        i = i + 1;
    }
    assert(tagged(keys@).take(i as int) =~= tagged(keys@));
    let ghost all = tagged(keys@);
    assert(items@ == all);
    sort_triples(&mut items);
    let ghost sorted = items@;
    proof {
        broadcast use vstd::seq_lib::group_to_multiset_ensures;

        vstd::seq_lib::to_multiset_len(sorted);
        vstd::seq_lib::to_multiset_len(all);
        assert(sorted.len() == all.len());
        assert forall|k: int| 0 <= k < sorted.len() implies (#[trigger] sorted[k]).2 < all.len()
            && all[sorted[k].2 as int] == sorted[k] by {
            assert(sorted.to_multiset().contains(sorted[k])) by {
                assert(sorted.contains(sorted[k]));
            }
            assert(all.contains(sorted[k]));
            let m = choose|m: int| 0 <= m < all.len() && all[m] == sorted[k];
            assert(all[m].2 == m);
        }
        assert forall|a: int, b: int| 0 <= a < b < sorted.len() implies #[trigger] sorted[a]
            != #[trigger] sorted[b] by {
            if sorted[a] == sorted[b] {
                lemma_tagged_counts(keys@, sorted[a]);
                lemma_twice_counted(sorted, a, b);
            }
        }
    }
    let mut order: Vec<usize> = Vec::new();
    let mut j: usize = 0;
    let size: usize = keys.len();
    while j < items.len()
        invariant
            j <= items@.len(),
            items@ == sorted,
            size == all.len(),
            forall|k: int| 0 <= k < sorted.len() ==> (#[trigger] sorted[k]).2 < all.len(),
            order@.len() == j,
            forall|k: int| 0 <= k < j ==> (#[trigger] order@[k]) == sorted[k].2,
        decreases items@.len() - j,
    {
        assert(sorted[j as int].2 < all.len());
        order.push(items[j].2 as usize);
        j = j + 1;
    }
    proof {
        assert forall|a: int, b: int| 0 <= a < b < order@.len() implies #[trigger] order@[a]
            != #[trigger] order@[b] by {
            if order@[a] == order@[b] {
                assert(sorted[a] == all[sorted[a].2 as int]);
                assert(sorted[b] == all[sorted[b].2 as int]);
                assert(sorted[a] == sorted[b]);
            }
        }
        assert forall|a: int, b: int| 0 <= a < b < order@.len() implies pair_lt(
            keys@[(#[trigger] order@[a]) as int],
            keys@[(#[trigger] order@[b]) as int],
        ) || (keys@[order@[a] as int] == keys@[order@[b] as int] && order@[a] < order@[b]) by {
            assert(triple_le(sorted[a], sorted[b]));
            assert(sorted[a] == all[sorted[a].2 as int]);
            assert(sorted[b] == all[sorted[b].2 as int]);
        }
    }
    order
}

proof fn lemma_twice_counted(s: Seq<(u64, u64, u64)>, a: int, b: int)
    requires
        0 <= a < b < s.len(),
        s[a] == s[b],
    ensures
        s.to_multiset().count(s[a]) >= 2,
{
    broadcast use vstd::seq_lib::group_to_multiset_ensures;

    let t = s.remove(b);
    assert(t.insert(b, s[b]) =~= s);
    assert(t.to_multiset().insert(s[b]) =~= s.to_multiset());
    assert(t[a] == s[a]);
    assert(t.contains(s[a]));
    assert(t.to_multiset().count(s[a]) >= 1);
}

proof fn lemma_tagged_counts(keys: Seq<(u64, u64)>, x: (u64, u64, u64))
    requires
        keys.len() <= u64::MAX,
    ensures
        tagged(keys).to_multiset().count(x) <= 1,
    decreases keys.len(),
{
    broadcast use vstd::seq_lib::group_to_multiset_ensures;

    let all = tagged(keys);
    if keys.len() == 0 {
        assert(all.to_multiset().len() == 0);
        assert(!all.contains(x));
    } else {
        let front = tagged(keys.drop_last());
        assert(all =~= front.push(all.last()));
        assert(all.to_multiset() =~= front.to_multiset().insert(all.last()));
        lemma_tagged_counts(keys.drop_last(), x);
        if x == all.last() {
            assert(!front.contains(x)) by {
                if front.contains(x) {
                    let m = choose|m: int| 0 <= m < front.len() && front[m] == x;
                    assert(front[m].2 == m);
                }
            }
            assert(front.to_multiset().count(x) == 0);
        }
    }
}

/// Whether the list holds the members of the set from the smallest to the largest, each once.
pub open spec fn is_ascending(list: Seq<u32>, members: Set<u32>) -> bool {
    &&& forall|i: int, j: int| 0 <= i < j < list.len() ==> (#[trigger] list[i]) < (#[trigger] list[j])
    &&& forall|v: u32| #[trigger] list.contains(v) <==> members.contains(v)
}

/// The ids of the list from the smallest to the largest, each once.
pub fn sorted_distinct(ids: &Vec<u32>) -> (r: Vec<u32>)
    ensures
        is_ascending(r@, ids@.to_set()),
{
    let mut keys: Vec<(u64, u64)> = Vec::new();
    let mut i: usize = 0;
    while i < ids.len()
        invariant
            i <= ids@.len(),
            keys@.len() == i,
            forall|k: int| 0 <= k < i ==> #[trigger] keys@[k] == (ids@[k] as u64, 0u64),
        decreases ids@.len() - i,
    {
        keys.push((ids[i] as u64, 0));
        i = i + 1;
    }
    let order = sort_order(&keys);
    let mut out: Vec<u32> = Vec::new();
    let mut j: usize = 0;
    while j < order.len()
        invariant
            j <= order@.len(),
            is_stable_order(keys@, order@),
            keys@.len() == ids@.len(),
            forall|k: int| 0 <= k < ids@.len() ==> #[trigger] keys@[k] == (ids@[k] as u64, 0u64),
            forall|a: int, b: int|
                0 <= a < b < out@.len() ==> (#[trigger] out@[a]) < (#[trigger] out@[b]),
            out@.len() > 0 ==> j > 0 && out@.last() == ids@[order@[j - 1] as int],
            out@.len() == 0 ==> j == 0,
            forall|k: int| 0 <= k < j ==> out@.contains(ids@[(#[trigger] order@[k]) as int]),
            forall|k: int| 0 <= k < out@.len() ==> ids@.contains(#[trigger] out@[k]),
        decreases order@.len() - j,
    {
        let id = ids[order[j]];
        let ghost before = out@;
        proof {
            if before.len() > 0 {
                assert(keys@[order@[j - 1] as int].0 <= keys@[order@[j as int] as int].0);
            }
        }
        if out.len() == 0 || out[out.len() - 1] != id {
            out.push(id);
            assert(out@[before.len() as int] == id);
            assert forall|k: int| 0 <= k < j implies out@.contains(
                ids@[(#[trigger] order@[k]) as int],
            ) by {
                let x = ids@[order@[k] as int];
                let m = choose|m: int| 0 <= m < before.len() && before[m] == x;
                assert(out@[m] == x);
            }
        } else {
            assert(out@[out@.len() - 1] == id);
        }
        j = j + 1;
    }
    proof {
        assert forall|v: u32| #[trigger] out@.contains(v) <==> ids@.to_set().contains(v) by {
            if ids@.contains(v) {
                let m = choose|m: int| 0 <= m < ids@.len() && ids@[m] == v;
                lemma_permutation_hits(order@, ids@.len(), m);
                let k = choose|k: int| 0 <= k < order@.len() && order@[k] == m;
                assert(out@.contains(ids@[order@[k] as int]));
            }
        }
    }
    out
}

/// A permutation lists every index.
pub proof fn lemma_permutation_hits(order: Seq<usize>, n: nat, m: int)
    requires
        is_permutation(order, n),
        0 <= m < n,
    ensures
        exists|k: int| 0 <= k < n && #[trigger] order[k] == m,
{
    let s = order.map_values(|x: usize| x as int);
    assert(s.no_duplicates()) by {
        assert forall|i: int, j: int| 0 <= i < s.len() && 0 <= j < s.len() && i != j implies s[i]
            != s[j] by {
            if i < j {
                assert(order[i] != order[j]);
            } else {
                assert(order[j] != order[i]);
            }
        }
    }
    s.unique_seq_to_set();
    let all = vstd::set_lib::set_int_range(0, n as int);
    vstd::set_lib::lemma_int_range(0, n as int);
    assert(s.to_set().subset_of(all)) by {
        assert forall|x: int| s.to_set().contains(x) implies all.contains(x) by {
            let k = choose|k: int| 0 <= k < s.len() && s[k] == x;
            assert(order[k] < n);
        }
    }
    vstd::set_lib::lemma_subset_equality(s.to_set(), all);
    assert(s.to_set().contains(m));
    let k = choose|k: int| 0 <= k < s.len() && s[k] == m;
    assert(order[k] == m);
}

/// Whether the group holds positions of one key, in order and each once.
pub open spec fn is_group(keys: Seq<(u64, u64)>, group: Seq<usize>) -> bool {
    &&& group.len() > 0
    &&& forall|a: int| 0 <= a < group.len() ==> (#[trigger] group[a]) < keys.len()
    &&& forall|a: int|
        0 <= a < group.len() ==> keys[(#[trigger] group[a]) as int] == keys[group[0] as int]
    &&& forall|a: int, b: int| 0 <= a < b < group.len() ==> (#[trigger] group[a]) < (
    #[trigger] group[b])
}

/// Whether one of the groups holds the position.
pub open spec fn is_grouped(groups: Seq<Seq<usize>>, i: usize) -> bool {
    exists|g: int| 0 <= g < groups.len() && (#[trigger] groups[g]).contains(i)
}

/// Whether the groups hold all positions of the keys, one group for each key, from the smallest key
/// to the largest.
pub open spec fn are_groups(keys: Seq<(u64, u64)>, groups: Seq<Seq<usize>>) -> bool {
    &&& forall|g: int| 0 <= g < groups.len() ==> is_group(keys, #[trigger] groups[g])
    &&& forall|g: int, h: int|
        0 <= g < h < groups.len() ==> pair_lt(
            keys[(#[trigger] groups[g])[0] as int],
            keys[(#[trigger] groups[h])[0] as int],
        )
    &&& forall|i: usize| i < keys.len() ==> #[trigger] is_grouped(groups, i)
}

pub open spec fn groups_view(groups: Seq<Vec<usize>>) -> Seq<Seq<usize>> {
    Seq::new(groups.len(), |g: int| groups[g]@)
}

/// The state of the grouping: the first `n` positions of the order are in the groups and in the
/// group that is open.
spec fn grouping(
    keys: Seq<(u64, u64)>,
    order: Seq<usize>,
    groups: Seq<Seq<usize>>,
    open: Seq<usize>,
    n: int,
) -> bool {
    &&& forall|g: int| 0 <= g < groups.len() ==> is_group(keys, #[trigger] groups[g])
    &&& forall|g: int, h: int|
        0 <= g < h < groups.len() ==> pair_lt(
            keys[(#[trigger] groups[g])[0] as int],
            keys[(#[trigger] groups[h])[0] as int],
        )
    &&& n > 0 ==> open.len() > 0 && is_group(keys, open) && open[open.len() - 1] == order[n - 1]
    &&& n == 0 ==> open.len() == 0 && groups.len() == 0
    &&& forall|g: int|
        0 <= g < groups.len() && open.len() > 0 ==> pair_lt(
            keys[(#[trigger] groups[g])[0] as int],
            keys[open[0] as int],
        )
    &&& forall|k: int|
        0 <= k < n ==> is_grouped(groups, #[trigger] order[k]) || open.contains(order[k])
}

/// Gathers the positions of equal keys.
pub fn group_by_key(keys: &Vec<(u64, u64)>) -> (groups: Vec<Vec<usize>>)
    ensures
        are_groups(keys@, groups_view(groups@)),
{
    let order = sort_order(keys);
    let mut groups: Vec<Vec<usize>> = Vec::new();
    let mut open: Vec<usize> = Vec::new();
    let mut n: usize = 0;
    while n < order.len()
        invariant
            n <= order@.len(),
            is_stable_order(keys@, order@),
            grouping(keys@, order@, groups_view(groups@), open@, n as int),
        decreases order@.len() - n,
    {
        let i = order[n];
        assert(order@[n as int] < keys@.len());
        let ghost models = groups_view(groups@);
        let ghost prior = open@;
        let same = if open.len() > 0 {
            let first = open[0];
            assert(prior[0] < keys@.len());
            keys[first].0 == keys[i].0 && keys[first].1 == keys[i].1
        } else {
            false
        };
        proof {
            if n > 0 {
                assert(prior[prior.len() - 1] == order@[n - 1]);
                assert(pair_lt(keys@[order@[n - 1] as int], keys@[i as int]) || (
                keys@[order@[n - 1] as int] == keys@[i as int] && order@[n - 1] < i));
                assert(keys@[prior[prior.len() - 1] as int] == keys@[prior[0] as int]);
            }
        }
        if same {
            open.push(i);
            proof {
                assert(is_group(keys@, open@)) by {
                    assert forall|a: int, b: int| 0 <= a < b < open@.len() implies (
                    #[trigger] open@[a]) < (#[trigger] open@[b]) by {
                        if b == prior.len() {
                            if a < prior.len() - 1 {
                                assert(prior[a] < prior[prior.len() - 1]);
                            }
                        } else {
                            assert(prior[a] < prior[b]);
                        }
                    }
                    assert forall|a: int| 0 <= a < open@.len() implies keys@[(
                    #[trigger] open@[a]) as int] == keys@[open@[0] as int] by {
                        if a < prior.len() {
                            assert(keys@[prior[a] as int] == keys@[prior[0] as int]);
                        }
                    }
                }
                assert forall|k: int| 0 <= k < n + 1 implies is_grouped(
                    models,
                    #[trigger] order@[k],
                ) || open@.contains(order@[k]) by {
                    if k < n {
                        if !is_grouped(models, order@[k]) {
                            let x = choose|x: int| 0 <= x < prior.len() && prior[x] == order@[k];
                            assert(open@[x] == order@[k]);
                        }
                    } else {
                        assert(open@[prior.len() as int] == i);
                    }
                }
            }
        } else {
            if open.len() > 0 {
                let mut closed: Vec<usize> = Vec::new();
                std::mem::swap(&mut closed, &mut open);
                groups.push(closed);
            }
            open.push(i);
            proof {
                let after = groups_view(groups@);
                if n > 0 {
                    assert(after =~= models.push(prior));
                } else {
                    assert(after =~= models);
                }
                assert(open@ =~= seq![i]);
                assert forall|g: int| 0 <= g < after.len() implies is_group(
                    keys@,
                    #[trigger] after[g],
                ) by {
                    if g < models.len() {
                        assert(after[g] == models[g]);
                    }
                }
                assert forall|g: int, h: int| 0 <= g < h < after.len() implies pair_lt(
                    keys@[(#[trigger] after[g])[0] as int],
                    keys@[(#[trigger] after[h])[0] as int],
                ) by {
                    assert(after[g] == models[g]);
                    if h < models.len() {
                        assert(after[h] == models[h]);
                    }
                }
                assert forall|g: int| 0 <= g < after.len() implies pair_lt(
                    keys@[(#[trigger] after[g])[0] as int],
                    keys@[open@[0] as int],
                ) by {
                    if g < models.len() {
                        assert(after[g] == models[g]);
                        assert(pair_lt(keys@[models[g][0] as int], keys@[prior[0] as int]));
                    }
                }
                assert forall|k: int| 0 <= k < n + 1 implies is_grouped(
                    after,
                    #[trigger] order@[k],
                ) || open@.contains(order@[k]) by {
                    if k < n {
                        if is_grouped(models, order@[k]) {
                            let g = choose|g: int|
                                0 <= g < models.len() && (#[trigger] models[g]).contains(order@[k]);
                            assert(after[g].contains(order@[k]));
                        } else {
                            assert(prior.contains(order@[k]));
                            assert(after[models.len() as int].contains(order@[k]));
                        }
                    } else {
                        assert(open@[0] == i);
                    }
                }
            }
        }
        n = n + 1;
    }
    let ghost models = groups_view(groups@);
    let ghost prior = open@;
    if open.len() > 0 {
        groups.push(open);
    }
    proof {
        let after = groups_view(groups@);
        if prior.len() > 0 {
            assert(after =~= models.push(prior));
        } else {
            assert(after =~= models);
        }
        assert forall|g: int| 0 <= g < after.len() implies is_group(keys@, #[trigger] after[g]) by {
            if g < models.len() {
                assert(after[g] == models[g]);
            }
        }
        assert forall|g: int, h: int| 0 <= g < h < after.len() implies pair_lt(
            keys@[(#[trigger] after[g])[0] as int],
            keys@[(#[trigger] after[h])[0] as int],
        ) by {
            assert(after[g] == models[g]);
            if h < models.len() {
                assert(after[h] == models[h]);
            }
        }
        assert forall|i: usize| i < keys@.len() implies #[trigger] is_grouped(after, i) by {
            lemma_permutation_hits(order@, keys@.len(), i as int);
            let k = choose|k: int| 0 <= k < order@.len() && order@[k] == i;
            assert(is_grouped(models, order@[k]) || prior.contains(order@[k]));
            if is_grouped(models, i) {
                let g = choose|g: int| 0 <= g < models.len() && (#[trigger] models[g]).contains(i);
                assert(after[g].contains(i));
            } else {
                assert(after[models.len() as int].contains(i));
            }
        }
    }
    groups
}

/// Keys have one stable order.
pub proof fn lemma_one_stable_order(keys: Seq<(u64, u64)>, a: Seq<usize>, b: Seq<usize>)
    requires
        is_stable_order(keys, a),
        is_stable_order(keys, b),
    ensures
        a == b,
{
    lemma_same_beginning(keys, a, b, keys.len());
    assert(a =~= b);
}

proof fn lemma_same_beginning(keys: Seq<(u64, u64)>, a: Seq<usize>, b: Seq<usize>, n: nat)
    requires
        is_stable_order(keys, a),
        is_stable_order(keys, b),
        n <= keys.len(),
    ensures
        forall|i: int| 0 <= i < n ==> #[trigger] a[i] == b[i],
    decreases n,
{
    if n > 0 {
        let k = n - 1;
        lemma_same_beginning(keys, a, b, k as nat);
        if a[k] != b[k] {
            lemma_permutation_hits(b, keys.len(), a[k] as int);
            let j = choose|j: int| 0 <= j < keys.len() && #[trigger] b[j] == a[k];
            lemma_permutation_hits(a, keys.len(), b[k] as int);
            let l = choose|l: int| 0 <= l < keys.len() && #[trigger] a[l] == b[k];
            if j < k {
                assert(a[j] == b[j]);
                assert(a[j] != a[k]);
            }
            if l < k {
                assert(a[l] == b[l]);
                assert(b[l] != b[k]);
            }
            assert(pair_lt(keys[b[k] as int], keys[b[j] as int]) || (keys[b[k] as int]
                == keys[b[j] as int] && b[k] < b[j]));
            assert(pair_lt(keys[a[k] as int], keys[a[l] as int]) || (keys[a[k] as int]
                == keys[a[l] as int] && a[k] < a[l]));
        }
    }
}

} // verus!
