//! Cells that touch each other, gathered into components.
use crate::coord::{CellRef, cell_key, keys_name_their_cells, spec_cell_key};
use crate::fx::{map_get, map_insert, map_remove};
use crate::sort::{is_stable_order, lemma_permutation_hits, pair_lt, sort_order};
use rustc_hash::FxHashMap;
use vstd::prelude::*;

verus! {

/// Whether two cells stand in the same place or side by side.
pub open spec fn near(a: CellRef, b: CellRef) -> bool {
    ||| a.col == b.col && -1 <= a.row - b.row <= 1
    ||| a.row == b.row && -1 <= a.col - b.col <= 1
}

/// Whether each cell of the path is near the one before it.
pub open spec fn is_path(cells: Seq<CellRef>, path: Seq<int>) -> bool {
    &&& path.len() > 0
    &&& forall|k: int| 0 <= k < path.len() ==> 0 <= #[trigger] path[k] < cells.len()
    &&& forall|a: int, b: int|
        0 <= a < path.len() && b == a + 1 && b < path.len() ==> near(
            cells[#[trigger] path[a]],
            cells[#[trigger] path[b]],
        )
}

/// Whether one cell is reached from another over cells that are near each other.
pub open spec fn connected(cells: Seq<CellRef>, i: int, j: int) -> bool {
    exists|path: Seq<int>| #[trigger]
        is_path(cells, path) && path[0] == i && path[path.len() - 1] == j
}

proof fn lemma_connected_self(cells: Seq<CellRef>, i: int)
    requires
        0 <= i < cells.len(),
    ensures
        connected(cells, i, i),
{
    let path = seq![i];
    assert(is_path(cells, path));
}

proof fn lemma_connected_step(cells: Seq<CellRef>, i: int, j: int, k: int)
    requires
        connected(cells, i, j),
        0 <= k < cells.len(),
        near(cells[j], cells[k]),
    ensures
        connected(cells, i, k),
{
    let p = choose|path: Seq<int>| #[trigger]
        is_path(cells, path) && path[0] == i && path[path.len() - 1] == j;
    let q = p.push(k);
    assert forall|a: int, b: int| 0 <= a < q.len() && b == a + 1 && b < q.len() implies near(
        cells[#[trigger] q[a]],
        cells[#[trigger] q[b]],
    ) by {
        if b < p.len() {
            assert(near(cells[p[a]], cells[p[b]]));
        } else {
            assert(q[a] == p[a] && a == p.len() - 1);
        }
    }
    assert(is_path(cells, q));
}

proof fn lemma_connected_back(cells: Seq<CellRef>, i: int, j: int)
    requires
        connected(cells, i, j),
    ensures
        connected(cells, j, i),
{
    let p = choose|path: Seq<int>| #[trigger]
        is_path(cells, path) && path[0] == i && path[path.len() - 1] == j;
    let n = p.len() as int;
    let q = Seq::new(p.len(), |k: int| p[n - 1 - k]);
    assert forall|a: int, b: int| 0 <= a < q.len() && b == a + 1 && b < q.len() implies near(
        cells[#[trigger] q[a]],
        cells[#[trigger] q[b]],
    ) by {
        assert(near(cells[p[n - 1 - b]], cells[p[n - 1 - a]]));
    }
    assert(is_path(cells, q));
}

proof fn lemma_connected_both(cells: Seq<CellRef>, i: int, j: int, k: int)
    requires
        connected(cells, i, j),
        connected(cells, j, k),
    ensures
        connected(cells, i, k),
{
    let p = choose|path: Seq<int>| #[trigger]
        is_path(cells, path) && path[0] == i && path[path.len() - 1] == j;
    let r = choose|path: Seq<int>| #[trigger]
        is_path(cells, path) && path[0] == j && path[path.len() - 1] == k;
    let q = p + r.drop_first();
    assert forall|x: int| 0 <= x < q.len() implies 0 <= #[trigger] q[x] < cells.len() by {
        if x < p.len() {
            assert(q[x] == p[x]);
        } else {
            assert(q[x] == r[x - p.len() + 1]);
        }
    }
    assert forall|a: int, b: int| 0 <= a < q.len() && b == a + 1 && b < q.len() implies near(
        cells[#[trigger] q[a]],
        cells[#[trigger] q[b]],
    ) by {
        if b < p.len() {
            assert(q[a] == p[a] && q[b] == p[b]);
        } else if a < p.len() {
            assert(q[a] == r[0] && q[b] == r[1]);
        } else {
            assert(q[a] == r[a - p.len() + 1] && q[b] == r[b - p.len() + 1]);
        }
    }
    assert(is_path(cells, q));
    assert(q[q.len() - 1] == k);
}

/// The order of the cells of a component: by row, then by column, then by position.
pub open spec fn cell_before(cells: Seq<CellRef>, i: usize, j: usize) -> bool {
    let a = cells[i as int];
    let b = cells[j as int];
    a.row < b.row || (a.row == b.row && (a.col < b.col || (a.col == b.col && i < j)))
}

/// Whether the list holds positions of cells that are all connected, in order and each once.
pub open spec fn is_component(cells: Seq<CellRef>, list: Seq<usize>) -> bool {
    &&& list.len() > 0
    &&& forall|a: int| 0 <= a < list.len() ==> (#[trigger] list[a]) < cells.len()
    &&& forall|a: int, b: int|
        0 <= a < b < list.len() ==> cell_before(cells, #[trigger] list[a], #[trigger] list[b])
    &&& forall|a: int, b: int|
        0 <= a < list.len() && 0 <= b < list.len() ==> connected(
            cells,
            (#[trigger] list[a]) as int,
            (#[trigger] list[b]) as int,
        )
}

/// Whether the lists come in the order of their smallest positions.
pub open spec fn is_led(lists: Seq<Seq<usize>>, leads: Seq<usize>) -> bool {
    &&& leads.len() == lists.len()
    &&& forall|c: int|
        0 <= c < lists.len() ==> (#[trigger] lists[c]).contains(leads[c]) && forall|a: int|
            0 <= a < lists[c].len() ==> leads[c] <= #[trigger] lists[c][a]
    &&& forall|c: int, d: int| 0 <= c < d < lists.len() ==> (#[trigger] leads[c]) < (
    #[trigger] leads[d])
}

/// Whether one of the lists holds the position.
pub open spec fn is_gathered(lists: Seq<Seq<usize>>, i: usize) -> bool {
    exists|c: int| 0 <= c < lists.len() && (#[trigger] lists[c]).contains(i)
}

/// Whether the lists are the components of the cells: every cell is in one, near cells are in the
/// same one, and the components come in the order of their first cells. No cells at all make one
/// empty list.
pub open spec fn are_components(cells: Seq<CellRef>, lists: Seq<Seq<usize>>) -> bool {
    if cells.len() == 0 {
        lists =~= seq![Seq::<usize>::empty()]
    } else {
        &&& forall|c: int| 0 <= c < lists.len() ==> is_component(cells, #[trigger] lists[c])
        &&& forall|i: usize| i < cells.len() ==> #[trigger] is_gathered(lists, i)
        &&& forall|c: int, i: usize, j: usize|
            0 <= c < lists.len() && #[trigger] lists[c].contains(i) && i < cells.len() && j
                < cells.len() && near(cells[i as int], #[trigger] cells[j as int])
                ==> lists[c].contains(j)
        &&& forall|c: int, d: int, i: usize|
            0 <= c < d < lists.len() ==> !(#[trigger] lists[c].contains(i)
                && #[trigger] lists[d].contains(i))
        &&& exists|leads: Seq<usize>| is_led(lists, leads)
    }
}

/// The key of a cell's place, whatever its sheet.
spec fn place_key(cell: CellRef) -> u128 {
    spec_cell_key(CellRef { sheet_id: 0, row: cell.row, col: cell.col })
}

fn key_of_place(row: u32, col: u32) -> (k: u128)
    ensures
        forall|cell: CellRef| #[trigger] place_key(cell) == k <==> cell.row == row && cell.col == col,
{
    let place = CellRef { sheet_id: 0, row, col };
    proof {
        assert forall|cell: CellRef| #[trigger] place_key(cell) == spec_cell_key(place) <==> cell.row
            == row && cell.col == col by {
            keys_name_their_cells(place);
            keys_name_their_cells(CellRef { sheet_id: 0, row: cell.row, col: cell.col });
        }
    }
    cell_key(place)
}

/// Whether the index lists, for the first `n` cells, who stands in which place.
spec fn is_index(cells: Seq<CellRef>, index: Map<u128, Vec<usize>>, n: int) -> bool {
    &&& forall|i: int|
        0 <= i < n ==> index.contains_key(place_key(#[trigger] cells[i])) && index[place_key(
            cells[i],
        )]@.contains(i as usize)
    &&& forall|k: u128, a: int|
        #![trigger index[k]@[a]]
        index.contains_key(k) && 0 <= a < index[k]@.len() ==> index[k]@[a] < n && place_key(
            cells[index[k]@[a] as int],
        ) == k
}

fn index_places(cells: &Vec<CellRef>) -> (index: FxHashMap<u128, Vec<usize>>)
    ensures
        is_index(cells@, index@, cells@.len() as int),
{
    let mut index: FxHashMap<u128, Vec<usize>> = FxHashMap::default();
    let mut i: usize = 0;
    while i < cells.len()
        invariant
            i <= cells@.len(),
            is_index(cells@, index@, i as int),
        decreases cells@.len() - i,
    {
        let cell = cells[i];
        let k = key_of_place(cell.row, cell.col);
        assert(place_key(cell) == k);
        let ghost before = index@;
        let mut list: Vec<usize> = match map_remove(&mut index, &k) {
            Some(list) => list,
            None => Vec::new(),
        };
        let ghost prior = list@;
        list.push(i);
        let ghost longer = list@;
        map_insert(&mut index, k, list);
        proof {
            assert(longer[prior.len() as int] == i);
            assert forall|x: int| 0 <= x < i + 1 implies index@.contains_key(
                place_key(#[trigger] cells@[x]),
            ) && index@[place_key(cells@[x])]@.contains(x as usize) by {
                let kx = place_key(cells@[x]);
                if x < i {
                    assert(before.contains_key(kx) && before[kx]@.contains(x as usize));
                    if kx == k {
                        let a = choose|a: int| 0 <= a < before[kx]@.len() && before[kx]@[a] == x;
                        assert(longer[a] == x);
                    }
                }
            }
            assert forall|key: u128, a: int|
                #![trigger index@[key]@[a]]
                index@.contains_key(key) && 0 <= a < index@[key]@.len() implies index@[key]@[a]
                < i + 1 && place_key(cells@[index@[key]@[a] as int]) == key by {
                if key == k {
                    if a < prior.len() {
                        assert(before[k]@[a] == longer[a]);
                    }
                } else {
                    assert(before[key]@[a] == index@[key]@[a]);
                }
            }
        }
        i = i + 1;
    }
    index
}

/// The state of a component that is being gathered: the gathered cells had no label and have the
/// mark now, and all are connected with the first one.
spec fn gathers(
    cells: Seq<CellRef>,
    before: Seq<usize>,
    label: Seq<usize>,
    list: Seq<usize>,
    start: usize,
    mark: usize,
) -> bool {
    &&& cells.len() <= usize::MAX
    &&& before.len() == cells.len()
    &&& label.len() == cells.len()
    &&& forall|a: int| 0 <= a < list.len() ==> (#[trigger] list[a]) < cells.len()
    &&& forall|a: int, b: int| 0 <= a < b < list.len() ==> #[trigger] list[a] != #[trigger] list[b]
    &&& forall|a: int| 0 <= a < list.len() ==> before[(#[trigger] list[a]) as int] == 0
    &&& forall|a: int|
        0 <= a < list.len() ==> connected(cells, start as int, (#[trigger] list[a]) as int)
    &&& forall|i: usize|
        i < cells.len() ==> #[trigger] label[i as int] == (if list.contains(i) {
            mark
        } else {
            before[i as int]
        })
}

/// Gathers the cells in a place that have no label yet.
fn visit(
    cells: &Vec<CellRef>,
    index: &FxHashMap<u128, Vec<usize>>,
    label: &mut Vec<usize>,
    list: &mut Vec<usize>,
    row: u32,
    col: u32,
    from: usize,
    start: usize,
    mark: usize,
    Ghost(before): Ghost<Seq<usize>>,
)
    requires
        is_index(cells@, index@, cells@.len() as int),
        gathers(cells@, before, old(label)@, old(list)@, start, mark),
        mark > 0,
        from < cells@.len(),
        connected(cells@, start as int, from as int),
        near(cells@[from as int], CellRef { sheet_id: 0, row, col }),
    ensures
        gathers(cells@, before, final(label)@, final(list)@, start, mark),
        final(list)@.len() >= old(list)@.len(),
        final(list)@.take(old(list)@.len() as int) == old(list)@,
        forall|j: int|
            0 <= j < cells@.len() && (#[trigger] cells@[j]).row == row && cells@[j].col == col
                ==> final(label)@[j] != 0,
{
    let k = key_of_place(row, col);
    let ghost l0 = list@;
    match map_get(index, &k) {
        Some(found) => {
            assert(*found == index@[k]);
            let mut a: usize = 0;
            assert(list@.take(l0.len() as int) =~= l0);
            while a < found.len()
                invariant
                    is_index(cells@, index@, cells@.len() as int),
                    index@.contains_key(k),
                    *found == index@[k],
                    gathers(cells@, before, label@, list@, start, mark),
                    mark > 0,
                    from < cells@.len(),
                    connected(cells@, start as int, from as int),
                    near(cells@[from as int], CellRef { sheet_id: 0, row, col }),
                    forall|cell: CellRef| #[trigger]
                        place_key(cell) == k <==> cell.row == row && cell.col == col,
                    a <= found@.len(),
                    list@.len() >= l0.len(),
                    list@.take(l0.len() as int) == l0,
                    forall|b: int| 0 <= b < a ==> label@[(#[trigger] found@[b]) as int] != 0,
                decreases found@.len() - a,
            {
                let j = found[a];
                assert(index@[k]@[a as int] == j);
                assert(j < cells@.len() && place_key(cells@[j as int]) == k);
                if label[j] == 0 {
                    let ghost prior_label = label@;
                    let ghost prior = list@;
                    label.set(j, mark);
                    list.push(j);
                    proof {
                        lemma_connected_step(cells@, start as int, from as int, j as int);
                        assert(!prior.contains(j)) by {
                            if prior.contains(j) {
                                assert(prior_label[j as int] == mark);
                            }
                        }
                        assert(prior_label[j as int] == before[j as int]);
                        assert forall|i: usize| i < cells@.len() implies #[trigger] label@[i as int]
                            == (if list@.contains(i) {
                            mark
                        } else {
                            before[i as int]
                        }) by {
                            assert(prior_label[i as int] == (if prior.contains(i) {
                                mark
                            } else {
                                before[i as int]
                            }));
                            if prior.contains(i) {
                                let x = choose|x: int| 0 <= x < prior.len() && prior[x] == i;
                                assert(list@[x] == i);
                            }
                            if i == j {
                                assert(list@[prior.len() as int] == j);
                            } else if list@.contains(i) {
                                let x = choose|x: int| 0 <= x < list@.len() && list@[x] == i;
                                assert(prior[x] == i);
                            }
                        }
                        assert(list@.take(l0.len() as int) =~= l0) by {
                            assert(prior.take(l0.len() as int) == l0);
                            assert forall|x: int| 0 <= x < l0.len() implies list@[x] == l0[x] by {
                                assert(prior.take(l0.len() as int)[x] == prior[x]);
                            }
                        }
                    }
                }
                a = a + 1;
            }
            proof {
                assert forall|j: int|
                    0 <= j < cells@.len() && (#[trigger] cells@[j]).row == row && cells@[j].col
                        == col implies label@[j] != 0 by {
                    assert(place_key(cells@[j]) == k);
                    assert(index@[k]@.contains(j as usize));
                    let b = choose|b: int| 0 <= b < found@.len() && found@[b] == j;
                    assert(label@[found@[b] as int] != 0);
                }
            }
        },
        None => {
            proof {
                assert(list@.take(l0.len() as int) =~= l0);
                assert forall|j: int|
                    0 <= j < cells@.len() && (#[trigger] cells@[j]).row == row && cells@[j].col
                        == col implies label@[j] != 0 by {
                    assert(place_key(cells@[j]) == k);
                }
            }
        },
    }
}

proof fn lemma_near_places(a: CellRef, b: CellRef)
    requires
        near(a, b),
    ensures
        (b.row == a.row && b.col == a.col) || (b.row == a.row - 1 && b.col == a.col) || (b.row
            == a.row + 1 && b.col == a.col) || (b.row == a.row && b.col == a.col - 1) || (b.row
            == a.row && b.col == a.col + 1),
{
}

/// Gathers the component of a cell.
fn flood(
    cells: &Vec<CellRef>,
    index: &FxHashMap<u128, Vec<usize>>,
    label: &mut Vec<usize>,
    start: usize,
    mark: usize,
) -> (list: Vec<usize>)
    requires
        is_index(cells@, index@, cells@.len() as int),
        old(label)@.len() == cells@.len(),
        start < cells@.len(),
        old(label)@[start as int] == 0,
        mark > 0,
    ensures
        gathers(cells@, old(label)@, final(label)@, list@, start, mark),
        list@.contains(start),
        forall|a: int, j: int|
            0 <= a < list@.len() && 0 <= j < cells@.len() && near(
                cells@[(#[trigger] list@[a]) as int],
                #[trigger] cells@[j],
            ) ==> final(label)@[j] != 0,
{
    let ghost before = label@;
    let n: usize = cells.len();
    let mut list: Vec<usize> = Vec::new();
    list.push(start);
    label.set(start, mark);
    proof {
        lemma_connected_self(cells@, start as int);
        assert(list@[0] == start);
        assert forall|i: usize| i < cells@.len() implies #[trigger] label@[i as int] == (
        if list@.contains(i) {
            mark
        } else {
            before[i as int]
        }) by {
            if i != start && list@.contains(i) {
                let x = choose|x: int| 0 <= x < list@.len() && list@[x] == i;
            }
        }
    }
    let mut head: usize = 0;
    while head < list.len()
        invariant
            n == cells@.len(),
            is_index(cells@, index@, cells@.len() as int),
            gathers(cells@, before, label@, list@, start, mark),
            mark > 0,
            head <= list@.len(),
            list@.len() > 0,
            list@[0] == start,
            forall|a: int, j: int|
                0 <= a < head && 0 <= j < cells@.len() && near(
                    cells@[(#[trigger] list@[a]) as int],
                    #[trigger] cells@[j],
                ) ==> label@[j] != 0,
        decreases n - head,
    {
        proof {
            lemma_distinct_bound(list@, n as nat);
        }
        let idx = list[head];
        let cell = cells[idx];
        let ghost l0 = list@;
        let ghost label0 = label@;
        visit(cells, index, label, &mut list, cell.row, cell.col, idx, start, mark, Ghost(before));
        let ghost l1 = list@;
        let ghost label1 = label@;
        proof {
            lemma_more(cells@, before, label0, l0, label1, l1, start, mark);
        }
        if cell.row > 0 {
            visit(
                cells,
                index,
                label,
                &mut list,
                cell.row - 1,
                cell.col,
                idx,
                start,
                mark,
                Ghost(before),
            );
        }
        let ghost l2 = list@;
        let ghost label2 = label@;
        proof {
            assert(l2.take(l1.len() as int) =~= l1);
            lemma_more(cells@, before, label1, l1, label2, l2, start, mark);
        }
        if cell.row < u32::MAX {
            visit(
                cells,
                index,
                label,
                &mut list,
                cell.row + 1,
                cell.col,
                idx,
                start,
                mark,
                Ghost(before),
            );
        }
        let ghost l3 = list@;
        let ghost label3 = label@;
        proof {
            assert(l3.take(l2.len() as int) =~= l2);
            lemma_more(cells@, before, label2, l2, label3, l3, start, mark);
        }
        if cell.col > 0 {
            visit(
                cells,
                index,
                label,
                &mut list,
                cell.row,
                cell.col - 1,
                idx,
                start,
                mark,
                Ghost(before),
            );
        }
        let ghost l4 = list@;
        let ghost label4 = label@;
        proof {
            assert(l4.take(l3.len() as int) =~= l3);
            lemma_more(cells@, before, label3, l3, label4, l4, start, mark);
        }
        if cell.col < u32::MAX {
            visit(
                cells,
                index,
                label,
                &mut list,
                cell.row,
                cell.col + 1,
                idx,
                start,
                mark,
                Ghost(before),
            );
        }
        proof {
            assert(list@.take(l4.len() as int) =~= l4);
            lemma_more(cells@, before, label4, l4, label@, list@, start, mark);
            assert(list@[0] == start) by {
                assert(list@.take(l4.len() as int)[0] == list@[0]);
                assert(l4.take(l3.len() as int)[0] == l4[0]);
                assert(l3.take(l2.len() as int)[0] == l3[0]);
                assert(l2.take(l1.len() as int)[0] == l2[0]);
                assert(l1.take(l0.len() as int)[0] == l1[0]);
            }
            assert forall|a: int, j: int|
                0 <= a < head + 1 && 0 <= j < cells@.len() && near(
                    cells@[(#[trigger] list@[a]) as int],
                    #[trigger] cells@[j],
                ) implies label@[j] != 0 by {
                assert(list@[a] == l0[a]) by {
                    assert(list@.take(l4.len() as int)[a] == list@[a]);
                    assert(l4.take(l3.len() as int)[a] == l4[a]);
                    assert(l3.take(l2.len() as int)[a] == l3[a]);
                    assert(l2.take(l1.len() as int)[a] == l2[a]);
                    assert(l1.take(l0.len() as int)[a] == l1[a]);
                }
                if a < head {
                    assert(label0[j] != 0);
                } else {
                    lemma_near_places(cell, cells@[j]);
                }
            }
        }
        head = head + 1;
    }
    list
}

/// A longer list leaves the labels that there are.
proof fn lemma_more(
    cells: Seq<CellRef>,
    before: Seq<usize>,
    label0: Seq<usize>,
    list0: Seq<usize>,
    label1: Seq<usize>,
    list1: Seq<usize>,
    start: usize,
    mark: usize,
)
    requires
        gathers(cells, before, label0, list0, start, mark),
        gathers(cells, before, label1, list1, start, mark),
        list1.len() >= list0.len(),
        list1.take(list0.len() as int) == list0,
        mark > 0,
    ensures
        forall|j: int| 0 <= j < cells.len() && label0[j] != 0 ==> #[trigger] label1[j] != 0,
{
    assert forall|j: int| 0 <= j < cells.len() && label0[j] != 0 implies #[trigger] label1[j]
        != 0 by {
        let i = j as usize;
        assert(label0[i as int] == (if list0.contains(i) {
            mark
        } else {
            before[i as int]
        }));
        if list0.contains(i) {
            let x = choose|x: int| 0 <= x < list0.len() && list0[x] == i;
            assert(list1.take(list0.len() as int)[x] == list1[x]);
            assert(list1.contains(i));
        }
        assert(label1[i as int] == (if list1.contains(i) {
            mark
        } else {
            before[i as int]
        }));
    }
}

proof fn lemma_distinct_bound(list: Seq<usize>, n: nat)
    requires
        forall|a: int| 0 <= a < list.len() ==> (#[trigger] list[a]) < n,
        forall|a: int, b: int| 0 <= a < b < list.len() ==> #[trigger] list[a] != #[trigger] list[b],
    ensures
        list.len() <= n,
{
    let ints = Seq::new(list.len(), |i: int| list[i] as int);
    let range = vstd::set_lib::set_int_range(0, n as int);
    assert(ints.no_duplicates()) by {
        assert forall|a: int, b: int| 0 <= a < b < ints.len() implies ints[a] != ints[b] by {
            assert(list[a] != list[b]);
        }
    }
    ints.unique_seq_to_set();
    vstd::set_lib::lemma_int_range(0, n as int);
    assert(ints.to_set().subset_of(range)) by {
        assert forall|x: int| ints.to_set().contains(x) implies range.contains(x) by {
            let a = choose|a: int| 0 <= a < ints.len() && ints[a] == x;
            assert(list[a] < n);
        }
    }
    vstd::set_lib::lemma_len_subset(ints.to_set(), range);
}

/// The sort key of a cell: its place, then its position.
spec fn sort_key(cells: Seq<CellRef>, i: usize) -> (u64, u64) {
    (
        (cells[i as int].row as int * 0x1_0000_0000 + cells[i as int].col as int) as u64,
        i as u64,
    )
}

/// The members of a component in order.
fn in_place_order(cells: &Vec<CellRef>, list: &Vec<usize>) -> (sorted: Vec<usize>)
    requires
        forall|a: int| 0 <= a < list@.len() ==> (#[trigger] list@[a]) < cells@.len(),
        forall|a: int, b: int|
            0 <= a < b < list@.len() ==> #[trigger] list@[a] != #[trigger] list@[b],
    ensures
        sorted@.len() == list@.len(),
        forall|i: usize| #[trigger] sorted@.contains(i) <==> list@.contains(i),
        forall|a: int, b: int|
            0 <= a < b < sorted@.len() ==> cell_before(
                cells@,
                #[trigger] sorted@[a],
                #[trigger] sorted@[b],
            ),
{
    let mut keys: Vec<(u64, u64)> = Vec::new();
    let mut i: usize = 0;
    while i < list.len()
        invariant
            i <= list@.len(),
            forall|a: int| 0 <= a < list@.len() ==> (#[trigger] list@[a]) < cells@.len(),
            keys@.len() == i,
            forall|a: int| 0 <= a < i ==> #[trigger] keys@[a] == sort_key(cells@, list@[a]),
        decreases list@.len() - i,
    {
        assert(list@[i as int] < cells@.len());
        let cell = cells[list[i]];
        keys.push((cell.row as u64 * 0x1_0000_0000 + cell.col as u64, list[i] as u64));
        i = i + 1;
    }
    let order = sort_order(&keys);
    let mut sorted: Vec<usize> = Vec::new();
    let mut k: usize = 0;
    while k < order.len()
        invariant
            k <= order@.len(),
            keys@.len() == list@.len(),
            is_stable_order(keys@, order@),
            sorted@.len() == k,
            forall|a: int| 0 <= a < k ==> #[trigger] sorted@[a] == list@[order@[a] as int],
        decreases order@.len() - k,
    {
        assert(order@[k as int] < list@.len());
        sorted.push(list[order[k]]);
        k = k + 1;
    }
    proof {
        assert forall|i: usize| #[trigger] sorted@.contains(i) <==> list@.contains(i) by {
            if sorted@.contains(i) {
                let a = choose|a: int| 0 <= a < sorted@.len() && sorted@[a] == i;
                assert(order@[a] < list@.len());
                assert(list@[order@[a] as int] == i);
            }
            if list@.contains(i) {
                let x = choose|x: int| 0 <= x < list@.len() && list@[x] == i;
                lemma_permutation_hits(order@, list@.len(), x);
                let a = choose|a: int| 0 <= a < order@.len() && order@[a] == x;
                assert(sorted@[a] == i);
            }
        }
        assert forall|a: int, b: int| 0 <= a < b < sorted@.len() implies cell_before(
            cells@,
            #[trigger] sorted@[a],
            #[trigger] sorted@[b],
        ) by {
            let x = order@[a] as int;
            let y = order@[b] as int;
            assert(pair_lt(keys@[x], keys@[y]) || (keys@[x] == keys@[y] && x < y));
            assert(keys@[x] == sort_key(cells@, list@[x]));
            assert(keys@[y] == sort_key(cells@, list@[y]));
            assert(list@[x] < cells@.len() && list@[y] < cells@.len());
            assert(x != y);
            if x < y {
                assert(list@[x] != list@[y]);
            } else {
                assert(list@[y] != list@[x]);
            }
        }
    }
    sorted
}

pub open spec fn lists_view(lists: Seq<Vec<usize>>) -> Seq<Seq<usize>> {
    Seq::new(lists.len(), |c: int| lists[c]@)
}

/// Whether the cells follow each other downwards in one column, or along one row, of one sheet.
pub open spec fn is_run(cells: Seq<CellRef>) -> bool {
    ||| forall|k: int, m: int|
        0 <= k < cells.len() && m == k + 1 && m < cells.len() ==> follows_down(
            #[trigger] cells[k],
            #[trigger] cells[m],
        )
    ||| forall|k: int, m: int|
        0 <= k < cells.len() && m == k + 1 && m < cells.len() ==> follows_right(
            #[trigger] cells[k],
            #[trigger] cells[m],
        )
}

pub open spec fn follows_down(a: CellRef, b: CellRef) -> bool {
    a.sheet_id == b.sheet_id && a.col == b.col && a.row + 1 == b.row
}

pub open spec fn follows_right(a: CellRef, b: CellRef) -> bool {
    a.sheet_id == b.sheet_id && a.row == b.row && a.col + 1 == b.col
}

fn find_run(cells: &Vec<CellRef>) -> (b: bool)
    requires
        cells@.len() > 0,
    ensures
        b == is_run(cells@),
{
    let mut down = true;
    let mut right = true;
    let mut k: usize = 1;
    while k < cells.len()
        invariant
            1 <= k <= cells@.len(),
            down == forall|x: int, m: int|
                0 <= x < k && m == x + 1 && m < k ==> follows_down(
                    #[trigger] cells@[x],
                    #[trigger] cells@[m],
                ),
            right == forall|x: int, m: int|
                0 <= x < k && m == x + 1 && m < k ==> follows_right(
                    #[trigger] cells@[x],
                    #[trigger] cells@[m],
                ),
        decreases cells@.len() - k,
    {
        let a = cells[k - 1];
        let b = cells[k];
        let d = a.sheet_id == b.sheet_id && a.col == b.col && b.row > 0 && b.row - 1 == a.row;
        let r = a.sheet_id == b.sheet_id && a.row == b.row && b.col > 0 && b.col - 1 == a.col;
        assert(d == follows_down(cells@[k - 1], cells@[k as int]));
        assert(r == follows_right(cells@[k - 1], cells@[k as int]));
        down = down && d;
        right = right && r;
        k = k + 1;
    }
    down || right
}

proof fn lemma_run_is_one_component(cells: Seq<CellRef>, list: Seq<usize>)
    requires
        0 < cells.len() <= usize::MAX,
        is_run(cells),
        list.len() == cells.len(),
        forall|i: int| 0 <= i < list.len() ==> #[trigger] list[i] == i,
    ensures
        are_components(cells, seq![list]),
{
    let lists = seq![list];
    assert forall|a: int, b: int| 0 <= a < b < list.len() implies cell_before(
        cells,
        #[trigger] list[a],
        #[trigger] list[b],
    ) by {
        lemma_run_order(cells, a, b);
    }
    assert forall|a: int, b: int| 0 <= a < list.len() && 0 <= b < list.len() implies connected(
        cells,
        (#[trigger] list[a]) as int,
        (#[trigger] list[b]) as int,
    ) by {
        if a <= b {
            lemma_run_connected(cells, a, b);
        } else {
            lemma_run_connected(cells, b, a);
            lemma_connected_back(cells, b, a);
        }
    }
    assert(is_component(cells, lists[0]));
    assert forall|i: usize| i < cells.len() implies list.contains(i) by {
        assert(list[i as int] == i);
    }
    assert forall|i: usize| i < cells.len() implies #[trigger] is_gathered(lists, i) by {
        assert(lists[0].contains(i));
    }
    let leads = seq![0usize];
    assert(list[0] == 0);
    assert(is_led(lists, leads)) by {
        assert(lists[0].contains(0usize));
    }
}

proof fn lemma_run_order(cells: Seq<CellRef>, a: int, b: int)
    requires
        is_run(cells),
        0 <= a < b < cells.len() <= usize::MAX,
    ensures
        cell_before(cells, a as usize, b as usize),
    decreases b - a,
{
    assert(follows_down(cells[b - 1], cells[b]) || follows_right(cells[b - 1], cells[b]));
    if a < b - 1 {
        lemma_run_order(cells, a, b - 1);
    }
}

proof fn lemma_run_connected(cells: Seq<CellRef>, a: int, b: int)
    requires
        is_run(cells),
        0 <= a <= b < cells.len(),
    ensures
        connected(cells, a, b),
    decreases b - a,
{
    if a == b {
        lemma_connected_self(cells, a);
    } else {
        lemma_run_connected(cells, a, b - 1);
        assert(follows_down(cells[b - 1], cells[b]) || follows_right(cells[b - 1], cells[b]));
        lemma_connected_step(cells, a, b - 1, b);
    }
}

/// The state of the search: the labelled cells are those of the lists, and near cells have the same
/// label as soon as one of them has one.
spec fn searched(cells: Seq<CellRef>, label: Seq<usize>, lists: Seq<Seq<usize>>, leads: Seq<usize>) -> bool {
    &&& cells.len() <= usize::MAX
    &&& label.len() == cells.len()
    &&& lists.len() <= cells.len()
    &&& forall|i: int| 0 <= i < label.len() ==> (#[trigger] label[i]) <= lists.len()
    &&& forall|c: int| 0 <= c < lists.len() ==> is_component(cells, #[trigger] lists[c])
    &&& forall|c: int, i: usize|
        #![trigger lists[c].contains(i)]
        0 <= c < lists.len() && i < cells.len() ==> (lists[c].contains(i) <==> label[i as int] == c + 1)
    &&& forall|i: int, j: int|
        0 <= i < cells.len() && 0 <= j < cells.len() && near(
            #[trigger] cells[i],
            #[trigger] cells[j],
        ) && label[i] != 0 ==> label[i] == label[j]
    &&& is_led(lists, leads)
}

proof fn lemma_search_step(
    cells: Seq<CellRef>,
    label: Seq<usize>,
    lists: Seq<Seq<usize>>,
    leads: Seq<usize>,
    after: Seq<usize>,
    list: Seq<usize>,
    sorted: Seq<usize>,
    start: usize,
)
    requires
        searched(cells, label, lists, leads),
        start < cells.len(),
        label[start as int] == 0,
        forall|i: int| 0 <= i < start ==> #[trigger] label[i] != 0,
        lists.len() < cells.len(),
        forall|c: int| 0 <= c < leads.len() ==> (#[trigger] leads[c]) < start,
        gathers(cells, label, after, list, start, (lists.len() + 1) as usize),
        list.contains(start),
        forall|a: int, j: int|
            0 <= a < list.len() && 0 <= j < cells.len() && near(
                cells[(#[trigger] list[a]) as int],
                #[trigger] cells[j],
            ) ==> after[j] != 0,
        sorted.len() == list.len(),
        forall|i: usize| #[trigger] sorted.contains(i) <==> list.contains(i),
        forall|a: int, b: int|
            0 <= a < b < sorted.len() ==> cell_before(
                cells,
                #[trigger] sorted[a],
                #[trigger] sorted[b],
            ),
    ensures
        searched(cells, after, lists.push(sorted), leads.push(start)),
        after[start as int] != 0,
        forall|i: int| 0 <= i < cells.len() && label[i] != 0 ==> #[trigger] after[i] == label[i],
{
    let mark = (lists.len() + 1) as usize;
    let lists1 = lists.push(sorted);
    let leads1 = leads.push(start);
    assert forall|i: int| 0 <= i < cells.len() implies #[trigger] after[i] == (if list.contains(
        i as usize,
    ) {
        mark
    } else {
        label[i]
    }) by {
        assert(after[(i as usize) as int] == after[i]);
    }
    assert forall|i: int| 0 <= i < cells.len() && label[i] != 0 implies #[trigger] after[i]
        == label[i] by {
        if list.contains(i as usize) {
            let x = choose|x: int| 0 <= x < list.len() && list[x] == i as usize;
            assert(label[list[x] as int] == 0);
        }
    }
    assert(is_component(cells, sorted)) by {
        assert forall|a: int| 0 <= a < sorted.len() implies (#[trigger] sorted[a]) < cells.len() by {
            assert(sorted.contains(sorted[a]));
            let x = choose|x: int| 0 <= x < list.len() && list[x] == sorted[a];
            assert(list[x] < cells.len());
        }
        assert forall|a: int, b: int| 0 <= a < sorted.len() && 0 <= b < sorted.len() implies connected(
            cells,
            (#[trigger] sorted[a]) as int,
            (#[trigger] sorted[b]) as int,
        ) by {
            assert(sorted.contains(sorted[a]) && sorted.contains(sorted[b]));
            let x = choose|x: int| 0 <= x < list.len() && list[x] == sorted[a];
            let y = choose|y: int| 0 <= y < list.len() && list[y] == sorted[b];
            assert(connected(cells, start as int, list[x] as int));
            assert(connected(cells, start as int, list[y] as int));
            lemma_connected_back(cells, start as int, list[x] as int);
            lemma_connected_both(cells, list[x] as int, start as int, list[y] as int);
        }
    }
    assert forall|c: int| 0 <= c < lists1.len() implies is_component(cells, #[trigger] lists1[c]) by {
        if c < lists.len() {
            assert(lists1[c] == lists[c]);
        }
    }
    assert forall|c: int, i: usize|
        #![trigger lists1[c].contains(i)]
        0 <= c < lists1.len() && i < cells.len() implies (lists1[c].contains(i) <==> after[i as int]
        == c + 1) by {
        assert(after[i as int] == (if list.contains(i) {
            mark
        } else {
            label[i as int]
        }));
        if c < lists.len() {
            assert(lists1[c] == lists[c]);
            assert(lists[c].contains(i) <==> label[i as int] == c + 1);
            if list.contains(i) {
                let x = choose|x: int| 0 <= x < list.len() && list[x] == i;
                assert(label[list[x] as int] == 0);
            }
        } else {
            assert(sorted.contains(i) <==> list.contains(i));
            assert(label[i as int] <= lists.len());
        }
    }
    assert forall|i: int, j: int|
        0 <= i < cells.len() && 0 <= j < cells.len() && near(
            #[trigger] cells[i],
            #[trigger] cells[j],
        ) && after[i] != 0 implies after[i] == after[j] by {
        if list.contains(i as usize) {
            let x = choose|x: int| 0 <= x < list.len() && list[x] == i as usize;
            assert(near(cells[list[x] as int], cells[j]));
            assert(after[j] != 0);
            if !list.contains(j as usize) {
                assert(label[j] != 0);
                assert(near(cells[j], cells[i]));
                assert(label[j] == label[i]);
                assert(label[list[x] as int] == 0);
            }
        } else {
            assert(label[i] != 0);
            assert(label[i] == label[j]);
        }
    }
    assert(is_led(lists1, leads1)) by {
        assert forall|c: int| 0 <= c < lists1.len() implies (#[trigger] lists1[c]).contains(
            leads1[c],
        ) && forall|a: int| 0 <= a < lists1[c].len() ==> leads1[c] <= #[trigger] lists1[c][a] by {
            if c < lists.len() {
                assert(lists1[c] == lists[c] && leads1[c] == leads[c]);
                assert(lists[c].contains(leads[c]));
            } else {
                assert(sorted.contains(start));
                assert forall|a: int| 0 <= a < sorted.len() implies start <= #[trigger] sorted[a] by {
                    assert(sorted.contains(sorted[a]));
                    let x = choose|x: int| 0 <= x < list.len() && list[x] == sorted[a];
                    assert(label[list[x] as int] == 0);
                    if sorted[a] < start {
                        assert(label[sorted[a] as int] != 0);
                    }
                }
            }
        }
        assert forall|c: int, d: int| 0 <= c < d < lists1.len() implies (#[trigger] leads1[c]) < (
        #[trigger] leads1[d]) by {
            if d < lists.len() {
                assert(leads1[c] == leads[c] && leads1[d] == leads[d]);
            } else {
                assert(leads1[c] == leads[c]);
            }
        }
    }
}

/// Gathers cells into components.
pub fn split_shadow_candidate_components(cells: &Vec<CellRef>) -> (lists: Vec<Vec<usize>>)
    ensures
        are_components(cells@, lists_view(lists@)),
{
    let n: usize = cells.len();
    let mut lists: Vec<Vec<usize>> = Vec::new();
    if n == 0 {
        lists.push(Vec::new());
        assert(lists_view(lists@) =~= seq![Seq::<usize>::empty()]);
        return lists;
    }
    if find_run(cells) {
        let mut all: Vec<usize> = Vec::new();
        let mut i: usize = 0;
        while i < n
            invariant
                i <= n,
                all@.len() == i,
                forall|k: int| 0 <= k < i ==> #[trigger] all@[k] == k,
            decreases n - i,
        {
            all.push(i);
            i = i + 1;
        }
        proof {
            lemma_run_is_one_component(cells@, all@);
        }
        let ghost list = all@;
        lists.push(all);
        assert(lists_view(lists@) =~= seq![list]);
        return lists;
    }
    let index = index_places(cells);
    let mut label: Vec<usize> = Vec::new();
    let mut i: usize = 0;
    while i < n
        invariant
            i <= n,
            label@.len() == i,
            forall|k: int| 0 <= k < i ==> #[trigger] label@[k] == 0,
        decreases n - i,
    {
        label.push(0);
        i = i + 1;
    }
    let ghost mut leads: Seq<usize> = Seq::empty();
    assert(searched(cells@, label@, lists_view(lists@), leads));
    let mut s: usize = 0;
    while s < n
        invariant
            n == cells@.len(),
            s <= n,
            is_index(cells@, index@, n as int),
            searched(cells@, label@, lists_view(lists@), leads),
            lists@.len() <= s,
            forall|k: int| 0 <= k < s ==> #[trigger] label@[k] != 0,
            forall|c: int| 0 <= c < leads.len() ==> (#[trigger] leads[c]) < s,
        decreases n - s,
    {
        if label[s] == 0 {
            let ghost before = label@;
            let ghost models = lists_view(lists@);
            let ghost leads0 = leads;
            let mark: usize = lists.len() + 1;
            let list = flood(cells, &index, &mut label, s, mark);
            let sorted = in_place_order(cells, &list);
            let ghost model = sorted@;
            proof {
                lemma_search_step(
                    cells@,
                    before,
                    models,
                    leads0,
                    label@,
                    list@,
                    sorted@,
                    s,
                );
                leads = leads0.push(s);
            }
            lists.push(sorted);
            assert(lists_view(lists@) =~= models.push(model));
        }
        s = s + 1;
    }
    proof {
        let models = lists_view(lists@);
        assert forall|i: usize| i < cells@.len() implies #[trigger] is_gathered(models, i) by {
            assert(label@[i as int] != 0);
            let c = label@[i as int] - 1;
            assert(models[c].contains(i));
        }
        assert forall|c: int, i: usize, j: usize|
            0 <= c < models.len() && #[trigger] models[c].contains(i) && i < cells@.len() && j
                < cells@.len() && near(cells@[i as int], #[trigger] cells@[j as int]) implies models[c].contains(
        j) by {
            assert(label@[i as int] == label@[j as int]);
        }
        assert forall|c: int, d: int, i: usize| 0 <= c < d < models.len() implies !(
        #[trigger] models[c].contains(i) && #[trigger] models[d].contains(i)) by {
            if models[c].contains(i) && models[d].contains(i) {
                let x = choose|x: int| 0 <= x < models[c].len() && models[c][x] == i;
                assert(is_component(cells@, models[c]));
                assert(models[c][x] < cells@.len());
            }
        }
        assert(is_led(models, leads));
    }
    lists
}

/// A component holds everything that is connected with one of its cells: two cells are in the same
/// component exactly where one is reached from the other.
pub proof fn a_component_holds_what_is_connected(
    cells: Seq<CellRef>,
    lists: Seq<Seq<usize>>,
    c: int,
    i: usize,
    j: usize,
)
    requires
        0 < cells.len() <= usize::MAX,
        are_components(cells, lists),
        0 <= c < lists.len(),
        lists[c].contains(i),
        j < cells.len(),
    ensures
        lists[c].contains(j) <==> connected(cells, i as int, j as int),
{
    let x = choose|x: int| 0 <= x < lists[c].len() && lists[c][x] == i;
    assert(is_component(cells, lists[c]));
    if lists[c].contains(j) {
        let y = choose|y: int| 0 <= y < lists[c].len() && lists[c][y] == j;
        assert(connected(cells, lists[c][x] as int, lists[c][y] as int));
    }
    if connected(cells, i as int, j as int) {
        let path = choose|path: Seq<int>| #[trigger]
            is_path(cells, path) && path[0] == i && path[path.len() - 1] == j;
        assert forall|m: int| 0 <= m < path.len() implies 0 <= #[trigger] path[m] <= usize::MAX by {
            assert(path[m] < cells.len());
        }
        lemma_path_stays(cells, lists, c, path, path.len() - 1);
        assert(path[path.len() - 1] as usize == j);
    }
}

proof fn lemma_path_stays(
    cells: Seq<CellRef>,
    lists: Seq<Seq<usize>>,
    c: int,
    path: Seq<int>,
    k: int,
)
    requires
        0 < cells.len(),
        are_components(cells, lists),
        0 <= c < lists.len(),
        is_path(cells, path),
        0 <= k < path.len(),
        lists[c].contains(path[0] as usize),
        path[0] <= usize::MAX,
        forall|m: int| 0 <= m < path.len() ==> 0 <= #[trigger] path[m] <= usize::MAX,
    ensures
        lists[c].contains(path[k] as usize),
    decreases k,
{
    if k > 0 {
        lemma_path_stays(cells, lists, c, path, k - 1);
        assert(near(cells[path[k - 1]], cells[path[k]]));
        let a = path[k - 1] as usize;
        let b = path[k] as usize;
        assert(0 <= path[k] < cells.len());
        assert(0 <= path[k - 1] < cells.len());
        assert(cells[b as int] == cells[path[k]]);
        assert(lists[c].contains(a));
    }
}

/// Cells are next to each other where they are one apart in a row or in a column, and not across a
/// corner; the relation goes both ways.
pub proof fn neighbours_share_an_edge(a: CellRef, b: CellRef)
    ensures
        near(a, b) <==> near(b, a),
        a.row == b.row && a.col == b.col ==> near(a, b),
        a.row + 1 == b.row && a.col == b.col ==> near(a, b),
        a.row == b.row && a.col + 1 == b.col ==> near(a, b),
        a.row != b.row && a.col != b.col ==> !near(a, b),
        a.row + 1 < b.row ==> !near(a, b),
        a.col + 1 < b.col ==> !near(a, b),
{
}

/// A run lies in one row or in one column of one sheet, without a gap.
pub proof fn a_run_lies_in_one_line(cells: Seq<CellRef>, k: int)
    requires
        is_run(cells),
        0 <= k < cells.len() - 1,
    ensures
        cells[k].sheet_id == cells[k + 1].sheet_id,
        cells[k + 1].row + cells[k + 1].col == cells[k].row + cells[k].col + 1,
        cells[k].row == cells[k + 1].row || cells[k].col == cells[k + 1].col,
{
    let m = k + 1;
    assert(follows_down(cells[k], cells[m]) || follows_right(cells[k], cells[m]));
}

} // verus!
