//! Writing coalesced plans to the storage, and why that is as good as writing one by one.
use crate::computed_write::{ComputedWrite, ComputedWriteBuffer, ComputedWriteChunkEntryPlan, ComputedWriteChunkKey, ComputedWriteChunkPlan, ComputedWriteCoalescingPlan, FlatWrite, FlushMode, SheetLayout, entry_of, flat, flat_one, flat_row, flat_rows, flush_mode, group_of, index_sum, is_plan_of, key_of, layout_of, layouts_ok, plan_computed_write_coalescing_from_writes, plan_key, plans_chunk, winner, write_seq};
use crate::coord::{CellRef, keys_name_their_cells, spec_cell_key};
use crate::overlay::{OverlayValue, lemma_no_bytes};
use crate::store::{CellStore, Extent, StoreView, extent_in, over_budget, with_computed, with_reach, within_budget};
use rustc_hash::FxHashMap;
use vstd::prelude::*;

verus! {

/// What the storage holds for a cell beneath user edits.
pub open spec fn beneath(s: StoreView, cell: CellRef) -> OverlayValue {
    let k = spec_cell_key(cell);
    if s.computed.contains_key(k) {
        s.computed[k]
    } else if s.base.contains_key(k) {
        s.base[k]
    } else {
        OverlayValue::Empty
    }
}

/// The value that the first `n` writes leave at the cell, if one of them writes it.
pub open spec fn last_write(writes: Seq<FlatWrite>, cell: CellRef, n: nat) -> Option<OverlayValue>
    decreases n,
{
    if n == 0 {
        None
    } else if writes[n - 1].cell == cell {
        Some(writes[n - 1].value)
    } else {
        last_write(writes, cell, (n - 1) as nat)
    }
}

/// The extents grown to cover the cells of the first `n` writes.
pub open spec fn reaching(extents: Map<u16, Extent>, writes: Seq<FlatWrite>, n: nat) -> Map<u16, Extent>
    decreases n,
{
    if n == 0 {
        extents
    } else {
        with_reach(reaching(extents, writes, (n - 1) as nat), writes[n - 1].cell)
    }
}

/// The storage beneath user edits as the writes leave it: the sheets cover the cells that were
/// written, and the computed values take no more than they may.
pub open spec fn is_written(before: StoreView, writes: Seq<FlatWrite>, after: StoreView) -> bool {
    &&& after.delta == before.delta
    &&& after.max_bytes == before.max_bytes
    &&& after.extents == reaching(before.extents, writes, writes.len())
    &&& writes.len() > 0 || !over_budget(before) ==> !over_budget(after)
    &&& forall|cell: CellRef| #[trigger]
        beneath(after, cell) == (match last_write(writes, cell, writes.len()) {
            Some(v) => v,
            None => beneath(before, cell),
        })
}

/// The writes that the plan of a chunk stands for.
pub open spec fn chunk_writes(p: ComputedWriteChunkPlan) -> Seq<FlatWrite> {
    Seq::new(
        p.entries@.len(),
        |i: int|
            FlatWrite {
                cell: CellRef {
                    sheet_id: p.sheet_id,
                    row: index_sum(p.chunk_start_row0, p.entries@[i].row_in_chunk as int),
                    col: p.col0,
                },
                seq: p.entries@[i].seq,
                value: p.entries@[i].value,
            },
    )
}

/// The writes that the plans of the first `n` chunks stand for.
pub open spec fn plan_writes(chunks: Seq<ComputedWriteChunkPlan>, n: nat) -> Seq<FlatWrite>
    decreases n,
{
    if n == 0 {
        Seq::empty()
    } else {
        plan_writes(chunks, (n - 1) as nat) + chunk_writes(chunks[n - 1])
    }
}

proof fn lemma_write_beneath(s: StoreView, cell: CellRef, v: OverlayValue, other: CellRef)
    ensures
        beneath(with_computed(s, cell, v), other) == (if other == cell {
            v
        } else {
            beneath(s, other)
        }),
{
    keys_name_their_cells(cell);
    keys_name_their_cells(other);
}

proof fn lemma_last_write_push(writes: Seq<FlatWrite>, w: FlatWrite, cell: CellRef)
    ensures
        last_write(writes.push(w), cell, writes.len() + 1) == (if w.cell == cell {
            Some(w.value)
        } else {
            last_write(writes, cell, writes.len())
        }),
{
    lemma_last_write_prefix(writes.push(w), writes, cell, writes.len());
}

proof fn lemma_last_write_prefix(a: Seq<FlatWrite>, b: Seq<FlatWrite>, cell: CellRef, n: nat)
    requires
        n <= a.len(),
        n <= b.len(),
        forall|i: int| 0 <= i < n ==> a[i] == #[trigger] b[i],
    ensures
        last_write(a, cell, n) == last_write(b, cell, n),
    decreases n,
{
    if n > 0 {
        assert(a[n - 1] == b[n - 1]);
        lemma_last_write_prefix(a, b, cell, (n - 1) as nat);
    }
}

/// A storage that is folded where its computed values take too much keeps its budget.
proof fn lemma_settled_fits(s: StoreView)
    ensures
        !over_budget(within_budget(s)),
{
    lemma_no_bytes();
}

proof fn lemma_folded_fits(s: StoreView, cell: CellRef, v: OverlayValue)
    ensures
        !over_budget(with_computed(s, cell, v)),
        with_computed(s, cell, v).extents == with_reach(s.extents, cell),
{
    lemma_no_bytes();
}

/// Writes the plan of a chunk, either entry by entry, with the budget kept after each, or as one
/// fragment, with the budget kept after all.
pub fn flush_computed_write_chunk_plan(store: &mut CellStore, chunk: &ComputedWriteChunkPlan)
    requires
        old(store).wf(),
    ensures
        final(store).wf(),
        is_written(old(store)@, chunk_writes(*chunk), final(store)@),
{
    let mode = flush_mode(&chunk.shape);
    let one_by_one = match mode {
        FlushMode::Points | FlushMode::SparseFragmentOrPoints => true,
        FlushMode::DenseFragment | FlushMode::RunFragment => false,
    };
    let ghost before = store@;
    let ghost all = chunk_writes(*chunk);
    let mut i: usize = 0;
    assert(all.take(0) =~= Seq::<FlatWrite>::empty());
    while i < chunk.entries.len()
        invariant
            store.wf(),
            i <= chunk.entries@.len(),
            all == chunk_writes(*chunk),
            store@.delta == before.delta,
            store@.max_bytes == before.max_bytes,
            store@.extents == reaching(before.extents, all, i as nat),
            one_by_one && (i > 0 || !over_budget(before)) ==> !over_budget(store@),
            forall|cell: CellRef| #[trigger]
                beneath(store@, cell) == (match last_write(all.take(i as int), cell, i as nat) {
                    Some(v) => v,
                    None => beneath(before, cell),
                }),
        decreases chunk.entries@.len() - i,
    {
        let entry = &chunk.entries[i];
        let offset = entry.row_in_chunk;
        let row = if offset <= (u32::MAX - chunk.chunk_start_row0) as usize {
            chunk.chunk_start_row0 + offset as u32
        } else {
            u32::MAX
        };
        let cell = CellRef { sheet_id: chunk.sheet_id, row, col: chunk.col0 };
        let value = entry.value.duplicate();
        let ghost prior = store@;
        let ghost w = all[i as int];
        assert(w.cell == cell && w.value == value);
        if one_by_one {
            store.write_computed_overlay_value_0based(cell, value);
        } else {
            store.put_computed(cell, value);
        }
        proof {
            lemma_folded_fits(prior, cell, w.value);
            assert(all.take(i + 1) =~= all.take(i as int).push(w));
            assert forall|c: CellRef| #[trigger] beneath(store@, c) == (match last_write(
                all.take(i + 1),
                c,
                (i + 1) as nat,
            ) {
                Some(v) => v,
                None => beneath(before, c),
            }) by {
                lemma_last_write_push(all.take(i as int), w, c);
                lemma_write_beneath(prior, cell, w.value, c);
                keys_name_their_cells(cell);
                keys_name_their_cells(c);
                assert(beneath(prior, c) == (match last_write(all.take(i as int), c, i as nat) {
                    Some(v) => v,
                    None => beneath(before, c),
                }));
            }
        }
        i = i + 1;
    }
    assert(all.take(i as int) =~= all);
    if !one_by_one {
        let ghost prior = store@;
        store.settle_budget();
        proof {
            lemma_settled_fits(prior);
            assert forall|c: CellRef| #[trigger] beneath(store@, c) == beneath(prior, c) by {}
        }
    }
}

/// Writes the plan of every chunk.
pub fn flush_computed_write_plan(store: &mut CellStore, plan: &ComputedWriteCoalescingPlan)
    requires
        old(store).wf(),
    ensures
        final(store).wf(),
        is_written(
            old(store)@,
            plan_writes(plan.chunks@, plan.chunks@.len()),
            final(store)@,
        ),
{
    let ghost before = store@;
    let mut i: usize = 0;
    while i < plan.chunks.len()
        invariant
            store.wf(),
            i <= plan.chunks@.len(),
            is_written(before, plan_writes(plan.chunks@, i as nat), store@),
        decreases plan.chunks@.len() - i,
    {
        let ghost prior = store@;
        flush_computed_write_chunk_plan(store, &plan.chunks[i]);
        proof {
            let a = plan_writes(plan.chunks@, i as nat);
            let b = chunk_writes(plan.chunks@[i as int]);
            lemma_reaching_concat(before.extents, a, b, b.len());
            assert forall|c: CellRef| #[trigger] beneath(store@, c) == (match last_write(
                a + b,
                c,
                (a + b).len(),
            ) {
                Some(v) => v,
                None => beneath(before, c),
            }) by {
                lemma_last_write_concat(a, b, c, b.len());
                assert((a + b).len() == a.len() + b.len());
                assert(beneath(prior, c) == (match last_write(a, c, a.len()) {
                    Some(v) => v,
                    None => beneath(before, c),
                }));
            }
        }
        i = i + 1;
    }
}

proof fn lemma_reaching_prefix(e: Map<u16, Extent>, a: Seq<FlatWrite>, b: Seq<FlatWrite>, n: nat)
    requires
        n <= a.len(),
    ensures
        reaching(e, a + b, n) == reaching(e, a, n),
    decreases n,
{
    if n > 0 {
        lemma_reaching_prefix(e, a, b, (n - 1) as nat);
    }
}

proof fn lemma_reaching_concat(e: Map<u16, Extent>, a: Seq<FlatWrite>, b: Seq<FlatWrite>, n: nat)
    requires
        n <= b.len(),
    ensures
        reaching(e, a + b, a.len() + n) == reaching(reaching(e, a, a.len()), b, n),
    decreases n,
{
    if n == 0 {
        lemma_reaching_prefix(e, a, b, a.len());
    } else {
        lemma_reaching_concat(e, a, b, (n - 1) as nat);
        assert((a + b)[a.len() + n - 1] == b[n - 1]);
    }
}

/// Whether the sheet is grown by the first `n` writes to the given extent, and no further.
spec fn is_reached(e: Map<u16, Extent>, writes: Seq<FlatWrite>, n: nat, sheet_id: u16, x: Extent) -> bool {
    let old = extent_in(e, sheet_id);
    &&& old.rows <= x.rows && old.cols <= x.cols
    &&& forall|i: int|
        0 <= i < n && (#[trigger] writes[i]).cell.sheet_id == sheet_id ==> writes[i].cell.row < x.rows
            && writes[i].cell.col < x.cols
    &&& x.rows == old.rows || exists|i: int|
        0 <= i < n && (#[trigger] writes[i]).cell.sheet_id == sheet_id && writes[i].cell.row + 1
            == x.rows
    &&& x.cols == old.cols || exists|i: int|
        0 <= i < n && (#[trigger] writes[i]).cell.sheet_id == sheet_id && writes[i].cell.col + 1
            == x.cols
}

proof fn lemma_reaching(e: Map<u16, Extent>, writes: Seq<FlatWrite>, n: nat, sheet_id: u16)
    requires
        n <= writes.len(),
    ensures
        is_reached(e, writes, n, sheet_id, extent_in(reaching(e, writes, n), sheet_id)),
        reaching(e, writes, n).contains_key(sheet_id) <==> e.contains_key(sheet_id) || exists|i: int|
            0 <= i < n && (#[trigger] writes[i]).cell.sheet_id == sheet_id,
    decreases n,
{
    if n > 0 {
        let m = (n - 1) as nat;
        lemma_reaching(e, writes, m, sheet_id);
        let x = extent_in(reaching(e, writes, m), sheet_id);
        let y = extent_in(reaching(e, writes, n), sheet_id);
        let old = extent_in(e, sheet_id);
        let w = writes[n - 1];
        if x.rows != old.rows {
            let i = choose|i: int|
                0 <= i < m && (#[trigger] writes[i]).cell.sheet_id == sheet_id && writes[i].cell.row + 1
                    == x.rows;
            assert(writes[i].cell.sheet_id == sheet_id);
        }
        if x.cols != old.cols {
            let i = choose|i: int|
                0 <= i < m && (#[trigger] writes[i]).cell.sheet_id == sheet_id && writes[i].cell.col + 1
                    == x.cols;
            assert(writes[i].cell.sheet_id == sheet_id);
        }
        assert(w.cell.sheet_id == sheet_id ==> writes[n - 1].cell.sheet_id == sheet_id);
    }
}

/// Extents that are reached by the writes of one list are covered by those of another that writes the
/// same cells.
proof fn lemma_reached_by_both(
    e: Map<u16, Extent>,
    a: Seq<FlatWrite>,
    b: Seq<FlatWrite>,
    sheet_id: u16,
)
    requires
        forall|i: int|
            0 <= i < a.len() ==> exists|j: int|
                0 <= j < b.len() && (#[trigger] b[j]).cell == (#[trigger] a[i]).cell,
    ensures
        ({
            let x = extent_in(reaching(e, a, a.len()), sheet_id);
            let y = extent_in(reaching(e, b, b.len()), sheet_id);
            x.rows <= y.rows && x.cols <= y.cols
        }),
        reaching(e, a, a.len()).contains_key(sheet_id) ==> reaching(e, b, b.len()).contains_key(
            sheet_id,
        ),
{
    lemma_reaching(e, a, a.len(), sheet_id);
    lemma_reaching(e, b, b.len(), sheet_id);
    let x = extent_in(reaching(e, a, a.len()), sheet_id);
    let old = extent_in(e, sheet_id);
    if x.rows != old.rows {
        let i = choose|i: int|
            0 <= i < a.len() && (#[trigger] a[i]).cell.sheet_id == sheet_id && a[i].cell.row + 1
                == x.rows;
        let j = choose|j: int| 0 <= j < b.len() && (#[trigger] b[j]).cell == a[i].cell;
        assert(b[j].cell.sheet_id == sheet_id);
    }
    if x.cols != old.cols {
        let i = choose|i: int|
            0 <= i < a.len() && (#[trigger] a[i]).cell.sheet_id == sheet_id && a[i].cell.col + 1
                == x.cols;
        let j = choose|j: int| 0 <= j < b.len() && (#[trigger] b[j]).cell == a[i].cell;
        assert(b[j].cell.sheet_id == sheet_id);
    }
    if reaching(e, a, a.len()).contains_key(sheet_id) && !e.contains_key(sheet_id) {
        let i = choose|i: int| 0 <= i < a.len() && (#[trigger] a[i]).cell.sheet_id == sheet_id;
        let j = choose|j: int| 0 <= j < b.len() && (#[trigger] b[j]).cell == a[i].cell;
        assert(b[j].cell.sheet_id == sheet_id);
    }
}

/// A cell that is written last by some write is among the written ones.
proof fn lemma_written_cell(writes: Seq<FlatWrite>, cell: CellRef, n: nat)
    requires
        n <= writes.len(),
    ensures
        last_write(writes, cell, n) is Some <==> exists|i: int|
            0 <= i < n && (#[trigger] writes[i]).cell == cell,
    decreases n,
{
    if n > 0 {
        lemma_written_cell(writes, cell, (n - 1) as nat);
        assert(writes[n - 1].cell == cell ==> last_write(writes, cell, n) is Some);
        if last_write(writes, cell, (n - 1) as nat) is Some {
            let i = choose|i: int| 0 <= i < n - 1 && (#[trigger] writes[i]).cell == cell;
            assert(writes[i].cell == cell);
        }
    }
}

/// Lists that write the same cells grow the sheets alike, and are both empty or neither.
proof fn lemma_same_reach(e: Map<u16, Extent>, a: Seq<FlatWrite>, b: Seq<FlatWrite>)
    requires
        forall|cell: CellRef| #[trigger]
            last_write(a, cell, a.len()) is Some <==> last_write(b, cell, b.len()) is Some,
    ensures
        reaching(e, a, a.len()) == reaching(e, b, b.len()),
        a.len() > 0 <==> b.len() > 0,
{
    assert forall|i: int| 0 <= i < a.len() implies exists|j: int|
        0 <= j < b.len() && (#[trigger] b[j]).cell == (#[trigger] a[i]).cell by {
        lemma_written_cell(a, a[i].cell, a.len());
        lemma_written_cell(b, a[i].cell, b.len());
    }
    assert forall|i: int| 0 <= i < b.len() implies exists|j: int|
        0 <= j < a.len() && (#[trigger] a[j]).cell == (#[trigger] b[i]).cell by {
        lemma_written_cell(a, b[i].cell, a.len());
        lemma_written_cell(b, b[i].cell, b.len());
    }
    if a.len() > 0 {
        assert(a[0].cell == a[0].cell);
    }
    if b.len() > 0 {
        assert(b[0].cell == b[0].cell);
    }
    assert forall|s: u16|
        #![trigger reaching(e, a, a.len()).dom().contains(s)]
        #![trigger reaching(e, a, a.len())[s]]
        {
            &&& reaching(e, a, a.len()).contains_key(s) <==> reaching(e, b, b.len()).contains_key(s)
            &&& reaching(e, a, a.len()).contains_key(s) ==> reaching(e, a, a.len())[s] == reaching(
                e,
                b,
                b.len(),
            )[s]
        } by {
        lemma_reached_by_both(e, a, b, s);
        lemma_reached_by_both(e, b, a, s);
    }
    assert(reaching(e, a, a.len()) =~= reaching(e, b, b.len()));
}

proof fn lemma_last_write_concat(a: Seq<FlatWrite>, b: Seq<FlatWrite>, cell: CellRef, n: nat)
    requires
        n <= b.len(),
    ensures
        last_write(a + b, cell, a.len() + n) == (match last_write(b, cell, n) {
            Some(v) => Some(v),
            None => last_write(a, cell, a.len()),
        }),
    decreases n,
{
    if n == 0 {
        lemma_last_write_prefix(a + b, a, cell, a.len());
    } else {
        lemma_last_write_concat(a, b, cell, (n - 1) as nat);
        assert((a + b)[a.len() + n - 1] == b[n - 1]);
    }
}

/// Whether the numbers of the writes do not descend.
pub open spec fn in_order(writes: Seq<FlatWrite>) -> bool {
    forall|i: int, j: int|
        0 <= i <= j < writes.len() ==> (#[trigger] writes[i]).seq <= (#[trigger] writes[j]).seq
}

/// Whether the write goes to the row of the chunk.
spec fn hits(
    layouts: Map<u16, SheetLayout>,
    w: FlatWrite,
    key: ComputedWriteChunkKey,
    row: usize,
) -> bool {
    key_of(layouts, w) == key && entry_of(layouts, w).row_in_chunk == row
}

proof fn lemma_winner_prefix(
    a: Seq<ComputedWriteChunkEntryPlan>,
    b: Seq<ComputedWriteChunkEntryPlan>,
    row: usize,
    n: nat,
)
    requires
        n <= a.len(),
        n <= b.len(),
        forall|i: int| 0 <= i < n ==> a[i] == #[trigger] b[i],
    ensures
        winner(a, row, n) == winner(b, row, n),
        winner(a, row, n) matches Some(g) ==> 0 <= g < n,
    decreases n,
{
    if n > 0 {
        assert(a[n - 1] == b[n - 1]);
        lemma_winner_prefix(a, b, row, (n - 1) as nat);
    }
}

/// Among writes in order, the winner of a row of a chunk is the last write to that row.
proof fn lemma_winner_is_last(
    layouts: Map<u16, SheetLayout>,
    writes: Seq<FlatWrite>,
    key: ComputedWriteChunkKey,
    row: usize,
    n: nat,
)
    requires
        n <= writes.len(),
        in_order(writes),
    ensures
        ({
            let group = group_of(layouts, writes, key, n);
            match winner(group, row, group.len()) {
                Some(g) => 0 <= g < group.len() && exists|j: int|
                    {
                        &&& 0 <= j < n
                        &&& hits(layouts, #[trigger] writes[j], key, row)
                        &&& group[g] == entry_of(layouts, writes[j])
                        &&& forall|k: int|
                            j < k < n ==> !hits(layouts, #[trigger] writes[k], key, row)
                    },
                None => forall|j: int|
                    0 <= j < n ==> !hits(layouts, #[trigger] writes[j], key, row),
            }
        }),
    decreases n,
{
    if n > 0 {
        let m = (n - 1) as nat;
        lemma_winner_is_last(layouts, writes, key, row, m);
        let before = group_of(layouts, writes, key, m);
        let group = group_of(layouts, writes, key, n);
        let w = writes[n - 1];
        if key_of(layouts, w) == key {
            assert(group == before.push(entry_of(layouts, w)));
            lemma_winner_prefix(group, before, row, before.len());
            if entry_of(layouts, w).row_in_chunk == row {
                match winner(before, row, before.len()) {
                    Some(g) => {
                        let j = choose|j: int|
                            {
                                &&& 0 <= j < m
                                &&& hits(layouts, #[trigger] writes[j], key, row)
                                &&& before[g] == entry_of(layouts, writes[j])
                                &&& forall|k: int|
                                    j < k < m ==> !hits(layouts, #[trigger] writes[k], key, row)
                            };
                        assert(writes[j].seq <= writes[n - 1].seq);
                        assert(group[g] == before[g]);
                    },
                    None => {},
                }
                assert(hits(layouts, writes[n - 1], key, row));
            } else {
                lemma_keep_last(layouts, writes, key, row, n, before, group);
            }
        } else {
            assert(group == before);
            lemma_keep_last(layouts, writes, key, row, n, before, group);
        }
    }
}

proof fn lemma_keep_last(
    layouts: Map<u16, SheetLayout>,
    writes: Seq<FlatWrite>,
    key: ComputedWriteChunkKey,
    row: usize,
    n: nat,
    before: Seq<ComputedWriteChunkEntryPlan>,
    group: Seq<ComputedWriteChunkEntryPlan>,
)
    requires
        0 < n <= writes.len(),
        !hits(layouts, writes[n - 1], key, row),
        winner(group, row, group.len()) == winner(before, row, before.len()),
        before.len() <= group.len(),
        forall|i: int| 0 <= i < before.len() ==> before[i] == #[trigger] group[i],
        match winner(before, row, before.len()) {
            Some(g) => 0 <= g < before.len() && exists|j: int|
                {
                    &&& 0 <= j < n - 1
                    &&& hits(layouts, #[trigger] writes[j], key, row)
                    &&& before[g] == entry_of(layouts, writes[j])
                    &&& forall|k: int|
                        j < k < n - 1 ==> !hits(layouts, #[trigger] writes[k], key, row)
                },
            None => forall|j: int|
                0 <= j < n - 1 ==> !hits(layouts, #[trigger] writes[j], key, row),
        },
    ensures
        match winner(group, row, group.len()) {
            Some(g) => 0 <= g < group.len() && exists|j: int|
                {
                    &&& 0 <= j < n
                    &&& hits(layouts, #[trigger] writes[j], key, row)
                    &&& group[g] == entry_of(layouts, writes[j])
                    &&& forall|k: int|
                        j < k < n ==> !hits(layouts, #[trigger] writes[k], key, row)
                },
            None => forall|j: int| 0 <= j < n ==> !hits(layouts, #[trigger] writes[j], key, row),
        },
{
    match winner(before, row, before.len()) {
        Some(g) => {
            let j = choose|j: int|
                {
                    &&& 0 <= j < n - 1
                    &&& hits(layouts, #[trigger] writes[j], key, row)
                    &&& before[g] == entry_of(layouts, writes[j])
                    &&& forall|k: int|
                        j < k < n - 1 ==> !hits(layouts, #[trigger] writes[k], key, row)
                };
            assert(group[g] == before[g]);
            assert(hits(layouts, writes[j], key, row));
            assert forall|k: int| j < k < n implies !hits(
                layouts,
                #[trigger] writes[k],
                key,
                row,
            ) by {}
        },
        None => {},
    }
}

/// The row of a write is that of its chunk and its place within the chunk.
proof fn lemma_row_found(layouts: Map<u16, SheetLayout>, w: FlatWrite)
    requires
        layouts_ok(layouts),
    ensures
        index_sum(key_of(layouts, w).chunk_start_row0, entry_of(layouts, w).row_in_chunk as int)
            == w.cell.row,
{
    crate::computed_write::lemma_located(layouts, w.cell.sheet_id, w.cell.row);
}

proof fn lemma_last_write_is(writes: Seq<FlatWrite>, cell: CellRef, n: nat, j: int)
    requires
        n <= writes.len(),
        0 <= j < n,
        writes[j].cell == cell,
        forall|k: int| j < k < n ==> (#[trigger] writes[k]).cell != cell,
    ensures
        last_write(writes, cell, n) == Some(writes[j].value),
    decreases n,
{
    if j < n - 1 {
        assert(writes[n - 1].cell != cell);
        lemma_last_write_is(writes, cell, (n - 1) as nat, j);
    }
}

proof fn lemma_no_write(writes: Seq<FlatWrite>, cell: CellRef, n: nat)
    requires
        n <= writes.len(),
        forall|k: int| 0 <= k < n ==> (#[trigger] writes[k]).cell != cell,
    ensures
        last_write(writes, cell, n) is None,
    decreases n,
{
    if n > 0 {
        assert(writes[n - 1].cell != cell);
        lemma_no_write(writes, cell, (n - 1) as nat);
    }
}

/// The value that a chunk plan holds for each of its cells is the one that the writes leave there.
proof fn lemma_chunk_value(
    layouts: Map<u16, SheetLayout>,
    writes: Seq<FlatWrite>,
    p: ComputedWriteChunkPlan,
    m: int,
)
    requires
        layouts_ok(layouts),
        in_order(writes),
        plans_chunk(layouts, writes, p),
        0 <= m < p.entries@.len(),
    ensures
        last_write(writes, chunk_writes(p)[m].cell, writes.len()) == Some(
            chunk_writes(p)[m].value,
        ),
        key_of_cell(layouts, chunk_writes(p)[m].cell) == plan_key(p),
{
    let key = plan_key(p);
    let row = p.entries@[m].row_in_chunk;
    let group = group_of(layouts, writes, key, writes.len());
    lemma_winner_is_last(layouts, writes, key, row, writes.len());
    let w = winner(group, row, group.len());
    assert(w is Some && p.entries@[m] == group[w->Some_0]);
    let j = choose|j: int|
        {
            &&& 0 <= j < writes.len()
            &&& hits(layouts, #[trigger] writes[j], key, row)
            &&& group[w->Some_0] == entry_of(layouts, writes[j])
            &&& forall|k: int|
                j < k < writes.len() ==> !hits(layouts, #[trigger] writes[k], key, row)
        };
    lemma_row_found(layouts, writes[j]);
    let cell = chunk_writes(p)[m].cell;
    assert(writes[j].cell == cell);
    assert forall|k: int| j < k < writes.len() implies (#[trigger] writes[k]).cell != cell by {
        if writes[k].cell == cell {
            assert(hits(layouts, writes[k], key, row));
        }
    }
    lemma_last_write_is(writes, cell, writes.len(), j);
}

/// The chunk of a cell.
spec fn key_of_cell(layouts: Map<u16, SheetLayout>, cell: CellRef) -> ComputedWriteChunkKey {
    let at = layout_of(layouts, cell.sheet_id, cell.row);
    ComputedWriteChunkKey {
        sheet_id: cell.sheet_id,
        col0: cell.col,
        chunk_idx: at.0,
        chunk_start_row0: at.1,
    }
}

/// Whatever the plans of the first `n` chunks leave at a cell is what the writes leave there.
proof fn lemma_plan_values(
    layouts: Map<u16, SheetLayout>,
    writes: Seq<FlatWrite>,
    chunks: Seq<ComputedWriteChunkPlan>,
    cell: CellRef,
    n: nat,
)
    requires
        layouts_ok(layouts),
        in_order(writes),
        n <= chunks.len(),
        forall|c: int| 0 <= c < chunks.len() ==> plans_chunk(layouts, writes, #[trigger] chunks[c]),
    ensures
        ({
            let list = plan_writes(chunks, n);
            match last_write(list, cell, list.len()) {
                Some(v) => last_write(writes, cell, writes.len()) == Some(v),
                None => forall|c: int, m: int|
                    0 <= c < n && 0 <= m < chunks[c].entries@.len()
                        ==> #[trigger] chunk_writes(chunks[c])[m].cell != cell,
            }
        }),
    decreases n,
{
    if n > 0 {
        let m0 = (n - 1) as nat;
        lemma_plan_values(layouts, writes, chunks, cell, m0);
        let a = plan_writes(chunks, m0);
        let b = chunk_writes(chunks[n - 1]);
        lemma_last_write_concat(a, b, cell, b.len());
        assert((a + b).len() == a.len() + b.len());
        lemma_chunk_last(layouts, writes, chunks[n - 1], cell, b.len());
        match last_write(b, cell, b.len()) {
            Some(v) => {},
            None => {
                if last_write(a, cell, a.len()) is None {
                    assert forall|c: int, m: int|
                        0 <= c < n && 0 <= m < chunks[c].entries@.len() implies #[trigger] chunk_writes(
                        chunks[c],
                    )[m].cell != cell by {
                        if c == n - 1 {
                            assert(b[m].cell != cell);
                        }
                    }
                }
            },
        }
    }
}

proof fn lemma_chunk_last(
    layouts: Map<u16, SheetLayout>,
    writes: Seq<FlatWrite>,
    p: ComputedWriteChunkPlan,
    cell: CellRef,
    n: nat,
)
    requires
        layouts_ok(layouts),
        in_order(writes),
        plans_chunk(layouts, writes, p),
        n <= p.entries@.len(),
    ensures
        match last_write(chunk_writes(p), cell, n) {
            Some(v) => last_write(writes, cell, writes.len()) == Some(v),
            None => forall|m: int|
                0 <= m < n ==> (#[trigger] chunk_writes(p)[m]).cell != cell,
        },
    decreases n,
{
    if n > 0 {
        lemma_chunk_last(layouts, writes, p, cell, (n - 1) as nat);
        if chunk_writes(p)[n - 1].cell == cell {
            lemma_chunk_value(layouts, writes, p, n - 1);
        }
    }
}

/// Coalescing loses nothing and adds nothing: for writes that are numbered in order, the plan
/// leaves at every cell what writing them one by one leaves there.
pub proof fn coalescing_preserves_the_writes(
    layouts: Map<u16, SheetLayout>,
    writes: Seq<FlatWrite>,
    plan: ComputedWriteCoalescingPlan,
    cell: CellRef,
)
    requires
        layouts_ok(layouts),
        in_order(writes),
        is_plan_of(layouts, writes, plan),
    ensures
        last_write(
            plan_writes(plan.chunks@, plan.chunks@.len()),
            cell,
            plan_writes(plan.chunks@, plan.chunks@.len()).len(),
        ) == last_write(writes, cell, writes.len()),
{
    let chunks = plan.chunks@;
    let list = plan_writes(chunks, chunks.len());
    lemma_plan_values(layouts, writes, chunks, cell, chunks.len());
    if last_write(list, cell, list.len()) is None {
        assert forall|k: int| 0 <= k < writes.len() implies (#[trigger] writes[k]).cell != cell by {
            if writes[k].cell == cell {
                let c = choose|c: int|
                    0 <= c < chunks.len() && plan_key(#[trigger] chunks[c]) == key_of(
                        layouts,
                        writes[k],
                    );
                lemma_written_row(layouts, writes, chunks[c], k);
                let m = choose|m: int|
                    0 <= m < chunks[c].entries@.len() && (
                    #[trigger] chunks[c].entries@[m]).row_in_chunk == entry_of(
                        layouts,
                        writes[k],
                    ).row_in_chunk;
                lemma_row_found(layouts, writes[k]);
                assert(chunk_writes(chunks[c])[m].cell == cell);
            }
        }
        lemma_no_write(writes, cell, writes.len());
    }
}

/// The plan of a chunk has an entry for every row that is written.
proof fn lemma_written_row(
    layouts: Map<u16, SheetLayout>,
    writes: Seq<FlatWrite>,
    p: ComputedWriteChunkPlan,
    k: int,
)
    requires
        plans_chunk(layouts, writes, p),
        0 <= k < writes.len(),
        key_of(layouts, writes[k]) == plan_key(p),
    ensures
        exists|m: int|
            0 <= m < p.entries@.len() && (#[trigger] p.entries@[m]).row_in_chunk == entry_of(
                layouts,
                writes[k],
            ).row_in_chunk,
{
    let key = plan_key(p);
    let group = group_of(layouts, writes, key, writes.len());
    lemma_group_holds(layouts, writes, key, writes.len(), k);
    let g = choose|g: int| 0 <= g < group.len() && #[trigger] group[g] == entry_of(layouts, writes[k]);
    assert(group[g].row_in_chunk == entry_of(layouts, writes[k]).row_in_chunk);
}

proof fn lemma_group_holds(
    layouts: Map<u16, SheetLayout>,
    writes: Seq<FlatWrite>,
    key: ComputedWriteChunkKey,
    n: nat,
    k: int,
)
    requires
        n <= writes.len(),
        0 <= k < n,
        key_of(layouts, writes[k]) == key,
    ensures
        exists|g: int|
            0 <= g < group_of(layouts, writes, key, n).len() && #[trigger] group_of(
                layouts,
                writes,
                key,
                n,
            )[g] == entry_of(layouts, writes[k]),
    decreases n,
{
    let group = group_of(layouts, writes, key, n);
    let before = group_of(layouts, writes, key, (n - 1) as nat);
    if k == n - 1 {
        assert(group[before.len() as int] == entry_of(layouts, writes[k]));
    } else {
        lemma_group_holds(layouts, writes, key, (n - 1) as nat, k);
        let g = choose|g: int|
            0 <= g < before.len() && #[trigger] before[g] == entry_of(layouts, writes[k]);
        assert(group[g] == before[g]);
    }
}

/// Whether buffered writes are numbered in order.
pub open spec fn numbered_in_order(writes: Seq<ComputedWrite>) -> bool {
    forall|i: int, j: int|
        0 <= i <= j < writes.len() ==> write_seq(#[trigger] writes[i]) <= write_seq(
            #[trigger] writes[j],
        )
}

proof fn lemma_rows_seq(w: ComputedWrite)
    ensures
        forall|k: int| 0 <= k < flat_one(w).len() ==> (#[trigger] flat_one(w)[k]).seq == write_seq(w),
{
    if let ComputedWrite::Rect { seq, sheet_id, sr0, sc0, values } = w {
        lemma_rect_seq(seq, sheet_id, sr0, sc0, values@, values@.len());
    }
}

proof fn lemma_rect_seq(
    seq: u64,
    sheet_id: u16,
    sr0: u32,
    sc0: u32,
    rows: Seq<Vec<OverlayValue>>,
    n: nat,
)
    ensures
        forall|k: int|
            0 <= k < flat_rows(seq, sheet_id, sr0, sc0, rows, n).len() ==> (#[trigger] flat_rows(
                seq,
                sheet_id,
                sr0,
                sc0,
                rows,
                n,
            )[k]).seq == seq,
    decreases n,
{
    if n > 0 {
        lemma_rect_seq(seq, sheet_id, sr0, sc0, rows, (n - 1) as nat);
        let a = flat_rows(seq, sheet_id, sr0, sc0, rows, (n - 1) as nat);
        let b = flat_row(seq, sheet_id, index_sum(sr0, n - 1), sc0, rows[n - 1]@);
        assert forall|k: int| 0 <= k < (a + b).len() implies (#[trigger] (a + b)[k]).seq == seq by {
            if k < a.len() {
                assert((a + b)[k] == a[k]);
            } else {
                assert((a + b)[k] == b[k - a.len()]);
            }
        }
    }
}

proof fn lemma_flat_in_order(writes: Seq<ComputedWrite>, n: nat)
    requires
        numbered_in_order(writes),
        n <= writes.len(),
    ensures
        in_order(flat(writes, n)),
        forall|k: int|
            0 <= k < flat(writes, n).len() && n > 0 ==> (#[trigger] flat(writes, n)[k]).seq
                <= write_seq(writes[n - 1]),
    decreases n,
{
    if n > 0 {
        lemma_flat_in_order(writes, (n - 1) as nat);
        lemma_rows_seq(writes[n - 1]);
        let a = flat(writes, (n - 1) as nat);
        let b = flat_one(writes[n - 1]);
        assert forall|k: int| 0 <= k < (a + b).len() implies (#[trigger] (a + b)[k]).seq
            <= write_seq(writes[n - 1]) by {
            if k < a.len() {
                assert((a + b)[k] == a[k]);
                if n > 1 {
                    assert(write_seq(writes[n - 2]) <= write_seq(writes[n - 1]));
                }
            } else {
                assert((a + b)[k] == b[k - a.len()]);
            }
        }
        assert forall|i: int, j: int| 0 <= i <= j < (a + b).len() implies (#[trigger] (a
            + b)[i]).seq <= (#[trigger] (a + b)[j]).seq by {
            if j < a.len() {
                assert((a + b)[i] == a[i] && (a + b)[j] == a[j]);
            } else {
                assert((a + b)[j] == b[j - a.len()]);
                assert(b[j - a.len()].seq == write_seq(writes[n - 1]));
            }
        }
    }
}

/// Coalesces and writes what the buffer holds, and empties it. For writes that are numbered in
/// order the storage is as if they had been written one by one.
pub fn flush_computed_write_buffer(
    store: &mut CellStore,
    layouts: &FxHashMap<u16, SheetLayout>,
    buffer: &mut ComputedWriteBuffer,
)
    requires
        old(store).wf(),
        layouts_ok(layouts@),
    ensures
        final(store).wf(),
        numbered_in_order(old(buffer)@.writes) ==> is_written(
            old(store)@,
            flat(old(buffer)@.writes, old(buffer)@.writes.len()),
            final(store)@,
        ),
        exists|plan: ComputedWriteCoalescingPlan|
            {
                &&& #[trigger] is_plan_of(
                    layouts@,
                    flat(old(buffer)@.writes, old(buffer)@.writes.len()),
                    plan,
                )
                &&& is_written(
                    old(store)@,
                    plan_writes(plan.chunks@, plan.chunks@.len()),
                    final(store)@,
                )
            },
        final(buffer)@.writes.len() == 0,
        final(buffer)@.next_seq == old(buffer)@.next_seq,
        final(buffer)@.estimated_bytes == 0,
{
    let ghost before = store@;
    let writes = buffer.take_writes();
    let plan = plan_computed_write_coalescing_from_writes(layouts, &writes);
    flush_computed_write_plan(store, &plan);
    proof {
        let all = flat(writes@, writes@.len());
        let list = plan_writes(plan.chunks@, plan.chunks@.len());
        if numbered_in_order(writes@) {
            lemma_flat_in_order(writes@, writes@.len());
            assert forall|cell: CellRef| #[trigger] beneath(store@, cell) == (match last_write(
                all,
                cell,
                all.len(),
            ) {
                Some(v) => v,
                None => beneath(before, cell),
            }) by {
                coalescing_preserves_the_writes(layouts@, all, plan, cell);
            }
            assert forall|cell: CellRef| #[trigger]
                last_write(list, cell, list.len()) is Some <==> last_write(
                    all,
                    cell,
                    all.len(),
                ) is Some by {
                coalescing_preserves_the_writes(layouts@, all, plan, cell);
            }
            lemma_same_reach(before.extents, list, all);
        }
    }
}

/// The last write to a cell is the one behind which no other follows.
pub proof fn the_last_write_is_what_is_left(writes: Seq<FlatWrite>, cell: CellRef, n: nat, i: int)
    requires
        n <= writes.len(),
        0 <= i < n,
        writes[i].cell == cell,
        forall|k: int| i < k < n ==> (#[trigger] writes[k]).cell != cell,
    ensures
        last_write(writes, cell, n) == Some(writes[i].value),
    decreases n,
{
    if i < n - 1 {
        the_last_write_is_what_is_left(writes, cell, (n - 1) as nat, i);
    }
}

/// A cell that is not written keeps what it has.
pub proof fn unwritten_cells_have_no_last_write(writes: Seq<FlatWrite>, cell: CellRef, n: nat)
    requires
        n <= writes.len(),
        forall|k: int| 0 <= k < n ==> (#[trigger] writes[k]).cell != cell,
    ensures
        last_write(writes, cell, n) is None,
    decreases n,
{
    if n > 0 {
        unwritten_cells_have_no_last_write(writes, cell, (n - 1) as nat);
    }
}

/// Once the writes are flushed a cell without a user edit reads as the last value written to it, one
/// that was not written reads as before, and one with an edit reads as the edit.
pub proof fn flushed_writes_are_read_back(
    before: StoreView,
    writes: Seq<FlatWrite>,
    after: StoreView,
    cell: CellRef,
    i: int,
)
    requires
        is_written(before, writes, after),
    ensures
        ({
            let k = spec_cell_key(cell);
            &&& before.delta.contains_key(k) ==> crate::store::read(after, cell) == crate::store::read(
                before,
                cell,
            )
            &&& (forall|j: int| 0 <= j < writes.len() ==> (#[trigger] writes[j]).cell != cell)
                ==> crate::store::read(after, cell) == crate::store::read(before, cell)
            &&& !before.delta.contains_key(k) && 0 <= i < writes.len() && writes[i].cell == cell && (forall|
                j: int,
            |
                i < j < writes.len() ==> (#[trigger] writes[j]).cell != cell) ==> crate::store::read(
                after,
                cell,
            ) == crate::overlay::literal_of(writes[i].value)
        }),
{
    assert(beneath(after, cell) == (match last_write(writes, cell, writes.len()) {
        Some(v) => v,
        None => beneath(before, cell),
    }));
    if 0 <= i < writes.len() && writes[i].cell == cell && (forall|j: int|
        i < j < writes.len() ==> (#[trigger] writes[j]).cell != cell) {
        the_last_write_is_what_is_left(writes, cell, writes.len(), i);
    }
    if forall|j: int| 0 <= j < writes.len() ==> (#[trigger] writes[j]).cell != cell {
        unwritten_cells_have_no_last_write(writes, cell, writes.len());
    }
}

} // verus!
