//! Computed values on their way to the storage: buffered, coalesced per chunk, and written.
use crate::coord::{CellRef, SheetId};
use crate::fx::{map_get, map_insert};
use crate::overlay::{OverlayValue, entry_bytes, overlay_eq, sum_stopping, ENTRY_BASE_BYTES};
use crate::sort::{is_permutation, is_stable_order, lemma_permutation_hits, pair_lt, sort_order};
use rustc_hash::FxHashMap;
use vstd::prelude::*;

verus! {

/// The narrowest layer whose writes are buffered and coalesced.
pub const COMPUTED_WRITE_COALESCING_MIN_LAYER_WIDTH: usize = 8;

/// A buffered write: one cell, or a rectangle row by row.
#[derive(Debug)]
pub enum ComputedWrite {
    Cell { seq: u64, sheet_id: SheetId, row0: u32, col0: u32, value: OverlayValue },
    Rect { seq: u64, sheet_id: SheetId, sr0: u32, sc0: u32, values: Vec<Vec<OverlayValue>> },
}

pub open spec fn write_seq(w: ComputedWrite) -> u64 {
    match w {
        ComputedWrite::Cell { seq, .. } => seq,
        ComputedWrite::Rect { seq, .. } => seq,
    }
}

impl ComputedWrite {
    /// The number of the write.
    pub fn seq(&self) -> (n: u64)
        ensures
            n == write_seq(*self),
    {
        match self {
            ComputedWrite::Cell { seq, .. } => *seq,
            ComputedWrite::Rect { seq, .. } => *seq,
        }
    }
}

/// Writes that wait to be coalesced, numbered in the order in which they came.
#[derive(Debug)]
pub struct ComputedWriteBuffer {
    writes: Vec<ComputedWrite>,
    next_seq: u64,
    estimated_bytes: usize,
}

/// The model of a [`ComputedWriteBuffer`].
#[verifier::ext_equal]
pub struct BufferView {
    pub writes: Seq<ComputedWrite>,
    pub next_seq: u64,
    pub estimated_bytes: usize,
}

/// The sizes of the entries of a rectangle, added up.
pub open spec fn rect_bytes(rows: Seq<Vec<OverlayValue>>) -> usize
    decreases rows.len(),
{
    if rows.len() == 0 {
        0
    } else {
        added_row(rect_bytes(rows.drop_last()), rows.last()@)
    }
}

/// A size with those of the entries of a row added.
pub open spec fn added_row(start: usize, row: Seq<OverlayValue>) -> usize
    decreases row.len(),
{
    if row.len() == 0 {
        start
    } else {
        sum_stopping(added_row(start, row.drop_last()), entry_bytes(row.last()))
    }
}

/// The number behind the given one.
pub open spec fn next_number(n: u64) -> u64 {
    if n == u64::MAX {
        0
    } else {
        (n + 1) as u64
    }
}

impl ComputedWriteBuffer {
    pub closed spec fn view(&self) -> BufferView {
        BufferView {
            writes: self.writes@,
            next_seq: self.next_seq,
            estimated_bytes: self.estimated_bytes,
        }
    }

    pub fn new() -> (b: ComputedWriteBuffer)
        ensures
            b@ == (BufferView { writes: Seq::empty(), next_seq: 0, estimated_bytes: 0 }),
    {
        ComputedWriteBuffer { writes: Vec::new(), next_seq: 0, estimated_bytes: 0 }
    }

    pub fn is_empty(&self) -> (b: bool)
        ensures
            b == (self@.writes.len() == 0),
    {
        self.writes.len() == 0
    }

    pub fn len(&self) -> (n: usize)
        ensures
            n == self@.writes.len(),
    {
        self.writes.len()
    }

    pub fn estimated_bytes(&self) -> (n: usize)
        ensures
            n == self@.estimated_bytes,
    {
        self.estimated_bytes
    }

    pub fn writes(&self) -> (w: &Vec<ComputedWrite>)
        ensures
            w@ == self@.writes,
    {
        &self.writes
    }

    /// Buffers the write of one cell.
    pub fn push_cell(&mut self, sheet_id: SheetId, row0: u32, col0: u32, value: OverlayValue)
        ensures
            final(self)@ == (BufferView {
                writes: old(self)@.writes.push(
                    ComputedWrite::Cell { seq: old(self)@.next_seq, sheet_id, row0, col0, value },
                ),
                next_seq: next_number(old(self)@.next_seq),
                estimated_bytes: sum_stopping(old(self)@.estimated_bytes, entry_bytes(value)),
            }),
    {
        let seq = self.next_sequence();
        self.estimated_bytes = self.estimated_bytes.saturating_add(
            Self::estimate_value_bytes(&value),
        );
        self.writes.push(ComputedWrite::Cell { seq, sheet_id, row0, col0, value });
    }

    /// Buffers the write of a rectangle.
    pub fn push_rect(
        &mut self,
        sheet_id: SheetId,
        sr0: u32,
        sc0: u32,
        values: Vec<Vec<OverlayValue>>,
    )
        ensures
            final(self)@ == (BufferView {
                writes: old(self)@.writes.push(
                    ComputedWrite::Rect { seq: old(self)@.next_seq, sheet_id, sr0, sc0, values },
                ),
                next_seq: next_number(old(self)@.next_seq),
                estimated_bytes: sum_stopping(old(self)@.estimated_bytes, rect_bytes(values@)),
            }),
    {
        let seq = self.next_sequence();
        let mut added: usize = 0;
        let mut i: usize = 0;
        while i < values.len()
            invariant
                i <= values@.len(),
                added == rect_bytes(values@.take(i as int)),
            decreases values@.len() - i,
        {
            let row = &values[i];
            let ghost start = added;
            let mut j: usize = 0;
            while j < row.len()
                invariant
                    j <= row@.len(),
                    added == added_row(start, row@.take(j as int)),
                decreases row@.len() - j,
            {
                assert(row@.take(j + 1).drop_last() =~= row@.take(j as int));
                added = added.saturating_add(Self::estimate_value_bytes(&row[j]));
                j = j + 1;
            }
            assert(row@.take(j as int) =~= row@);
            assert(values@.take(i + 1).drop_last() =~= values@.take(i as int));
            i = i + 1;
        }
        assert(values@.take(i as int) =~= values@);
        self.estimated_bytes = self.estimated_bytes.saturating_add(added);
        self.writes.push(ComputedWrite::Rect { seq, sheet_id, sr0, sc0, values });
    }

    /// Drops all writes. Numbering goes on.
    pub fn clear(&mut self)
        ensures
            final(self)@ == (BufferView {
                writes: Seq::empty(),
                next_seq: old(self)@.next_seq,
                estimated_bytes: 0,
            }),
    {
        self.writes.clear();
        self.estimated_bytes = 0;
    }

    /// Takes all writes out. Numbering goes on.
    pub fn take_writes(&mut self) -> (writes: Vec<ComputedWrite>)
        ensures
            writes@ == old(self)@.writes,
            final(self)@ == (BufferView {
                writes: Seq::empty(),
                next_seq: old(self)@.next_seq,
                estimated_bytes: 0,
            }),
    {
        self.estimated_bytes = 0;
        let mut out: Vec<ComputedWrite> = Vec::new();
        std::mem::swap(&mut out, &mut self.writes);
        out
    }

    /// Draws the next number.
    pub fn next_sequence(&mut self) -> (seq: u64)
        ensures
            seq == old(self)@.next_seq,
            final(self)@ == (BufferView {
                next_seq: next_number(old(self)@.next_seq),
                ..old(self)@
            }),
    {
        let seq = self.next_seq;
        self.next_seq = self.next_seq.wrapping_add(1);
        seq
    }

    /// What an entry with the value takes.
    pub fn estimate_value_bytes(value: &OverlayValue) -> (n: usize)
        ensures
            n == entry_bytes(*value),
    {
        ENTRY_BASE_BYTES.saturating_add(value.estimated_payload_bytes())
    }
}

impl Default for ComputedWriteBuffer {
    fn default() -> (b: ComputedWriteBuffer)
        ensures
            b@ == (BufferView { writes: Seq::empty(), next_seq: 0, estimated_bytes: 0 }),
    {
        ComputedWriteBuffer::new()
    }
}

/// Whether the buffer is to be flushed before the computed values outgrow their budget. A budget
/// of zero asks for no early flush.
pub fn should_flush_computed_write_buffer(
    max_bytes: Option<usize>,
    used_bytes: usize,
    buffer: &ComputedWriteBuffer,
) -> (b: bool)
    ensures
        b == (match max_bytes {
            Some(cap) => cap != 0 && sum_stopping(used_bytes, buffer@.estimated_bytes) > cap,
            None => false,
        }),
{
    match max_bytes {
        Some(cap) => {
            if cap == 0 {
                false
            } else {
                used_bytes.saturating_add(buffer.estimated_bytes()) > cap
            }
        },
        None => false,
    }
}

/// A chunk of a column.
#[derive(Clone, Copy, Debug, PartialEq, Eq, Structural)]
pub struct ComputedWriteChunkKey {
    pub sheet_id: SheetId,
    pub col0: u32,
    pub chunk_idx: u64,
    pub chunk_start_row0: u32,
}

/// A write to a row of a chunk.
#[derive(Debug)]
pub struct ComputedWriteChunkEntryPlan {
    pub row_in_chunk: usize,
    pub seq: u64,
    pub value: OverlayValue,
}

impl ComputedWriteChunkEntryPlan {
    fn duplicate(&self) -> (r: ComputedWriteChunkEntryPlan)
        ensures
            r == *self,
    {
        ComputedWriteChunkEntryPlan {
            row_in_chunk: self.row_in_chunk,
            seq: self.seq,
            value: self.value.duplicate(),
        }
    }
}

/// How the rows that are written lie in their chunk.
#[derive(Clone, Copy, Debug, PartialEq, Eq, Structural)]
pub enum ComputedWriteChunkPlanShape {
    Point,
    SparseOffsets { entries: usize, span_len: usize },
    DenseRange { start: usize, len: usize },
    RunRange { start: usize, len: usize, runs: usize },
}

/// What is written to one chunk, from the first row to the last, each row once.
#[derive(Debug)]
pub struct ComputedWriteChunkPlan {
    pub sheet_id: SheetId,
    pub col0: u32,
    pub chunk_idx: u64,
    pub chunk_start_row0: u32,
    pub entries: Vec<ComputedWriteChunkEntryPlan>,
    pub shape: ComputedWriteChunkPlanShape,
}

/// What is written to all chunks.
#[derive(Debug)]
pub struct ComputedWriteCoalescingPlan {
    pub chunks: Vec<ComputedWriteChunkPlan>,
    pub input_cells: usize,
    pub coalesced_cells: usize,
    pub overwritten_cells: usize,
}

impl ComputedWriteCoalescingPlan {
    pub fn is_empty(&self) -> (b: bool)
        ensures
            b == (self.chunks@.len() == 0),
    {
        self.chunks.len() == 0
    }
}

/// The entry that wins its row among the first `n`: the one with the largest number, of equal
/// numbers the last.
pub open spec fn winner(entries: Seq<ComputedWriteChunkEntryPlan>, row: usize, n: nat) -> Option<int>
    decreases n,
{
    if n == 0 {
        None
    } else {
        let best = winner(entries, row, (n - 1) as nat);
        if entries[n - 1].row_in_chunk == row && (best is None || entries[n - 1].seq
            >= entries[best->Some_0].seq) {
            Some(n - 1)
        } else {
            best
        }
    }
}

proof fn lemma_winner(entries: Seq<ComputedWriteChunkEntryPlan>, row: usize, n: nat, w: int)
    requires
        n <= entries.len(),
        0 <= w < n,
        entries[w].row_in_chunk == row,
        forall|j: int|
            0 <= j < n && (#[trigger] entries[j]).row_in_chunk == row ==> entries[j].seq
                < entries[w].seq || (entries[j].seq == entries[w].seq && j <= w),
    ensures
        winner(entries, row, n) == Some(w),
    decreases n,
{
    lemma_winner_bounds(entries, row, (n - 1) as nat);
    if w < n - 1 {
        lemma_winner(entries, row, (n - 1) as nat, w);
        assert(entries[n - 1].row_in_chunk == row ==> entries[n - 1].seq < entries[w].seq);
    } else {
        match winner(entries, row, (n - 1) as nat) {
            Some(b) => {
                assert(entries[b].row_in_chunk == row);
            },
            None => {},
        }
    }
}

proof fn lemma_winner_bounds(entries: Seq<ComputedWriteChunkEntryPlan>, row: usize, n: nat)
    requires
        n <= entries.len(),
    ensures
        winner(entries, row, n) matches Some(b) ==> 0 <= b < n && entries[b].row_in_chunk == row,
        winner(entries, row, n) is None <==> forall|j: int|
            0 <= j < n ==> (#[trigger] entries[j]).row_in_chunk != row,
    decreases n,
{
    if n > 0 {
        lemma_winner_bounds(entries, row, (n - 1) as nat);
        if winner(entries, row, n) is None {
            assert forall|j: int| 0 <= j < n implies (#[trigger] entries[j]).row_in_chunk
                != row by {
                if j == n - 1 {
                    assert(winner(entries, row, (n - 1) as nat) is None);
                }
            }
        }
        if forall|j: int| 0 <= j < n ==> (#[trigger] entries[j]).row_in_chunk != row {
            assert(entries[n - 1].row_in_chunk != row);
            assert forall|j: int| 0 <= j < n - 1 implies (#[trigger] entries[j]).row_in_chunk
                != row by {}
        }
    }
}

/// Whether the rows ascend.
pub open spec fn ascending_rows(entries: Seq<ComputedWriteChunkEntryPlan>) -> bool {
    forall|i: int, j: int|
        0 <= i < j < entries.len() ==> (#[trigger] entries[i]).row_in_chunk < (
        #[trigger] entries[j]).row_in_chunk
}

/// Whether `kept` holds, row by row, the entry that wins each row of the group.
pub open spec fn is_coalesced(
    group: Seq<ComputedWriteChunkEntryPlan>,
    kept: Seq<ComputedWriteChunkEntryPlan>,
) -> bool {
    &&& ascending_rows(kept)
    &&& forall|m: int|
        0 <= m < kept.len() ==> {
            let w = winner(group, (#[trigger] kept[m]).row_in_chunk, group.len());
            w is Some && kept[m] == group[w->Some_0]
        }
    &&& forall|i: int|
        0 <= i < group.len() ==> exists|m: int|
            0 <= m < kept.len() && (#[trigger] kept[m]).row_in_chunk == (
            #[trigger] group[i]).row_in_chunk
}

/// How many runs of equal values the entries have: the first entry opens one, and so does every
/// entry whose value differs from the one that opened the run before it.
pub open spec fn runs_and_opener(entries: Seq<ComputedWriteChunkEntryPlan>, n: nat) -> (nat, Option<int>)
    decreases n,
{
    if n == 0 {
        (0, None)
    } else {
        let (runs, opener) = runs_and_opener(entries, (n - 1) as nat);
        match opener {
            Some(o) if overlay_eq(entries[o].value, entries[n - 1].value) => (runs, opener),
            _ => (runs + 1, Some(n - 1)),
        }
    }
}

/// How many runs of equal values the entries have.
pub open spec fn spec_run_count(entries: Seq<ComputedWriteChunkEntryPlan>) -> nat {
    runs_and_opener(entries, entries.len()).0
}

/// The shape of entries whose rows ascend.
pub open spec fn shape_of(entries: Seq<ComputedWriteChunkEntryPlan>) -> ComputedWriteChunkPlanShape {
    let n = entries.len();
    let start = entries[0].row_in_chunk;
    let end = entries[n - 1].row_in_chunk;
    let span = end - start + 1;
    if n == 1 {
        ComputedWriteChunkPlanShape::Point
    } else if span != n {
        ComputedWriteChunkPlanShape::SparseOffsets {
            entries: n as usize,
            span_len: if span <= usize::MAX {
                span as usize
            } else {
                usize::MAX
            },
        }
    } else if spec_run_count(entries) < n {
        ComputedWriteChunkPlanShape::RunRange {
            start,
            len: n as usize,
            runs: spec_run_count(entries) as usize,
        }
    } else {
        ComputedWriteChunkPlanShape::DenseRange { start, len: n as usize }
    }
}

/// Whether no two entries have the same row and number.
pub open spec fn are_distinct(entries: Seq<ComputedWriteChunkEntryPlan>) -> bool {
    forall|i: int, j: int|
        0 <= i < j < entries.len() ==> (#[trigger] entries[i]).row_in_chunk != (
        #[trigger] entries[j]).row_in_chunk || entries[i].seq != entries[j].seq
}

/// The entries at the given places.
pub open spec fn taken_from(entries: Seq<ComputedWriteChunkEntryPlan>, places: Seq<usize>) -> Seq<
    ComputedWriteChunkEntryPlan,
> {
    Seq::new(places.len(), |i: int| entries[places[i] as int])
}

/// The winner of a row has the largest number there.
proof fn lemma_winner_is_largest(entries: Seq<ComputedWriteChunkEntryPlan>, row: usize, n: nat)
    requires
        n <= entries.len(),
    ensures
        winner(entries, row, n) matches Some(w) ==> 0 <= w < n && entries[w].row_in_chunk == row
            && forall|j: int|
            0 <= j < n && (#[trigger] entries[j]).row_in_chunk == row ==> entries[j].seq
                <= entries[w].seq,
    decreases n,
{
    lemma_winner_bounds(entries, row, n);
    if n > 0 {
        lemma_winner_is_largest(entries, row, (n - 1) as nat);
        lemma_winner_bounds(entries, row, (n - 1) as nat);
    }
}

/// What one list keeps is kept by another that holds the same entries.
proof fn lemma_kept_by_both(
    a: Seq<ComputedWriteChunkEntryPlan>,
    x: Seq<ComputedWriteChunkEntryPlan>,
    b: Seq<ComputedWriteChunkEntryPlan>,
    y: Seq<ComputedWriteChunkEntryPlan>,
    i: int,
)
    requires
        are_distinct(b),
        forall|k: int| 0 <= k < a.len() ==> b.contains(#[trigger] a[k]),
        forall|k: int| 0 <= k < b.len() ==> a.contains(#[trigger] b[k]),
        is_coalesced(a, x),
        is_coalesced(b, y),
        0 <= i < x.len(),
    ensures
        y.contains(x[i]),
{
    let row = x[i].row_in_chunk;
    let w = winner(a, row, a.len())->Some_0;
    assert(x[i] == a[w]);
    lemma_winner_is_largest(a, row, a.len());
    assert(b.contains(a[w]));
    let p = choose|p: int| 0 <= p < b.len() && b[p] == a[w];
    assert(b[p].row_in_chunk == row);
    let m = choose|m: int| 0 <= m < y.len() && (#[trigger] y[m]).row_in_chunk == b[p].row_in_chunk;
    let v = winner(b, row, b.len())->Some_0;
    assert(y[m] == b[v]);
    lemma_winner_is_largest(b, row, b.len());
    assert(b[p].seq <= b[v].seq);
    assert(a.contains(b[v]));
    let q = choose|q: int| 0 <= q < a.len() && a[q] == b[v];
    assert(a[q].seq <= a[w].seq);
    if p < v {
        assert(b[p].row_in_chunk != b[v].row_in_chunk || b[p].seq != b[v].seq);
    } else if v < p {
        assert(b[v].row_in_chunk != b[p].row_in_chunk || b[v].seq != b[p].seq);
    }
    assert(y[m] == x[i]);
}

/// Lists with ascending rows that hold the same entries begin alike.
proof fn lemma_same_beginning(
    x: Seq<ComputedWriteChunkEntryPlan>,
    y: Seq<ComputedWriteChunkEntryPlan>,
    n: nat,
)
    requires
        ascending_rows(x),
        ascending_rows(y),
        forall|i: int| 0 <= i < x.len() ==> y.contains(#[trigger] x[i]),
        forall|i: int| 0 <= i < y.len() ==> x.contains(#[trigger] y[i]),
        n <= x.len(),
    ensures
        n <= y.len(),
        forall|i: int| 0 <= i < n ==> #[trigger] x[i] == y[i],
    decreases n,
{
    if n > 0 {
        let k = n - 1;
        lemma_same_beginning(x, y, k as nat);
        assert(y.contains(x[k]));
        let j = choose|j: int| 0 <= j < y.len() && y[j] == x[k];
        if j < k {
            assert(x[j] == y[j]);
            assert(x[j].row_in_chunk < x[k].row_in_chunk);
        }
        if j > k {
            assert(x.contains(y[k]));
            let i = choose|i: int| 0 <= i < x.len() && x[i] == y[k];
            assert(y[k].row_in_chunk < y[j].row_in_chunk);
            if i < k {
                assert(x[i] == y[i]);
                assert(y[i].row_in_chunk < y[k].row_in_chunk);
            }
            if i > k {
                assert(x[k].row_in_chunk < x[i].row_in_chunk);
            }
        }
    }
}

proof fn lemma_same_kept(
    a: Seq<ComputedWriteChunkEntryPlan>,
    x: Seq<ComputedWriteChunkEntryPlan>,
    b: Seq<ComputedWriteChunkEntryPlan>,
    y: Seq<ComputedWriteChunkEntryPlan>,
)
    requires
        are_distinct(a),
        are_distinct(b),
        forall|k: int| 0 <= k < a.len() ==> b.contains(#[trigger] a[k]),
        forall|k: int| 0 <= k < b.len() ==> a.contains(#[trigger] b[k]),
        is_coalesced(a, x),
        is_coalesced(b, y),
    ensures
        x == y,
{
    assert forall|i: int| 0 <= i < x.len() implies y.contains(#[trigger] x[i]) by {
        lemma_kept_by_both(a, x, b, y, i);
    }
    assert forall|i: int| 0 <= i < y.len() implies x.contains(#[trigger] y[i]) by {
        lemma_kept_by_both(b, y, a, x, i);
    }
    lemma_same_beginning(x, y, x.len());
    lemma_same_beginning(y, x, y.len());
    assert(x =~= y);
}

/// The order in which writes to a chunk are given does not matter, as long as no two of them have the
/// same row and number: another list of the same entries keeps the same ones, and so has the same
/// shape and as many overwritten.
pub proof fn grouping_ignores_the_order(
    entries: Seq<ComputedWriteChunkEntryPlan>,
    kept: Seq<ComputedWriteChunkEntryPlan>,
    places: Seq<usize>,
    kept_again: Seq<ComputedWriteChunkEntryPlan>,
)
    requires
        are_distinct(entries),
        is_permutation(places, entries.len()),
        is_coalesced(entries, kept),
        is_coalesced(taken_from(entries, places), kept_again),
    ensures
        kept_again == kept,
        shape_of(kept_again) == shape_of(kept),
        taken_from(entries, places).len() - kept_again.len() == entries.len() - kept.len(),
{
    let b = taken_from(entries, places);
    assert forall|i: int, j: int| 0 <= i < j < b.len() implies (#[trigger] b[i]).row_in_chunk != (
    #[trigger] b[j]).row_in_chunk || b[i].seq != b[j].seq by {
        assert(places[i] != places[j]);
        let (p, q) = (places[i] as int, places[j] as int);
        assert(b[i] == entries[p] && b[j] == entries[q]);
        if p < q {
            assert(entries[p].row_in_chunk != entries[q].row_in_chunk || entries[p].seq
                != entries[q].seq);
        } else {
            assert(entries[q].row_in_chunk != entries[p].row_in_chunk || entries[q].seq
                != entries[p].seq);
        }
    }
    assert forall|k: int| 0 <= k < entries.len() implies b.contains(#[trigger] entries[k]) by {
        lemma_permutation_hits(places, entries.len(), k);
        let i = choose|i: int| 0 <= i < places.len() && #[trigger] places[i] == k;
        assert(b[i] == entries[k]);
    }
    assert forall|k: int| 0 <= k < b.len() implies entries.contains(#[trigger] b[k]) by {
        assert(b[k] == entries[places[k] as int]);
    }
    lemma_same_kept(entries, kept, b, kept_again);
}

/// Grouping the entries of a plan gives them back, with none overwritten.
pub proof fn grouping_again_changes_nothing(
    entries: Seq<ComputedWriteChunkEntryPlan>,
    kept: Seq<ComputedWriteChunkEntryPlan>,
    kept_again: Seq<ComputedWriteChunkEntryPlan>,
)
    requires
        is_coalesced(entries, kept),
        is_coalesced(kept, kept_again),
    ensures
        kept_again == kept,
        shape_of(kept_again) == shape_of(kept),
        kept.len() - kept_again.len() == 0,
{
    assert forall|i: int| 0 <= i < kept.len() implies kept_again.contains(#[trigger] kept[i]) by {
        let m = choose|m: int|
            0 <= m < kept_again.len() && (#[trigger] kept_again[m]).row_in_chunk
                == kept[i].row_in_chunk;
        let w = winner(kept, kept_again[m].row_in_chunk, kept.len())->Some_0;
        lemma_winner_bounds(kept, kept_again[m].row_in_chunk, kept.len());
        if w < i {
            assert(kept[w].row_in_chunk < kept[i].row_in_chunk);
        } else if i < w {
            assert(kept[i].row_in_chunk < kept[w].row_in_chunk);
        }
        assert(kept_again[m] == kept[i]);
    }
    assert forall|i: int| 0 <= i < kept_again.len() implies kept.contains(
        #[trigger] kept_again[i],
    ) by {
        lemma_winner_bounds(kept, kept_again[i].row_in_chunk, kept.len());
    }
    lemma_same_beginning(kept, kept_again, kept.len());
    lemma_same_beginning(kept_again, kept, kept_again.len());
    assert(kept =~= kept_again);
}

spec fn group_keys(entries: Seq<ComputedWriteChunkEntryPlan>) -> Seq<(u64, u64)> {
    Seq::new(entries.len(), |i: int| (entries[i].row_in_chunk as u64, entries[i].seq))
}

impl ComputedWriteChunkPlan {
    /// The plan of one chunk from the writes to it: sorted by row, with one winner per row, and how
    /// many writes lost.
    #[verifier::rlimit(60)]
    #[verifier::spinoff_prover]
    pub fn from_group(
        key: ComputedWriteChunkKey,
        entries: Vec<ComputedWriteChunkEntryPlan>,
    ) -> (r: (ComputedWriteChunkPlan, usize))
        requires
            entries@.len() > 0,
        ensures
            r.0.sheet_id == key.sheet_id,
            r.0.col0 == key.col0,
            r.0.chunk_idx == key.chunk_idx,
            r.0.chunk_start_row0 == key.chunk_start_row0,
            is_coalesced(entries@, r.0.entries@),
            r.0.entries@.len() > 0,
            r.0.shape == shape_of(r.0.entries@),
            r.1 + r.0.entries@.len() == entries@.len(),
    {
        let ghost group = entries@;
        let mut keys: Vec<(u64, u64)> = Vec::new();
        let mut i: usize = 0;
        while i < entries.len()
            invariant
                i <= entries@.len(),
                entries@ == group,
                keys@ == group_keys(group).take(i as int),
            decreases entries@.len() - i,
        {
            keys.push((entries[i].row_in_chunk as u64, entries[i].seq));
            assert(keys@ =~= group_keys(group).take(i + 1));
            i = i + 1;
        }
        assert(keys@ =~= group_keys(group));
        let order = sort_order(&keys);
        let mut kept: Vec<ComputedWriteChunkEntryPlan> = Vec::new();
        let ghost mut places: Seq<int> = Seq::empty();
        let mut k: usize = 0;
        while k < order.len()
            invariant
                k <= order@.len(),
                entries@ == group,
                order@.len() == group.len(),
                is_stable_order(group_keys(group), order@),
                kept@.len() <= k,
                k > 0 ==> kept@.len() > 0,
                places.len() == kept@.len(),
                forall|m: int|
                    0 <= m < places.len() ==> 0 <= (#[trigger] places[m]) < k && kept@[m]
                        == group[order@[places[m]] as int],
                ascending_rows(kept@),
                k > 0 ==> places[places.len() - 1] == k - 1,
                forall|j: int, m: int|
                    0 <= j < k && 0 <= m < kept@.len() && group[(
                    #[trigger] order@[j]) as int].row_in_chunk == (
                    #[trigger] kept@[m]).row_in_chunk ==> j <= places[m],
                forall|j: int|
                    0 <= j < k ==> exists|m: int|
                        0 <= m < kept@.len() && (#[trigger] kept@[m]).row_in_chunk == group[(
                        #[trigger] order@[j]) as int].row_in_chunk,
            decreases order@.len() - k,
        {
            assert(order@[k as int] < group.len());
            let entry = entries[order[k]].duplicate();
            let ghost before = kept@;
            let ghost old_places = places;
            proof {
                if k > 0 {
                    let a = group_keys(group)[order@[k - 1] as int];
                    let b = group_keys(group)[order@[k as int] as int];
                    assert(pair_lt(a, b) || a == b);
                    assert(kept@[kept@.len() - 1] == group[order@[k - 1] as int]);
                }
            }
            let last = kept.len();
            if last > 0 && kept[last - 1].row_in_chunk == entry.row_in_chunk {
                kept.set(last - 1, entry);
                proof {
                    places = places.update(places.len() - 1, k as int);
                    assert forall|j: int| 0 <= j < k + 1 implies exists|m: int|
                        0 <= m < kept@.len() && (#[trigger] kept@[m]).row_in_chunk == group[(
                        #[trigger] order@[j]) as int].row_in_chunk by {
                        if j < k {
                            let m = choose|m: int|
                                0 <= m < before.len() && (#[trigger] before[m]).row_in_chunk
                                    == group[order@[j] as int].row_in_chunk;
                            assert(kept@[m].row_in_chunk == before[m].row_in_chunk);
                        } else {
                            assert(kept@[last - 1].row_in_chunk == entry.row_in_chunk);
                        }
                    }
                    assert forall|j: int, m: int|
                        0 <= j < k + 1 && 0 <= m < kept@.len() && group[(
                        #[trigger] order@[j]) as int].row_in_chunk == (
                        #[trigger] kept@[m]).row_in_chunk implies j <= places[m] by {
                        if m < last - 1 {
                            assert(kept@[m] == before[m]);
                            if j == k {
                                assert(kept@[m].row_in_chunk < kept@[last - 1].row_in_chunk);
                            } else {
                                assert(j <= old_places[m]);
                            }
                        }
                    }
                }
            } else {
                kept.push(entry);
                proof {
                    places = places.push(k as int);
                    assert forall|j: int| 0 <= j < k + 1 implies exists|m: int|
                        0 <= m < kept@.len() && (#[trigger] kept@[m]).row_in_chunk == group[(
                        #[trigger] order@[j]) as int].row_in_chunk by {
                        if j < k {
                            let m = choose|m: int|
                                0 <= m < before.len() && (#[trigger] before[m]).row_in_chunk
                                    == group[order@[j] as int].row_in_chunk;
                            assert(kept@[m] == before[m]);
                        } else {
                            assert(kept@[before.len() as int].row_in_chunk == entry.row_in_chunk);
                        }
                    }
                    assert forall|a: int, b: int| 0 <= a < b < kept@.len() implies (
                    #[trigger] kept@[a]).row_in_chunk < (#[trigger] kept@[b]).row_in_chunk by {
                        assert(kept@[a] == before[a]);
                        if b < before.len() {
                            assert(kept@[b] == before[b]);
                        } else if a < before.len() - 1 {
                            assert(before[a].row_in_chunk
                                < before[before.len() - 1].row_in_chunk);
                        }
                    }
                    assert forall|j: int, m: int|
                        0 <= j < k + 1 && 0 <= m < kept@.len() && group[(
                        #[trigger] order@[j]) as int].row_in_chunk == (
                        #[trigger] kept@[m]).row_in_chunk implies j <= places[m] by {
                        if m < before.len() {
                            assert(kept@[m] == before[m]);
                            if j == k {
                                assert(kept@[m].row_in_chunk
                                    < kept@[before.len() as int].row_in_chunk);
                            } else {
                                assert(j <= old_places[m]);
                            }
                        }
                    }
                }
            }
            k = k + 1;
        }
        proof {
            assert forall|m: int| 0 <= m < kept@.len() implies ({
                let w = winner(group, (#[trigger] kept@[m]).row_in_chunk, group.len());
                w is Some && kept@[m] == group[w->Some_0]
            }) by {
                let place = places[m];
                let w = order@[place] as int;
                assert forall|j: int|
                    0 <= j < group.len() && (#[trigger] group[j]).row_in_chunk
                        == kept@[m].row_in_chunk implies group[j].seq < group[w].seq || (
                group[j].seq == group[w].seq && j <= w) by {
                    lemma_permutation_hits(order@, group.len(), j);
                    let p = choose|p: int| 0 <= p < group.len() && #[trigger] order@[p] == j;
                    assert(group[order@[p] as int].row_in_chunk == kept@[m].row_in_chunk);
                    assert(p <= place);
                    if p < place {
                        let a = group_keys(group)[order@[p] as int];
                        let b = group_keys(group)[order@[place] as int];
                        assert(pair_lt(a, b) || (a == b && order@[p] < order@[place]));
                    }
                }
                lemma_winner(group, kept@[m].row_in_chunk, group.len(), w);
            }
            assert forall|i: int| 0 <= i < group.len() implies exists|m: int|
                0 <= m < kept@.len() && (#[trigger] kept@[m]).row_in_chunk == (
                #[trigger] group[i]).row_in_chunk by {
                lemma_permutation_hits(order@, group.len(), i);
                let p = choose|p: int| 0 <= p < group.len() && #[trigger] order@[p] == i;
                assert(group[order@[p] as int] == group[i]);
            }
        }
        let overwritten = entries.len() - kept.len();
        let shape = Self::classify_shape(&kept);
        (
            ComputedWriteChunkPlan {
                sheet_id: key.sheet_id,
                col0: key.col0,
                chunk_idx: key.chunk_idx,
                chunk_start_row0: key.chunk_start_row0,
                entries: kept,
                shape,
            },
            overwritten,
        )
    }

    /// How the rows lie, for entries whose rows ascend.
    pub fn classify_shape(entries: &Vec<ComputedWriteChunkEntryPlan>) -> (s:
        ComputedWriteChunkPlanShape)
        requires
            entries@.len() > 0,
            ascending_rows(entries@),
        ensures
            s == shape_of(entries@),
    {
        let n = entries.len();
        if n == 1 {
            return ComputedWriteChunkPlanShape::Point;
        }
        assert(entries@[0].row_in_chunk < entries@[n - 1].row_in_chunk);
        let start = entries[0].row_in_chunk;
        let end = entries[n - 1].row_in_chunk;
        let span_len = end.saturating_sub(start).saturating_add(1);
        if span_len != n || end - start == usize::MAX {
            proof {
                if end - start == usize::MAX && span_len == n {
                    lemma_rows_spread(entries@, n - 1);
                }
            }
            return ComputedWriteChunkPlanShape::SparseOffsets { entries: n, span_len };
        }
        let runs = Self::run_count(entries);
        if runs < n {
            ComputedWriteChunkPlanShape::RunRange { start, len: n, runs }
        } else {
            ComputedWriteChunkPlanShape::DenseRange { start, len: n }
        }
    }

    /// How many runs of equal values the entries have.
    pub fn run_count(entries: &Vec<ComputedWriteChunkEntryPlan>) -> (runs: usize)
        ensures
            runs == spec_run_count(entries@),
    {
        let mut runs: usize = 0;
        let mut opener: Option<usize> = None;
        let mut i: usize = 0;
        while i < entries.len()
            invariant
                i <= entries@.len(),
                runs <= i,
                runs == runs_and_opener(entries@, i as nat).0,
                runs_and_opener(entries@, i as nat).1 == (match opener {
                    Some(o) => Some(o as int),
                    None => None,
                }),
                opener matches Some(o) ==> o < i,
            decreases entries@.len() - i,
        {
            let same = match opener {
                Some(o) => entries[o].value.same(&entries[i].value),
                None => false,
            };
            if !same {
                runs = runs + 1;
                opener = Some(i);
            }
            i = i + 1;
        }
        runs
    }
}

proof fn lemma_rows_spread(entries: Seq<ComputedWriteChunkEntryPlan>, j: int)
    requires
        ascending_rows(entries),
        0 <= j < entries.len(),
    ensures
        entries[j].row_in_chunk >= entries[0].row_in_chunk + j,
    decreases j,
{
    if j > 0 {
        lemma_rows_spread(entries, j - 1);
        assert(entries[j - 1].row_in_chunk < entries[j].row_in_chunk);
    }
}

/// How the rows of a sheet are cut into chunks.
#[derive(Debug)]
pub struct SheetLayout {
    pub nrows: u64,
    pub chunk_starts: Vec<u32>,
    pub chunk_rows: u32,
}

/// The chunks begin at the first row, one after the other, and cover the rows.
pub open spec fn layout_ok(l: SheetLayout) -> bool {
    &&& l.chunk_starts@.len() > 0 ==> l.chunk_starts@[0] == 0
    &&& l.chunk_starts@.len() == 0 ==> l.nrows == 0
    &&& forall|i: int, j: int|
        0 <= i < j < l.chunk_starts@.len() ==> (#[trigger] l.chunk_starts@[i]) < (
        #[trigger] l.chunk_starts@[j])
    &&& forall|i: int|
        0 <= i < l.chunk_starts@.len() ==> (#[trigger] l.chunk_starts@[i]) <= l.nrows
    &&& l.chunk_starts@.len() <= 0x1_0000_0000
}

/// How many rows new chunks have.
pub open spec fn chunk_size(l: SheetLayout) -> int {
    if l.chunk_rows == 0 {
        1
    } else {
        l.chunk_rows as int
    }
}

/// The last chunk that begins at or before the row, among the first `n`.
pub open spec fn chunk_with(starts: Seq<u32>, row0: u32, n: nat) -> int
    decreases n,
{
    if n == 0 {
        -1
    } else if starts[n - 1] <= row0 {
        n - 1
    } else {
        chunk_with(starts, row0, (n - 1) as nat)
    }
}

/// Where a row lies: the number of its chunk, the first row of the chunk, and the row within it. A
/// row behind the rows of the sheet lies in the chunk that it gets once the sheet grows.
pub open spec fn located(l: SheetLayout, row0: u32) -> (u64, u32, usize) {
    let n = l.chunk_starts@.len();
    if row0 < l.nrows {
        let c = chunk_with(l.chunk_starts@, row0, n);
        (c as u64, l.chunk_starts@[c], (row0 - l.chunk_starts@[c]) as usize)
    } else if n == 0 {
        let c = row0 as int / chunk_size(l);
        let start = c * chunk_size(l);
        (c as u64, start as u32, (row0 - start) as usize)
    } else {
        let last = l.chunk_starts@[n - 1];
        let steps = (row0 - last) / chunk_size(l);
        let start = last + steps * chunk_size(l);
        ((n - 1 + steps) as u64, start as u32, (row0 - start) as usize)
    }
}

proof fn lemma_chunk_with(starts: Seq<u32>, row0: u32, n: nat)
    requires
        n <= starts.len(),
        n > 0,
        starts[0] == 0,
    ensures
        0 <= chunk_with(starts, row0, n) < n,
        starts[chunk_with(starts, row0, n)] <= row0,
    decreases n,
{
    if starts[n - 1] > row0 {
        lemma_chunk_with(starts, row0, (n - 1) as nat);
    }
}

proof fn lemma_steps(row0: int, last: int, size: int)
    requires
        0 <= last <= row0,
        size >= 1,
    ensures
        0 <= (row0 - last) / size <= row0 - last,
        0 <= (row0 - last) / size * size <= row0 - last,
{
    let d = row0 - last;
    let q = d / size;
    vstd::arithmetic::div_mod::lemma_fundamental_div_mod(d, size);
    vstd::arithmetic::div_mod::lemma_div_pos_is_pos(d, size);
    assert(q * size == size * q) by (nonlinear_arith);
    assert(q <= q * size) by (nonlinear_arith)
        requires
            q >= 0,
            size >= 1,
    ;
    assert(0 <= d % size);
}

/// The first row of a chunk and the place within it add up to the row.
pub proof fn lemma_located(layouts: Map<u16, SheetLayout>, sheet_id: SheetId, row0: u32)
    requires
        layouts_ok(layouts),
    ensures
        layout_of(layouts, sheet_id, row0).1 + layout_of(layouts, sheet_id, row0).2 == row0,
{
    if layouts.contains_key(sheet_id) {
        let l = layouts[sheet_id];
        let n = l.chunk_starts@.len();
        assert(layout_ok(l));
        if n > 0 {
            lemma_chunk_with(l.chunk_starts@, row0, n);
            let last = l.chunk_starts@[n - 1];
            assert(last <= l.nrows);
            if row0 >= l.nrows {
                lemma_steps(row0 as int, last as int, chunk_size(l));
            }
        } else {
            lemma_steps(row0 as int, 0, chunk_size(l));
        }
    }
}

/// Where a row lies among the chunks of its sheet.
pub fn locate_row_in_sheet_for_computed_write_plan(l: &SheetLayout, row0: u32) -> (r: (
    u64,
    u32,
    usize,
))
    requires
        layout_ok(*l),
    ensures
        r == located(*l, row0),
        r.1 + r.2 == row0,
{
    let n = l.chunk_starts.len();
    if (row0 as u64) < l.nrows {
        let mut c: usize = n;
        proof {
            lemma_chunk_with(l.chunk_starts@, row0, n as nat);
        }
        while c > 0 && l.chunk_starts[c - 1] > row0
            invariant
                c <= n,
                n == l.chunk_starts@.len(),
                chunk_with(l.chunk_starts@, row0, n as nat) == chunk_with(
                    l.chunk_starts@,
                    row0,
                    c as nat,
                ),
            decreases c,
        {
            c = c - 1;
        }
        let start = l.chunk_starts[c - 1];
        return ((c - 1) as u64, start, (row0 - start) as usize);
    }
    let size: u32 = if l.chunk_rows == 0 {
        1
    } else {
        l.chunk_rows
    };
    if n == 0 {
        return locate_row_in_empty_sheet_for_computed_write_plan(row0, size);
    }
    let last = l.chunk_starts[n - 1];
    assert(l.chunk_starts@[n - 1] <= l.nrows);
    proof {
        lemma_steps(row0 as int, last as int, size as int);
    }
    let steps = (row0 - last) / size;
    let start = last + steps * size;
    ((n - 1) as u64 + steps as u64, start, (row0 - start) as usize)
}

/// Where a row lies in a sheet without chunks.
pub fn locate_row_in_empty_sheet_for_computed_write_plan(row0: u32, chunk_rows: u32) -> (r: (
    u64,
    u32,
    usize,
))
    ensures
        ({
            let size = if chunk_rows == 0 {
                1
            } else {
                chunk_rows as int
            };
            let c = row0 as int / size;
            r == (c as u64, (c * size) as u32, (row0 - c * size) as usize)
        }),
        r.1 + r.2 == row0,
{
    let size: u32 = if chunk_rows == 0 {
        1
    } else {
        chunk_rows
    };
    proof {
        lemma_steps(row0 as int, 0, size as int);
    }
    let c = row0 / size;
    let start = c * size;
    (c as u64, start, (row0 - start) as usize)
}

/// The number of rows in a chunk of a sheet that has none yet.
pub const DEFAULT_CHUNK_ROWS: u32 = 32768;

/// The layout of a sheet; one without storage is cut into chunks of the default size.
pub open spec fn layout_of(layouts: Map<u16, SheetLayout>, sheet_id: SheetId, row0: u32) -> (
    u64,
    u32,
    usize,
) {
    if layouts.contains_key(sheet_id) {
        located(layouts[sheet_id], row0)
    } else {
        let c = row0 as int / 32768;
        (c as u64, (c * 32768) as u32, (row0 - c * 32768) as usize)
    }
}

pub open spec fn layouts_ok(layouts: Map<u16, SheetLayout>) -> bool {
    forall|s: u16| #[trigger] layouts.contains_key(s) ==> layout_ok(layouts[s])
}

pub fn locate_computed_write_chunk(
    layouts: &FxHashMap<u16, SheetLayout>,
    sheet_id: SheetId,
    row0: u32,
) -> (r: (u64, u32, usize))
    requires
        layouts_ok(layouts@),
    ensures
        r == layout_of(layouts@, sheet_id, row0),
        r.1 + r.2 == row0,
{
    match map_get(layouts, &sheet_id) {
        Some(l) => {
            assert(layouts@.contains_key(sheet_id));
            locate_row_in_sheet_for_computed_write_plan(l, row0)
        },
        None => locate_row_in_empty_sheet_for_computed_write_plan(row0, DEFAULT_CHUNK_ROWS),
    }
}

/// A write of one cell, with the number of the write it belongs to.
#[derive(Debug)]
pub struct FlatWrite {
    pub cell: CellRef,
    pub seq: u64,
    pub value: OverlayValue,
}

/// `a + b`, stopping at the largest index.
pub open spec fn index_sum(a: u32, b: int) -> u32 {
    if a + b <= u32::MAX {
        (a + b) as u32
    } else {
        u32::MAX
    }
}

/// The writes of the first `n` values of one row of a rectangle.
pub open spec fn flat_row(
    seq: u64,
    sheet_id: SheetId,
    row0: u32,
    sc0: u32,
    values: Seq<OverlayValue>,
) -> Seq<FlatWrite> {
    Seq::new(
        values.len(),
        |c: int|
            FlatWrite {
                cell: CellRef { sheet_id, row: row0, col: index_sum(sc0, c) },
                seq,
                value: values[c],
            },
    )
}

/// The writes of the first `n` rows of a rectangle, row by row.
pub open spec fn flat_rows(
    seq: u64,
    sheet_id: SheetId,
    sr0: u32,
    sc0: u32,
    rows: Seq<Vec<OverlayValue>>,
    n: nat,
) -> Seq<FlatWrite>
    decreases n,
{
    if n == 0 {
        Seq::empty()
    } else {
        flat_rows(seq, sheet_id, sr0, sc0, rows, (n - 1) as nat) + flat_row(
            seq,
            sheet_id,
            index_sum(sr0, n - 1),
            sc0,
            rows[n - 1]@,
        )
    }
}

/// The cells that a write writes.
pub open spec fn flat_one(w: ComputedWrite) -> Seq<FlatWrite> {
    match w {
        ComputedWrite::Cell { seq, sheet_id, row0, col0, value } => seq![
            FlatWrite { cell: CellRef { sheet_id, row: row0, col: col0 }, seq, value },
        ],
        ComputedWrite::Rect { seq, sheet_id, sr0, sc0, values } => flat_rows(
            seq,
            sheet_id,
            sr0,
            sc0,
            values@,
            values@.len(),
        ),
    }
}

/// The cells that the first `n` writes write, in order.
pub open spec fn flat(writes: Seq<ComputedWrite>, n: nat) -> Seq<FlatWrite>
    decreases n,
{
    if n == 0 {
        Seq::empty()
    } else {
        flat(writes, (n - 1) as nat) + flat_one(writes[n - 1])
    }
}

fn stopping_index(a: u32, b: usize) -> (r: u32)
    ensures
        r == index_sum(a, b as int),
{
    if b <= (u32::MAX - a) as usize {
        a + b as u32
    } else {
        u32::MAX
    }
}

/// The single cells of all writes, in order.
pub fn flatten_writes(writes: &Vec<ComputedWrite>) -> (r: Vec<FlatWrite>)
    ensures
        r@ == flat(writes@, writes@.len()),
{
    let mut out: Vec<FlatWrite> = Vec::new();
    let mut i: usize = 0;
    while i < writes.len()
        invariant
            i <= writes@.len(),
            out@ == flat(writes@, i as nat),
        decreases writes@.len() - i,
    {
        let ghost before = out@;
        match &writes[i] {
            ComputedWrite::Cell { seq, sheet_id, row0, col0, value } => {
                out.push(
                    FlatWrite {
                        cell: CellRef { sheet_id: *sheet_id, row: *row0, col: *col0 },
                        seq: *seq,
                        value: value.duplicate(),
                    },
                );
                assert(out@ =~= before + flat_one(writes@[i as int]));
            },
            ComputedWrite::Rect { seq, sheet_id, sr0, sc0, values } => {
                let mut r: usize = 0;
                assert(before + flat_rows(*seq, *sheet_id, *sr0, *sc0, values@, 0) =~= before);
                while r < values.len()
                    invariant
                        r <= values@.len(),
                        out@ == before + flat_rows(
                            *seq,
                            *sheet_id,
                            *sr0,
                            *sc0,
                            values@,
                            r as nat,
                        ),
                    decreases values@.len() - r,
                {
                    let row = &values[r];
                    let row0 = stopping_index(*sr0, r);
                    let ghost start = out@;
                    let ghost goal = flat_row(*seq, *sheet_id, row0, *sc0, row@);
                    let mut c: usize = 0;
                    assert(start + goal.take(0) =~= start);
                    while c < row.len()
                        invariant
                            c <= row@.len(),
                            goal == flat_row(*seq, *sheet_id, row0, *sc0, row@),
                            out@ == start + goal.take(c as int),
                        decreases row@.len() - c,
                    {
                        let item = FlatWrite {
                            cell: CellRef {
                                sheet_id: *sheet_id,
                                row: row0,
                                col: stopping_index(*sc0, c),
                            },
                            seq: *seq,
                            value: row[c].duplicate(),
                        };
                        assert(goal[c as int] == item);
                        out.push(item);
                        assert(out@ =~= start + goal.take(c + 1));
                        c = c + 1;
                    }
                    assert(goal.take(c as int) =~= goal);
                    proof {
                        let done = flat_rows(*seq, *sheet_id, *sr0, *sc0, values@, r as nat);
                        assert((before + done) + goal =~= before + (done + goal));
                    }
                    r = r + 1;
                }
            },
        }
        i = i + 1;
    }
    out
}

/// The chunk that a write of one cell goes to.
pub open spec fn key_of(layouts: Map<u16, SheetLayout>, w: FlatWrite) -> ComputedWriteChunkKey {
    let at = layout_of(layouts, w.cell.sheet_id, w.cell.row);
    ComputedWriteChunkKey {
        sheet_id: w.cell.sheet_id,
        col0: w.cell.col,
        chunk_idx: at.0,
        chunk_start_row0: at.1,
    }
}

/// The entry that a write of one cell makes in its chunk.
pub open spec fn entry_of(layouts: Map<u16, SheetLayout>, w: FlatWrite) -> ComputedWriteChunkEntryPlan {
    ComputedWriteChunkEntryPlan {
        row_in_chunk: layout_of(layouts, w.cell.sheet_id, w.cell.row).2,
        seq: w.seq,
        value: w.value,
    }
}

/// The entries of the first `n` writes that go to the chunk, in order.
pub open spec fn group_of(
    layouts: Map<u16, SheetLayout>,
    writes: Seq<FlatWrite>,
    key: ComputedWriteChunkKey,
    n: nat,
) -> Seq<ComputedWriteChunkEntryPlan>
    decreases n,
{
    if n == 0 {
        Seq::empty()
    } else {
        let before = group_of(layouts, writes, key, (n - 1) as nat);
        if key_of(layouts, writes[n - 1]) == key {
            before.push(entry_of(layouts, writes[n - 1]))
        } else {
            before
        }
    }
}

/// The order of chunks: by sheet, column, number and first row.
pub open spec fn chunk_lt(a: ComputedWriteChunkKey, b: ComputedWriteChunkKey) -> bool {
    a.sheet_id < b.sheet_id || (a.sheet_id == b.sheet_id && (a.col0 < b.col0 || (a.col0 == b.col0 && (
    a.chunk_idx < b.chunk_idx || (a.chunk_idx == b.chunk_idx && a.chunk_start_row0
        < b.chunk_start_row0)))))
}

pub open spec fn plan_key(p: ComputedWriteChunkPlan) -> ComputedWriteChunkKey {
    ComputedWriteChunkKey {
        sheet_id: p.sheet_id,
        col0: p.col0,
        chunk_idx: p.chunk_idx,
        chunk_start_row0: p.chunk_start_row0,
    }
}

/// Whether the plan of a chunk is the coalesced form of the writes to it.
pub open spec fn plans_chunk(
    layouts: Map<u16, SheetLayout>,
    writes: Seq<FlatWrite>,
    p: ComputedWriteChunkPlan,
) -> bool {
    let group = group_of(layouts, writes, plan_key(p), writes.len());
    &&& group.len() > 0
    &&& p.entries@.len() > 0
    &&& is_coalesced(group, p.entries@)
    &&& p.shape == shape_of(p.entries@)
}

/// How many entries the first `n` chunks have.
pub open spec fn entry_total(chunks: Seq<ComputedWriteChunkPlan>, n: nat) -> nat
    decreases n,
{
    if n == 0 {
        0
    } else {
        entry_total(chunks, (n - 1) as nat) + chunks[n - 1].entries@.len()
    }
}

/// Whether the plan coalesces exactly these writes: the chunks ascend, each holds the winners of
/// its rows, every write has its chunk, and the counts add up.
pub open spec fn is_plan_of(
    layouts: Map<u16, SheetLayout>,
    writes: Seq<FlatWrite>,
    plan: ComputedWriteCoalescingPlan,
) -> bool {
    let chunks = plan.chunks@;
    &&& forall|i: int, j: int|
        0 <= i < j < chunks.len() ==> chunk_lt(
            plan_key(#[trigger] chunks[i]),
            plan_key(#[trigger] chunks[j]),
        )
    &&& forall|c: int| 0 <= c < chunks.len() ==> plans_chunk(layouts, writes, #[trigger] chunks[c])
    &&& forall|i: int|
        0 <= i < writes.len() ==> exists|c: int|
            0 <= c < chunks.len() && plan_key(#[trigger] chunks[c]) == key_of(
                layouts,
                #[trigger] writes[i],
            )
    &&& plan.input_cells == writes.len()
    &&& plan.coalesced_cells == entry_total(chunks, chunks.len())
    &&& plan.overwritten_cells == plan.input_cells - plan.coalesced_cells
}

struct ChunkGroup {
    key: ComputedWriteChunkKey,
    entries: Vec<ComputedWriteChunkEntryPlan>,
}

spec fn group_number(key: ComputedWriteChunkKey) -> int {
    (key.sheet_id * 0x1_0000_0000 + key.col0) * 0x1_0000_0000_0000_0000 + key.chunk_idx
}

proof fn lemma_group_number(a: ComputedWriteChunkKey, b: ComputedWriteChunkKey)
    ensures
        group_number(a) == group_number(b) ==> a.sheet_id == b.sheet_id && a.col0 == b.col0
            && a.chunk_idx == b.chunk_idx,
        0 <= group_number(a) < 0x1_0000_0000_0000_0000_0000_0000_0000_0000,
{
}

/// The first row of a chunk follows from its number.
proof fn lemma_start_from_number(layouts: Map<u16, SheetLayout>, sheet_id: SheetId, a: u32, b: u32)
    requires
        layouts_ok(layouts),
        layout_of(layouts, sheet_id, a).0 == layout_of(layouts, sheet_id, b).0,
    ensures
        layout_of(layouts, sheet_id, a).1 == layout_of(layouts, sheet_id, b).1,
{
    if layouts.contains_key(sheet_id) {
        let l = layouts[sheet_id];
        let n = l.chunk_starts@.len();
        let size = chunk_size(l);
        assert(layout_ok(l));
        if n > 0 {
            let last = l.chunk_starts@[n - 1];
            assert(last <= l.nrows);
            lemma_chunk_with(l.chunk_starts@, a, n);
            lemma_chunk_with(l.chunk_starts@, b, n);
            let p = (a - last) / size;
            let q = (b - last) / size;
            if a >= l.nrows {
                lemma_steps(a as int, last as int, size);
                assert(located(l, a).0 == n - 1 + p);
            }
            if b >= l.nrows {
                lemma_steps(b as int, last as int, size);
                assert(located(l, b).0 == n - 1 + q);
            }
            if a >= l.nrows && b >= l.nrows {
                assert(p == q);
            } else if a >= l.nrows {
                assert(p == 0);
                assert(p * size == 0) by (nonlinear_arith)
                    requires
                        p == 0,
                ;
            } else if b >= l.nrows {
                assert(q == 0);
                assert(q * size == 0) by (nonlinear_arith)
                    requires
                        q == 0,
                ;
            }
        } else {
            lemma_steps(a as int, 0, size);
            lemma_steps(b as int, 0, size);
            let p = a as int / size;
            let q = b as int / size;
            assert(located(l, a).0 == p);
            assert(located(l, b).0 == q);
            assert(p == q);
        }
    }
}

proof fn lemma_group_pushed(
    layouts: Map<u16, SheetLayout>,
    writes: Seq<FlatWrite>,
    key: ComputedWriteChunkKey,
    n: nat,
)
    requires
        n < writes.len(),
    ensures
        group_of(layouts, writes, key, n + 1) == (if key_of(layouts, writes[n as int]) == key {
            group_of(layouts, writes, key, n).push(entry_of(layouts, writes[n as int]))
        } else {
            group_of(layouts, writes, key, n)
        }),
{
}

proof fn lemma_no_group(
    layouts: Map<u16, SheetLayout>,
    writes: Seq<FlatWrite>,
    key: ComputedWriteChunkKey,
    n: nat,
)
    requires
        n <= writes.len(),
        forall|i: int| 0 <= i < n ==> key_of(layouts, #[trigger] writes[i]) != key,
    ensures
        group_of(layouts, writes, key, n).len() == 0,
    decreases n,
{
    if n > 0 {
        assert(key_of(layouts, writes[n - 1]) != key);
        lemma_no_group(layouts, writes, key, (n - 1) as nat);
    }
}

/// How many entries the first `n` groups have.
spec fn group_total(groups: Seq<ChunkGroup>) -> nat
    decreases groups.len(),
{
    if groups.len() == 0 {
        0
    } else {
        group_total(groups.drop_last()) + groups.last().entries@.len()
    }
}

proof fn lemma_group_total_update(groups: Seq<ChunkGroup>, g: int, other: ChunkGroup)
    requires
        0 <= g < groups.len(),
    ensures
        group_total(groups.update(g, other)) == group_total(groups) - groups[g].entries@.len()
            + other.entries@.len(),
        group_total(groups) >= groups[g].entries@.len(),
    decreases groups.len(),
{
    let changed = groups.update(g, other);
    if g == groups.len() - 1 {
        assert(changed.drop_last() =~= groups.drop_last());
    } else {
        assert(changed.drop_last() =~= groups.drop_last().update(g, other));
        lemma_group_total_update(groups.drop_last(), g, other);
    }
}

/// Sorts the writes into the chunks that they go to.
#[verifier::rlimit(60)]
fn group_writes(layouts: &FxHashMap<u16, SheetLayout>, writes: &Vec<FlatWrite>) -> (groups: Vec<
    ChunkGroup,
>)
    requires
        layouts_ok(layouts@),
    ensures
        forall|g: int|
            0 <= g < groups@.len() ==> (#[trigger] groups@[g]).entries@ == group_of(
                layouts@,
                writes@,
                groups@[g].key,
                writes@.len(),
            ) && groups@[g].entries@.len() > 0,
        forall|g: int, h: int|
            0 <= g < h < groups@.len() ==> group_number((#[trigger] groups@[g]).key)
                != group_number((#[trigger] groups@[h]).key),
        forall|i: int|
            0 <= i < writes@.len() ==> exists|g: int|
                0 <= g < groups@.len() && (#[trigger] groups@[g]).key == key_of(
                    layouts@,
                    #[trigger] writes@[i],
                ),
        group_total(groups@) == writes@.len(),
{
    let mut groups: Vec<ChunkGroup> = Vec::new();
    let mut index: FxHashMap<u128, usize> = FxHashMap::default();
    let mut i: usize = 0;
    while i < writes.len()
        invariant
            i <= writes@.len(),
            layouts_ok(layouts@),
            forall|g: int|
                0 <= g < groups@.len() ==> (#[trigger] groups@[g]).entries@ == group_of(
                    layouts@,
                    writes@,
                    groups@[g].key,
                    i as nat,
                ) && groups@[g].entries@.len() > 0,
            forall|g: int, h: int|
                0 <= g < h < groups@.len() ==> group_number((#[trigger] groups@[g]).key)
                    != group_number((#[trigger] groups@[h]).key),
            forall|j: int|
                0 <= j < i ==> exists|g: int|
                    0 <= g < groups@.len() && (#[trigger] groups@[g]).key == key_of(
                        layouts@,
                        #[trigger] writes@[j],
                    ),
            forall|g: int|
                0 <= g < groups@.len() ==> exists|j: int|
                    0 <= j < i && (#[trigger] groups@[g]).key == key_of(
                        layouts@,
                        #[trigger] writes@[j],
                    ),
            forall|k: u128| #[trigger]
                index@.contains_key(k) ==> index@[k] < groups@.len() && group_number(
                    groups@[index@[k] as int].key,
                ) == k,
            forall|g: int|
                0 <= g < groups@.len() ==> index@.contains_key(
                    group_number((#[trigger] groups@[g]).key) as u128,
                ) && index@[group_number(groups@[g].key) as u128] == g,
            group_total(groups@) == i,
        decreases writes@.len() - i,
    {
        let w = &writes[i];
        let at = locate_computed_write_chunk(layouts, w.cell.sheet_id, w.cell.row);
        let key = ComputedWriteChunkKey {
            sheet_id: w.cell.sheet_id,
            col0: w.cell.col,
            chunk_idx: at.0,
            chunk_start_row0: at.1,
        };
        assert(key == key_of(layouts@, writes@[i as int]));
        let number = (key.sheet_id as u128 * 0x1_0000_0000 + key.col0 as u128)
            * 0x1_0000_0000_0000_0000 + key.chunk_idx as u128;
        assert(number == group_number(key));
        let entry = ComputedWriteChunkEntryPlan {
            row_in_chunk: at.2,
            seq: w.seq,
            value: w.value.duplicate(),
        };
        assert(entry == entry_of(layouts@, writes@[i as int]));
        let ghost before = groups@;
        let ghost old_index = index@;
        let place = match map_get(&index, &number) {
            Some(g) => Some(*g),
            None => None,
        };
        match place {
            Some(g) => {
                proof {
                    lemma_group_number(key, groups@[g as int].key);
                    let j = choose|j: int|
                        0 <= j < i && (#[trigger] groups@[g as int]).key == key_of(
                            layouts@,
                            #[trigger] writes@[j],
                        );
                    lemma_start_from_number(
                        layouts@,
                        key.sheet_id,
                        writes@[i as int].cell.row,
                        writes@[j].cell.row,
                    );
                    assert(groups@[g as int].key == key);
                }
                groups[g].entries.push(entry);
                proof {
                    assert(groups@.len() == before.len());
                    assert(groups@ =~= before.update(g as int, groups@[g as int]));
                    lemma_group_total_update(before, g as int, groups@[g as int]);
                    assert(groups@[g as int].key == key);
                    assert forall|h: int| 0 <= h < groups@.len() implies (
                    #[trigger] groups@[h]).entries@ == group_of(
                        layouts@,
                        writes@,
                        groups@[h].key,
                        (i + 1) as nat,
                    ) && groups@[h].entries@.len() > 0 by {
                        lemma_group_pushed(layouts@, writes@, groups@[h].key, i as nat);
                        if h != g {
                            assert(groups@[h] == before[h]);
                            if h < g {
                                assert(group_number(before[h].key) != group_number(
                                    before[g as int].key,
                                ));
                            } else {
                                assert(group_number(before[g as int].key) != group_number(
                                    before[h].key,
                                ));
                            }
                        }
                    }
                    assert forall|j: int| 0 <= j < i + 1 implies exists|h: int|
                        0 <= h < groups@.len() && (#[trigger] groups@[h]).key == key_of(
                            layouts@,
                            #[trigger] writes@[j],
                        ) by {
                        if j < i {
                            let h = choose|h: int|
                                0 <= h < before.len() && (#[trigger] before[h]).key == key_of(
                                    layouts@,
                                    writes@[j],
                                );
                            assert(groups@[h].key == before[h].key);
                        } else {
                            assert(groups@[g as int].key == key_of(layouts@, writes@[j]));
                        }
                    }
                    assert forall|h: int| 0 <= h < groups@.len() implies exists|j: int|
                        0 <= j < i + 1 && (#[trigger] groups@[h]).key == key_of(
                            layouts@,
                            #[trigger] writes@[j],
                        ) by {
                        assert(groups@[h].key == before[h].key);
                        let j = choose|j: int|
                            0 <= j < i && (#[trigger] before[h]).key == key_of(
                                layouts@,
                                #[trigger] writes@[j],
                            );
                        assert(groups@[h].key == key_of(layouts@, writes@[j]));
                    }
                    assert forall|h: int, m: int|
                        0 <= h < m < groups@.len() implies group_number(
                        (#[trigger] groups@[h]).key,
                    ) != group_number((#[trigger] groups@[m]).key) by {
                        assert(groups@[h].key == before[h].key);
                        assert(groups@[m].key == before[m].key);
                    }
                    assert forall|h: int| 0 <= h < groups@.len() implies index@.contains_key(
                        group_number((#[trigger] groups@[h]).key) as u128,
                    ) && index@[group_number(groups@[h].key) as u128] == h by {
                        assert(groups@[h].key == before[h].key);
                    }
                    assert forall|k: u128| #[trigger] index@.contains_key(k) implies index@[k]
                        < groups@.len() && group_number(groups@[index@[k] as int].key) == k by {
                        assert(groups@[index@[k] as int].key == before[index@[k] as int].key);
                    }
                }
            },
            None => {
                proof {
                    assert forall|j: int| 0 <= j < i implies key_of(
                        layouts@,
                        #[trigger] writes@[j],
                    ) != key by {
                        let h = choose|h: int|
                            0 <= h < before.len() && (#[trigger] before[h]).key == key_of(
                                layouts@,
                                writes@[j],
                            );
                        assert(index@.contains_key(group_number(before[h].key) as u128));
                    }
                    lemma_no_group(layouts@, writes@, key, i as nat);
                }
                let n = groups.len();
                let mut entries: Vec<ComputedWriteChunkEntryPlan> = Vec::new();
                entries.push(entry);
                groups.push(ChunkGroup { key, entries });
                map_insert(&mut index, number, n);
                proof {
                    assert(groups@.drop_last() =~= before);
                    lemma_group_pushed(layouts@, writes@, key, i as nat);
                    assert(groups@[n as int].entries@ =~= group_of(
                        layouts@,
                        writes@,
                        key,
                        (i + 1) as nat,
                    ));
                    assert forall|h: int| 0 <= h < groups@.len() implies (
                    #[trigger] groups@[h]).entries@ == group_of(
                        layouts@,
                        writes@,
                        groups@[h].key,
                        (i + 1) as nat,
                    ) && groups@[h].entries@.len() > 0 by {
                        lemma_group_pushed(layouts@, writes@, groups@[h].key, i as nat);
                        if h < n {
                            assert(groups@[h] == before[h]);
                            assert(index@.contains_key(group_number(before[h].key) as u128));
                            assert(before[h].key != key);
                        }
                    }
                    assert forall|j: int| 0 <= j < i + 1 implies exists|h: int|
                        0 <= h < groups@.len() && (#[trigger] groups@[h]).key == key_of(
                            layouts@,
                            #[trigger] writes@[j],
                        ) by {
                        if j < i {
                            let h = choose|h: int|
                                0 <= h < before.len() && (#[trigger] before[h]).key == key_of(
                                    layouts@,
                                    writes@[j],
                                );
                            assert(groups@[h] == before[h]);
                        } else {
                            assert(groups@[n as int].key == key_of(layouts@, writes@[j]));
                        }
                    }
                    assert forall|h: int| 0 <= h < groups@.len() implies exists|j: int|
                        0 <= j < i + 1 && (#[trigger] groups@[h]).key == key_of(
                            layouts@,
                            #[trigger] writes@[j],
                        ) by {
                        if h < n {
                            assert(groups@[h] == before[h]);
                            let j = choose|j: int|
                                0 <= j < i && (#[trigger] before[h]).key == key_of(
                                    layouts@,
                                    #[trigger] writes@[j],
                                );
                            assert(groups@[h].key == key_of(layouts@, writes@[j]));
                        } else {
                            assert(groups@[h].key == key_of(layouts@, writes@[i as int]));
                        }
                    }
                    assert forall|h: int, m: int|
                        0 <= h < m < groups@.len() implies group_number(
                        (#[trigger] groups@[h]).key,
                    ) != group_number((#[trigger] groups@[m]).key) by {
                        assert(groups@[h] == before[h]);
                        if m < n {
                            assert(groups@[m] == before[m]);
                        } else {
                            assert(old_index.contains_key(group_number(before[h].key) as u128));
                            lemma_group_number(before[h].key, key);
                        }
                    }
                    assert forall|h: int| 0 <= h < groups@.len() implies index@.contains_key(
                        group_number((#[trigger] groups@[h]).key) as u128,
                    ) && index@[group_number(groups@[h].key) as u128] == h by {
                        if h < n {
                            assert(groups@[h] == before[h]);
                            assert(old_index.contains_key(group_number(before[h].key) as u128));
                        }
                    }
                    assert forall|k: u128| #[trigger] index@.contains_key(k) implies index@[k]
                        < groups@.len() && group_number(groups@[index@[k] as int].key) == k by {
                        if k != number {
                            assert(old_index.contains_key(k));
                            assert(groups@[index@[k] as int] == before[index@[k] as int]);
                        }
                    }
                }
            },
        }
        i = i + 1;
    }
    groups
}

spec fn sort_keys(groups: Seq<ChunkGroup>) -> Seq<(u64, u64)> {
    Seq::new(
        groups.len(),
        |g: int|
            (
                (groups[g].key.sheet_id * 0x1_0000_0000 + groups[g].key.col0) as u64,
                groups[g].key.chunk_idx,
            ),
    )
}

/// The entries of the groups at the first `n` places of the order, added up.
spec fn ordered_total(groups: Seq<ChunkGroup>, order: Seq<usize>, n: nat) -> nat
    decreases n,
{
    if n == 0 {
        0
    } else {
        ordered_total(groups, order, (n - 1) as nat) + groups[order[n - 1] as int].entries@.len()
    }
}

/// However they are ordered, the groups have the same number of entries.
proof fn lemma_ordered_total(groups: Seq<ChunkGroup>, order: Seq<usize>, used: Seq<bool>, n: nat)
    requires
        is_permutation(order, groups.len()),
        used.len() == groups.len(),
        n <= groups.len(),
        forall|g: int|
            0 <= g < groups.len() ==> (#[trigger] used[g] <==> exists|k: int|
                0 <= k < n && #[trigger] order[k] == g),
    ensures
        ordered_total(groups, order, n) == used_total(groups, used),
    decreases n,
{
    if n == 0 {
        assert forall|g: int| 0 <= g < groups.len() implies !#[trigger] used[g] by {}
        lemma_none_used(groups, used);
    } else {
        let last = order[n - 1] as int;
        let fewer = used.update(last, false);
        assert forall|g: int| 0 <= g < groups.len() implies (#[trigger] fewer[g] <==> exists|k: int|
            0 <= k < n - 1 && #[trigger] order[k] == g) by {
            if g == last {
                assert forall|k: int| 0 <= k < n - 1 implies #[trigger] order[k] != last by {
                    assert(order[k] != order[n - 1]);
                }
            } else {
                if used[g] {
                    let k = choose|k: int| 0 <= k < n && #[trigger] order[k] == g;
                    assert(k != n - 1);
                    assert(order[k] == g);
                }
            }
        }
        lemma_ordered_total(groups, order, fewer, (n - 1) as nat);
        assert(used[last]) by {
            assert(order[n - 1] == last);
        }
        lemma_one_more_used(groups, fewer, used, last);
    }
}

/// The entries of the used groups, added up.
spec fn used_total(groups: Seq<ChunkGroup>, used: Seq<bool>) -> nat
    decreases groups.len(),
{
    if groups.len() == 0 {
        0
    } else {
        used_total(groups.drop_last(), used.drop_last()) + (if used.last() {
            groups.last().entries@.len()
        } else {
            0
        })
    }
}

proof fn lemma_none_used(groups: Seq<ChunkGroup>, used: Seq<bool>)
    requires
        used.len() == groups.len(),
        forall|g: int| 0 <= g < groups.len() ==> !#[trigger] used[g],
    ensures
        used_total(groups, used) == 0,
    decreases groups.len(),
{
    if groups.len() > 0 {
        assert(!used[groups.len() - 1]);
        lemma_none_used(groups.drop_last(), used.drop_last());
    }
}

proof fn lemma_one_more_used(groups: Seq<ChunkGroup>, fewer: Seq<bool>, used: Seq<bool>, g: int)
    requires
        used.len() == groups.len(),
        0 <= g < groups.len(),
        used[g],
        fewer == used.update(g, false),
    ensures
        used_total(groups, used) == used_total(groups, fewer) + groups[g].entries@.len(),
    decreases groups.len(),
{
    if g == groups.len() - 1 {
        assert(fewer.drop_last() =~= used.drop_last());
    } else {
        assert(fewer.drop_last() =~= used.drop_last().update(g, false));
        lemma_one_more_used(
            groups.drop_last(),
            fewer.drop_last(),
            used.drop_last(),
            g,
        );
    }
}

proof fn lemma_all_used(groups: Seq<ChunkGroup>, used: Seq<bool>)
    requires
        used.len() == groups.len(),
        forall|g: int| 0 <= g < groups.len() ==> #[trigger] used[g],
    ensures
        used_total(groups, used) == group_total(groups),
    decreases groups.len(),
{
    if groups.len() > 0 {
        assert(used[groups.len() - 1]);
        lemma_all_used(groups.drop_last(), used.drop_last());
    }
}

fn copy_entries(entries: &Vec<ComputedWriteChunkEntryPlan>) -> (r: Vec<ComputedWriteChunkEntryPlan>)
    ensures
        r@ == entries@,
{
    let mut out: Vec<ComputedWriteChunkEntryPlan> = Vec::new();
    let mut i: usize = 0;
    while i < entries.len()
        invariant
            i <= entries@.len(),
            out@ == entries@.take(i as int),
        decreases entries@.len() - i,
    {
        out.push(entries[i].duplicate());
        assert(out@ =~= entries@.take(i + 1));
        i = i + 1;
    }
    assert(entries@.take(i as int) =~= entries@);
    out
}

/// The plan that coalesces single-cell writes.
pub fn plan_flat_writes(layouts: &FxHashMap<u16, SheetLayout>, writes: &Vec<FlatWrite>) -> (plan:
    ComputedWriteCoalescingPlan)
    requires
        layouts_ok(layouts@),
    ensures
        is_plan_of(layouts@, writes@, plan),
{
    let groups = group_writes(layouts, writes);
    let mut keys: Vec<(u64, u64)> = Vec::new();
    let mut g: usize = 0;
    while g < groups.len()
        invariant
            g <= groups@.len(),
            keys@ == sort_keys(groups@).take(g as int),
        decreases groups@.len() - g,
    {
        let key = groups[g].key;
        keys.push((key.sheet_id as u64 * 0x1_0000_0000 + key.col0 as u64, key.chunk_idx));
        assert(keys@ =~= sort_keys(groups@).take(g + 1));
        g = g + 1;
    }
    assert(keys@ =~= sort_keys(groups@));
    let order = sort_order(&keys);
    let input_cells = writes.len();
    let mut chunks: Vec<ComputedWriteChunkPlan> = Vec::new();
    let mut coalesced_cells: usize = 0;
    let mut overwritten_cells: usize = 0;
    let mut k: usize = 0;
    while k < order.len()
        invariant
            k <= order@.len(),
            order@.len() == groups@.len(),
            is_stable_order(sort_keys(groups@), order@),
            forall|g: int|
                0 <= g < groups@.len() ==> (#[trigger] groups@[g]).entries@ == group_of(
                    layouts@,
                    writes@,
                    groups@[g].key,
                    writes@.len(),
                ) && groups@[g].entries@.len() > 0,
            group_total(groups@) == writes@.len(),
            input_cells == writes@.len(),
            chunks@.len() == k,
            forall|c: int|
                0 <= c < k ==> plan_key(#[trigger] chunks@[c]) == groups@[order@[c] as int].key
                    && plans_chunk(layouts@, writes@, chunks@[c]),
            coalesced_cells == entry_total(chunks@, k as nat),
            coalesced_cells + overwritten_cells == ordered_total(groups@, order@, k as nat),
            ordered_total(groups@, order@, k as nat) <= writes@.len(),
        decreases order@.len() - k,
    {
        assert(order@[k as int] < groups@.len());
        let group = &groups[order[k]];
        let (chunk, overwritten) = ComputedWriteChunkPlan::from_group(
            group.key,
            copy_entries(&group.entries),
        );
        proof {
            lemma_ordered_bound(groups@, order@, (k + 1) as nat);
        }
        let ghost before = chunks@;
        coalesced_cells = coalesced_cells + chunk.entries.len();
        overwritten_cells = overwritten_cells + overwritten;
        chunks.push(chunk);
        proof {
            lemma_entry_total_prefix(before, chunks@, k as nat);
        }
        k = k + 1;
    }
    let plan = ComputedWriteCoalescingPlan {
        chunks,
        input_cells,
        coalesced_cells,
        overwritten_cells,
    };
    proof {
        lemma_ordered_all(groups@, order@);
        assert forall|i: int, j: int| 0 <= i < j < plan.chunks@.len() implies chunk_lt(
            plan_key(#[trigger] plan.chunks@[i]),
            plan_key(#[trigger] plan.chunks@[j]),
        ) by {
            let a = order@[i] as int;
            let b = order@[j] as int;
            let x = sort_keys(groups@)[a];
            let y = sort_keys(groups@)[b];
            assert(pair_lt(x, y) || (x == y && order@[i] < order@[j]));
            if a < b {
                assert(group_number(groups@[a].key) != group_number(groups@[b].key));
            } else {
                assert(group_number(groups@[b].key) != group_number(groups@[a].key));
            }
        }
        assert forall|i: int| 0 <= i < writes@.len() implies exists|c: int|
            0 <= c < plan.chunks@.len() && plan_key(#[trigger] plan.chunks@[c]) == key_of(
                layouts@,
                #[trigger] writes@[i],
            ) by {
            let g = choose|g: int|
                0 <= g < groups@.len() && (#[trigger] groups@[g]).key == key_of(
                    layouts@,
                    writes@[i],
                );
            lemma_permutation_hits(order@, groups@.len(), g);
            let c = choose|c: int| 0 <= c < groups@.len() && #[trigger] order@[c] == g;
            assert(plan_key(plan.chunks@[c]) == groups@[order@[c] as int].key);
        }
    }
    plan
}

proof fn lemma_entry_total_prefix(
    a: Seq<ComputedWriteChunkPlan>,
    b: Seq<ComputedWriteChunkPlan>,
    n: nat,
)
    requires
        n <= a.len(),
        n <= b.len(),
        forall|i: int| 0 <= i < n ==> a[i] == #[trigger] b[i],
    ensures
        entry_total(a, n) == entry_total(b, n),
    decreases n,
{
    if n > 0 {
        assert(a[n - 1] == b[n - 1]);
        lemma_entry_total_prefix(a, b, (n - 1) as nat);
    }
}

proof fn lemma_ordered_bound(groups: Seq<ChunkGroup>, order: Seq<usize>, n: nat)
    requires
        is_permutation(order, groups.len()),
        n <= groups.len(),
    ensures
        ordered_total(groups, order, n) <= group_total(groups),
{
    let used = Seq::new(
        groups.len(),
        |g: int| exists|k: int| 0 <= k < n && #[trigger] order[k] == g,
    );
    lemma_ordered_total(groups, order, used, n);
    lemma_used_bound(groups, used);
}

proof fn lemma_used_bound(groups: Seq<ChunkGroup>, used: Seq<bool>)
    requires
        used.len() == groups.len(),
    ensures
        used_total(groups, used) <= group_total(groups),
    decreases groups.len(),
{
    if groups.len() > 0 {
        lemma_used_bound(groups.drop_last(), used.drop_last());
    }
}

proof fn lemma_ordered_all(groups: Seq<ChunkGroup>, order: Seq<usize>)
    requires
        is_permutation(order, groups.len()),
    ensures
        ordered_total(groups, order, groups.len()) == group_total(groups),
{
    let used = Seq::new(groups.len(), |g: int| true);
    assert forall|g: int| 0 <= g < groups.len() implies (#[trigger] used[g] <==> exists|k: int|
        0 <= k < groups.len() && #[trigger] order[k] == g) by {
        lemma_permutation_hits(order, groups.len(), g);
    }
    lemma_ordered_total(groups, order, used, groups.len());
    lemma_all_used(groups, used);
}

/// The plan that coalesces buffered writes.
pub fn plan_computed_write_coalescing_from_writes(
    layouts: &FxHashMap<u16, SheetLayout>,
    writes: &Vec<ComputedWrite>,
) -> (plan: ComputedWriteCoalescingPlan)
    requires
        layouts_ok(layouts@),
    ensures
        is_plan_of(layouts@, flat(writes@, writes@.len()), plan),
{
    let cells = flatten_writes(writes);
    plan_flat_writes(layouts, &cells)
}

/// How the plan of a chunk is written.
#[derive(Clone, Copy, Debug, PartialEq, Eq, Structural)]
pub enum FlushMode {
    Points,
    SparseFragmentOrPoints,
    DenseFragment,
    RunFragment,
}

/// Whether a run encoding pays: at most half as many runs as rows.
pub fn should_emit_computed_run_fragment(len: usize, runs: usize) -> (b: bool)
    ensures
        b == (runs <= len / 2),
{
    runs <= len / 2
}

/// How a chunk with the shape is written.
pub fn flush_mode(shape: &ComputedWriteChunkPlanShape) -> (m: FlushMode)
    ensures
        m == (match *shape {
            ComputedWriteChunkPlanShape::Point => FlushMode::Points,
            ComputedWriteChunkPlanShape::SparseOffsets { .. } => FlushMode::SparseFragmentOrPoints,
            ComputedWriteChunkPlanShape::DenseRange { .. } => FlushMode::DenseFragment,
            ComputedWriteChunkPlanShape::RunRange { len, runs, .. } => if runs <= len / 2 {
                FlushMode::RunFragment
            } else {
                FlushMode::DenseFragment
            },
        }),
{
    match shape {
        ComputedWriteChunkPlanShape::Point => FlushMode::Points,
        ComputedWriteChunkPlanShape::SparseOffsets { .. } => FlushMode::SparseFragmentOrPoints,
        ComputedWriteChunkPlanShape::DenseRange { .. } => FlushMode::DenseFragment,
        ComputedWriteChunkPlanShape::RunRange { len, runs, .. } => {
            if should_emit_computed_run_fragment(*len, *runs) {
                FlushMode::RunFragment
            } else {
                FlushMode::DenseFragment
            }
        },
    }
}

/// What the entries of a chunk take when they are written one by one.
pub open spec fn points_bytes(entries: Seq<ComputedWriteChunkEntryPlan>, n: nat) -> usize
    decreases n,
{
    if n == 0 {
        0
    } else {
        sum_stopping(points_bytes(entries, (n - 1) as nat), entry_bytes(entries[n - 1].value))
    }
}

pub fn computed_write_chunk_plan_point_estimate(chunk: &ComputedWriteChunkPlan) -> (n: usize)
    ensures
        n == points_bytes(chunk.entries@, chunk.entries@.len()),
{
    let mut total: usize = 0;
    let mut i: usize = 0;
    while i < chunk.entries.len()
        invariant
            i <= chunk.entries@.len(),
            total == points_bytes(chunk.entries@, i as nat),
        decreases chunk.entries@.len() - i,
    {
        total = total.saturating_add(
            ComputedWriteBuffer::estimate_value_bytes(&chunk.entries[i].value),
        );
        i = i + 1;
    }
    total
}

/// Of several writes to one row, the one with the largest number wins, and among equal numbers the last.
pub proof fn the_last_write_wins(entries: Seq<ComputedWriteChunkEntryPlan>, row: usize, n: nat, i: int)
    requires
        n <= entries.len(),
        0 <= i < n,
        entries[i].row_in_chunk == row,
    ensures
        winner(entries, row, n) matches Some(w) && 0 <= w < n && entries[w].row_in_chunk == row && (
        entries[i].seq < entries[w].seq || (entries[i].seq == entries[w].seq && i <= w)),
    decreases n,
{
    if i < n - 1 {
        the_last_write_wins(entries, row, (n - 1) as nat, i);
    } else if winner(entries, row, (n - 1) as nat) is Some {
        lemma_winner_is_there(entries, row, (n - 1) as nat);
    }
}

proof fn lemma_winner_is_there(entries: Seq<ComputedWriteChunkEntryPlan>, row: usize, n: nat)
    requires
        n <= entries.len(),
    ensures
        winner(entries, row, n) matches Some(w) ==> 0 <= w < n && entries[w].row_in_chunk == row,
    decreases n,
{
    if n > 0 {
        lemma_winner_is_there(entries, row, (n - 1) as nat);
    }
}

/// The shape of a chunk's entries: one entry is a point; entries with gaps are sparse; entries without
/// gaps are a range, of runs where values repeat.
pub proof fn shapes_follow_the_rows(entries: Seq<ComputedWriteChunkEntryPlan>)
    requires
        ascending_rows(entries),
        0 < entries.len() <= usize::MAX,
    ensures
        ({
            let n = entries.len();
            let span = entries[n - 1].row_in_chunk - entries[0].row_in_chunk + 1;
            let shape = shape_of(entries);
            &&& shape is Point <==> n == 1
            &&& shape is SparseOffsets <==> n > 1 && span != n
            &&& shape matches ComputedWriteChunkPlanShape::SparseOffsets { entries: e, span_len } ==> e == n && (
            span <= usize::MAX ==> span_len == span)
            &&& shape matches ComputedWriteChunkPlanShape::RunRange { start, len, runs } ==> start
                == entries[0].row_in_chunk && len == n && runs < n && span == n
            &&& shape matches ComputedWriteChunkPlanShape::DenseRange { start, len } ==> start
                == entries[0].row_in_chunk && len == n && span == n
        }),
        entries.len() == 2 && entries[0].row_in_chunk + 1 == entries[1].row_in_chunk ==> (overlay_eq(
            entries[0].value,
            entries[1].value,
        ) <==> shape_of(entries) is RunRange),
{
    reveal_with_fuel(runs_and_opener, 3);
}

/// A rectangle is written cell by cell: the value in row r and column c of it to the cell r rows below
/// and c columns right of its corner.
pub proof fn rectangles_are_written_cell_by_cell(
    seq: u64,
    sheet_id: SheetId,
    sr0: u32,
    sc0: u32,
    rows: Seq<Vec<OverlayValue>>,
    n: nat,
    r: int,
    c: int,
)
    requires
        n <= rows.len(),
        0 <= r < n,
        0 <= c < rows[r]@.len(),
        sr0 + r <= u32::MAX,
        sc0 + c <= u32::MAX,
    ensures
        flat_rows(seq, sheet_id, sr0, sc0, rows, n).contains(
            FlatWrite {
                cell: CellRef { sheet_id, row: (sr0 + r) as u32, col: (sc0 + c) as u32 },
                seq,
                value: rows[r]@[c],
            },
        ),
    decreases n,
{
    let before = flat_rows(seq, sheet_id, sr0, sc0, rows, (n - 1) as nat);
    let more = flat_row(seq, sheet_id, index_sum(sr0, n - 1), sc0, rows[n - 1]@);
    let w = FlatWrite {
        cell: CellRef { sheet_id, row: (sr0 + r) as u32, col: (sc0 + c) as u32 },
        seq,
        value: rows[r]@[c],
    };
    if r < n - 1 {
        rectangles_are_written_cell_by_cell(seq, sheet_id, sr0, sc0, rows, (n - 1) as nat, r, c);
        let k = choose|k: int| 0 <= k < before.len() && before[k] == w;
        assert((before + more)[k] == w);
    } else {
        assert(more[c] == w);
        assert((before + more)[before.len() + c] == w);
    }
}

/// Nothing is written but the values of the rectangle.
pub proof fn rectangles_write_nothing_else(
    seq: u64,
    sheet_id: SheetId,
    sr0: u32,
    sc0: u32,
    rows: Seq<Vec<OverlayValue>>,
    n: nat,
    k: int,
)
    requires
        n <= rows.len(),
        0 <= k < flat_rows(seq, sheet_id, sr0, sc0, rows, n).len(),
    ensures
        ({
            let w = flat_rows(seq, sheet_id, sr0, sc0, rows, n)[k];
            &&& w.seq == seq && w.cell.sheet_id == sheet_id
            &&& exists|r: int, c: int|
                0 <= r < n && 0 <= c < rows[r]@.len() && w.value == #[trigger] rows[r]@[c] && (sr0 + r
                    <= u32::MAX ==> w.cell.row == sr0 + r) && (sc0 + c <= u32::MAX ==> w.cell.col == sc0 + c)
        }),
    decreases n,
{
    let before = flat_rows(seq, sheet_id, sr0, sc0, rows, (n - 1) as nat);
    if k < before.len() {
        rectangles_write_nothing_else(seq, sheet_id, sr0, sc0, rows, (n - 1) as nat, k);
    } else {
        let (r, c) = (n - 1, k - before.len());
        assert(flat_rows(seq, sheet_id, sr0, sc0, rows, n)[k].value == rows[r]@[c]);
    }
}

/// A row lies in its chunk: the chunk begins at or before the row, which lies as many rows behind the
/// beginning as its place in the chunk says, and before the next chunk.
pub proof fn rows_lie_in_their_chunks(l: SheetLayout, row0: u32, c: int)
    requires
        layout_ok(l),
        row0 < l.nrows,
        0 <= c < l.chunk_starts@.len(),
    ensures
        ({
            let (index, start, place) = located(l, row0);
            &&& index < l.chunk_starts@.len() && start == l.chunk_starts@[index as int] && start + place == row0
            &&& l.chunk_starts@[c] <= row0 ==> c <= index
        }),
{
    lemma_chunk_with(l.chunk_starts@, row0, l.chunk_starts@.len());
    if l.chunk_starts@[c] <= row0 {
        lemma_chunk_is_last(l.chunk_starts@, row0, l.chunk_starts@.len(), c);
    }
    assert(l.chunk_starts@[0] == 0);
    lemma_chunk_is_last(l.chunk_starts@, row0, l.chunk_starts@.len(), 0);
}

proof fn lemma_chunk_is_last(starts: Seq<u32>, row0: u32, n: nat, c: int)
    requires
        n <= starts.len(),
        0 <= c < n,
        starts[c] <= row0,
    ensures
        c <= chunk_with(starts, row0, n) < n,
        starts[chunk_with(starts, row0, n)] <= row0,
    decreases n,
{
    if !(starts[n - 1] <= row0) {
        lemma_chunk_is_last(starts, row0, (n - 1) as nat, c);
    }
}

/// A sheet without a layout has chunks of equal size.
pub proof fn sheets_without_layout_have_equal_chunks(layouts: Map<u16, SheetLayout>, sheet_id: SheetId, row0: u32)
    requires
        !layouts.contains_key(sheet_id),
    ensures
        ({
            let (index, start, place) = layout_of(layouts, sheet_id, row0);
            &&& place < 32768
            &&& start == index * 32768
            &&& start + place == row0
        }),
{
}

/// Chunks are ordered by their sheet, then by their column, and in a column from the top down.
pub proof fn chunks_are_ordered_by_sheet_column_and_place(a: ComputedWriteChunkKey, b: ComputedWriteChunkKey)
    ensures
        a.sheet_id < b.sheet_id ==> chunk_lt(a, b) && !chunk_lt(b, a),
        a.sheet_id == b.sheet_id && a.col0 < b.col0 ==> chunk_lt(a, b) && !chunk_lt(b, a),
        a.sheet_id == b.sheet_id && a.col0 == b.col0 && a.chunk_idx < b.chunk_idx ==> chunk_lt(a, b)
            && !chunk_lt(b, a),
        a.sheet_id == b.sheet_id && a.col0 == b.col0 && a.chunk_idx == b.chunk_idx && a.chunk_start_row0
            < b.chunk_start_row0 ==> chunk_lt(a, b) && !chunk_lt(b, a),
        !chunk_lt(a, a),
{
}

/// A write belongs to the chunk of its sheet and column that its row lies in, at its place there, with
/// its number and its value.
pub proof fn writes_belong_to_the_chunk_of_their_row(layouts: Map<u16, SheetLayout>, w: FlatWrite)
    requires
        layouts_ok(layouts),
    ensures
        key_of(layouts, w).sheet_id == w.cell.sheet_id,
        key_of(layouts, w).col0 == w.cell.col,
        key_of(layouts, w).chunk_start_row0 + entry_of(layouts, w).row_in_chunk == w.cell.row,
        entry_of(layouts, w).seq == w.seq,
        entry_of(layouts, w).value == w.value,
{
    lemma_located(layouts, w.cell.sheet_id, w.cell.row);
}

/// A group holds every write of its chunk, and not more entries than there are writes.
pub proof fn a_group_holds_the_writes_of_its_chunk(
    layouts: Map<u16, SheetLayout>,
    writes: Seq<FlatWrite>,
    key: ComputedWriteChunkKey,
    n: nat,
    i: int,
)
    requires
        n <= writes.len(),
        0 <= i < n,
    ensures
        key_of(layouts, writes[i]) == key ==> group_of(layouts, writes, key, n).contains(
            entry_of(layouts, writes[i]),
        ),
        group_of(layouts, writes, key, n).len() <= n,
    decreases n,
{
    let before = group_of(layouts, writes, key, (n - 1) as nat);
    let all = group_of(layouts, writes, key, n);
    lemma_group_is_no_longer(layouts, writes, key, (n - 1) as nat);
    if i < n - 1 {
        a_group_holds_the_writes_of_its_chunk(layouts, writes, key, (n - 1) as nat, i);
        if key_of(layouts, writes[i]) == key {
            let k = choose|k: int| 0 <= k < before.len() && before[k] == entry_of(layouts, writes[i]);
            assert(all[k] == before[k]);
        }
    } else if key_of(layouts, writes[i]) == key {
        assert(all[before.len() as int] == entry_of(layouts, writes[i]));
    }
}

proof fn lemma_group_is_no_longer(
    layouts: Map<u16, SheetLayout>,
    writes: Seq<FlatWrite>,
    key: ComputedWriteChunkKey,
    n: nat,
)
    requires
        n <= writes.len(),
    ensures
        group_of(layouts, writes, key, n).len() <= n,
    decreases n,
{
    if n > 0 {
        lemma_group_is_no_longer(layouts, writes, key, (n - 1) as nat);
    }
}

} // verus!
