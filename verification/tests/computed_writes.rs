use formualizer_eval::computed_write::{
    ComputedWriteBuffer, ComputedWriteChunkEntryPlan, ComputedWriteChunkKey, ComputedWriteChunkPlan,
    ComputedWriteChunkPlanShape, FlushMode, SheetLayout,
    computed_write_chunk_plan_point_estimate, flush_mode, locate_computed_write_chunk,
    locate_row_in_empty_sheet_for_computed_write_plan, locate_row_in_sheet_for_computed_write_plan,
    plan_computed_write_coalescing_from_writes, should_emit_computed_run_fragment, should_flush_computed_write_buffer,
};
use formualizer_eval::coord::CellRef;
use formualizer_eval::flush::flush_computed_write_buffer;
use formualizer_eval::overlay::OverlayValue;
use formualizer_eval::store::CellStore;
use formualizer_eval::value::LiteralValue;
use rustc_hash::FxHashMap;

fn num(x: f64) -> OverlayValue {
    OverlayValue::Number(x.to_bits())
}

fn no_layouts() -> FxHashMap<u16, SheetLayout> {
    FxHashMap::default()
}

fn shape_of(rows: &[(u32, f64)]) -> ComputedWriteChunkPlanShape {
    let mut b = ComputedWriteBuffer::new();
    for (r, v) in rows {
        b.push_cell(1, *r, 0, num(*v));
    }
    let plan = plan_computed_write_coalescing_from_writes(&no_layouts(), b.writes());
    assert_eq!(plan.chunks.len(), 1);
    plan.chunks[0].shape
}

#[test]
fn the_buffer_numbers_its_writes_and_counts_bytes() {
    let mut b = ComputedWriteBuffer::new();
    assert!(b.is_empty());
    b.push_cell(1, 0, 0, num(1.0));
    b.push_cell(1, 1, 0, OverlayValue::Text("abc".to_string()));
    b.push_rect(1, 2, 0, vec![vec![num(1.0), num(2.0)], vec![num(3.0)]]);
    assert_eq!(b.len(), 3);
    assert_eq!(b.estimated_bytes(), 32 + 35 + 3 * 32);
    let seqs: Vec<u64> = b.writes().iter().map(|w| w.seq()).collect();
    assert_eq!(seqs, vec![0, 1, 2]);
    let taken = b.take_writes();
    assert_eq!(taken.len(), 3);
    assert!(b.is_empty());
    assert_eq!(b.estimated_bytes(), 0);
}

#[test]
fn the_buffer_is_flushed_before_the_budget_is_passed() {
    let mut b = ComputedWriteBuffer::new();
    b.push_cell(1, 0, 0, num(1.0));
    assert!(!should_flush_computed_write_buffer(None, usize::MAX, &b));
    assert!(!should_flush_computed_write_buffer(Some(0), 100, &b));
    assert!(!should_flush_computed_write_buffer(Some(132), 100, &b));
    assert!(should_flush_computed_write_buffer(Some(131), 100, &b));
}

#[test]
fn shapes_follow_the_rows_and_values() {
    assert_eq!(shape_of(&[(4, 1.0)]), ComputedWriteChunkPlanShape::Point);
    assert_eq!(
        shape_of(&[(4, 1.0), (8, 2.0)]),
        ComputedWriteChunkPlanShape::SparseOffsets { entries: 2, span_len: 5 }
    );
    assert_eq!(
        shape_of(&[(4, 1.0), (5, 2.0), (6, 3.0)]),
        ComputedWriteChunkPlanShape::DenseRange { start: 4, len: 3 }
    );
    assert_eq!(
        shape_of(&[(4, 1.0), (5, 1.0), (6, 3.0), (7, 3.0)]),
        ComputedWriteChunkPlanShape::RunRange { start: 4, len: 4, runs: 2 }
    );
}

#[test]
fn flush_modes_follow_the_shapes() {
    assert_eq!(flush_mode(&ComputedWriteChunkPlanShape::Point), FlushMode::Points);
    assert_eq!(
        flush_mode(&ComputedWriteChunkPlanShape::SparseOffsets { entries: 2, span_len: 5 }),
        FlushMode::SparseFragmentOrPoints
    );
    assert_eq!(
        flush_mode(&ComputedWriteChunkPlanShape::DenseRange { start: 0, len: 3 }),
        FlushMode::DenseFragment
    );
    assert_eq!(
        flush_mode(&ComputedWriteChunkPlanShape::RunRange { start: 0, len: 4, runs: 2 }),
        FlushMode::RunFragment
    );
    assert_eq!(
        flush_mode(&ComputedWriteChunkPlanShape::RunRange { start: 0, len: 4, runs: 3 }),
        FlushMode::DenseFragment
    );
    assert!(should_emit_computed_run_fragment(5, 2));
    assert!(!should_emit_computed_run_fragment(5, 3));
}

#[test]
fn rows_are_located_in_chunks() {
    assert_eq!(locate_row_in_empty_sheet_for_computed_write_plan(25, 10), (2, 20, 5));
    assert_eq!(locate_row_in_empty_sheet_for_computed_write_plan(3, 0), (3, 3, 0));
    let l = SheetLayout { nrows: 40, chunk_starts: vec![0, 10, 30], chunk_rows: 10 };
    assert_eq!(locate_row_in_sheet_for_computed_write_plan(&l, 0), (0, 0, 0));
    assert_eq!(locate_row_in_sheet_for_computed_write_plan(&l, 29), (1, 10, 19));
    assert_eq!(locate_row_in_sheet_for_computed_write_plan(&l, 30), (2, 30, 0));
    assert_eq!(locate_row_in_sheet_for_computed_write_plan(&l, 39), (2, 30, 9));
    assert_eq!(locate_row_in_sheet_for_computed_write_plan(&l, 55), (4, 50, 5));
    assert_eq!(locate_computed_write_chunk(&no_layouts(), 1, 32768), (1, 32768, 0));
}

#[test]
fn later_writes_win_in_a_plan() {
    let mut b = ComputedWriteBuffer::new();
    b.push_rect(1, 0, 0, vec![vec![num(1.0), num(2.0)], vec![num(3.0), num(4.0)]]);
    b.push_cell(1, 1, 1, num(9.0));
    b.push_cell(2, 0, 0, num(5.0));
    let plan = plan_computed_write_coalescing_from_writes(&no_layouts(), b.writes());
    assert_eq!(plan.input_cells, 6);
    assert_eq!(plan.coalesced_cells, 5);
    assert_eq!(plan.overwritten_cells, 1);
    let keys: Vec<(u16, u32, u64)> = plan.chunks.iter().map(|c| (c.sheet_id, c.col0, c.chunk_idx)).collect();
    assert_eq!(keys, vec![(1, 0, 0), (1, 1, 0), (2, 0, 0)]);
    let second: &ComputedWriteChunkPlan = &plan.chunks[1];
    assert_eq!(second.entries.len(), 2);
    assert!(second.entries[1].value.same(&num(9.0)));
    assert_eq!(second.entries[1].seq, 1);
    assert_eq!(computed_write_chunk_plan_point_estimate(second), 64);
}

#[test]
fn flushing_comes_to_the_same_as_writing_one_by_one() {
    let mut b = ComputedWriteBuffer::new();
    let mut direct = CellStore::new(None);
    let mut flushed = CellStore::new(None);
    let writes = [(5u32, 0u32, 1.0), (0, 0, 2.0), (5, 0, 3.0), (40000, 2, 4.0), (1, 1, 5.0), (1, 1, 6.0)];
    for (r, c, v) in writes {
        b.push_cell(1, r, c, num(v));
        direct.write_computed_overlay_value_0based(CellRef { sheet_id: 1, row: r, col: c }, num(v));
    }
    flush_computed_write_buffer(&mut flushed, &no_layouts(), &mut b);
    assert!(b.is_empty());
    for (r, c, _) in writes {
        let cell = CellRef { sheet_id: 1, row: r, col: c };
        assert!(direct.read_cell(cell).same(&flushed.read_cell(cell)));
    }
    let five = flushed.read_cell(CellRef { sheet_id: 1, row: 5, col: 0 });
    assert!(five.same(&LiteralValue::Number(3.0f64.to_bits())));
    assert_eq!(direct.extent(1), flushed.extent(1));
}

fn entry(row_in_chunk: usize, seq: u64, x: f64) -> ComputedWriteChunkEntryPlan {
    ComputedWriteChunkEntryPlan { row_in_chunk, seq, value: num(x) }
}

fn plain(p: &ComputedWriteChunkPlan) -> Vec<(usize, u64)> {
    p.entries.iter().map(|e| (e.row_in_chunk, e.seq)).collect()
}

#[test]
fn grouping_ignores_the_order_and_is_final() {
    let key = ComputedWriteChunkKey { sheet_id: 1, col0: 0, chunk_idx: 0, chunk_start_row0: 0 };
    let (p, lost) = ComputedWriteChunkPlan::from_group(key, vec![entry(3, 0, 1.0), entry(1, 1, 2.0), entry(3, 2, 3.0)]);
    assert_eq!((plain(&p), lost), (vec![(1, 1), (3, 2)], 1));
    let (q, lost) = ComputedWriteChunkPlan::from_group(key, vec![entry(3, 2, 3.0), entry(3, 0, 1.0), entry(1, 1, 2.0)]);
    assert_eq!((plain(&q), lost), (plain(&p), 1));
    assert_eq!(q.shape, p.shape);
    let shape = p.shape;
    let (again, lost) = ComputedWriteChunkPlan::from_group(key, p.entries);
    assert_eq!((plain(&again), lost), (plain(&q), 0));
    assert_eq!(again.shape, shape);
}

#[test]
fn a_flush_empties_the_buffer_and_keeps_the_budget() {
    let mut store = CellStore::new(Some(70));
    let mut b = ComputedWriteBuffer::new();
    for r in 0..4 {
        b.push_cell(1, r, 2, num(1.0));
    }
    flush_computed_write_buffer(&mut store, &no_layouts(), &mut b);
    assert!(b.is_empty());
    assert_eq!(b.estimated_bytes(), 0);
    assert!(store.overlay_memory_usage() <= 70);
    let extent = store.extent(1).unwrap();
    assert_eq!((extent.rows, extent.cols), (4, 3));
}
