//! The used part of a sheet: which rows and columns hold anything.
use crate::coord::{CellRef, SheetId, cell_key, key_cell, keys_name_their_cells, cells_name_their_keys, spec_cell_key, spec_key_cell};
use crate::fx::{map_get, map_insert};
use crate::overlay::{Lane, OverlayValue, keyed_by_cells};
use crate::store::{CellStore, StoreView};
use crate::vertex::{VertexKind, is_formula};
use rustc_hash::FxHashMap;
use vstd::prelude::*;

verus! {

/// The two ends of a span of indices.
pub type Bounds = (u32, u32);

/// Whether the bounds are the smallest and the largest index of the set; an empty set has none.
pub open spec fn is_hull(set: Set<u32>, bounds: Option<Bounds>) -> bool {
    match bounds {
        None => forall|i: u32| !(#[trigger] set.contains(i)),
        Some((low, high)) => {
            &&& set.contains(low)
            &&& set.contains(high)
            &&& forall|i: u32| #[trigger] set.contains(i) ==> low <= i <= high
        },
    }
}

/// The bounds of a set of indices.
pub open spec fn hull(set: Set<u32>) -> Option<Bounds> {
    choose|bounds: Option<Bounds>| is_hull(set, bounds)
}

/// A set has no two different bounds.
pub proof fn lemma_hull_is_unique(set: Set<u32>, a: Option<Bounds>, b: Option<Bounds>)
    requires
        is_hull(set, a),
        is_hull(set, b),
    ensures
        a == b,
{
    match (a, b) {
        (Some(x), Some(y)) => {
            assert(set.contains(x.0) && set.contains(x.1) && set.contains(y.0) && set.contains(y.1));
        },
        (Some(x), None) => {
            assert(set.contains(x.0));
        },
        (None, Some(y)) => {
            assert(set.contains(y.0));
        },
        _ => {},
    }
}

proof fn lemma_hull(set: Set<u32>, bounds: Option<Bounds>)
    requires
        is_hull(set, bounds),
    ensures
        hull(set) == bounds,
{
    lemma_hull_is_unique(set, hull(set), bounds);
}

/// The bounds that also cover the index.
pub open spec fn widened(bounds: Option<Bounds>, i: u32) -> Option<Bounds> {
    match bounds {
        None => Some((i, i)),
        Some((low, high)) => Some(
            (
                if i < low {
                    i
                } else {
                    low
                },
                if i > high {
                    i
                } else {
                    high
                },
            ),
        ),
    }
}

fn widen(bounds: Option<Bounds>, i: u32) -> (r: Option<Bounds>)
    ensures
        r == widened(bounds, i),
{
    match bounds {
        None => Some((i, i)),
        Some((low, high)) => {
            let l = if i < low {
                i
            } else {
                low
            };
            let h = if i > high {
                i
            } else {
                high
            };
            Some((l, h))
        },
    }
}

proof fn lemma_widened(set: Set<u32>, bounds: Option<Bounds>, i: u32)
    requires
        is_hull(set, bounds),
    ensures
        is_hull(set.insert(i), widened(bounds, i)),
{
    assert(set.insert(i).contains(i));
}

/// The bounds of what is bounded by the one or the other.
pub fn union_used_bounds(first: Option<Bounds>, second: Option<Bounds>) -> (r: Option<Bounds>)
    ensures
        r == union_of(first, second),
{
    match (first, second) {
        (Some((a0, b0)), Some((a1, b1))) => {
            let a = if a0 < a1 {
                a0
            } else {
                a1
            };
            let b = if b0 > b1 {
                b0
            } else {
                b1
            };
            Some((a, b))
        },
        (Some(bounds), None) => Some(bounds),
        (None, Some(bounds)) => Some(bounds),
        (None, None) => None,
    }
}

pub open spec fn union_of(first: Option<Bounds>, second: Option<Bounds>) -> Option<Bounds> {
    match (first, second) {
        (Some((a0, b0)), Some((a1, b1))) => Some(
            (
                if a0 < a1 {
                    a0
                } else {
                    a1
                },
                if b0 > b1 {
                    b0
                } else {
                    b1
                },
            ),
        ),
        (Some(bounds), None) => Some(bounds),
        (None, Some(bounds)) => Some(bounds),
        (None, None) => None,
    }
}

/// The union of two bounds is the bounds of the union.
pub proof fn the_union_bounds_both(a: Set<u32>, b: Set<u32>, first: Option<Bounds>, second: Option<Bounds>)
    requires
        is_hull(a, first),
        is_hull(b, second),
    ensures
        is_hull(a.union(b), union_of(first, second)),
{
    let u = a.union(b);
    match (first, second) {
        (Some(x), Some(y)) => {
            assert(u.contains(x.0) && u.contains(x.1) && u.contains(y.0) && u.contains(y.1));
        },
        (Some(x), None) => {
            assert(u.contains(x.0) && u.contains(x.1));
        },
        (None, Some(y)) => {
            assert(u.contains(y.0) && u.contains(y.1));
        },
        _ => {},
    }
}

/// Whether a lane holds something other than an empty value for the cell.
pub open spec fn lane_uses(lane: Map<u128, OverlayValue>, cell: CellRef) -> bool {
    lane.contains_key(spec_cell_key(cell)) && lane[spec_cell_key(cell)] != OverlayValue::Empty
}

/// The rows in which a lane uses one of the columns.
pub open spec fn lane_rows(lane: Map<u128, OverlayValue>, sheet_id: SheetId, low: u32, high: u32) -> Set<u32> {
    Set::new(
        |row: u32|
            exists|col: u32| low <= col <= high && #[trigger] lane_uses(
                lane,
                CellRef { sheet_id, row, col },
            ),
    )
}

/// The columns in which a lane uses one of the rows.
pub open spec fn lane_cols(lane: Map<u128, OverlayValue>, sheet_id: SheetId, low: u32, high: u32) -> Set<u32> {
    Set::new(
        |col: u32|
            exists|row: u32| low <= row <= high && #[trigger] lane_uses(
                lane,
                CellRef { sheet_id, row, col },
            ),
    )
}

/// The rows of the first `n` entries that use one of the columns.
spec fn entry_rows(entries: Seq<(u128, OverlayValue)>, sheet_id: SheetId, low: u32, high: u32, n: nat) -> Set<u32>
    decreases n,
{
    if n == 0 {
        Set::empty()
    } else {
        let before = entry_rows(entries, sheet_id, low, high, (n - 1) as nat);
        let cell = spec_key_cell(entries[n - 1].0);
        if cell.sheet_id == sheet_id && low <= cell.col <= high && entries[n - 1].1
            != OverlayValue::Empty {
            before.insert(cell.row)
        } else {
            before
        }
    }
}

spec fn entry_cols(entries: Seq<(u128, OverlayValue)>, sheet_id: SheetId, low: u32, high: u32, n: nat) -> Set<u32>
    decreases n,
{
    if n == 0 {
        Set::empty()
    } else {
        let before = entry_cols(entries, sheet_id, low, high, (n - 1) as nat);
        let cell = spec_key_cell(entries[n - 1].0);
        if cell.sheet_id == sheet_id && low <= cell.row <= high && entries[n - 1].1
            != OverlayValue::Empty {
            before.insert(cell.col)
        } else {
            before
        }
    }
}

proof fn lemma_entry_rows(
    entries: Seq<(u128, OverlayValue)>,
    sheet_id: SheetId,
    low: u32,
    high: u32,
    n: nat,
    row: u32,
)
    requires
        n <= entries.len(),
    ensures
        entry_rows(entries, sheet_id, low, high, n).contains(row) <==> exists|i: int|
            0 <= i < n && entry_at(#[trigger] entries[i], sheet_id, row, low, high, true),
    decreases n,
{
    if n > 0 {
        lemma_entry_rows(entries, sheet_id, low, high, (n - 1) as nat, row);
        if entry_at(entries[n - 1], sheet_id, row, low, high, true) {
        } else if exists|i: int|
            0 <= i < n && entry_at(#[trigger] entries[i], sheet_id, row, low, high, true) {
            let i = choose|i: int|
                0 <= i < n && entry_at(#[trigger] entries[i], sheet_id, row, low, high, true);
            assert(i < n - 1);
        }
    }
}

proof fn lemma_entry_cols(
    entries: Seq<(u128, OverlayValue)>,
    sheet_id: SheetId,
    low: u32,
    high: u32,
    n: nat,
    col: u32,
)
    requires
        n <= entries.len(),
    ensures
        entry_cols(entries, sheet_id, low, high, n).contains(col) <==> exists|i: int|
            0 <= i < n && entry_at(#[trigger] entries[i], sheet_id, col, low, high, false),
    decreases n,
{
    if n > 0 {
        lemma_entry_cols(entries, sheet_id, low, high, (n - 1) as nat, col);
        if entry_at(entries[n - 1], sheet_id, col, low, high, false) {
        } else if exists|i: int|
            0 <= i < n && entry_at(#[trigger] entries[i], sheet_id, col, low, high, false) {
            let i = choose|i: int|
                0 <= i < n && entry_at(#[trigger] entries[i], sheet_id, col, low, high, false);
            assert(i < n - 1);
        }
    }
}

/// Whether an entry uses a cell of the sheet at the row (or column) with the other index in the
/// span.
spec fn entry_at(
    entry: (u128, OverlayValue),
    sheet_id: SheetId,
    index: u32,
    low: u32,
    high: u32,
    by_row: bool,
) -> bool {
    let cell = spec_key_cell(entry.0);
    &&& cell.sheet_id == sheet_id
    &&& entry.1 != OverlayValue::Empty
    &&& if by_row {
        cell.row == index && low <= cell.col <= high
    } else {
        cell.col == index && low <= cell.row <= high
    }
}

fn is_used(v: &OverlayValue) -> (b: bool)
    ensures
        b == (*v != OverlayValue::Empty),
{
    !matches!(v, OverlayValue::Empty)
}

/// The first and last row in which a lane uses one of the columns.
pub fn lane_row_bounds(lane: &Lane, sheet_id: SheetId, low: u32, high: u32) -> (r: Option<Bounds>)
    requires
        lane.wf(),
        keyed_by_cells(lane@),
    ensures
        is_hull(lane_rows(lane@, sheet_id, low, high), r),
{
    let ghost entries = lane.spec_entries();
    let mut bounds: Option<Bounds> = None;
    let mut i: usize = 0;
    while i < lane.len()
        invariant
            lane.wf(),
            keyed_by_cells(lane@),
            entries == lane.spec_entries(),
            i <= entries.len(),
            is_hull(entry_rows(entries, sheet_id, low, high, i as nat), bounds),
        decreases entries.len() - i,
    {
        let (k, v) = lane.entry(i);
        let cell = key_cell(k);
        if cell.sheet_id == sheet_id && low <= cell.col && cell.col <= high && is_used(v) {
            proof {
                lemma_widened(
                    entry_rows(entries, sheet_id, low, high, i as nat),
                    bounds,
                    cell.row,
                );
            }
            bounds = widen(bounds, cell.row);
        }
        i = i + 1;
    }
    proof {
        lane.lemma_entries();
        let a = entry_rows(entries, sheet_id, low, high, i as nat);
        let b = lane_rows(lane@, sheet_id, low, high);
        assert forall|row: u32| #[trigger] a.contains(row) == b.contains(row) by {
            lemma_entry_rows(entries, sheet_id, low, high, i as nat, row);
            if a.contains(row) {
                let e = choose|e: int|
                    0 <= e < i && entry_at(#[trigger] entries[e], sheet_id, row, low, high, true);
                let cell = spec_key_cell(entries[e].0);
                assert(lane@.contains_key(entries[e].0));
                cells_name_their_keys(entries[e].0);
                assert(cell == CellRef { sheet_id, row, col: cell.col });
                assert(lane_uses(lane@, CellRef { sheet_id, row, col: cell.col }));
            }
            if b.contains(row) {
                let col = choose|col: u32| low <= col <= high && #[trigger] lane_uses(
                    lane@,
                    CellRef { sheet_id, row, col },
                );
                let cell = CellRef { sheet_id, row, col };
                keys_name_their_cells(cell);
                let k = spec_cell_key(cell);
                assert(lane@.contains_key(k));
                let e = choose|e: int| 0 <= e < entries.len() && (#[trigger] entries[e]).0 == k;
                assert(entry_at(entries[e], sheet_id, row, low, high, true));
            }
        }
        assert(a =~= b);
    }
    bounds
}

/// The first and last column in which a lane uses one of the rows.
pub fn lane_col_bounds(lane: &Lane, sheet_id: SheetId, low: u32, high: u32) -> (r: Option<Bounds>)
    requires
        lane.wf(),
        keyed_by_cells(lane@),
    ensures
        is_hull(lane_cols(lane@, sheet_id, low, high), r),
{
    let ghost entries = lane.spec_entries();
    let mut bounds: Option<Bounds> = None;
    let mut i: usize = 0;
    while i < lane.len()
        invariant
            lane.wf(),
            keyed_by_cells(lane@),
            entries == lane.spec_entries(),
            i <= entries.len(),
            is_hull(entry_cols(entries, sheet_id, low, high, i as nat), bounds),
        decreases entries.len() - i,
    {
        let (k, v) = lane.entry(i);
        let cell = key_cell(k);
        if cell.sheet_id == sheet_id && low <= cell.row && cell.row <= high && is_used(v) {
            proof {
                lemma_widened(
                    entry_cols(entries, sheet_id, low, high, i as nat),
                    bounds,
                    cell.col,
                );
            }
            bounds = widen(bounds, cell.col);
        }
        i = i + 1;
    }
    proof {
        lane.lemma_entries();
        let a = entry_cols(entries, sheet_id, low, high, i as nat);
        let b = lane_cols(lane@, sheet_id, low, high);
        assert forall|col: u32| #[trigger] a.contains(col) == b.contains(col) by {
            lemma_entry_cols(entries, sheet_id, low, high, i as nat, col);
            if a.contains(col) {
                let e = choose|e: int|
                    0 <= e < i && entry_at(#[trigger] entries[e], sheet_id, col, low, high, false);
                let cell = spec_key_cell(entries[e].0);
                assert(lane@.contains_key(entries[e].0));
                cells_name_their_keys(entries[e].0);
                assert(cell == CellRef { sheet_id, row: cell.row, col });
                assert(lane_uses(lane@, CellRef { sheet_id, row: cell.row, col }));
            }
            if b.contains(col) {
                let row = choose|row: u32| low <= row <= high && #[trigger] lane_uses(
                    lane@,
                    CellRef { sheet_id, row, col },
                );
                let cell = CellRef { sheet_id, row, col };
                keys_name_their_cells(cell);
                let k = spec_cell_key(cell);
                assert(lane@.contains_key(k));
                let e = choose|e: int| 0 <= e < entries.len() && (#[trigger] entries[e]).0 == k;
                assert(entry_at(entries[e], sheet_id, col, low, high, false));
            }
        }
        assert(a =~= b);
    }
    bounds
}

/// A vertex of a sheet as far as used bounds read it; the row and column are zero-based.
#[derive(Clone, Copy, Debug, PartialEq, Eq, Structural)]
pub struct SheetVertex {
    pub kind: VertexKind,
    pub row: u32,
    pub col: u32,
}

/// The rows of the formulas in the columns.
pub open spec fn formula_rows(vertices: Seq<SheetVertex>, low: u32, high: u32) -> Set<u32> {
    Set::new(
        |row: u32|
            exists|i: int|
                0 <= i < vertices.len() && is_formula((#[trigger] vertices[i]).kind) && low
                    <= vertices[i].col <= high && vertices[i].row == row,
    )
}

/// The columns of the formulas in the rows.
pub open spec fn formula_cols(vertices: Seq<SheetVertex>, low: u32, high: u32) -> Set<u32> {
    Set::new(
        |col: u32|
            exists|i: int|
                0 <= i < vertices.len() && is_formula((#[trigger] vertices[i]).kind) && low
                    <= vertices[i].row <= high && vertices[i].col == col,
    )
}

/// The first and last row of the formulas in the columns.
pub fn formula_row_bounds_for_columns(vertices: &Vec<SheetVertex>, low: u32, high: u32) -> (r: Option<
    Bounds,
>)
    ensures
        is_hull(formula_rows(vertices@, low, high), r),
{
    let mut bounds: Option<Bounds> = None;
    let mut i: usize = 0;
    while i < vertices.len()
        invariant
            i <= vertices@.len(),
            is_hull(formula_rows(vertices@.take(i as int), low, high), bounds),
        decreases vertices@.len() - i,
    {
        let v = vertices[i];
        let ghost before = vertices@.take(i as int);
        let ghost after = vertices@.take(i + 1);
        let ghost a = formula_rows(before, low, high);
        let ghost b = formula_rows(after, low, high);
        let hit = v.kind.formula() && low <= v.col && v.col <= high;
        proof {
            assert(after =~= before.push(v));
            assert forall|row: u32| #[trigger] b.contains(row) == (a.contains(row) || (hit && row
                == v.row)) by {
                if a.contains(row) {
                    let k = choose|k: int|
                        0 <= k < before.len() && is_formula((#[trigger] before[k]).kind) && low
                            <= before[k].col <= high && before[k].row == row;
                    assert(after[k] == before[k]);
                }
                if hit && row == v.row {
                    assert(after[i as int] == v);
                }
                if b.contains(row) {
                    let k = choose|k: int|
                        0 <= k < after.len() && is_formula((#[trigger] after[k]).kind) && low
                            <= after[k].col <= high && after[k].row == row;
                    if k < i {
                        assert(before[k] == after[k]);
                    }
                }
            }
            if hit {
                lemma_widened(a, bounds, v.row);
                assert(b =~= a.insert(v.row));
            } else {
                assert(b =~= a);
            }
        }
        if hit {
            bounds = widen(bounds, v.row);
        }
        i = i + 1;
    }
    assert(vertices@.take(i as int) =~= vertices@);
    bounds
}

/// The first and last column of the formulas in the rows.
pub fn formula_col_bounds_for_rows(vertices: &Vec<SheetVertex>, low: u32, high: u32) -> (r: Option<
    Bounds,
>)
    ensures
        is_hull(formula_cols(vertices@, low, high), r),
{
    let mut bounds: Option<Bounds> = None;
    let mut i: usize = 0;
    while i < vertices.len()
        invariant
            i <= vertices@.len(),
            is_hull(formula_cols(vertices@.take(i as int), low, high), bounds),
        decreases vertices@.len() - i,
    {
        let v = vertices[i];
        let ghost before = vertices@.take(i as int);
        let ghost after = vertices@.take(i + 1);
        let ghost a = formula_cols(before, low, high);
        let ghost b = formula_cols(after, low, high);
        let hit = v.kind.formula() && low <= v.row && v.row <= high;
        proof {
            assert(after =~= before.push(v));
            assert forall|col: u32| #[trigger] b.contains(col) == (a.contains(col) || (hit && col
                == v.col)) by {
                if a.contains(col) {
                    let k = choose|k: int|
                        0 <= k < before.len() && is_formula((#[trigger] before[k]).kind) && low
                            <= before[k].row <= high && before[k].col == col;
                    assert(after[k] == before[k]);
                }
                if hit && col == v.col {
                    assert(after[i as int] == v);
                }
                if b.contains(col) {
                    let k = choose|k: int|
                        0 <= k < after.len() && is_formula((#[trigger] after[k]).kind) && low
                            <= after[k].row <= high && after[k].col == col;
                    if k < i {
                        assert(before[k] == after[k]);
                    }
                }
            }
            if hit {
                lemma_widened(a, bounds, v.col);
                assert(b =~= a.insert(v.col));
            } else {
                assert(b =~= a);
            }
        }
        if hit {
            bounds = widen(bounds, v.col);
        }
        i = i + 1;
    }
    assert(vertices@.take(i as int) =~= vertices@);
    bounds
}

/// The index counted from one.
pub open spec fn counted(i: u32) -> u32 {
    if i < u32::MAX {
        (i + 1) as u32
    } else {
        u32::MAX
    }
}

/// The bounds counted from one.
pub open spec fn one_based(bounds: Option<Bounds>) -> Option<Bounds> {
    match bounds {
        Some((low, high)) => Some((counted(low), counted(high))),
        None => None,
    }
}

/// The bounds of an axis: those of what the storage holds and of the formulas, else those that the
/// graph knows. All are zero-based; the result counts from one.
pub open spec fn axis_bounds(stored: Option<Bounds>, formulas: Option<Bounds>, graph: Option<Bounds>) -> Option<
    Bounds,
> {
    match union_of(stored, formulas) {
        Some(bounds) => one_based(Some(bounds)),
        None => one_based(graph),
    }
}

fn join_axis_bounds(stored: Option<Bounds>, formulas: Option<Bounds>, graph: Option<Bounds>) -> (r:
    Option<Bounds>)
    ensures
        r == axis_bounds(stored, formulas, graph),
{
    let bounds = match union_used_bounds(stored, formulas) {
        Some(bounds) => Some(bounds),
        None => graph,
    };
    match bounds {
        Some((low, high)) => Some((low.saturating_add(1), high.saturating_add(1))),
        None => None,
    }
}

/// The rows in which the storage uses one of the columns.
pub open spec fn stored_rows(s: StoreView, sheet_id: SheetId, low: u32, high: u32) -> Set<u32> {
    lane_rows(s.base, sheet_id, low, high).union(lane_rows(s.delta, sheet_id, low, high)).union(
        lane_rows(s.computed, sheet_id, low, high),
    )
}

/// The columns in which the storage uses one of the rows.
pub open spec fn stored_cols(s: StoreView, sheet_id: SheetId, low: u32, high: u32) -> Set<u32> {
    lane_cols(s.base, sheet_id, low, high).union(lane_cols(s.delta, sheet_id, low, high)).union(
        lane_cols(s.computed, sheet_id, low, high),
    )
}

/// The zero-based index of a one-based one; zero counts as one.
pub open spec fn zero_based(i: u32) -> u32 {
    if i == 0 {
        0
    } else {
        (i - 1) as u32
    }
}

/// The used rows of one-based columns, counted from one.
pub open spec fn used_rows(
    s: StoreView,
    vertices: Seq<SheetVertex>,
    graph: Option<Bounds>,
    sheet_id: SheetId,
    start_col: u32,
    end_col: u32,
) -> Option<Bounds> {
    let low = zero_based(start_col);
    let high = zero_based(end_col);
    axis_bounds(
        hull(stored_rows(s, sheet_id, low, high)),
        hull(formula_rows(vertices, low, high)),
        graph,
    )
}

/// The used columns of one-based rows, counted from one.
pub open spec fn used_cols(
    s: StoreView,
    vertices: Seq<SheetVertex>,
    graph: Option<Bounds>,
    sheet_id: SheetId,
    start_row: u32,
    end_row: u32,
) -> Option<Bounds> {
    let low = zero_based(start_row);
    let high = zero_based(end_row);
    axis_bounds(
        hull(stored_cols(s, sheet_id, low, high)),
        hull(formula_cols(vertices, low, high)),
        graph,
    )
}

/// The used rows of the columns: those of the data as it is, or those that were found for the same
/// data before. `vertices` are the vertices of the sheet, and `graph` the zero-based rows that the
/// graph knows for the columns.
pub fn used_rows_for_columns(
    cache: &mut UsedAxisBoundsCache,
    snapshot: u64,
    store: &CellStore,
    vertices: &Vec<SheetVertex>,
    graph: Option<Bounds>,
    sheet_id: SheetId,
    start_col: u32,
    end_col: u32,
) -> (r: Option<Bounds>)
    requires
        store.wf(),
    ensures
        ({
            let k = span_key(sheet_id, start_col, end_col);
            let known = old(cache)@.at(snapshot);
            if known.rows.contains_key(k) {
                r == known.rows[k] && final(cache)@ == old(cache)@
            } else {
                &&& r == used_rows(store@, vertices@, graph, sheet_id, start_col, end_col)
                &&& final(cache)@ == (BoundsCacheView { rows: known.rows.insert(k, r), ..known })
            }
        }),
{
    if let Some(known) = cache.get_row_bounds(sheet_id, start_col, end_col, snapshot) {
        return known;
    }
    let low = start_col.saturating_sub(1);
    let high = end_col.saturating_sub(1);
    let stored = store.arrow_used_row_bounds(sheet_id, low, high);
    let formulas = formula_row_bounds_for_columns(vertices, low, high);
    proof {
        lemma_hull(stored_rows(store@, sheet_id, low, high), stored);
        lemma_hull(formula_rows(vertices@, low, high), formulas);
    }
    let found = join_axis_bounds(stored, formulas, graph);
    cache.put_row_bounds(sheet_id, start_col, end_col, snapshot, found);
    found
}

/// The used columns of the rows: those of the data as it is, or those that were found for the same
/// data before. `vertices` are the vertices of the sheet, and `graph` the zero-based columns that
/// the graph knows for the rows.
pub fn used_cols_for_rows(
    cache: &mut UsedAxisBoundsCache,
    snapshot: u64,
    store: &CellStore,
    vertices: &Vec<SheetVertex>,
    graph: Option<Bounds>,
    sheet_id: SheetId,
    start_row: u32,
    end_row: u32,
) -> (r: Option<Bounds>)
    requires
        store.wf(),
    ensures
        ({
            let k = span_key(sheet_id, start_row, end_row);
            let known = old(cache)@.at(snapshot);
            if known.cols.contains_key(k) {
                r == known.cols[k] && final(cache)@ == old(cache)@
            } else {
                &&& r == used_cols(store@, vertices@, graph, sheet_id, start_row, end_row)
                &&& final(cache)@ == (BoundsCacheView { cols: known.cols.insert(k, r), ..known })
            }
        }),
{
    if let Some(known) = cache.get_col_bounds(sheet_id, start_row, end_row, snapshot) {
        return known;
    }
    let low = start_row.saturating_sub(1);
    let high = end_row.saturating_sub(1);
    let stored = store.arrow_used_col_bounds(sheet_id, low, high);
    let formulas = formula_col_bounds_for_rows(vertices, low, high);
    proof {
        lemma_hull(stored_cols(store@, sheet_id, low, high), stored);
        lemma_hull(formula_cols(vertices@, low, high), formulas);
    }
    let found = join_axis_bounds(stored, formulas, graph);
    cache.put_col_bounds(sheet_id, start_row, end_row, snapshot, found);
    found
}

/// The rows and columns that a sheet may have.
pub fn sheet_bounds(known: bool) -> (r: Option<(u32, u32)>)
    ensures
        r == (if known {
            Some((1_048_576u32, 16_384u32))
        } else {
            None
        }),
{
    if known {
        Some((1_048_576, 16_384))
    } else {
        None
    }
}

/// Bounds that were found, kept as long as the data stays as it was.
#[derive(Debug)]
pub struct UsedAxisBoundsCache {
    snapshot: u64,
    row_bounds_by_col_span: FxHashMap<u128, Option<Bounds>>,
    col_bounds_by_row_span: FxHashMap<u128, Option<Bounds>>,
}

/// The model of a [`UsedAxisBoundsCache`]: the data that the bounds belong to, and the bounds by
/// sheet and span.
#[verifier::ext_equal]
pub struct BoundsCacheView {
    pub snapshot: u64,
    pub rows: Map<u128, Option<Bounds>>,
    pub cols: Map<u128, Option<Bounds>>,
}

/// The key of a span of a sheet.
pub open spec fn span_key(sheet_id: SheetId, start: u32, end: u32) -> u128 {
    spec_cell_key(CellRef { sheet_id, row: start, col: end })
}

fn key_of_span(sheet_id: SheetId, start: u32, end: u32) -> (k: u128)
    ensures
        k == span_key(sheet_id, start, end),
{
    cell_key(CellRef { sheet_id, row: start, col: end })
}

impl BoundsCacheView {
    /// The cache as it speaks of the given data.
    pub open spec fn at(self, snapshot: u64) -> BoundsCacheView {
        if self.snapshot == snapshot {
            self
        } else {
            BoundsCacheView { snapshot, rows: Map::empty(), cols: Map::empty() }
        }
    }
}

impl UsedAxisBoundsCache {
    pub closed spec fn view(&self) -> BoundsCacheView {
        BoundsCacheView {
            snapshot: self.snapshot,
            rows: self.row_bounds_by_col_span@,
            cols: self.col_bounds_by_row_span@,
        }
    }

    pub fn new(snapshot: u64) -> (c: UsedAxisBoundsCache)
        ensures
            c@ == (BoundsCacheView { snapshot, rows: Map::empty(), cols: Map::empty() }),
    {
        UsedAxisBoundsCache {
            snapshot,
            row_bounds_by_col_span: FxHashMap::default(),
            col_bounds_by_row_span: FxHashMap::default(),
        }
    }

    /// Drops the bounds of other data.
    pub fn reset_for_snapshot(&mut self, snapshot: u64)
        ensures
            final(self)@ == old(self)@.at(snapshot),
    {
        if self.snapshot != snapshot {
            self.snapshot = snapshot;
            self.row_bounds_by_col_span = FxHashMap::default();
            self.col_bounds_by_row_span = FxHashMap::default();
        }
    }

    pub fn get_row_bounds(&self, sheet_id: SheetId, start_col: u32, end_col: u32, snapshot: u64) -> (r:
        Option<Option<Bounds>>)
        ensures
            r == ({
                let k = span_key(sheet_id, start_col, end_col);
                let rows = self@.at(snapshot).rows;
                if rows.contains_key(k) {
                    Some(rows[k])
                } else {
                    None
                }
            }),
    {
        if self.snapshot != snapshot {
            return None;
        }
        match map_get(&self.row_bounds_by_col_span, &key_of_span(sheet_id, start_col, end_col)) {
            Some(b) => Some(*b),
            None => None,
        }
    }

    pub fn put_row_bounds(
        &mut self,
        sheet_id: SheetId,
        start_col: u32,
        end_col: u32,
        snapshot: u64,
        bounds: Option<Bounds>,
    )
        ensures
            final(self)@ == (BoundsCacheView {
                rows: old(self)@.at(snapshot).rows.insert(
                    span_key(sheet_id, start_col, end_col),
                    bounds,
                ),
                ..old(self)@.at(snapshot)
            }),
    {
        self.reset_for_snapshot(snapshot);
        map_insert(
            &mut self.row_bounds_by_col_span,
            key_of_span(sheet_id, start_col, end_col),
            bounds,
        );
    }

    pub fn get_col_bounds(&self, sheet_id: SheetId, start_row: u32, end_row: u32, snapshot: u64) -> (r:
        Option<Option<Bounds>>)
        ensures
            r == ({
                let k = span_key(sheet_id, start_row, end_row);
                let cols = self@.at(snapshot).cols;
                if cols.contains_key(k) {
                    Some(cols[k])
                } else {
                    None
                }
            }),
    {
        if self.snapshot != snapshot {
            return None;
        }
        match map_get(&self.col_bounds_by_row_span, &key_of_span(sheet_id, start_row, end_row)) {
            Some(b) => Some(*b),
            None => None,
        }
    }

    pub fn put_col_bounds(
        &mut self,
        sheet_id: SheetId,
        start_row: u32,
        end_row: u32,
        snapshot: u64,
        bounds: Option<Bounds>,
    )
        ensures
            final(self)@ == (BoundsCacheView {
                cols: old(self)@.at(snapshot).cols.insert(
                    span_key(sheet_id, start_row, end_row),
                    bounds,
                ),
                ..old(self)@.at(snapshot)
            }),
    {
        self.reset_for_snapshot(snapshot);
        map_insert(
            &mut self.col_bounds_by_row_span,
            key_of_span(sheet_id, start_row, end_row),
            bounds,
        );
    }
}

/// Bounds that were put are found for their span as long as the data is the same, spans do not get
/// into each other's way, and no bounds are found for other data.
pub proof fn kept_bounds_are_found_until_the_data_changes(
    c: BoundsCacheView,
    snapshot: u64,
    sheet_id: SheetId,
    start: u32,
    end: u32,
    bounds: Option<Bounds>,
    other: (SheetId, u32, u32),
    later: u64,
)
    ensures
        ({
            let k = span_key(sheet_id, start, end);
            let put = BoundsCacheView {
                rows: c.at(snapshot).rows.insert(k, bounds),
                ..c.at(snapshot)
            };
            let o = span_key(other.0, other.1, other.2);
            &&& put.at(snapshot).rows.contains_pair(k, bounds)
            &&& other != (sheet_id, start, end) ==> {
                &&& put.at(snapshot).rows.contains_key(o) == c.at(snapshot).rows.contains_key(o)
                &&& put.at(snapshot).rows.contains_key(o) ==> put.at(snapshot).rows[o] == c.at(
                    snapshot,
                ).rows[o]
            }
            &&& later != snapshot ==> !put.at(later).rows.contains_key(o)
        }),
{
    keys_name_their_cells(CellRef { sheet_id, row: start, col: end });
    keys_name_their_cells(CellRef { sheet_id: other.0, row: other.1, col: other.2 });
}

/// A cell is in use where a value other than the empty one is stored for it, in whatever layer, or a
/// formula of either kind stands in it.
pub open spec fn in_use(s: StoreView, vertices: Seq<SheetVertex>, cell: CellRef) -> bool {
    let k = spec_cell_key(cell);
    ||| s.base.contains_key(k) && s.base[k] != OverlayValue::Empty
    ||| s.delta.contains_key(k) && s.delta[k] != OverlayValue::Empty
    ||| s.computed.contains_key(k) && s.computed[k] != OverlayValue::Empty
    ||| exists|i: int|
        0 <= i < vertices.len() && (#[trigger] vertices[i]).row == cell.row && vertices[i].col == cell.col
            && (vertices[i].kind == VertexKind::FormulaScalar || vertices[i].kind
            == VertexKind::FormulaArray)
}

proof fn lemma_rows_in_use(
    s: StoreView,
    vertices: Seq<SheetVertex>,
    sheet_id: SheetId,
    low: u32,
    high: u32,
    row: u32,
)
    ensures
        stored_rows(s, sheet_id, low, high).contains(row) || formula_rows(
            vertices,
            low,
            high,
        ).contains(row) <==> exists|col: u32|
            low <= col <= high && #[trigger] in_use(s, vertices, CellRef { sheet_id, row, col }),
{
    if stored_rows(s, sheet_id, low, high).contains(row) {
        let lane = if lane_rows(s.base, sheet_id, low, high).contains(row) {
            s.base
        } else if lane_rows(s.delta, sheet_id, low, high).contains(row) {
            s.delta
        } else {
            s.computed
        };
        let col = choose|col: u32|
            low <= col <= high && #[trigger] lane_uses(lane, CellRef { sheet_id, row, col });
        assert(in_use(s, vertices, CellRef { sheet_id, row, col }));
    }
    if formula_rows(vertices, low, high).contains(row) {
        let i = choose|i: int|
            0 <= i < vertices.len() && is_formula((#[trigger] vertices[i]).kind) && low
                <= vertices[i].col <= high && vertices[i].row == row;
        let col = vertices[i].col;
        assert(in_use(s, vertices, CellRef { sheet_id, row, col }));
    }
    if exists|col: u32|
        low <= col <= high && #[trigger] in_use(s, vertices, CellRef { sheet_id, row, col }) {
        let col = choose|col: u32|
            low <= col <= high && #[trigger] in_use(s, vertices, CellRef { sheet_id, row, col });
        let cell = CellRef { sheet_id, row, col };
        if lane_uses(s.base, cell) {
            assert(lane_rows(s.base, sheet_id, low, high).contains(row));
        } else if lane_uses(s.delta, cell) {
            assert(lane_rows(s.delta, sheet_id, low, high).contains(row));
        } else if lane_uses(s.computed, cell) {
            assert(lane_rows(s.computed, sheet_id, low, high).contains(row));
        }
    }
}

/// The used rows of columns hold every cell in use there, and begin and end with one; where no cell is
/// in use they are those that the graph gives. They count from one.
pub proof fn used_rows_reach_from_the_first_to_the_last_cell_in_use(
    s: StoreView,
    vertices: Seq<SheetVertex>,
    graph: Option<Bounds>,
    sheet_id: SheetId,
    start: u32,
    end: u32,
    cell: CellRef,
)
    requires
        1 <= start,
        1 <= end,
    ensures
        ({
            let used = used_rows(s, vertices, graph, sheet_id, start, end);
            let there = |c: CellRef|
                c.sheet_id == sheet_id && start <= c.col + 1 <= end && in_use(s, vertices, c);
            &&& there(cell) && cell.row < u32::MAX ==> (used matches Some((first, last)) && first
                <= cell.row + 1 <= last)
            &&& there(cell) ==> (used matches Some((first, last)) && (first < u32::MAX ==> exists|c: CellRef|
                #[trigger] there(c) && c.row + 1 == first) && (last < u32::MAX ==> exists|c: CellRef|
                #[trigger] there(c) && c.row + 1 == last))
            &&& (forall|c: CellRef| !#[trigger] there(c)) ==> match graph {
                Some((first, last)) => used is Some && (first < u32::MAX && last < u32::MAX ==> used == Some(
                    ((first + 1) as u32, (last + 1) as u32),
                )),
                None => used is None,
            }
        }),
{
    let used = used_rows(s, vertices, graph, sheet_id, start, end);
    let there = |c: CellRef|
        c.sheet_id == sheet_id && start <= c.col + 1 <= end && in_use(s, vertices, c);
    let (low, high) = (zero_based(start), zero_based(end));
    let stored = stored_rows(s, sheet_id, low, high);
    let formulas = formula_rows(vertices, low, high);
    lemma_hull_is_hull(stored);
    lemma_hull_is_hull(formulas);
    assert forall|row: u32|
        #![trigger stored.contains(row)]
        #![trigger formulas.contains(row)]
        stored.contains(row) || formulas.contains(row) implies exists|c: CellRef|
        #[trigger] there(c) && c.row == row by {
        lemma_rows_in_use(s, vertices, sheet_id, low, high, row);
        let col = choose|col: u32|
            low <= col <= high && #[trigger] in_use(s, vertices, CellRef { sheet_id, row, col });
        assert(there(CellRef { sheet_id, row, col }));
    }
    if there(cell) {
        lemma_rows_in_use(s, vertices, sheet_id, low, high, cell.row);
        assert(cell == (CellRef { sheet_id, row: cell.row, col: cell.col }));
        assert(stored.contains(cell.row) || formulas.contains(cell.row));
    }
}

proof fn lemma_cols_in_use(
    s: StoreView,
    vertices: Seq<SheetVertex>,
    sheet_id: SheetId,
    low: u32,
    high: u32,
    col: u32,
)
    ensures
        stored_cols(s, sheet_id, low, high).contains(col) || formula_cols(
            vertices,
            low,
            high,
        ).contains(col) <==> exists|row: u32|
            low <= row <= high && #[trigger] in_use(s, vertices, CellRef { sheet_id, row, col }),
{
    if stored_cols(s, sheet_id, low, high).contains(col) {
        let lane = if lane_cols(s.base, sheet_id, low, high).contains(col) {
            s.base
        } else if lane_cols(s.delta, sheet_id, low, high).contains(col) {
            s.delta
        } else {
            s.computed
        };
        let row = choose|row: u32|
            low <= row <= high && #[trigger] lane_uses(lane, CellRef { sheet_id, row, col });
        assert(in_use(s, vertices, CellRef { sheet_id, row, col }));
    }
    if formula_cols(vertices, low, high).contains(col) {
        let i = choose|i: int|
            0 <= i < vertices.len() && is_formula((#[trigger] vertices[i]).kind) && low
                <= vertices[i].row <= high && vertices[i].col == col;
        let row = vertices[i].row;
        assert(in_use(s, vertices, CellRef { sheet_id, row, col }));
    }
    if exists|row: u32|
        low <= row <= high && #[trigger] in_use(s, vertices, CellRef { sheet_id, row, col }) {
        let row = choose|row: u32|
            low <= row <= high && #[trigger] in_use(s, vertices, CellRef { sheet_id, row, col });
        let cell = CellRef { sheet_id, row, col };
        if lane_uses(s.base, cell) {
            assert(lane_cols(s.base, sheet_id, low, high).contains(col));
        } else if lane_uses(s.delta, cell) {
            assert(lane_cols(s.delta, sheet_id, low, high).contains(col));
        } else if lane_uses(s.computed, cell) {
            assert(lane_cols(s.computed, sheet_id, low, high).contains(col));
        }
    }
}

/// The used cols of rows hold every cell in use there, and begin and end with one; where no cell is
/// in use they are those that the graph gives. They count from one.
pub proof fn used_cols_reach_from_the_first_to_the_last_cell_in_use(
    s: StoreView,
    vertices: Seq<SheetVertex>,
    graph: Option<Bounds>,
    sheet_id: SheetId,
    start: u32,
    end: u32,
    cell: CellRef,
)
    requires
        1 <= start,
        1 <= end,
    ensures
        ({
            let used = used_cols(s, vertices, graph, sheet_id, start, end);
            let there = |c: CellRef|
                c.sheet_id == sheet_id && start <= c.row + 1 <= end && in_use(s, vertices, c);
            &&& there(cell) && cell.col < u32::MAX ==> (used matches Some((first, last)) && first
                <= cell.col + 1 <= last)
            &&& there(cell) ==> (used matches Some((first, last)) && (first < u32::MAX ==> exists|c: CellRef|
                #[trigger] there(c) && c.col + 1 == first) && (last < u32::MAX ==> exists|c: CellRef|
                #[trigger] there(c) && c.col + 1 == last))
            &&& (forall|c: CellRef| !#[trigger] there(c)) ==> match graph {
                Some((first, last)) => used is Some && (first < u32::MAX && last < u32::MAX ==> used == Some(
                    ((first + 1) as u32, (last + 1) as u32),
                )),
                None => used is None,
            }
        }),
{
    let used = used_cols(s, vertices, graph, sheet_id, start, end);
    let there = |c: CellRef|
        c.sheet_id == sheet_id && start <= c.row + 1 <= end && in_use(s, vertices, c);
    let (low, high) = (zero_based(start), zero_based(end));
    let stored = stored_cols(s, sheet_id, low, high);
    let formulas = formula_cols(vertices, low, high);
    lemma_hull_is_hull(stored);
    lemma_hull_is_hull(formulas);
    assert forall|col: u32|
        #![trigger stored.contains(col)]
        #![trigger formulas.contains(col)]
        stored.contains(col) || formulas.contains(col) implies exists|c: CellRef|
        #[trigger] there(c) && c.col == col by {
        lemma_cols_in_use(s, vertices, sheet_id, low, high, col);
        let row = choose|row: u32|
            low <= row <= high && #[trigger] in_use(s, vertices, CellRef { sheet_id, row, col });
        assert(there(CellRef { sheet_id, row, col }));
    }
    if there(cell) {
        lemma_cols_in_use(s, vertices, sheet_id, low, high, cell.col);
        assert(cell == (CellRef { sheet_id, row: cell.row, col: cell.col }));
        assert(stored.contains(cell.col) || formulas.contains(cell.col));
    }
}

proof fn lemma_hull_is_hull(set: Set<u32>)
    ensures
        is_hull(set, hull(set)),
{
    if exists|i: u32| #[trigger] set.contains(i) {
        let i = choose|i: u32| #[trigger] set.contains(i);
        let (low, high) = (lemma_least(set, i), lemma_largest(set, i));
        assert(is_hull(set, Some((low, high))));
    } else {
        assert(is_hull(set, None));
    }
}

proof fn lemma_least(set: Set<u32>, i: u32) -> (m: u32)
    requires
        set.contains(i),
    ensures
        set.contains(m),
        forall|j: u32| #[trigger] set.contains(j) ==> m <= j,
    decreases i,
{
    if exists|j: u32| #[trigger] set.contains(j) && j < i {
        let j = choose|j: u32| #[trigger] set.contains(j) && j < i;
        lemma_least(set, j)
    } else {
        i
    }
}

proof fn lemma_largest(set: Set<u32>, i: u32) -> (m: u32)
    requires
        set.contains(i),
    ensures
        set.contains(m),
        forall|j: u32| #[trigger] set.contains(j) ==> j <= m,
    decreases u32::MAX - i,
{
    if exists|j: u32| #[trigger] set.contains(j) && i < j {
        let j = choose|j: u32| #[trigger] set.contains(j) && i < j;
        lemma_largest(set, j)
    } else {
        i
    }
}

} // verus!
