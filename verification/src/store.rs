//! The cell storage: base values, user edits over them, and computed values between the two.
use crate::coord::{CellRef, SheetId, cell_key, cells_name_their_keys, key_cell, keys_name_their_cells, spec_cell_key, spec_key_cell};
use crate::fx::{map_get, map_insert, map_remove};
use crate::overlay::{Axis, Lane, OverlayValue, is_copied, is_deleted_from, is_inserted, index_on, keyed_by_cells, literal_of, literal_to_overlay_value, map_bytes, normalize_public_cell_read, outside, stores};
use crate::region::{AxisRange, Region};
use crate::used_bounds::{Bounds, is_hull, lane_col_bounds, lane_cols, lane_row_bounds, lane_rows, stored_cols, stored_rows, the_union_bounds_both, union_used_bounds};
use crate::value::{LiteralValue, ValueView};
use rustc_hash::FxHashMap;
use vstd::prelude::*;

verus! {

/// How many rows and columns of a sheet have storage.
#[derive(Clone, Copy, Debug, PartialEq, Eq, Structural)]
pub struct Extent {
    pub rows: u64,
    pub cols: u64,
}

/// The storage of all sheets. A cell reads as its user edit where it has one, else as its computed
/// value where it has one, else as its base value.
#[derive(Debug)]
pub struct CellStore {
    base: Lane,
    delta: Lane,
    computed: Lane,
    extents: FxHashMap<u16, Extent>,
    max_bytes: Option<usize>,
    compactions: u64,
}

/// The model of a [`CellStore`].
#[verifier::ext_equal]
pub struct StoreView {
    pub base: Map<u128, OverlayValue>,
    pub delta: Map<u128, OverlayValue>,
    pub computed: Map<u128, OverlayValue>,
    pub extents: Map<u16, Extent>,
    /// The size at which the computed values are folded into the base values.
    pub max_bytes: Option<usize>,
    /// How often they were.
    pub compactions: u64,
}

/// What the lanes hold for a cell, from the uppermost one that holds anything.
pub open spec fn stored(s: StoreView, cell: CellRef) -> OverlayValue {
    let k = spec_cell_key(cell);
    if s.delta.contains_key(k) {
        s.delta[k]
    } else if s.computed.contains_key(k) {
        s.computed[k]
    } else if s.base.contains_key(k) {
        s.base[k]
    } else {
        OverlayValue::Empty
    }
}

/// What a reader of the cell gets.
pub open spec fn read(s: StoreView, cell: CellRef) -> ValueView {
    literal_of(stored(s, cell))
}

/// The extent of a sheet; a sheet without storage has none.
pub open spec fn extent_of(s: StoreView, sheet_id: SheetId) -> Extent {
    extent_in(s.extents, sheet_id)
}

/// The extent that also covers the cell.
pub open spec fn extent_with(e: Extent, cell: CellRef) -> Extent {
    Extent {
        rows: if cell.row < e.rows {
            e.rows
        } else {
            (cell.row + 1) as u64
        },
        cols: if cell.col < e.cols {
            e.cols
        } else {
            (cell.col + 1) as u64
        },
    }
}

/// The extent of a sheet among those of all sheets.
pub open spec fn extent_in(extents: Map<u16, Extent>, sheet_id: SheetId) -> Extent {
    if extents.contains_key(sheet_id) {
        extents[sheet_id]
    } else {
        Extent { rows: 0, cols: 0 }
    }
}

/// The extents of all sheets, that of its sheet grown to cover the cell.
pub open spec fn with_reach(extents: Map<u16, Extent>, cell: CellRef) -> Map<u16, Extent> {
    extents.insert(cell.sheet_id, extent_with(extent_in(extents, cell.sheet_id), cell))
}

/// The storage grown to cover the cell.
pub open spec fn grown(s: StoreView, cell: CellRef) -> StoreView {
    StoreView { extents: with_reach(s.extents, cell), ..s }
}

/// The number stopped at the largest machine integer.
pub open spec fn stopped(n: nat) -> usize {
    if n <= usize::MAX {
        n as usize
    } else {
        usize::MAX
    }
}

/// The estimated size of the computed values.
pub open spec fn memory_usage(s: StoreView) -> usize {
    stopped(map_bytes(s.computed))
}

/// Whether the computed values take more than they may.
pub open spec fn over_budget(s: StoreView) -> bool {
    s.max_bytes matches Some(cap) && memory_usage(s) > cap
}

/// The storage with all computed values folded into the base values.
pub open spec fn folded(s: StoreView) -> StoreView {
    StoreView {
        base: s.base.union_prefer_right(s.computed),
        computed: Map::empty(),
        compactions: if s.compactions < u64::MAX {
            (s.compactions + 1) as u64
        } else {
            u64::MAX
        },
        ..s
    }
}

/// The storage folded if its computed values take more than they may.
pub open spec fn within_budget(s: StoreView) -> StoreView {
    if over_budget(s) {
        folded(s)
    } else {
        s
    }
}

/// The storage with a computed value at the cell.
pub open spec fn with_computed(s: StoreView, cell: CellRef, v: OverlayValue) -> StoreView {
    within_budget(
        StoreView {
            computed: s.computed.insert(spec_cell_key(cell), v),
            ..grown(s, cell)
        },
    )
}

/// The part of the lane at cells inside the region.
pub open spec fn inside(lane: Map<u128, OverlayValue>, region: Region) -> Map<u128, OverlayValue> {
    lane.restrict(Set::new(|k: u128| region.has_cell(spec_key_cell(k))))
}

/// The storage with the user edits of the region folded into the base values; where the region has
/// none, nothing is folded.
pub open spec fn edits_folded(s: StoreView, region: Region) -> StoreView {
    if exists|k: u128| #[trigger] s.delta.contains_key(k) && region.has_cell(spec_key_cell(k)) {
        StoreView {
            base: s.base.union_prefer_right(inside(s.delta, region)),
            delta: outside(s.delta, region),
            compactions: if s.compactions < u64::MAX {
                (s.compactions + 1) as u64
            } else {
                u64::MAX
            },
            ..s
        }
    } else {
        s
    }
}

/// The storage with a user edit at the cell, which drops the computed value there. User edits stay
/// apart from the base values until those of a region are folded into them.
pub open spec fn with_edit(s: StoreView, cell: CellRef, v: OverlayValue) -> StoreView {
    StoreView {
        delta: s.delta.insert(spec_cell_key(cell), v),
        computed: s.computed.remove(spec_cell_key(cell)),
        ..grown(s, cell)
    }
}

/// The cell with a one-based address; zero counts as one.
pub open spec fn at_1_based(sheet_id: SheetId, row: u32, col: u32) -> CellRef {
    CellRef {
        sheet_id,
        row: if row == 0 {
            0
        } else {
            (row - 1) as u32
        },
        col: if col == 0 {
            0
        } else {
            (col - 1) as u32
        },
    }
}

pub fn cell_at(sheet_id: SheetId, row: u32, col: u32) -> (c: CellRef)
    ensures
        c == at_1_based(sheet_id, row, col),
{
    CellRef { sheet_id, row: row.saturating_sub(1), col: col.saturating_sub(1) }
}

/// Whether the optional stored value is how the optional value is held.
pub open spec fn stores_option(value: Option<LiteralValue>, v: Option<OverlayValue>) -> bool {
    match (value, v) {
        (Some(value), Some(v)) => stores(value@, v),
        (None, None) => true,
        _ => false,
    }
}

/// The lane with the value at the key, or without one.
pub open spec fn put(lane: Map<u128, OverlayValue>, k: u128, v: Option<OverlayValue>) -> Map<
    u128,
    OverlayValue,
> {
    match v {
        Some(v) => lane.insert(k, v),
        None => lane.remove(k),
    }
}

/// Folding the computed values into the base values changes no reading.
pub proof fn folding_preserves_reads(s: StoreView, cell: CellRef)
    ensures
        read(folded(s), cell) == read(s, cell),
        read(within_budget(s), cell) == read(s, cell),
{
}

/// Folding user edits into the base values changes no reading, as long as no computed value lies
/// beneath an edit that is folded.
pub proof fn folding_edits_preserves_reads(s: StoreView, region: Region, cell: CellRef)
    requires
        region.has_cell(cell) && s.delta.contains_key(spec_cell_key(cell)) ==> !s.computed.contains_key(
            spec_cell_key(cell),
        ),
    ensures
        read(edits_folded(s, region), cell) == read(s, cell),
{
    keys_name_their_cells(cell);
}

/// A user edit is read back at its cell, and no other cell reads differently.
pub proof fn an_edit_is_read_back(s: StoreView, cell: CellRef, v: OverlayValue, other: CellRef)
    ensures
        read(with_edit(s, cell, v), cell) == literal_of(v),
        other != cell ==> read(with_edit(s, cell, v), other) == read(s, other),
{
    keys_name_their_cells(cell);
    keys_name_their_cells(other);
}

/// A computed value is read back at its cell unless a user edit lies over it, and no other cell
/// reads differently.
pub proof fn a_computed_value_is_read_back(
    s: StoreView,
    cell: CellRef,
    v: OverlayValue,
    other: CellRef,
)
    ensures
        !s.delta.contains_key(spec_cell_key(cell)) ==> read(with_computed(s, cell, v), cell)
            == literal_of(v),
        s.delta.contains_key(spec_cell_key(cell)) ==> read(with_computed(s, cell, v), cell)
            == read(s, cell),
        other != cell ==> read(with_computed(s, cell, v), other) == read(s, other),
{
    keys_name_their_cells(cell);
    keys_name_their_cells(other);
    let t = StoreView { computed: s.computed.insert(spec_cell_key(cell), v), ..grown(s, cell) };
    folding_preserves_reads(t, cell);
    folding_preserves_reads(t, other);
}

impl CellStore {
    pub closed spec fn view(&self) -> StoreView {
        StoreView {
            base: self.base@,
            delta: self.delta@,
            computed: self.computed@,
            extents: self.extents@,
            max_bytes: self.max_bytes,
            compactions: self.compactions,
        }
    }

    pub closed spec fn wf(&self) -> bool {
        &&& self.base.wf()
        &&& self.delta.wf()
        &&& self.computed.wf()
        &&& keyed_by_cells(self.base@)
        &&& keyed_by_cells(self.delta@)
        &&& keyed_by_cells(self.computed@)
    }

    pub fn new(max_bytes: Option<usize>) -> (s: CellStore)
        ensures
            s.wf(),
            s@ == (StoreView {
                base: Map::empty(),
                delta: Map::empty(),
                computed: Map::empty(),
                extents: Map::empty(),
                max_bytes,
                compactions: 0,
            }),
    {
        CellStore {
            base: Lane::new(),
            delta: Lane::new(),
            computed: Lane::new(),
            extents: FxHashMap::default(),
            max_bytes,
            compactions: 0,
        }
    }

    /// The extent of a sheet, where it has storage.
    pub fn extent(&self, sheet_id: SheetId) -> (r: Option<Extent>)
        ensures
            r == (if self@.extents.contains_key(sheet_id) {
                Some(self@.extents[sheet_id])
            } else {
                None
            }),
    {
        match map_get(&self.extents, &sheet_id) {
            Some(e) => Some(*e),
            None => None,
        }
    }

    /// The size at which the computed values are folded into the base values.
    pub fn budget(&self) -> (r: Option<usize>)
        ensures
            r == self@.max_bytes,
    {
        self.max_bytes
    }

    /// Gives a sheet storage.
    pub fn ensure_arrow_sheet(&mut self, sheet_id: SheetId)
        requires
            old(self).wf(),
        ensures
            final(self).wf(),
            final(self)@ == (StoreView {
                extents: if old(self)@.extents.contains_key(sheet_id) {
                    old(self)@.extents
                } else {
                    old(self)@.extents.insert(sheet_id, Extent { rows: 0, cols: 0 })
                },
                ..old(self)@
            }),
    {
        if map_get(&self.extents, &sheet_id).is_none() {
            map_insert(&mut self.extents, sheet_id, Extent { rows: 0, cols: 0 });
        }
    }

    fn grow(&mut self, cell: CellRef)
        requires
            old(self).wf(),
        ensures
            final(self).wf(),
            final(self)@ == grown(old(self)@, cell),
    {
        let e = match map_get(&self.extents, &cell.sheet_id) {
            Some(e) => *e,
            None => Extent { rows: 0, cols: 0 },
        };
        let rows = if (cell.row as u64) < e.rows {
            e.rows
        } else {
            cell.row as u64 + 1
        };
        let cols = if (cell.col as u64) < e.cols {
            e.cols
        } else {
            cell.col as u64 + 1
        };
        map_insert(&mut self.extents, cell.sheet_id, Extent { rows, cols });
    }

    /// Puts a base value at a cell, as bulk loading does.
    pub fn load_base(&mut self, cell: CellRef, value: OverlayValue)
        requires
            old(self).wf(),
        ensures
            final(self).wf(),
            final(self)@ == (StoreView {
                base: old(self)@.base.insert(spec_cell_key(cell), value),
                ..grown(old(self)@, cell)
            }),
    {
        self.grow(cell);
        self.base.set(cell_key(cell), value);
    }

    /// Writes a user edit over the cell with the one-based address. The computed value there is
    /// dropped.
    pub fn mirror_value_to_overlay(
        &mut self,
        sheet_id: SheetId,
        row: u32,
        col: u32,
        value: &LiteralValue,
    )
        requires
            old(self).wf(),
        ensures
            final(self).wf(),
            exists|v: OverlayValue|
                stores(value@, v) && final(self)@ == #[trigger] with_edit(
                    old(self)@,
                    at_1_based(sheet_id, row, col),
                    v,
                ),
    {
        let cell = cell_at(sheet_id, row, col);
        let k = cell_key(cell);
        self.grow(cell);
        let ov = literal_to_overlay_value(value);
        let ghost v = ov;
        self.delta.set(k, ov);
        self.computed.remove(k);
        assert(self@ == with_edit(old(self)@, cell, v));
    }

    /// Takes away the user edit at a cell, so that computed values show there.
    pub fn clear_delta_overlay_cell(&mut self, sheet_id: SheetId, row: u32, col: u32)
        requires
            old(self).wf(),
        ensures
            final(self).wf(),
            final(self)@ == (StoreView {
                delta: old(self)@.delta.remove(
                    spec_cell_key(at_1_based(sheet_id, row, col)),
                ),
                ..old(self)@
            }),
    {
        let cell = cell_at(sheet_id, row, col);
        self.delta.remove(cell_key(cell));
    }

    /// Sets or takes away the user edit at a cell, and nothing else.
    pub fn set_delta_overlay_cell_raw(
        &mut self,
        sheet_id: SheetId,
        row: u32,
        col: u32,
        value: &Option<LiteralValue>,
    )
        requires
            old(self).wf(),
        ensures
            final(self).wf(),
            exists|v: Option<OverlayValue>|
                #![trigger stores_option(*value, v)]
                stores_option(*value, v) && final(self)@ == (StoreView {
                    delta: put(
                        old(self)@.delta,
                        spec_cell_key(at_1_based(sheet_id, row, col)),
                        v,
                    ),
                    ..grown(old(self)@, at_1_based(sheet_id, row, col))
                }),
    {
        let cell = cell_at(sheet_id, row, col);
        let k = cell_key(cell);
        self.grow(cell);
        match value {
            Some(value) => {
                let ov = literal_to_overlay_value(value);
                let ghost v = Some(ov);
                self.delta.set(k, ov);
                assert(stores_option(Some(*value), v));
            },
            None => {
                self.delta.remove(k);
                assert(stores_option(*value, None));
            },
        }
    }

    /// Sets or takes away the computed value at a cell, and nothing else.
    pub fn set_computed_overlay_cell_raw(
        &mut self,
        sheet_id: SheetId,
        row: u32,
        col: u32,
        value: &Option<LiteralValue>,
    )
        requires
            old(self).wf(),
        ensures
            final(self).wf(),
            exists|v: Option<OverlayValue>|
                #![trigger stores_option(*value, v)]
                stores_option(*value, v) && final(self)@ == (StoreView {
                    computed: put(
                        old(self)@.computed,
                        spec_cell_key(at_1_based(sheet_id, row, col)),
                        v,
                    ),
                    ..grown(old(self)@, at_1_based(sheet_id, row, col))
                }),
    {
        let cell = cell_at(sheet_id, row, col);
        let k = cell_key(cell);
        self.grow(cell);
        match value {
            Some(value) => {
                let ov = literal_to_overlay_value(value);
                let ghost v = Some(ov);
                self.computed.set(k, ov);
                assert(stores_option(Some(*value), v));
            },
            None => {
                self.computed.remove(k);
                assert(stores_option(*value, None));
            },
        }
    }

    /// Writes a computed value at a cell. Where the computed values then take more than they may,
    /// all of them are folded into the base values.
    pub fn write_computed_overlay_value_0based(&mut self, cell: CellRef, value: OverlayValue)
        requires
            old(self).wf(),
        ensures
            final(self).wf(),
            final(self)@ == with_computed(old(self)@, cell, value),
    {
        self.grow(cell);
        self.computed.set(cell_key(cell), value);
        self.settle_budget();
    }

    /// Writes a computed value at a cell and leaves the budget for later.
    pub fn put_computed(&mut self, cell: CellRef, value: OverlayValue)
        requires
            old(self).wf(),
        ensures
            final(self).wf(),
            final(self)@ == (StoreView {
                computed: old(self)@.computed.insert(spec_cell_key(cell), value),
                ..grown(old(self)@, cell)
            }),
    {
        self.grow(cell);
        self.computed.set(cell_key(cell), value);
    }

    /// Folds the computed values where they take more than they may.
    pub fn settle_budget(&mut self)
        requires
            old(self).wf(),
        ensures
            final(self).wf(),
            final(self)@ == within_budget(old(self)@),
    {
        if let Some(cap) = self.max_bytes {
            if self.overlay_memory_usage() > cap {
                self.compact_all_computed_overlays();
            }
        }
    }

    /// Writes a computed value at the cell with the one-based address.
    pub fn mirror_value_to_computed_overlay(
        &mut self,
        sheet_id: SheetId,
        row: u32,
        col: u32,
        value: &LiteralValue,
    )
        requires
            old(self).wf(),
        ensures
            final(self).wf(),
            exists|v: OverlayValue|
                stores(value@, v) && final(self)@ == #[trigger] with_computed(
                    old(self)@,
                    at_1_based(sheet_id, row, col),
                    v,
                ),
    {
        let cell = cell_at(sheet_id, row, col);
        let ov = literal_to_overlay_value(value);
        let ghost v = ov;
        self.write_computed_overlay_value_0based(cell, ov);
        assert(self@ == with_computed(old(self)@, cell, v));
    }

    /// The estimated size of the computed values.
    pub fn overlay_memory_usage(&self) -> (n: usize)
        requires
            self.wf(),
        ensures
            n == memory_usage(self@),
    {
        let bytes = self.computed.bytes();
        if bytes <= usize::MAX as u128 {
            bytes as usize
        } else {
            usize::MAX
        }
    }

    /// Folds the user edits of a region into the base values. The answer tells whether there were any.
    pub fn fold_edits(&mut self, region: &Region) -> (any: bool)
        requires
            old(self).wf(),
        ensures
            final(self).wf(),
            final(self)@ == edits_folded(old(self)@, *region),
            any == exists|k: u128| #[trigger]
                old(self)@.delta.contains_key(k) && region.has_cell(spec_key_cell(k)),
    {
        let ghost before = self@;
        let ghost entries = self.delta.spec_entries();
        let mut any = false;
        let mut i: usize = 0;
        let n = self.delta.len();
        proof {
            self.delta.lemma_entries();
        }
        while i < n
            invariant
                self.wf(),
                n == entries.len(),
                entries == self.delta.spec_entries(),
                i <= n,
                self@ == (StoreView { base: self@.base, ..before }),
                forall|j: int|
                    0 <= j < entries.len() ==> before.delta.contains_pair(
                        (#[trigger] entries[j]).0,
                        entries[j].1,
                    ),
                any == exists|j: int|
                    0 <= j < i && region.has_cell(spec_key_cell((#[trigger] entries[j]).0)),
                forall|k: u128| #[trigger]
                    self@.base.contains_key(k) <==> before.base.contains_key(k) || exists|j: int|
                        0 <= j < i && (#[trigger] entries[j]).0 == k && region.has_cell(
                            spec_key_cell(k),
                        ),
                forall|k: u128| #[trigger]
                    self@.base.contains_key(k) ==> self@.base[k] == (if exists|j: int|
                        0 <= j < i && (#[trigger] entries[j]).0 == k && region.has_cell(
                            spec_key_cell(k),
                        ) {
                        before.delta[k]
                    } else {
                        before.base[k]
                    }),
            decreases n - i,
        {
            let (k, v) = self.delta.entry(i);
            assert(entries[i as int].0 == k);
            assert(before.delta.contains_pair(entries[i as int].0, entries[i as int].1));
            let ghost prior = self@.base;
            if region.contains_key(key_cell(k)) {
                let copy = v.duplicate();
                self.base.set(k, copy);
                any = true;
            }
            proof {
                assert forall|m: u128|
                    (exists|j: int|
                        0 <= j < i + 1 && (#[trigger] entries[j]).0 == m && region.has_cell(
                            spec_key_cell(m),
                        )) <==> (m == k && region.has_cell(spec_key_cell(m))) || (exists|j: int|
                        0 <= j < i && (#[trigger] entries[j]).0 == m && region.has_cell(
                            spec_key_cell(m),
                        )) by {
                    if exists|j: int|
                        0 <= j < i && (#[trigger] entries[j]).0 == m && region.has_cell(
                            spec_key_cell(m),
                        ) {
                        let j = choose|j: int|
                            0 <= j < i && (#[trigger] entries[j]).0 == m && region.has_cell(
                                spec_key_cell(m),
                            );
                        assert(entries[j].0 == m);
                    }
                }
                assert(region.has_cell(spec_key_cell(entries[i as int].0)) == region.has_cell(
                    spec_key_cell(k),
                ));
            }
            i = i + 1;
        }
        self.delta.remove_region(region);
        if any {
            self.compactions = self.compactions.saturating_add(1);
        }
        proof {
            assert forall|k: u128|
                (exists|j: int|
                    0 <= j < n && (#[trigger] entries[j]).0 == k && region.has_cell(
                        spec_key_cell(k),
                    )) <==> before.delta.contains_key(k) && region.has_cell(spec_key_cell(k)) by {
                if before.delta.contains_key(k) {
                    let j = choose|j: int| 0 <= j < entries.len() && (#[trigger] entries[j]).0 == k;
                    assert(entries[j].0 == k);
                }
            }
            if any {
                let j = choose|j: int|
                    0 <= j < n && region.has_cell(spec_key_cell((#[trigger] entries[j]).0));
                assert(before.delta.contains_key(entries[j].0));
                let goal = edits_folded(before, *region);
                assert(self@.base =~= goal.base);
                assert(self@ =~= goal);
            } else {
                assert forall|k: u128| #[trigger]
                    before.delta.contains_key(k) implies !region.has_cell(spec_key_cell(k)) by {
                    if region.has_cell(spec_key_cell(k)) {
                        let j = choose|j: int|
                            0 <= j < entries.len() && (#[trigger] entries[j]).0 == k;
                        assert(region.has_cell(spec_key_cell(entries[j].0)));
                    }
                }
                assert(self@.delta =~= before.delta);
                assert(self@.base =~= before.base) by {
                    assert forall|k: u128| #[trigger]
                        self@.base.contains_key(k) <==> before.base.contains_key(k) by {}
                }
                assert(self@ =~= before);
            }
        }
        any
    }

    /// How often values were folded into the base values.
    pub fn overlay_compactions(&self) -> (n: u64)
        ensures
            n == self@.compactions,
    {
        self.compactions
    }

    /// Folds all computed values into the base values.
    pub fn compact_all_computed_overlays(&mut self)
        requires
            old(self).wf(),
        ensures
            final(self).wf(),
            final(self)@ == folded(old(self)@),
    {
        let ghost before = self@;
        let mut i: usize = 0;
        let n = self.computed.len();
        while i < n
            invariant
                self.wf(),
                n == self.computed.spec_entries().len(),
                i <= n,
                self@.delta == before.delta,
                self@.computed == before.computed,
                self@.extents == before.extents,
                self@.max_bytes == before.max_bytes,
                self@.compactions == before.compactions,
                forall|k: u128| #[trigger]
                    self@.base.contains_key(k) ==> before.base.contains_key(k)
                        || before.computed.contains_key(k),
                forall|k: u128|
                    before.base.contains_key(k) ==> #[trigger] self@.base.contains_key(k),
                forall|k: u128|
                    #[trigger] self@.base.contains_key(k) ==> self@.base[k] == (if exists|j: int|
                        0 <= j < i && (#[trigger] self.computed.spec_entries()[j]).0 == k {
                        before.computed[k]
                    } else {
                        before.base[k]
                    }),
                forall|j: int|
                    0 <= j < i ==> self@.base.contains_key(
                        (#[trigger] self.computed.spec_entries()[j]).0,
                    ),
            decreases n - i,
        {
            let (k, v) = self.computed.entry(i);
            let ghost prior = self@.base;
            let copy = v.duplicate();
            self.base.set(k, copy);
            proof {
                let entries = self.computed.spec_entries();
                assert(entries[i as int].0 == k);
                assert forall|m: u128| #[trigger] self@.base.contains_key(m) implies self@.base[m]
                    == (if exists|j: int|
                    0 <= j < i + 1 && (#[trigger] entries[j]).0 == m {
                    before.computed[m]
                } else {
                    before.base[m]
                }) by {
                    if m != k {
                        assert(prior.contains_key(m));
                        if exists|j: int| 0 <= j < i && (#[trigger] entries[j]).0 == m {
                            let j = choose|j: int| 0 <= j < i && (#[trigger] entries[j]).0 == m;
                            assert(entries[j].0 == m);
                        }
                    }
                }
            }
            i = i + 1;
        }
        proof {
            self.computed.lemma_entries();
            let goal = folded(before).base;
            assert forall|k: u128|
                #![trigger goal.dom().contains(k)]
                #![trigger goal[k]]
                self@.base.contains_key(k) == goal.contains_key(k) && (goal.contains_key(k)
                    ==> self@.base[k] == goal[k]) by {
                if before.computed.contains_key(k) {
                    let j = choose|j: int|
                        0 <= j < self.computed.spec_entries().len() && (
                        #[trigger] self.computed.spec_entries()[j]).0 == k;
                    assert(self.computed.spec_entries()[j].0 == k);
                } else {
                    assert(!exists|j: int|
                        0 <= j < i && (#[trigger] self.computed.spec_entries()[j]).0 == k);
                }
            }
            assert(self@.base =~= goal);
        }
        self.computed.clear();
        self.compactions = self.compactions.saturating_add(1);
    }

    /// Takes away all computed values.
    pub fn clear_all_computed_overlays(&mut self)
        requires
            old(self).wf(),
        ensures
            final(self).wf(),
            final(self)@ == (StoreView { computed: Map::empty(), ..old(self)@ }),
    {
        self.computed.clear();
    }

    fn clear_computed_region(&mut self, region: &Region)
        requires
            old(self).wf(),
        ensures
            final(self).wf(),
            final(self)@ == (StoreView {
                computed: outside(old(self)@.computed, *region),
                ..old(self)@
            }),
    {
        self.computed.remove_region(region);
    }

    /// Takes away the computed values of a column in the rows from `start_row0` up to, and without,
    /// `end_row0`.
    pub fn clear_computed_overlay_col_row_range(
        &mut self,
        sheet_id: SheetId,
        col0: u32,
        start_row0: u32,
        end_row0: u32,
    )
        requires
            old(self).wf(),
        ensures
            final(self).wf(),
            final(self)@ == (if start_row0 >= end_row0 {
                old(self)@
            } else {
                StoreView {
                    computed: outside(
                        old(self)@.computed,
                        Region {
                            sheet_id,
                            rows: AxisRange::Span(start_row0, (end_row0 - 1) as u32),
                            cols: AxisRange::Point(col0),
                        },
                    ),
                    ..old(self)@
                }
            }),
    {
        if start_row0 >= end_row0 {
            return;
        }
        let region = Region {
            sheet_id,
            rows: AxisRange::Span(start_row0, end_row0 - 1),
            cols: AxisRange::Point(col0),
        };
        self.clear_computed_region(&region);
    }

    /// Takes away the computed values in and below a row.
    pub fn clear_computed_overlay_after_row(&mut self, sheet_id: SheetId, start_row0: u32)
        requires
            old(self).wf(),
        ensures
            final(self).wf(),
            final(self)@ == (StoreView {
                computed: outside(
                    old(self)@.computed,
                    Region {
                        sheet_id,
                        rows: AxisRange::From(start_row0),
                        cols: AxisRange::All,
                    },
                ),
                ..old(self)@
            }),
    {
        let region = Region::rows_from(sheet_id, start_row0);
        self.clear_computed_region(&region);
    }

    /// Takes away the computed values in and right of a column.
    pub fn clear_computed_overlay_after_col(&mut self, sheet_id: SheetId, start_col0: u32)
        requires
            old(self).wf(),
        ensures
            final(self).wf(),
            final(self)@ == (StoreView {
                computed: outside(
                    old(self)@.computed,
                    Region {
                        sheet_id,
                        rows: AxisRange::All,
                        cols: AxisRange::From(start_col0),
                    },
                ),
                ..old(self)@
            }),
    {
        let region = Region::cols_from(sheet_id, start_col0);
        self.clear_computed_region(&region);
    }

    /// The user edit at a cell, where it has one; an edit to empty is not the same as none.
    pub fn read_delta_overlay_cell(&self, sheet_id: SheetId, row: u32, col: u32) -> (r: Option<
        LiteralValue,
    >)
        requires
            self.wf(),
        ensures
            ({
                let k = spec_cell_key(at_1_based(sheet_id, row, col));
                match r {
                    Some(v) => self@.delta.contains_key(k) && v@ == literal_of(self@.delta[k]),
                    None => !self@.delta.contains_key(k),
                }
            }),
    {
        match self.delta.get(cell_key(cell_at(sheet_id, row, col))) {
            Some(v) => Some(v.to_literal()),
            None => None,
        }
    }

    /// The computed value at a cell, where it has one; a computed empty is not the same as none.
    pub fn read_computed_overlay_cell(&self, sheet_id: SheetId, row: u32, col: u32) -> (r: Option<
        LiteralValue,
    >)
        requires
            self.wf(),
        ensures
            ({
                let k = spec_cell_key(at_1_based(sheet_id, row, col));
                match r {
                    Some(v) => self@.computed.contains_key(k) && v@ == literal_of(
                        self@.computed[k],
                    ),
                    None => !self@.computed.contains_key(k),
                }
            }),
    {
        match self.computed.get(cell_key(cell_at(sheet_id, row, col))) {
            Some(v) => Some(v.to_literal()),
            None => None,
        }
    }

    /// What a cell reads as; a cell without a value reads as empty.
    pub fn read_cell(&self, cell: CellRef) -> (v: LiteralValue)
        requires
            self.wf(),
        ensures
            v@ == read(self@, cell),
    {
        let k = cell_key(cell);
        match self.delta.get(k) {
            Some(v) => v.to_literal(),
            None => match self.computed.get(k) {
                Some(v) => v.to_literal(),
                None => match self.base.get(k) {
                    Some(v) => v.to_literal(),
                    None => LiteralValue::Empty,
                },
            },
        }
    }

    /// The public reading of the cell with the one-based address: nothing where it is empty.
    pub fn get_cell_value(&self, sheet_id: SheetId, row: u32, col: u32) -> (r: Option<LiteralValue>)
        requires
            self.wf(),
        ensures
            match r {
                Some(v) => v@ == read(self@, at_1_based(sheet_id, row, col)) && v@
                    != ValueView::Empty,
                None => read(self@, at_1_based(sheet_id, row, col)) == ValueView::Empty,
            },
    {
        normalize_public_cell_read(self.read_cell(cell_at(sheet_id, row, col)))
    }

    /// Makes room for new lines; what lies behind them moves.
    pub fn insert_lines(&mut self, sheet_id: SheetId, axis: Axis, before: u32, count: u32)
        requires
            old(self).wf(),
            has_room(old(self)@.base, sheet_id, axis, before, count),
            has_room(old(self)@.delta, sheet_id, axis, before, count),
            has_room(old(self)@.computed, sheet_id, axis, before, count),
        ensures
            final(self).wf(),
            is_inserted(old(self)@.base, final(self)@.base, sheet_id, axis, before, count),
            is_inserted(old(self)@.delta, final(self)@.delta, sheet_id, axis, before, count),
            is_inserted(old(self)@.computed, final(self)@.computed, sheet_id, axis, before, count),
            final(self)@.extents == extents_after(
                old(self)@.extents,
                sheet_id,
                inserted_extent(extent_of(old(self)@, sheet_id), axis, count),
            ),
            final(self)@.max_bytes == old(self)@.max_bytes,
            final(self)@.compactions == old(self)@.compactions,
    {
        if let Some(e) = self.extent(sheet_id) {
            let grown = match axis {
                Axis::Rows => Extent { rows: e.rows.saturating_add(count as u64), cols: e.cols },
                Axis::Columns => Extent { rows: e.rows, cols: e.cols.saturating_add(count as u64) },
            };
            map_insert(&mut self.extents, sheet_id, grown);
        }
        self.base.insert_lines(sheet_id, axis, before, count);
        self.delta.insert_lines(sheet_id, axis, before, count);
        self.computed.insert_lines(sheet_id, axis, before, count);
        proof {
            reveal(is_inserted);
        }
    }

    /// Deletes lines; what lies behind them moves.
    pub fn delete_lines(&mut self, sheet_id: SheetId, axis: Axis, start: u32, count: u32)
        requires
            old(self).wf(),
        ensures
            final(self).wf(),
            is_deleted_from(old(self)@.base, final(self)@.base, sheet_id, axis, start, count),
            is_deleted_from(old(self)@.delta, final(self)@.delta, sheet_id, axis, start, count),
            is_deleted_from(
                old(self)@.computed,
                final(self)@.computed,
                sheet_id,
                axis,
                start,
                count,
            ),
            final(self)@.extents == extents_after(
                old(self)@.extents,
                sheet_id,
                deleted_extent(extent_of(old(self)@, sheet_id), axis, start, count),
            ),
            final(self)@.max_bytes == old(self)@.max_bytes,
            final(self)@.compactions == old(self)@.compactions,
    {
        if let Some(e) = self.extent(sheet_id) {
            let shrunk = match axis {
                Axis::Rows => Extent { rows: shrink(e.rows, start, count), cols: e.cols },
                Axis::Columns => Extent { rows: e.rows, cols: shrink(e.cols, start, count) },
            };
            map_insert(&mut self.extents, sheet_id, shrunk);
        }
        self.base.delete_lines(sheet_id, axis, start, count);
        self.delta.delete_lines(sheet_id, axis, start, count);
        self.computed.delete_lines(sheet_id, axis, start, count);
        proof {
            reveal(is_deleted_from);
        }
    }
}

/// The extents with that of one sheet replaced, where it has storage.
pub open spec fn extents_after(extents: Map<u16, Extent>, sheet_id: SheetId, e: Extent) -> Map<
    u16,
    Extent,
> {
    if extents.contains_key(sheet_id) {
        extents.insert(sheet_id, e)
    } else {
        extents
    }
}

/// A number of lines after `count` more.
pub open spec fn lengthened(lines: u64, count: u32) -> u64 {
    if lines + count <= u64::MAX {
        (lines + count) as u64
    } else {
        u64::MAX
    }
}

/// A number of lines after those of the `count` lines from `start` on that there are have gone.
pub open spec fn shortened(lines: u64, start: u32, count: u32) -> u64 {
    if lines <= start {
        lines
    } else if lines <= start + count {
        start as u64
    } else {
        (lines - count) as u64
    }
}

fn shrink(lines: u64, start: u32, count: u32) -> (r: u64)
    ensures
        r == shortened(lines, start, count),
{
    if lines <= start as u64 {
        lines
    } else if lines <= start as u64 + count as u64 {
        start as u64
    } else {
        lines - count as u64
    }
}

pub open spec fn inserted_extent(e: Extent, axis: Axis, count: u32) -> Extent {
    match axis {
        Axis::Rows => Extent { rows: lengthened(e.rows, count), ..e },
        Axis::Columns => Extent { cols: lengthened(e.cols, count), ..e },
    }
}

pub open spec fn deleted_extent(e: Extent, axis: Axis, start: u32, count: u32) -> Extent {
    match axis {
        Axis::Rows => Extent { rows: shortened(e.rows, start, count), ..e },
        Axis::Columns => Extent { cols: shortened(e.cols, start, count), ..e },
    }
}

/// Whether no value would be moved beyond the last line.
pub open spec fn has_room(
    lane: Map<u128, OverlayValue>,
    sheet_id: SheetId,
    axis: Axis,
    before: u32,
    count: u32,
) -> bool {
    forall|c: CellRef|
        #[trigger] lane.contains_key(spec_cell_key(c)) && c.sheet_id == sheet_id && index_on(
            c,
            axis,
        ) >= before ==> index_on(c, axis) + count <= u32::MAX
}

impl CellStore {
    /// The first and last row in which the storage uses one of the zero-based columns.
    pub fn arrow_used_row_bounds(&self, sheet_id: SheetId, low: u32, high: u32) -> (r: Option<Bounds>)
        requires
            self.wf(),
        ensures
            is_hull(stored_rows(self@, sheet_id, low, high), r),
    {
        let a = lane_row_bounds(&self.base, sheet_id, low, high);
        let b = lane_row_bounds(&self.delta, sheet_id, low, high);
        let c = lane_row_bounds(&self.computed, sheet_id, low, high);
        let ab = union_used_bounds(a, b);
        proof {
            let x = lane_rows(self.base@, sheet_id, low, high);
            let y = lane_rows(self.delta@, sheet_id, low, high);
            let z = lane_rows(self.computed@, sheet_id, low, high);
            the_union_bounds_both(x, y, a, b);
            the_union_bounds_both(x.union(y), z, ab, c);
        }
        union_used_bounds(ab, c)
    }

    /// The first and last column in which the storage uses one of the zero-based rows.
    pub fn arrow_used_col_bounds(&self, sheet_id: SheetId, low: u32, high: u32) -> (r: Option<Bounds>)
        requires
            self.wf(),
        ensures
            is_hull(stored_cols(self@, sheet_id, low, high), r),
    {
        let a = lane_col_bounds(&self.base, sheet_id, low, high);
        let b = lane_col_bounds(&self.delta, sheet_id, low, high);
        let c = lane_col_bounds(&self.computed, sheet_id, low, high);
        let ab = union_used_bounds(a, b);
        proof {
            let x = lane_cols(self.base@, sheet_id, low, high);
            let y = lane_cols(self.delta@, sheet_id, low, high);
            let z = lane_cols(self.computed@, sheet_id, low, high);
            the_union_bounds_both(x, y, a, b);
            the_union_bounds_both(x.union(y), z, ab, c);
        }
        union_used_bounds(ab, c)
    }
}

/// Whether no value of the lane would be moved beyond the last line.
pub fn lane_has_room(lane: &Lane, sheet_id: SheetId, axis: Axis, before: u32, count: u32) -> (b: bool)
    requires
        lane.wf(),
        keyed_by_cells(lane@),
    ensures
        b == has_room(lane@, sheet_id, axis, before, count),
{
    let ghost entries = lane.spec_entries();
    let mut i: usize = 0;
    while i < lane.len()
        invariant
            lane.wf(),
            keyed_by_cells(lane@),
            entries == lane.spec_entries(),
            i <= entries.len(),
            forall|k: int|
                0 <= k < i ==> {
                    let c = spec_key_cell((#[trigger] entries[k]).0);
                    c.sheet_id == sheet_id && index_on(c, axis) >= before ==> index_on(c, axis)
                        + count <= u32::MAX
                },
        decreases entries.len() - i,
    {
        let (k, _) = lane.entry(i);
        let cell = key_cell(k);
        let index = match axis {
            Axis::Rows => cell.row,
            Axis::Columns => cell.col,
        };
        if cell.sheet_id == sheet_id && index >= before && index > u32::MAX - count {
            proof {
                cells_name_their_keys(k);
                assert(lane@.contains_key(spec_cell_key(cell)));
            }
            return false;
        }
        i = i + 1;
    }
    proof {
        lane.lemma_entries();
        assert forall|c: CellRef|
            #[trigger] lane@.contains_key(spec_cell_key(c)) && c.sheet_id == sheet_id && index_on(
                c,
                axis,
            ) >= before implies index_on(c, axis) + count <= u32::MAX by {
            keys_name_their_cells(c);
            let k = spec_cell_key(c);
            let e = choose|e: int| 0 <= e < entries.len() && (#[trigger] entries[e]).0 == k;
            assert(spec_key_cell(entries[e].0) == c);
        }
    }
    true
}

/// Whether no value would be moved beyond the last line.
pub open spec fn store_has_room(s: StoreView, sheet_id: SheetId, axis: Axis, before: u32, count: u32) -> bool {
    &&& has_room(s.base, sheet_id, axis, before, count)
    &&& has_room(s.delta, sheet_id, axis, before, count)
    &&& has_room(s.computed, sheet_id, axis, before, count)
}

impl CellStore {
    /// Whether no value would be moved beyond the last line.
    pub fn has_room_for_lines(&self, sheet_id: SheetId, axis: Axis, before: u32, count: u32) -> (b: bool)
        requires
            self.wf(),
        ensures
            b == store_has_room(self@, sheet_id, axis, before, count),
    {
        lane_has_room(&self.base, sheet_id, axis, before, count) && lane_has_room(
            &self.delta,
            sheet_id,
            axis,
            before,
            count,
        ) && lane_has_room(&self.computed, sheet_id, axis, before, count)
    }
}

/// Whether the key belongs to one of the first `n` cells that lie in the region.
pub open spec fn is_cleared(cells: Seq<CellRef>, region: Region, k: u128, n: nat) -> bool {
    exists|i: int|
        0 <= i < n && spec_cell_key(#[trigger] cells[i]) == k && region.has_cell(cells[i])
}

impl CellStore {
    /// Takes away the computed values of those cells of the list that lie in the region.
    pub fn clear_computed_overlay_cells_in_region(&mut self, cells: &Vec<CellRef>, region: &Region)
        requires
            old(self).wf(),
        ensures
            final(self).wf(),
            final(self)@ == (StoreView {
                computed: old(self)@.computed.restrict(
                    Set::new(|k: u128| !is_cleared(cells@, *region, k, cells@.len())),
                ),
                ..old(self)@
            }),
    {
        let ghost before = self@;
        let mut i: usize = 0;
        assert(self@.computed =~= before.computed.restrict(
            Set::new(|k: u128| !is_cleared(cells@, *region, k, 0)),
        ));
        while i < cells.len()
            invariant
                self.wf(),
                i <= cells@.len(),
                self@ == (StoreView {
                    computed: before.computed.restrict(
                        Set::new(|k: u128| !is_cleared(cells@, *region, k, i as nat)),
                    ),
                    ..before
                }),
            decreases cells@.len() - i,
        {
            let cell = cells[i];
            let ghost goal = before.computed.restrict(
                Set::new(|k: u128| !is_cleared(cells@, *region, k, (i + 1) as nat)),
            );
            let hit = region.contains_key(cell);
            if hit {
                self.computed.remove(cell_key(cell));
            }
            proof {
                let now = self@.computed;
                assert forall|k: u128|
                    #![trigger goal.dom().contains(k)]
                    #![trigger goal[k]]
                    now.contains_key(k) == goal.contains_key(k) && (goal.contains_key(k) ==> now[k]
                        == goal[k]) by {
                    if is_cleared(cells@, *region, k, i as nat) {
                        let j = choose|j: int|
                            0 <= j < i && spec_cell_key(#[trigger] cells@[j]) == k
                                && region.has_cell(cells@[j]);
                        assert(spec_cell_key(cells@[j]) == k);
                        assert(is_cleared(cells@, *region, k, (i + 1) as nat));
                    }
                    if hit && k == spec_cell_key(cell) {
                        assert(spec_cell_key(cells@[i as int]) == k);
                        assert(is_cleared(cells@, *region, k, (i + 1) as nat));
                    }
                    if is_cleared(cells@, *region, k, (i + 1) as nat) {
                        let j = choose|j: int|
                            0 <= j < i + 1 && spec_cell_key(#[trigger] cells@[j]) == k
                                && region.has_cell(cells@[j]);
                        if j < i {
                            assert(is_cleared(cells@, *region, k, i as nat));
                        }
                    }
                }
                assert(now =~= goal);
            }
            i = i + 1;
        }
    }
}

/// Every cell of a sheet.
pub open spec fn sheet_region(sheet_id: SheetId) -> Region {
    Region { sheet_id, rows: AxisRange::All, cols: AxisRange::All }
}

/// Whether the storage holds nothing for the sheet.
pub open spec fn is_blank_sheet(s: StoreView, sheet_id: SheetId) -> bool {
    forall|c: CellRef|
        c.sheet_id == sheet_id ==> !#[trigger] s.base.contains_key(spec_cell_key(c))
            && !s.delta.contains_key(spec_cell_key(c)) && !s.computed.contains_key(
            spec_cell_key(c),
        )
}

/// The storage without a sheet, and without any computed values.
pub open spec fn without_sheet(s: StoreView, sheet_id: SheetId) -> StoreView {
    StoreView {
        base: outside(s.base, sheet_region(sheet_id)),
        delta: outside(s.delta, sheet_region(sheet_id)),
        computed: Map::empty(),
        extents: s.extents.remove(sheet_id),
        ..s
    }
}

/// Whether `t` is the storage with a sheet copied to another one, and without any computed values.
pub open spec fn is_sheet_copy(s: StoreView, source: SheetId, target: SheetId, t: StoreView) -> bool {
    &&& is_copied(s.base, t.base, source, target)
    &&& is_copied(s.delta, t.delta, source, target)
    &&& t.computed == Map::<u128, OverlayValue>::empty()
    &&& t.extents == s.extents.insert(target, extent_of(s, source))
    &&& t.max_bytes == s.max_bytes
}

impl CellStore {
    /// Drops a sheet, and all computed values.
    pub fn remove_sheet(&mut self, sheet_id: SheetId)
        requires
            old(self).wf(),
        ensures
            final(self).wf(),
            final(self)@ == without_sheet(old(self)@, sheet_id),
    {
        let region = Region { sheet_id, rows: AxisRange::All, cols: AxisRange::All };
        self.base.remove_region(&region);
        self.delta.remove_region(&region);
        self.computed.clear();
        map_remove(&mut self.extents, &sheet_id);
    }

    /// Whether nothing is held for the sheet.
    fn lane_blank(lane: &Lane, sheet_id: SheetId) -> (b: bool)
        requires
            lane.wf(),
            keyed_by_cells(lane@),
        ensures
            b == forall|c: CellRef|
                c.sheet_id == sheet_id ==> !#[trigger] lane@.contains_key(spec_cell_key(c)),
    {
        let ghost entries = lane.spec_entries();
        let mut i: usize = 0;
        while i < lane.len()
            invariant
                lane.wf(),
                keyed_by_cells(lane@),
                entries == lane.spec_entries(),
                i <= entries.len(),
                forall|k: int|
                    0 <= k < i ==> spec_key_cell((#[trigger] entries[k]).0).sheet_id != sheet_id,
            decreases entries.len() - i,
        {
            let (k, _) = lane.entry(i);
            let cell = key_cell(k);
            if cell.sheet_id == sheet_id {
                proof {
                    cells_name_their_keys(k);
                    assert(lane@.contains_key(spec_cell_key(cell)));
                }
                return false;
            }
            i = i + 1;
        }
        proof {
            lane.lemma_entries();
            assert forall|c: CellRef| c.sheet_id == sheet_id implies !#[trigger] lane@.contains_key(
                spec_cell_key(c),
            ) by {
                if lane@.contains_key(spec_cell_key(c)) {
                    keys_name_their_cells(c);
                    let e = choose|e: int|
                        0 <= e < entries.len() && (#[trigger] entries[e]).0 == spec_cell_key(c);
                    assert(spec_key_cell(entries[e].0) == c);
                }
            }
        }
        true
    }

    /// Whether the storage holds nothing for the sheet.
    pub fn is_blank_sheet(&self, sheet_id: SheetId) -> (b: bool)
        requires
            self.wf(),
        ensures
            b == is_blank_sheet(self@, sheet_id),
    {
        let a = Self::lane_blank(&self.base, sheet_id);
        let b = Self::lane_blank(&self.delta, sheet_id);
        let c = Self::lane_blank(&self.computed, sheet_id);
        proof {
            if is_blank_sheet(self@, sheet_id) {
                assert forall|x: CellRef| x.sheet_id == sheet_id implies !#[trigger] self.base@.contains_key(
                    spec_cell_key(x),
                ) && !self.delta@.contains_key(spec_cell_key(x)) && !self.computed@.contains_key(
                    spec_cell_key(x),
                ) by {
                    assert(!self@.base.contains_key(spec_cell_key(x)));
                }
                assert forall|x: CellRef| x.sheet_id == sheet_id implies !#[trigger] self.delta@.contains_key(
                    spec_cell_key(x),
                ) by {
                    assert(!self.base@.contains_key(spec_cell_key(x)));
                }
                assert forall|x: CellRef| x.sheet_id == sheet_id implies !#[trigger] self.computed@.contains_key(
                    spec_cell_key(x),
                ) by {
                    assert(!self.base@.contains_key(spec_cell_key(x)));
                }
            }
        }
        a && b && c
    }

    /// Copies a sheet to one that nothing is held for, and drops all computed values.
    pub fn duplicate_sheet(&mut self, source: SheetId, target: SheetId)
        requires
            old(self).wf(),
            source != target,
            is_blank_sheet(old(self)@, target),
        ensures
            final(self).wf(),
            is_sheet_copy(old(self)@, source, target, final(self)@),
    {
        let ghost s = self@;
        proof {
            assert forall|c: CellRef| #[trigger] self.base@.contains_key(
                spec_cell_key(c),
            ) implies c.sheet_id != target by {
                assert(s.base.contains_key(spec_cell_key(c)));
            }
            assert forall|c: CellRef| #[trigger] self.delta@.contains_key(
                spec_cell_key(c),
            ) implies c.sheet_id != target by {
                if c.sheet_id == target {
                    assert(!s.base.contains_key(spec_cell_key(c)));
                }
            }
        }
        self.base.copy_sheet(source, target);
        self.delta.copy_sheet(source, target);
        self.computed.clear();
        let e = match map_get(&self.extents, &source) {
            Some(e) => *e,
            None => Extent { rows: 0, cols: 0 },
        };
        map_insert(&mut self.extents, target, e);
    }
}

/// A cell reads as its user edit where it has one, else as its computed value where it has one, else as
/// its base value, and else as empty.
pub proof fn edits_lie_over_computed_values_over_base_values(s: StoreView, cell: CellRef)
    ensures
        ({
            let k = spec_cell_key(cell);
            &&& s.delta.contains_key(k) ==> read(s, cell) == literal_of(s.delta[k])
            &&& !s.delta.contains_key(k) && s.computed.contains_key(k) ==> read(s, cell) == literal_of(
                s.computed[k],
            )
            &&& !s.delta.contains_key(k) && !s.computed.contains_key(k) && s.base.contains_key(k)
                ==> read(s, cell) == literal_of(s.base[k])
            &&& !s.delta.contains_key(k) && !s.computed.contains_key(k) && !s.base.contains_key(k)
                ==> read(s, cell) == ValueView::Empty
        }),
{
}

/// A user edit drops the computed value of its cell, so that nothing shows through once the edit is
/// taken away but the base value; no other cell loses anything.
pub proof fn an_edit_drops_the_computed_value(s: StoreView, cell: CellRef, v: OverlayValue, k: u128)
    ensures
        ({
            let t = with_edit(s, cell, v);
            &&& t.delta.contains_key(spec_cell_key(cell)) && t.delta[spec_cell_key(cell)] == v
            &&& !t.computed.contains_key(spec_cell_key(cell))
            &&& t.base == s.base
            &&& t.max_bytes == s.max_bytes
            &&& k != spec_cell_key(cell) ==> (t.delta.contains_key(k) <==> s.delta.contains_key(k)) && (
            s.delta.contains_key(k) ==> t.delta[k] == s.delta[k]) && (t.computed.contains_key(k)
                <==> s.computed.contains_key(k)) && (s.computed.contains_key(k) ==> t.computed[k]
                == s.computed[k])
        }),
{
}

/// A sheet grows to cover a cell that is written, and no further; other sheets stay as they are.
pub proof fn sheets_grow_to_their_cells(extents: Map<u16, Extent>, cell: CellRef, other: SheetId)
    ensures
        ({
            let after = with_reach(extents, cell);
            let old_rows = if extents.contains_key(cell.sheet_id) {
                extents[cell.sheet_id].rows
            } else {
                0
            };
            let old_cols = if extents.contains_key(cell.sheet_id) {
                extents[cell.sheet_id].cols
            } else {
                0
            };
            &&& after.contains_key(cell.sheet_id)
            &&& after[cell.sheet_id].rows > cell.row && after[cell.sheet_id].cols > cell.col
            &&& after[cell.sheet_id].rows == old_rows || (after[cell.sheet_id].rows == cell.row + 1
                && old_rows <= cell.row)
            &&& after[cell.sheet_id].cols == old_cols || (after[cell.sheet_id].cols == cell.col + 1
                && old_cols <= cell.col)
            &&& other != cell.sheet_id ==> (after.contains_key(other) <==> extents.contains_key(other))
                && (extents.contains_key(other) ==> after[other] == extents[other])
        }),
{
}

/// Computed values take no more than they may, as far as their bytes can be counted: after every write
/// the storage keeps its budget, and what it folds for that changes no reading.
pub proof fn computed_values_keep_their_budget(s: StoreView, cell: CellRef, v: OverlayValue, other: CellRef)
    ensures
        ({
            let t = with_computed(s, cell, v);
            &&& t.max_bytes matches Some(cap) ==> map_bytes(t.computed) <= cap || map_bytes(t.computed)
                > usize::MAX
            &&& t.delta == s.delta
            &&& other != cell ==> read(t, other) == read(s, other)
            &&& !s.delta.contains_key(spec_cell_key(cell)) ==> read(t, cell) == literal_of(v)
            &&& s.max_bytes is None ==> t.base == s.base && t.computed == s.computed.insert(
                spec_cell_key(cell),
                v,
            )
        }),
{
    crate::overlay::lemma_no_bytes();
    keys_name_their_cells(cell);
    keys_name_their_cells(other);
}

/// One-based addresses count from one; zero counts as one.
pub proof fn addresses_count_from_one(sheet_id: SheetId, row: u32, col: u32)
    ensures
        at_1_based(sheet_id, row, col).sheet_id == sheet_id,
        row > 0 ==> at_1_based(sheet_id, row, col).row == row - 1,
        col > 0 ==> at_1_based(sheet_id, row, col).col == col - 1,
        row == 0 ==> at_1_based(sheet_id, row, col).row == 0,
        col == 0 ==> at_1_based(sheet_id, row, col).col == 0,
{
}

/// Dropping a sheet takes all of its values away and all computed values, and leaves the base values
/// and user edits of the others.
pub proof fn a_dropped_sheet_leaves_nothing(s: StoreView, sheet_id: SheetId, cell: CellRef)
    ensures
        ({
            let t = without_sheet(s, sheet_id);
            let k = spec_cell_key(cell);
            &&& !t.computed.contains_key(k)
            &&& !t.extents.contains_key(sheet_id)
            &&& cell.sheet_id == sheet_id ==> !t.base.contains_key(k) && !t.delta.contains_key(k)
            &&& cell.sheet_id != sheet_id ==> (t.base.contains_key(k) <==> s.base.contains_key(k)) && (
            t.delta.contains_key(k) <==> s.delta.contains_key(k)) && (s.base.contains_key(k)
                ==> t.base[k] == s.base[k]) && (s.delta.contains_key(k) ==> t.delta[k] == s.delta[k])
        }),
{
    keys_name_their_cells(cell);
}

/// A sheet has as many lines more as are inserted, and as many less as of those that it has are deleted;
/// its lines in front of the deleted ones stay, and along the other axis nothing changes.
pub proof fn sheets_grow_and_shrink_by_the_lines(e: Extent, axis: Axis, start: u32, count: u32)
    ensures
        ({
            let (grown, shrunk) = (inserted_extent(e, axis, count), deleted_extent(e, axis, start, count));
            let along = |x: Extent|
                if axis == Axis::Rows {
                    x.rows
                } else {
                    x.cols
                };
            let across = |x: Extent|
                if axis == Axis::Rows {
                    x.cols
                } else {
                    x.rows
                };
            let n = along(e);
            &&& across(grown) == across(e) && across(shrunk) == across(e)
            &&& n + count <= u64::MAX ==> along(grown) == n + count
            &&& n <= start ==> along(shrunk) == n
            &&& n >= start + count ==> along(shrunk) == n - count
            &&& start < n < start + count ==> along(shrunk) == start
        }),
{
}

/// A copied sheet holds what its source holds, in base values and edits; every other sheet stays as it
/// is, and no computed value is left.
pub proof fn a_copied_sheet_holds_what_its_source_holds(
    s: StoreView,
    source: SheetId,
    target: SheetId,
    t: StoreView,
    c: CellRef,
)
    requires
        is_sheet_copy(s, source, target, t),
        source != target,
    ensures
        ({
            let from = spec_cell_key(
                CellRef {
                    sheet_id: if c.sheet_id == target {
                        source
                    } else {
                        c.sheet_id
                    },
                    row: c.row,
                    col: c.col,
                },
            );
            let k = spec_cell_key(c);
            &&& t.base.contains_key(k) == s.base.contains_key(from) && (t.base.contains_key(k) ==> t.base[k]
                == s.base[from])
            &&& t.delta.contains_key(k) == s.delta.contains_key(from) && (t.delta.contains_key(k)
                ==> t.delta[k] == s.delta[from])
            &&& !t.computed.contains_key(k)
            &&& t.extents.contains_key(target) && t.extents[target] == (if s.extents.contains_key(source) {
                s.extents[source]
            } else {
                Extent { rows: 0, cols: 0 }
            })
        }),
{
    let from = CellRef {
        sheet_id: if c.sheet_id == target {
            source
        } else {
            c.sheet_id
        },
        row: c.row,
        col: c.col,
    };
    assert(from == c || c.sheet_id == target);
    assert(t.base.contains_key(spec_cell_key(c)) == s.base.contains_key(spec_cell_key(from)));
    assert(t.delta.contains_key(spec_cell_key(c)) == s.delta.contains_key(spec_cell_key(from)));
}

/// Folding the computed values into the base leaves none, counts as one compaction, and touches no edit.
pub proof fn folding_leaves_no_computed_value(s: StoreView, k: u128)
    ensures
        !folded(s).computed.contains_key(k),
        s.computed.contains_key(k) ==> folded(s).base.contains_pair(k, s.computed[k]),
        !s.computed.contains_key(k) ==> folded(s).base.contains_key(k) == s.base.contains_key(k) && (
        s.base.contains_key(k) ==> folded(s).base[k] == s.base[k]),
        folded(s).delta == s.delta,
        folded(s).extents == s.extents,
        s.compactions < u64::MAX ==> folded(s).compactions == s.compactions + 1,
        !over_budget(s) ==> within_budget(s) == s,
        s.max_bytes is None ==> !over_budget(s),
{
}

/// Computed values are taken away from the cells that are listed and lie in the region, and from no
/// other.
pub proof fn listed_cells_in_the_region_are_cleared(cells: Seq<CellRef>, region: Region, c: CellRef)
    ensures
        is_cleared(cells, region, spec_cell_key(c), cells.len()) <==> cells.contains(c) && region.has_cell(c),
{
    keys_name_their_cells(c);
    if cells.contains(c) && region.has_cell(c) {
        let i = choose|i: int| 0 <= i < cells.len() && cells[i] == c;
        assert(spec_cell_key(cells[i]) == spec_cell_key(c));
    }
    if is_cleared(cells, region, spec_cell_key(c), cells.len()) {
        let i = choose|i: int|
            0 <= i < cells.len() && spec_cell_key(#[trigger] cells[i]) == spec_cell_key(c)
                && region.has_cell(cells[i]);
        keys_name_their_cells(cells[i]);
        assert(cells[i] == c);
    }
}

/// Folding the edits of a region brings each of them into the base, takes it away as an edit, and leaves
/// the edits outside and all computed values.
pub proof fn folded_edits_become_base_values(s: StoreView, region: Region, c: CellRef)
    ensures
        ({
            let t = edits_folded(s, region);
            let k = spec_cell_key(c);
            &&& region.has_cell(c) ==> !t.delta.contains_key(k)
            &&& region.has_cell(c) && s.delta.contains_key(k) ==> t.base.contains_pair(k, s.delta[k])
            &&& !region.has_cell(c) ==> t.delta.contains_key(k) == s.delta.contains_key(k) && (
            s.delta.contains_key(k) ==> t.delta[k] == s.delta[k])
            &&& !region.has_cell(c) || !s.delta.contains_key(k) ==> t.base.contains_key(k)
                == s.base.contains_key(k) && (s.base.contains_key(k) ==> t.base[k] == s.base[k])
            &&& t.computed == s.computed && t.extents == s.extents
        }),
{
    keys_name_their_cells(c);
    if region.has_cell(c) && s.delta.contains_key(spec_cell_key(c)) {
        assert(exists|k: u128| #[trigger] s.delta.contains_key(k) && region.has_cell(spec_key_cell(k)));
    }
}

} // verus!
