//! The grid as evaluation sees it: what cells show, what vertices hold, and which cells belong to
//! spilled arrays.
use crate::coord::{CellRef, VertexId, cell_key, cell_keys, keys_name_their_cells, spec_cell_key};
use crate::computed_write::{BufferView, ComputedWrite, ComputedWriteBuffer, FlatWrite, SheetLayout, flat, flat_one, layouts_ok, should_flush_computed_write_buffer, write_seq};
use crate::flush::{beneath, flush_computed_write_buffer, last_write, numbered_in_order, reaching};
use crate::fx::{map_get, map_insert, map_remove, set_insert};
use crate::number::int_bits;
use crate::overlay::{OverlayValue, lemma_no_bytes, literal_of, literal_to_overlay_value, reading_gives_back_what_was_stored};
use crate::region::{StructuralScope, formula_plane_region_from_cells, scope_of_cells};
use crate::store::{CellStore, Extent, StoreView, over_budget, with_computed, with_reach};
use crate::value::{ErrorKind, LiteralValue, ValueView, bare_error, value_eq};
use crate::vertex::{VertexKind, is_formula};
use rustc_hash::{FxHashMap, FxHashSet};
use vstd::prelude::*;

verus! {

/// What a cell shows once the value was stored as a computed value.
pub open spec fn shown(value: ValueView) -> ValueView {
    match value {
        ValueView::Int(i) => ValueView::Number(int_bits(i)),
        ValueView::Error(e) => ValueView::Error(bare_error(e.kind)),
        ValueView::Date(n) => ValueView::DateTime(n),
        ValueView::Time(n) => ValueView::DateTime(n),
        ValueView::Array(_) => ValueView::Error(bare_error(ErrorKind::Value)),
        other => other,
    }
}

/// Which changes of an evaluation are collected.
#[derive(Clone, Copy, Debug, PartialEq, Eq, Structural)]
pub enum DeltaMode {
    Off,
    Cells,
}

/// The cells that an evaluation changed.
#[derive(Debug)]
pub struct DeltaCollector {
    mode: DeltaMode,
    cells: Vec<CellRef>,
    seen: FxHashSet<u128>,
}

/// The model of a [`DeltaCollector`].
#[verifier::ext_equal]
pub struct DeltaView {
    pub mode: DeltaMode,
    pub cells: Seq<CellRef>,
}

/// The list with the cell behind it, unless the list holds it.
pub open spec fn push_cell(cells: Seq<CellRef>, cell: CellRef) -> Seq<CellRef> {
    if cells.contains(cell) {
        cells
    } else {
        cells.push(cell)
    }
}

impl DeltaCollector {
    pub closed spec fn view(&self) -> DeltaView {
        DeltaView { mode: self.mode, cells: self.cells@ }
    }

    pub closed spec fn wf(&self) -> bool {
        forall|c: CellRef| #[trigger]
            self.seen@.contains(spec_cell_key(c)) == self.cells@.contains(c)
    }

    pub fn new(mode: DeltaMode) -> (d: DeltaCollector)
        ensures
            d.wf(),
            d@ == (DeltaView { mode, cells: Seq::empty() }),
    {
        DeltaCollector { mode, cells: Vec::new(), seen: FxHashSet::default() }
    }

    /// Whether anything is collected.
    pub fn collects(&self) -> (b: bool)
        ensures
            b == (self@.mode != DeltaMode::Off),
    {
        self.mode != DeltaMode::Off
    }

    /// Collects a cell, once, unless collecting is off.
    pub fn record_cell(&mut self, cell: CellRef)
        requires
            old(self).wf(),
        ensures
            final(self).wf(),
            final(self)@ == (DeltaView {
                cells: if old(self)@.mode == DeltaMode::Off {
                    old(self)@.cells
                } else {
                    push_cell(old(self)@.cells, cell)
                },
                ..old(self)@
            }),
    {
        if self.mode == DeltaMode::Off {
            return;
        }
        let ghost before = self.cells@;
        let k = cell_key(cell);
        assert(self.seen@.contains(spec_cell_key(cell)) == before.contains(cell));
        let ghost old_seen = self.seen@;
        if set_insert(&mut self.seen, k) {
            self.cells.push(cell);
            proof {
                assert forall|c: CellRef| #[trigger] self.seen@.contains(spec_cell_key(c))
                    == self.cells@.contains(c) by {
                    keys_name_their_cells(c);
                    keys_name_their_cells(cell);
                    assert(old_seen.contains(spec_cell_key(c)) == before.contains(c));
                    if before.contains(c) {
                        let i = choose|i: int| 0 <= i < before.len() && before[i] == c;
                        assert(self.cells@[i] == c);
                    }
                    if c == cell {
                        assert(self.cells@[before.len() as int] == cell);
                    }
                    if self.cells@.contains(c) && c != cell {
                        let i = choose|i: int| 0 <= i < self.cells@.len() && self.cells@[i] == c;
                        assert(before[i] == c);
                    }
                }
            }
        } else {
            assert(self.seen@ =~= old_seen);
        }
    }

    /// The collected cells, in the order in which they were first collected.
    pub fn finish(self) -> (cells: Vec<CellRef>)
        ensures
            cells@ == self@.cells,
    {
        self.cells
    }
}

/// The grid.
#[derive(Debug)]
pub struct Grid {
    store: CellStore,
    values: FxHashMap<u32, LiteralValue>,
    cells: FxHashMap<u32, CellRef>,
    kinds: FxHashMap<u32, VertexKind>,
    vertex_at: FxHashMap<u128, u32>,
    spills: FxHashMap<u32, Vec<CellRef>>,
    owners: FxHashMap<u128, u32>,
    plane_changes: Vec<StructuralScope>,
}

/// The model of a [`Grid`].
#[verifier::ext_equal]
pub struct GridView {
    /// What every cell shows beneath user edits.
    pub under: Map<CellRef, ValueView>,
    /// What the edited cells show.
    pub edits: Map<CellRef, ValueView>,
    /// The extents of the sheets.
    pub extents: Map<u16, Extent>,
    /// The size at which computed values are folded into the base values.
    pub max_bytes: Option<usize>,
    /// What the vertices hold.
    pub values: Map<u32, ValueView>,
    /// Where the vertices stand.
    pub cells: Map<u32, CellRef>,
    pub kinds: Map<u32, VertexKind>,
    /// The vertices that stand in cells, by cell key.
    pub vertex_at: Map<u128, u32>,
    /// The cells of the arrays that are spilled, by anchor.
    pub spills: Map<u32, Seq<CellRef>>,
    /// The anchors of the cells that belong to a spilled array, by cell key.
    pub owners: Map<u128, u32>,
    /// The scopes of the changes that formula spans have to hear of.
    pub plane_changes: Seq<StructuralScope>,
}

/// What every cell shows beneath user edits.
pub open spec fn under_map(s: StoreView) -> Map<CellRef, ValueView> {
    Map::new(|c: CellRef| true, |c: CellRef| literal_of(beneath(s, c)))
}

/// What the edited cells show.
pub open spec fn edits_map(s: StoreView) -> Map<CellRef, ValueView> {
    Map::new(
        |c: CellRef| s.delta.contains_key(spec_cell_key(c)),
        |c: CellRef| literal_of(s.delta[spec_cell_key(c)]),
    )
}

/// A list of cells with the values that they get.
pub open spec fn changes_view(changes: Seq<(CellRef, LiteralValue)>) -> Seq<(CellRef, ValueView)> {
    Seq::new(changes.len(), |i: int| (changes[i].0, changes[i].1@))
}

impl GridView {
    /// What a reader of the cell gets.
    pub open spec fn reading(self, cell: CellRef) -> ValueView {
        if self.edits.contains_key(cell) {
            self.edits[cell]
        } else {
            self.under[cell]
        }
    }

    /// The kind of the vertex; an unknown one counts as empty.
    pub open spec fn kind(self, v: u32) -> VertexKind {
        if self.kinds.contains_key(v) {
            self.kinds[v]
        } else {
            VertexKind::Empty
        }
    }

    /// The cells of the array that the vertex has spilled.
    pub open spec fn spill_cells(self, v: u32) -> Seq<CellRef> {
        if self.spills.contains_key(v) {
            self.spills[v]
        } else {
            Seq::empty()
        }
    }

    /// The grid once the first `n` cells of the list show their values.
    pub open spec fn showing(self, changes: Seq<(CellRef, ValueView)>, n: nat) -> GridView
        decreases n,
    {
        if n == 0 {
            self
        } else {
            let before = self.showing(changes, (n - 1) as nat);
            GridView {
                under: before.under.insert(changes[n - 1].0, shown(changes[n - 1].1)),
                extents: with_reach(before.extents, changes[n - 1].0),
                ..before
            }
        }
    }

    /// The grid once the vertex holds the value, and its cell shows it where it is a formula.
    pub open spec fn holding(self, v: u32, value: ValueView) -> GridView {
        GridView {
            values: self.values.insert(v, value),
            under: if is_formula(self.kind(v)) && self.cells.contains_key(v) {
                self.under.insert(self.cells[v], shown(value))
            } else {
                self.under
            },
            extents: if is_formula(self.kind(v)) && self.cells.contains_key(v) {
                with_reach(self.extents, self.cells[v])
            } else {
                self.extents
            },
            ..self
        }
    }

    /// The grid once formula spans have to hear of a change to the cells.
    pub open spec fn telling(self, cells: Seq<CellRef>) -> GridView {
        GridView {
            plane_changes: match scope_of_cells(cells) {
                Some(scope) => self.plane_changes.push(scope),
                None => self.plane_changes,
            },
            ..self
        }
    }

    /// The grid once the spilled array of the vertex is forgotten, its cells shown empty.
    pub open spec fn unspilling(self, v: u32) -> GridView {
        let cells = self.spill_cells(v);
        let forgotten = GridView {
            spills: self.spills.remove(v),
            owners: self.owners.remove_keys(cell_keys(cells)),
            ..self
        };
        forgotten.telling(cells).showing(emptied(cells), cells.len())
    }

    /// The grid once a spilled array of the vertex is cleared; without one nothing happens.
    pub open spec fn clearing(self, v: u32) -> GridView {
        if self.spill_cells(v).len() == 0 {
            self
        } else {
            self.unspilling(v)
        }
    }
}

/// The cells, each with the empty value.
pub open spec fn emptied(cells: Seq<CellRef>) -> Seq<(CellRef, ValueView)> {
    Seq::new(cells.len(), |i: int| (cells[i], ValueView::Empty))
}

/// The collected cells once those of the first `n` changes that differ from what the grid shows
/// are collected.
pub open spec fn recorded(
    d: DeltaView,
    g: GridView,
    changes: Seq<(CellRef, ValueView)>,
    n: nat,
) -> DeltaView
    decreases n,
{
    if n == 0 || d.mode == DeltaMode::Off {
        d
    } else {
        let before = recorded(d, g, changes, (n - 1) as nat);
        let (cell, value) = changes[n - 1];
        if value_eq(g.reading(cell), value) {
            before
        } else {
            DeltaView { cells: push_cell(before.cells, cell), ..before }
        }
    }
}

pub proof fn lemma_recorded_mode(d: DeltaView, g: GridView, changes: Seq<(CellRef, ValueView)>, n: nat)
    ensures
        recorded(d, g, changes, n).mode == d.mode,
    decreases n,
{
    if n > 0 && d.mode != DeltaMode::Off {
        lemma_recorded_mode(d, g, changes, (n - 1) as nat);
    }
}

/// Collects nothing else than changed cells: every cell that is collected newly is named by a
/// change whose value differs from what the grid shows.
pub proof fn only_changed_cells_are_recorded(
    d: DeltaView,
    g: GridView,
    changes: Seq<(CellRef, ValueView)>,
    n: nat,
    cell: CellRef,
)
    requires
        n <= changes.len(),
        recorded(d, g, changes, n).cells.contains(cell),
        !d.cells.contains(cell),
    ensures
        exists|i: int|
            0 <= i < n && (#[trigger] changes[i]).0 == cell && !value_eq(
                g.reading(cell),
                changes[i].1,
            ),
    decreases n,
{
    if n > 0 && d.mode != DeltaMode::Off {
        let before = recorded(d, g, changes, (n - 1) as nat);
        if before.cells.contains(cell) {
            only_changed_cells_are_recorded(d, g, changes, (n - 1) as nat, cell);
            let i = choose|i: int|
                0 <= i < n - 1 && (#[trigger] changes[i]).0 == cell && !value_eq(
                    g.reading(cell),
                    changes[i].1,
                );
            assert(changes[i].0 == cell);
        } else {
            let (c, value) = changes[n - 1];
            assert(before.cells.push(c).contains(cell));
            let k = choose|k: int|
                0 <= k < before.cells.push(c).len() && before.cells.push(c)[k] == cell;
            if k < before.cells.len() {
                assert(before.cells[k] == cell);
            }
            assert(changes[n - 1].0 == cell);
        }
    }
}

proof fn lemma_put_under(s: StoreView, cell: CellRef, v: OverlayValue)
    ensures
        under_map(with_computed(s, cell, v)) == under_map(s).insert(cell, literal_of(v)),
        edits_map(with_computed(s, cell, v)) == edits_map(s),
        with_computed(s, cell, v).extents == with_reach(s.extents, cell),
        with_computed(s, cell, v).max_bytes == s.max_bytes,
        !over_budget(with_computed(s, cell, v)),
{
    lemma_no_bytes();
    let a = under_map(with_computed(s, cell, v));
    let b = under_map(s).insert(cell, literal_of(v));
    assert forall|c: CellRef|
        #![trigger b.dom().contains(c)]
        #![trigger b[c]]
        a[c] == b[c] by {
        keys_name_their_cells(c);
        keys_name_their_cells(cell);
    }
    assert(a =~= b);
    assert(edits_map(with_computed(s, cell, v)) =~= edits_map(s));
}

impl Grid {
    pub closed spec fn view(&self) -> GridView {
        GridView {
            under: under_map(self.store@),
            edits: edits_map(self.store@),
            extents: self.store@.extents,
            max_bytes: self.store@.max_bytes,
            values: self.values@.map_values(|v: LiteralValue| v@),
            cells: self.cells@,
            kinds: self.kinds@,
            vertex_at: self.vertex_at@,
            spills: self.spills@.map_values(|c: Vec<CellRef>| c@),
            owners: self.owners@,
            plane_changes: self.plane_changes@,
        }
    }

    pub closed spec fn wf(&self) -> bool {
        self.store.wf()
    }

    /// Whether the computed values take no more than they may.
    pub closed spec fn keeps_budget(&self) -> bool {
        !over_budget(self.store@)
    }

    /// Every cell shows something.
    pub proof fn lemma_total(&self)
        ensures
            self@.under.dom() == Set::<CellRef>::full(),
    {
        assert(self@.under.dom() =~= Set::<CellRef>::full());
    }

    /// The grid over a storage, without vertices.
    pub fn new(store: CellStore) -> (g: Grid)
        requires
            store.wf(),
        ensures
            g.wf(),
            g.keeps_budget() == !over_budget(store@),
            g@ == (GridView {
                under: under_map(store@),
                edits: edits_map(store@),
                extents: store@.extents,
                max_bytes: store@.max_bytes,
                values: Map::empty(),
                cells: Map::empty(),
                kinds: Map::empty(),
                vertex_at: Map::empty(),
                spills: Map::empty(),
                owners: Map::empty(),
                plane_changes: Seq::empty(),
            }),
    {
        let g = Grid {
            store,
            values: FxHashMap::default(),
            cells: FxHashMap::default(),
            kinds: FxHashMap::default(),
            vertex_at: FxHashMap::default(),
            spills: FxHashMap::default(),
            owners: FxHashMap::default(),
            plane_changes: Vec::new(),
        };
        proof {
            assert(g@.values =~= Map::empty());
            assert(g@.spills =~= Map::empty());
        }
        g
    }

    /// The storage of the grid, with everything that its cells show.
    pub fn into_store(self) -> (store: CellStore)
        requires
            self.wf(),
        ensures
            store.wf(),
            under_map(store@) == self@.under,
            edits_map(store@) == self@.edits,
            store@.extents == self@.extents,
            store@.max_bytes == self@.max_bytes,
            self.keeps_budget() == !over_budget(store@),
    {
        self.store
    }

    /// Adds a vertex that stands in a cell.
    pub fn add_vertex(&mut self, v: VertexId, kind: VertexKind, cell: CellRef)
        requires
            old(self).wf(),
        ensures
            final(self).wf(),
            old(self).keeps_budget() ==> final(self).keeps_budget(),
            final(self)@ == (GridView {
                cells: old(self)@.cells.insert(v, cell),
                kinds: old(self)@.kinds.insert(v, kind),
                vertex_at: old(self)@.vertex_at.insert(spec_cell_key(cell), v),
                ..old(self)@
            }),
    {
        map_insert(&mut self.cells, v, cell);
        map_insert(&mut self.kinds, v, kind);
        map_insert(&mut self.vertex_at, cell_key(cell), v);
    }

    /// Adds a vertex that stands in no cell, such as a name.
    pub fn add_detached_vertex(&mut self, v: VertexId, kind: VertexKind)
        requires
            old(self).wf(),
        ensures
            final(self).wf(),
            old(self).keeps_budget() ==> final(self).keeps_budget(),
            final(self)@ == (GridView {
                kinds: old(self)@.kinds.insert(v, kind),
                ..old(self)@
            }),
    {
        map_insert(&mut self.kinds, v, kind);
    }

    pub fn set_kind(&mut self, v: VertexId, kind: VertexKind)
        requires
            old(self).wf(),
        ensures
            final(self).wf(),
            old(self).keeps_budget() ==> final(self).keeps_budget(),
            final(self)@ == (GridView {
                kinds: old(self)@.kinds.insert(v, kind),
                ..old(self)@
            }),
    {
        map_insert(&mut self.kinds, v, kind);
    }

    pub fn vertex_kind(&self, v: VertexId) -> (k: VertexKind)
        ensures
            k == self@.kind(v),
    {
        match map_get(&self.kinds, &v) {
            Some(k) => *k,
            None => VertexKind::Empty,
        }
    }

    pub fn cell_of(&self, v: VertexId) -> (r: Option<CellRef>)
        ensures
            r == (if self@.cells.contains_key(v) {
                Some(self@.cells[v])
            } else {
                None
            }),
    {
        match map_get(&self.cells, &v) {
            Some(c) => Some(*c),
            None => None,
        }
    }

    /// What the vertex holds.
    pub fn vertex_value(&self, v: VertexId) -> (r: Option<LiteralValue>)
        ensures
            match r {
                Some(x) => self@.values.contains_key(v) && x@ == self@.values[v],
                None => !self@.values.contains_key(v),
            },
    {
        match map_get(&self.values, &v) {
            Some(x) => Some(x.duplicate()),
            None => None,
        }
    }

    /// What a cell shows.
    pub fn read_cell(&self, cell: CellRef) -> (v: LiteralValue)
        requires
            self.wf(),
        ensures
            v@ == self@.reading(cell),
    {
        let v = self.store.read_cell(cell);
        v
    }

    pub fn owner_of(&self, cell: CellRef) -> (r: Option<VertexId>)
        ensures
            r == (if self@.owners.contains_key(spec_cell_key(cell)) {
                Some(self@.owners[spec_cell_key(cell)])
            } else {
                None
            }),
    {
        match map_get(&self.owners, &cell_key(cell)) {
            Some(v) => Some(*v),
            None => None,
        }
    }

    pub fn vertex_in(&self, cell: CellRef) -> (r: Option<VertexId>)
        ensures
            r == (if self@.vertex_at.contains_key(spec_cell_key(cell)) {
                Some(self@.vertex_at[spec_cell_key(cell)])
            } else {
                None
            }),
    {
        match map_get(&self.vertex_at, &cell_key(cell)) {
            Some(v) => Some(*v),
            None => None,
        }
    }

    /// The scopes of changes that formula spans have not heard of yet; they count as heard from
    /// now on.
    pub fn take_plane_changes(&mut self) -> (r: Vec<StructuralScope>)
        requires
            old(self).wf(),
        ensures
            final(self).wf(),
            old(self).keeps_budget() ==> final(self).keeps_budget(),
            r@ == old(self)@.plane_changes,
            final(self)@ == (GridView { plane_changes: Seq::empty(), ..old(self)@ }),
    {
        let mut out: Vec<StructuralScope> = Vec::new();
        std::mem::swap(&mut out, &mut self.plane_changes);
        out
    }

    /// The cells of the array that the vertex has spilled.
    pub fn spilled_cells(&self, v: VertexId) -> (r: Vec<CellRef>)
        ensures
            r@ == self@.spill_cells(v),
    {
        match map_get(&self.spills, &v) {
            Some(cells) => {
                let mut out: Vec<CellRef> = Vec::new();
                let mut i: usize = 0;
                while i < cells.len()
                    invariant
                        i <= cells@.len(),
                        out@ == cells@.take(i as int),
                    decreases cells@.len() - i,
                {
                    out.push(cells[i]);
                    assert(out@ =~= cells@.take(i + 1));
                    i = i + 1;
                }
                assert(cells@.take(i as int) =~= cells@);
                out
            },
            None => Vec::new(),
        }
    }

    /// Shows a computed value in a cell, which its sheet then covers.
    pub fn show(&mut self, cell: CellRef, value: &LiteralValue)
        requires
            old(self).wf(),
        ensures
            final(self).wf(),
            final(self).keeps_budget(),
            final(self)@ == (GridView {
                under: old(self)@.under.insert(cell, shown(value@)),
                extents: with_reach(old(self)@.extents, cell),
                ..old(self)@
            }),
    {
        let ov = literal_to_overlay_value(value);
        proof {
            reading_gives_back_what_was_stored(value@, ov);
            lemma_put_under(self.store@, cell, ov);
        }
        self.store.write_computed_overlay_value_0based(cell, ov);
    }

    /// Shows the values of a list of changes.
    pub fn show_all(&mut self, changes: &Vec<(CellRef, LiteralValue)>)
        requires
            old(self).wf(),
        ensures
            final(self).wf(),
            old(self).keeps_budget() ==> final(self).keeps_budget(),
            final(self)@ == old(self)@.showing(changes_view(changes@), changes@.len()),
    {
        let ghost before = self@;
        let ghost list = changes_view(changes@);
        let mut i: usize = 0;
        while i < changes.len()
            invariant
                self.wf(),
                old(self).keeps_budget() ==> self.keeps_budget(),
                i <= changes@.len(),
                list == changes_view(changes@),
                self@ == before.showing(list, i as nat),
            decreases changes@.len() - i,
        {
            self.show(changes[i].0, &changes[i].1);
            assert(list[i as int] == (changes@[i as int].0, changes@[i as int].1@));
            i = i + 1;
        }
    }

    /// Collects the cells of the list whose value differs from what they show.
    pub fn record_changes(&self, changes: &Vec<(CellRef, LiteralValue)>, delta: &mut DeltaCollector)
        requires
            self.wf(),
            old(delta).wf(),
        ensures
            final(delta).wf(),
            final(delta)@ == recorded(
                old(delta)@,
                self@,
                changes_view(changes@),
                changes@.len(),
            ),
    {
        let ghost before = delta@;
        let ghost list = changes_view(changes@);
        let mut i: usize = 0;
        while i < changes.len()
            invariant
                self.wf(),
                delta.wf(),
                i <= changes@.len(),
                list == changes_view(changes@),
                delta@ == recorded(before, self@, list, i as nat),
            decreases changes@.len() - i,
        {
            proof {
                lemma_recorded_mode(before, self@, list, i as nat);
                assert(list[i as int] == (changes@[i as int].0, changes@[i as int].1@));
            }
            let (cell, value) = (changes[i].0, &changes[i].1);
            let old_value = self.read_cell(cell);
            if !old_value.same(value) {
                delta.record_cell(cell);
            }
            i = i + 1;
        }
    }

    /// Stores the value of a vertex, and shows it in the vertex's cell where it is a formula.
    pub fn hold(&mut self, v: VertexId, value: &LiteralValue)
        requires
            old(self).wf(),
        ensures
            final(self).wf(),
            old(self).keeps_budget() ==> final(self).keeps_budget(),
            final(self)@ == old(self)@.holding(v, value@),
    {
        let ghost before = self@;
        map_insert(&mut self.values, v, value.duplicate());
        assert(self@.values =~= before.values.insert(v, value@));
        if self.vertex_kind(v).formula() {
            if let Some(cell) = self.cell_of(v) {
                self.show(cell, value);
            }
        }
    }

    /// Stores the value of a vertex and shows nothing.
    pub fn hold_silently(&mut self, v: VertexId, value: &LiteralValue)
        requires
            old(self).wf(),
        ensures
            final(self).wf(),
            old(self).keeps_budget() ==> final(self).keeps_budget(),
            final(self)@ == (GridView {
                values: old(self)@.values.insert(v, value@),
                ..old(self)@
            }),
    {
        let ghost before = self@;
        map_insert(&mut self.values, v, value.duplicate());
        assert(self@.values =~= before.values.insert(v, value@));
    }

    fn tell(&mut self, cells: &Vec<CellRef>)
        requires
            old(self).wf(),
        ensures
            final(self).wf(),
            old(self).keeps_budget() ==> final(self).keeps_budget(),
            final(self)@ == old(self)@.telling(cells@),
    {
        if let Some(scope) = formula_plane_region_from_cells(cells) {
            self.plane_changes.push(scope);
        }
    }

    fn disown(&mut self, cells: &Vec<CellRef>)
        requires
            old(self).wf(),
        ensures
            final(self).wf(),
            old(self).keeps_budget() ==> final(self).keeps_budget(),
            final(self)@ == (GridView {
                owners: old(self)@.owners.remove_keys(cell_keys(cells@)),
                ..old(self)@
            }),
    {
        let ghost before = self.owners@;
        let ghost rest = self@;
        let mut i: usize = 0;
        while i < cells.len()
            invariant
                self.wf(),
                old(self).keeps_budget() ==> self.keeps_budget(),
                i <= cells@.len(),
                self@ == (GridView { owners: self.owners@, ..rest }),
                self.owners@ =~= before.remove_keys(cell_keys(cells@.take(i as int))),
            decreases cells@.len() - i,
        {
            let k = cell_key(cells[i]);
            map_remove(&mut self.owners, &k);
            proof {
                let head = cells@.take(i as int);
                let longer = cells@.take(i + 1);
                assert forall|m: u128| #[trigger] cell_keys(longer).contains(m) <==> cell_keys(
                    head,
                ).contains(m) || m == k by {
                    if cell_keys(head).contains(m) {
                        let j = choose|j: int|
                            0 <= j < head.len() && spec_cell_key(#[trigger] head[j]) == m;
                        assert(longer[j] == head[j]);
                    }
                    if m == k {
                        assert(longer[i as int] == cells@[i as int]);
                    }
                    if cell_keys(longer).contains(m) {
                        let j = choose|j: int|
                            0 <= j < longer.len() && spec_cell_key(#[trigger] longer[j]) == m;
                        if j < i {
                            assert(head[j] == longer[j]);
                        }
                    }
                }
                assert(self.owners@ =~= before.remove_keys(cell_keys(longer)));
            }
            i = i + 1;
        }
        assert(cells@.take(i as int) =~= cells@);
    }

    /// Forgets the spilled array of the vertex and shows its cells empty.
    pub fn unspill(&mut self, v: VertexId)
        requires
            old(self).wf(),
        ensures
            final(self).wf(),
            old(self).keeps_budget() ==> final(self).keeps_budget(),
            final(self)@ == old(self)@.unspilling(v),
    {
        let ghost before = self@;
        let cells = self.spilled_cells(v);
        map_remove(&mut self.spills, &v);
        assert(self@.spills =~= before.spills.remove(v));
        self.disown(&cells);
        self.tell(&cells);
        let empties = empty_changes(&cells);
        self.show_all(&empties);
    }

    /// Clears the spilled array of the vertex, if it has one, and collects the cells that do not
    /// show empty already.
    pub fn clear_spill_projection_and_mirror(&mut self, v: VertexId, delta: &mut DeltaCollector)
        requires
            old(self).wf(),
            old(delta).wf(),
        ensures
            final(self).wf(),
            old(self).keeps_budget() ==> final(self).keeps_budget(),
            final(delta).wf(),
            final(self)@ == old(self)@.clearing(v),
            final(delta)@ == recorded(
                old(delta)@,
                old(self)@,
                emptied(old(self)@.spill_cells(v)),
                old(self)@.spill_cells(v).len(),
            ),
    {
        let cells = self.spilled_cells(v);
        if cells.len() == 0 {
            return;
        }
        let empties = empty_changes(&cells);
        self.record_changes(&empties, delta);
        self.unspill(v);
    }

    /// Registers the cells as the spilled array of the vertex.
    pub fn register_spill(&mut self, v: VertexId, targets: &Vec<CellRef>)
        requires
            old(self).wf(),
        ensures
            final(self).wf(),
            old(self).keeps_budget() ==> final(self).keeps_budget(),
            final(self)@ == (GridView {
                spills: old(self)@.spills.insert(v, targets@),
                owners: owned(
                    old(self)@.owners.remove_keys(cell_keys(old(self)@.spill_cells(v))),
                    targets@,
                    v,
                    targets@.len(),
                ),
                ..old(self)@
            }),
    {
        let ghost before = self@;
        let previous = self.spilled_cells(v);
        self.disown(&previous);
        let mut copy: Vec<CellRef> = Vec::new();
        let ghost rest = self@;
        let mut i: usize = 0;
        while i < targets.len()
            invariant
                self.wf(),
                old(self).keeps_budget() ==> self.keeps_budget(),
                i <= targets@.len(),
                copy@ == targets@.take(i as int),
                self@ == (GridView { owners: owned(rest.owners, targets@, v, i as nat), ..rest }),
            decreases targets@.len() - i,
        {
            copy.push(targets[i]);
            assert(copy@ =~= targets@.take(i + 1));
            map_insert(&mut self.owners, cell_key(targets[i]), v);
            i = i + 1;
        }
        assert(copy@ =~= targets@);
        map_insert(&mut self.spills, v, copy);
        assert(self@.spills =~= before.spills.insert(v, targets@));
    }

    /// Formula spans have to hear of a change to the cells.
    pub fn tell_of(&mut self, cells: &Vec<CellRef>)
        requires
            old(self).wf(),
        ensures
            final(self).wf(),
            old(self).keeps_budget() ==> final(self).keeps_budget(),
            final(self)@ == old(self)@.telling(cells@),
    {
        self.tell(cells);
    }
}

/// The owners once the first `n` cells belong to the vertex.
pub open spec fn owned(
    owners: Map<u128, u32>,
    cells: Seq<CellRef>,
    v: u32,
    n: nat,
) -> Map<u128, u32>
    decreases n,
{
    if n == 0 {
        owners
    } else {
        owned(owners, cells, v, (n - 1) as nat).insert(spec_cell_key(cells[n - 1]), v)
    }
}

/// The cells, each with the empty value.
pub fn empty_changes(cells: &Vec<CellRef>) -> (r: Vec<(CellRef, LiteralValue)>)
    ensures
        changes_view(r@) == emptied(cells@),
        r@.len() == cells@.len(),
{
    let mut out: Vec<(CellRef, LiteralValue)> = Vec::new();
    let mut i: usize = 0;
    while i < cells.len()
        invariant
            i <= cells@.len(),
            out@.len() == i,
            forall|k: int|
                0 <= k < i ==> (#[trigger] out@[k]).0 == cells@[k] && out@[k].1@
                    == ValueView::Empty,
        decreases cells@.len() - i,
    {
        out.push((cells[i], LiteralValue::Empty));
        i = i + 1;
    }
    assert(changes_view(out@) =~= emptied(cells@));
    out
}

/// The grid as it is once the buffered writes have reached the storage.
pub open spec fn settled(g: GridView, writes: Seq<ComputedWrite>) -> GridView {
    let all = flat(writes, writes.len());
    GridView {
        under: Map::new(
            |c: CellRef| true,
            |c: CellRef|
                match last_write(all, c, all.len()) {
                    Some(v) => literal_of(v),
                    None => g.under[c],
                },
        ),
        extents: reaching(g.extents, all, all.len()),
        ..g
    }
}

/// Whether the writes of the buffer are numbered in order, with a number left for another one.
pub open spec fn in_number(b: BufferView) -> bool {
    &&& numbered_in_order(b.writes)
    &&& forall|i: int| 0 <= i < b.writes.len() ==> write_seq(#[trigger] b.writes[i]) < b.next_seq
}

proof fn lemma_last_write_pushed(writes: Seq<FlatWrite>, w: FlatWrite, cell: CellRef, n: nat)
    requires
        n <= writes.len(),
    ensures
        last_write(writes.push(w), cell, n) == last_write(writes, cell, n),
    decreases n,
{
    if n > 0 {
        lemma_last_write_pushed(writes, w, cell, (n - 1) as nat);
    }
}

proof fn lemma_reaching_pushed(e: Map<u16, Extent>, writes: Seq<FlatWrite>, w: FlatWrite, n: nat)
    requires
        n <= writes.len(),
    ensures
        reaching(e, writes.push(w), n) == reaching(e, writes, n),
    decreases n,
{
    if n > 0 {
        lemma_reaching_pushed(e, writes, w, (n - 1) as nat);
    }
}

proof fn lemma_flat_prefix(writes: Seq<ComputedWrite>, w: ComputedWrite, n: nat)
    requires
        n <= writes.len(),
    ensures
        flat(writes.push(w), n) == flat(writes, n),
    decreases n,
{
    if n > 0 {
        lemma_flat_prefix(writes, w, (n - 1) as nat);
    }
}

impl Grid {
    /// Whether the storage asks for the buffer to be written before the computed values outgrow
    /// their budget.
    fn wants_flush(&self, buffer: &ComputedWriteBuffer) -> (b: bool)
        requires
            self.wf(),
    {
        should_flush_computed_write_buffer(
            self.store.budget(),
            self.store.overlay_memory_usage(),
            buffer,
        )
    }

    /// Writes what the buffer holds, and empties it.
    pub fn flush(&mut self, layouts: &FxHashMap<u16, SheetLayout>, buffer: &mut ComputedWriteBuffer)
        requires
            old(self).wf(),
            layouts_ok(layouts@),
            in_number(old(buffer)@),
        ensures
            final(self).wf(),
            old(self).keeps_budget() ==> final(self).keeps_budget(),
            final(self)@ == settled(old(self)@, old(buffer)@.writes),
            final(buffer)@.writes.len() == 0,
            final(buffer)@.next_seq == old(buffer)@.next_seq,
            final(buffer)@.estimated_bytes == 0,
            in_number(final(buffer)@),
            settled(final(self)@, final(buffer)@.writes) == settled(
                old(self)@,
                old(buffer)@.writes,
            ),
    {
        let ghost before = self@;
        let ghost s0 = self.store@;
        let ghost writes = buffer@.writes;
        let ghost all = flat(writes, writes.len());
        flush_computed_write_buffer(&mut self.store, layouts, buffer);
        proof {
            let goal = settled(before, writes);
            assert forall|c: CellRef|
                #![trigger goal.under.dom().contains(c)]
                #![trigger goal.under[c]]
                self@.under[c] == goal.under[c] by {
                assert(beneath(self.store@, c) == (match last_write(all, c, all.len()) {
                    Some(v) => v,
                    None => beneath(s0, c),
                }));
            }
            assert(self@.under =~= goal.under);
            assert(self@.edits =~= goal.edits);
            assert(self@ =~= goal);
            assert(self@.under.dom() =~= Set::<CellRef>::full());
            lemma_settled_empty(self@, buffer@.writes);
        }
    }

    /// Stores the value of a vertex, and buffers what its cell is to show where it is a formula.
    /// Once the buffer is written, the grid is as if the value had been shown at once.
    pub fn hold_buffered(
        &mut self,
        v: VertexId,
        value: &LiteralValue,
        layouts: &FxHashMap<u16, SheetLayout>,
        buffer: &mut ComputedWriteBuffer,
    )
        requires
            old(self).wf(),
            layouts_ok(layouts@),
            in_number(old(buffer)@),
            old(buffer)@.next_seq < u64::MAX,
        ensures
            final(self).wf(),
            old(self).keeps_budget() ==> final(self).keeps_budget(),
            in_number(final(buffer)@),
            final(buffer)@.next_seq <= old(buffer)@.next_seq + 1,
            settled(final(self)@, final(buffer)@.writes) == settled(
                old(self)@,
                old(buffer)@.writes,
            ).holding(v, value@),
    {
        let ghost before = self@;
        let ghost writes = buffer@.writes;
        map_insert(&mut self.values, v, value.duplicate());
        assert(self@.values =~= before.values.insert(v, value@));
        if self.vertex_kind(v).formula() {
            if let Some(cell) = self.cell_of(v) {
                let ov = literal_to_overlay_value(value);
                proof {
                    reading_gives_back_what_was_stored(value@, ov);
                }
                let ghost number = buffer@.next_seq;
                let ghost shown_value = ov;
                buffer.push_cell(cell.sheet_id, cell.row, cell.col, ov);
                proof {
                    let w = ComputedWrite::Cell {
                        seq: number,
                        sheet_id: cell.sheet_id,
                        row0: cell.row,
                        col0: cell.col,
                        value: shown_value,
                    };
                    let f = FlatWrite { cell, seq: number, value: shown_value };
                    let all = flat(writes, writes.len());
                    assert(buffer@.writes == writes.push(w));
                    lemma_flat_prefix(writes, w, writes.len());
                    assert(flat_one(w) =~= seq![f]);
                    assert(flat(buffer@.writes, buffer@.writes.len()) =~= all.push(f));
                    let a = settled(self@, buffer@.writes);
                    let b = settled(before, writes).holding(v, value@);
                    assert forall|c: CellRef|
                        #![trigger b.under.dom().contains(c)]
                        #![trigger b.under[c]]
                        a.under[c] == b.under[c] by {
                        lemma_last_write_pushed(all, f, c, all.len());
                    }
                    assert(a.under =~= b.under);
                    lemma_reaching_pushed(before.extents, all, f, all.len());
                    assert(a =~= b);
                    assert forall|i: int, j: int|
                        0 <= i <= j < buffer@.writes.len() implies write_seq(
                        #[trigger] buffer@.writes[i],
                    ) <= write_seq(#[trigger] buffer@.writes[j]) by {
                        if j < writes.len() {
                            assert(buffer@.writes[i] == writes[i] && buffer@.writes[j]
                                == writes[j]);
                        } else if i < writes.len() {
                            assert(buffer@.writes[i] == writes[i]);
                        }
                    }
                    assert forall|i: int| 0 <= i < buffer@.writes.len() implies write_seq(
                        #[trigger] buffer@.writes[i],
                    ) < buffer@.next_seq by {
                        if i < writes.len() {
                            assert(buffer@.writes[i] == writes[i]);
                        }
                    }
                }
                if self.wants_flush(buffer) {
                    self.flush(layouts, buffer);
                }
                return;
            }
        }
        assert(settled(self@, writes) =~= settled(before, writes).holding(v, value@));
    }
}

/// Without buffered writes there is nothing to settle.
pub proof fn lemma_settled_empty(g: GridView, writes: Seq<ComputedWrite>)
    requires
        writes.len() == 0,
        g.under.dom() == Set::<CellRef>::full(),
    ensures
        settled(g, writes) == g,
{
    assert(settled(g, writes).under =~= g.under);
    assert(settled(g, writes) =~= g);
}

/// A value that a vertex holds is shown in its cell where the vertex is a formula in a cell, of either
/// kind, and nowhere else; other vertices hold what they held.
pub proof fn formulas_show_what_they_hold(g: GridView, v: u32, value: ValueView, other: u32, cell: CellRef)
    ensures
        ({
            let h = g.holding(v, value);
            let formula = g.kinds.contains_key(v) && (g.kinds[v] == VertexKind::FormulaScalar
                || g.kinds[v] == VertexKind::FormulaArray) && g.cells.contains_key(v);
            &&& h.values.contains_key(v) && h.values[v] == value
            &&& other != v ==> (h.values.contains_key(other) <==> g.values.contains_key(other)) && (
            g.values.contains_key(other) ==> h.values[other] == g.values[other])
            &&& formula && cell == g.cells[v] ==> h.under[cell] == shown(value)
            &&& !formula || cell != g.cells[v] ==> h.under[cell] == g.under[cell]
            &&& h.edits == g.edits && h.spills == g.spills && h.owners == g.owners
        }),
{
}

/// Clearing a spilled array forgets it, gives its cells up and shows them empty; all other cells show
/// what they showed, and without an array nothing happens.
pub proof fn a_cleared_array_shows_nothing(g: GridView, v: u32, cell: CellRef)
    requires
        g.under.dom() == Set::<CellRef>::full(),
    ensures
        ({
            let h = g.clearing(v);
            let spilled = g.spills.contains_key(v) && g.spills[v].contains(cell);
            &&& spilled ==> h.under[cell] == ValueView::Empty && !h.owners.contains_key(
                spec_cell_key(cell),
            )
            &&& !spilled ==> h.under[cell] == g.under[cell] && (h.owners.contains_key(
                spec_cell_key(cell),
            ) <==> g.owners.contains_key(spec_cell_key(cell)))
            &&& h.values == g.values && h.edits == g.edits
            &&& g.spills.contains_key(v) && g.spills[v].len() > 0 ==> !h.spills.contains_key(v)
            &&& !g.spills.contains_key(v) ==> h == g
        }),
{
    let cells = g.spill_cells(v);
    if cells.len() > 0 {
        let forgotten = GridView {
            spills: g.spills.remove(v),
            owners: g.owners.remove_keys(cell_keys(cells)),
            ..g
        };
        lemma_shown_empty(forgotten.telling(cells), cells, cells.len(), cell);
        assert(cells.take(cells.len() as int) =~= cells);
        keys_name_their_cells(cell);
        assert(cell_keys(cells).contains(spec_cell_key(cell)) <==> cells.contains(cell)) by {
            if cells.contains(cell) {
                let i = choose|i: int| 0 <= i < cells.len() && cells[i] == cell;
                assert(spec_cell_key(cells[i]) == spec_cell_key(cell));
            }
            if cell_keys(cells).contains(spec_cell_key(cell)) {
                let i = choose|i: int|
                    0 <= i < cells.len() && spec_cell_key(#[trigger] cells[i]) == spec_cell_key(cell);
                keys_name_their_cells(cells[i]);
            }
        }
    }
}

proof fn lemma_shown_empty(g: GridView, cells: Seq<CellRef>, n: nat, cell: CellRef)
    requires
        n <= cells.len(),
    ensures
        ({
            let h = g.showing(emptied(cells), n);
            &&& cells.take(n as int).contains(cell) ==> h.under[cell] == ValueView::Empty
            &&& !cells.take(n as int).contains(cell) ==> h.under[cell] == g.under[cell]
            &&& h.values == g.values && h.edits == g.edits && h.spills == g.spills && h.owners
                == g.owners
        }),
    decreases n,
{
    if n > 0 {
        let m = (n - 1) as nat;
        lemma_shown_empty(g, cells, m, cell);
        assert(cells.take(n as int) =~= cells.take(m as int).push(cells[n - 1]));
        if cells.take(m as int).contains(cell) {
            let i = choose|i: int| 0 <= i < m && cells.take(m as int)[i] == cell;
            assert(cells.take(n as int)[i] == cell);
        }
        if cells[n - 1] == cell {
            assert(cells.take(n as int)[n - 1] == cell);
        }
        if cells.take(n as int).contains(cell) && cells[n - 1] != cell {
            let i = choose|i: int| 0 <= i < n && cells.take(n as int)[i] == cell;
            assert(cells.take(m as int)[i] == cell);
        }
    } else {
        assert(cells.take(0) =~= Seq::empty());
    }
}

/// Every change is collected: where changes are collected at all, a cell whose new value differs from
/// what it shows is among the collected ones, and what was collected before stays.
pub proof fn changed_cells_are_recorded(
    d: DeltaView,
    g: GridView,
    changes: Seq<(CellRef, ValueView)>,
    n: nat,
    i: int,
)
    requires
        d.mode == DeltaMode::Cells,
        0 <= i < n <= changes.len(),
        !value_eq(
            if g.edits.contains_key(changes[i].0) {
                g.edits[changes[i].0]
            } else {
                g.under[changes[i].0]
            },
            changes[i].1,
        ),
    ensures
        recorded(d, g, changes, n).cells.contains(changes[i].0),
    decreases n,
{
    let m = (n - 1) as nat;
    let before = recorded(d, g, changes, m);
    lemma_recorded_mode(d, g, changes, m);
    let cell = changes[n - 1].0;
    if i < m {
        changed_cells_are_recorded(d, g, changes, m, i);
        let k = choose|k: int| 0 <= k < before.cells.len() && before.cells[k] == changes[i].0;
        assert(before.cells.push(cell)[k] == changes[i].0);
    } else {
        assert(before.cells.push(cell)[before.cells.len() as int] == cell);
    }
}

/// A cell shows the user's edit where there is one, and else what lies under it.
pub proof fn edits_lie_over_what_is_under_them(g: GridView, cell: CellRef)
    ensures
        g.edits.contains_key(cell) ==> g.reading(cell) == g.edits[cell],
        !g.edits.contains_key(cell) ==> g.reading(cell) == g.under[cell],
{
}

/// Once buffered writes are settled every written cell shows the last value written, and every other one
/// what it showed.
pub proof fn settled_writes_are_shown(g: GridView, writes: Seq<ComputedWrite>, cell: CellRef, i: int)
    ensures
        ({
            let all = flat(writes, writes.len());
            let h = settled(g, writes);
            &&& 0 <= i < all.len() && all[i].cell == cell && (forall|k: int|
                i < k < all.len() ==> (#[trigger] all[k]).cell != cell) ==> h.under[cell] == literal_of(
                all[i].value,
            )
            &&& (forall|k: int| 0 <= k < all.len() ==> (#[trigger] all[k]).cell != cell) ==> h.under[cell]
                == g.under[cell]
            &&& h.edits == g.edits && h.values == g.values && h.spills == g.spills && h.kinds == g.kinds
        }),
{
    let all = flat(writes, writes.len());
    if 0 <= i < all.len() && all[i].cell == cell && (forall|k: int|
        i < k < all.len() ==> (#[trigger] all[k]).cell != cell) {
        crate::flush::the_last_write_is_what_is_left(all, cell, all.len(), i);
    }
    if forall|k: int| 0 <= k < all.len() ==> (#[trigger] all[k]).cell != cell {
        crate::flush::unwritten_cells_have_no_last_write(all, cell, all.len());
    }
}

} // verus!
