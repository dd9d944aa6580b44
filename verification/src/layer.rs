//! The evaluation of one layer: in which order its vertices run, and when what they computed
//! reaches the grid.
use crate::computed_write::{COMPUTED_WRITE_COALESCING_MIN_LAYER_WIDTH, ComputedWriteBuffer, SheetLayout, layouts_ok};
use crate::coord::VertexId;
use crate::effects::{Effect, EffectStep, SpillLog, applied, applied_delta, applied_log, apply_effect, can_be_taken_down, effect_objection, effect_vertex, is_effect_plan, plan_vertex_effects};
use crate::grid::{DeltaCollector, Grid, GridView, in_number, settled};
use crate::outcome::record_own_change;
use crate::spill::{ShimSpillManager, covers, plan_view, width};
use crate::value::{ErrorKind, ErrorView, ExcelError, LiteralValue, ValueView, error_with, rows_view};
use crate::vertex::is_formula;
use rustc_hash::FxHashMap;
use vstd::prelude::*;

verus! {

/// Whether the writes of a layer are buffered: a narrow layer writes at once.
pub open spec fn is_buffered(width: nat) -> bool {
    width >= COMPUTED_WRITE_COALESCING_MIN_LAYER_WIDTH
}

/// How a layer is run.
#[derive(Clone, Copy, Debug, PartialEq, Eq, Structural)]
pub enum LayerMode {
    /// To its end.
    Plain,
    /// With a look at the cancel flag before every 256th vertex.
    Cancellable,
    /// With a look at the cancel flag before every 128th vertex.
    DemandDriven,
}

/// After how many vertices the cancel flag is looked at again; zero means never.
pub open spec fn check_every(mode: LayerMode) -> int {
    match mode {
        LayerMode::Plain => 0,
        LayerMode::Cancellable => 256,
        LayerMode::DemandDriven => 128,
    }
}

/// Whether the cancel flag is looked at before vertex number `i`.
pub open spec fn is_checked(mode: LayerMode, i: int) -> bool {
    check_every(mode) > 0 && i % check_every(mode) == 0
}

/// The error of a layer that was cancelled.
pub open spec fn cancelled_in_layer(mode: LayerMode) -> ErrorView {
    error_with(
        ErrorKind::Cancelled,
        match mode {
            LayerMode::DemandDriven => "Demand-driven evaluation cancelled within layer"@,
            _ => "Evaluation cancelled within layer"@,
        },
    )
}

fn cancel_error(mode: LayerMode) -> (e: ExcelError)
    ensures
        e@ == cancelled_in_layer(mode),
{
    match mode {
        LayerMode::DemandDriven => ExcelError::new(ErrorKind::Cancelled).with_message(
            "Demand-driven evaluation cancelled within layer",
        ),
        _ => ExcelError::new(ErrorKind::Cancelled).with_message("Evaluation cancelled within layer"),
    }
}

/// A layer under evaluation: its vertices, which of them read ranges, the next one, and the writes
/// that have not reached the grid.
#[derive(Debug)]
pub struct LayerRun {
    vertices: Vec<VertexId>,
    reads_range: Vec<bool>,
    next: usize,
    mode: LayerMode,
    buffered: bool,
    buffer: ComputedWriteBuffer,
}

/// The model of a [`LayerRun`].
pub struct LayerView {
    pub vertices: Seq<u32>,
    pub reads_range: Seq<bool>,
    pub next: nat,
    pub mode: LayerMode,
    pub buffered: bool,
    /// How many writes are buffered.
    pub pending: nat,
    /// How many writes were buffered so far.
    pub drawn: nat,
}

/// What comes next in a layer.
#[derive(Debug)]
pub enum LayerStep {
    /// This vertex is evaluated.
    Evaluate(VertexId),
    /// The layer is cancelled.
    Cancelled(ExcelError),
    /// The layer is done; so many vertices were evaluated.
    Done(usize),
}

impl LayerRun {
    pub closed spec fn view(&self) -> LayerView {
        LayerView {
            vertices: self.vertices@,
            reads_range: self.reads_range@,
            next: self.next as nat,
            mode: self.mode,
            buffered: self.buffered,
            pending: self.buffer@.writes.len(),
            drawn: self.buffer@.next_seq as nat,
        }
    }

    pub closed spec fn wf(&self) -> bool {
        &&& self.reads_range@.len() == self.vertices@.len()
        &&& self.next <= self.vertices@.len()
        &&& self.buffered == is_buffered(self.vertices@.len())
        &&& in_number(self.buffer@)
        &&& !self.buffered ==> self.buffer@.writes.len() == 0
    }

    /// The grid as it is once the buffered writes have reached it.
    pub closed spec fn seen(&self, grid: &Grid) -> GridView {
        settled(grid@, self.buffer@.writes)
    }

    /// Begins with a layer. `reads_range` tells which vertices depend on ranges.
    pub fn new(vertices: Vec<VertexId>, reads_range: Vec<bool>, mode: LayerMode) -> (l: LayerRun)
        requires
            vertices@.len() == reads_range@.len(),
        ensures
            l.wf(),
            l@ == (LayerView {
                vertices: vertices@,
                reads_range: reads_range@,
                next: 0,
                mode,
                buffered: is_buffered(vertices@.len()),
                pending: 0,
                drawn: 0,
            }),
    {
        let buffered = vertices.len() >= COMPUTED_WRITE_COALESCING_MIN_LAYER_WIDTH;
        LayerRun {
            vertices,
            reads_range,
            next: 0,
            mode,
            buffered,
            buffer: ComputedWriteBuffer::new(),
        }
    }

    /// Without buffered writes the grid is as it is seen.
    pub proof fn nothing_pending(&self, grid: &Grid)
        requires
            self@.pending == 0,
        ensures
            self.seen(grid) == grid@,
    {
        grid.lemma_total();
        crate::grid::lemma_settled_empty(grid@, self.buffer@.writes);
    }

    fn flush(&mut self, grid: &mut Grid, layouts: &FxHashMap<u16, SheetLayout>)
        requires
            old(self).wf(),
            old(grid).wf(),
            layouts_ok(layouts@),
        ensures
            final(self).wf(),
            final(grid).wf(),
            final(self)@ == (LayerView { pending: 0, ..old(self)@ }),
            final(grid)@ == old(self).seen(old(grid)),
            final(self).seen(final(grid)) == old(self).seen(old(grid)),
    {
        grid.flush(layouts, &mut self.buffer);
    }

    /// Moves on to the next vertex. Buffered writes reach the grid before a vertex that reads a
    /// range, at the end, and where the layer is cancelled.
    pub fn advance(
        &mut self,
        grid: &mut Grid,
        layouts: &FxHashMap<u16, SheetLayout>,
        cancelled: bool,
    ) -> (step: LayerStep)
        requires
            old(self).wf(),
            old(grid).wf(),
            layouts_ok(layouts@),
        ensures
            final(self).wf(),
            final(grid).wf(),
            final(self).seen(final(grid)) == old(self).seen(old(grid)),
            ({
                let l = old(self)@;
                if l.next == l.vertices.len() {
                    &&& step matches LayerStep::Done(n) && n == l.vertices.len()
                    &&& final(self)@ == (LayerView { pending: 0, ..l })
                    &&& final(grid)@ == old(self).seen(old(grid))
                } else if cancelled && is_checked(l.mode, l.next as int) {
                    &&& step matches LayerStep::Cancelled(e) && e@ == cancelled_in_layer(l.mode)
                    &&& final(self)@ == (LayerView { pending: 0, ..l })
                    &&& final(grid)@ == old(self).seen(old(grid))
                } else {
                    &&& step matches LayerStep::Evaluate(v) && v == l.vertices[l.next as int]
                    &&& if l.reads_range[l.next as int] {
                        &&& final(self)@ == (LayerView { next: l.next + 1, pending: 0, ..l })
                        &&& final(grid)@ == old(self).seen(old(grid))
                    } else {
                        &&& final(self)@ == (LayerView { next: l.next + 1, ..l })
                        &&& final(grid)@ == old(grid)@
                    }
                }
            }),
    {
        let i = self.next;
        if i == self.vertices.len() {
            self.flush(grid, layouts);
            return LayerStep::Done(i);
        }
        let every: usize = match self.mode {
            LayerMode::Plain => 0,
            LayerMode::Cancellable => 256,
            LayerMode::DemandDriven => 128,
        };
        if every > 0 && i % every == 0 && cancelled {
            self.flush(grid, layouts);
            return LayerStep::Cancelled(cancel_error(self.mode));
        }
        if self.reads_range[i] {
            self.flush(grid, layouts);
        }
        self.next = i + 1;
        LayerStep::Evaluate(self.vertices[i])
    }

    /// Plans what a value does. Buffered writes reach the grid before an array is planned.
    pub fn plan(
        &mut self,
        grid: &mut Grid,
        layouts: &FxHashMap<u16, SheetLayout>,
        v: VertexId,
        value: LiteralValue,
        max_spill_cells: u32,
    ) -> (r: EffectStep)
        requires
            old(self).wf(),
            old(grid).wf(),
            layouts_ok(layouts@),
            value is Array && is_formula(old(grid)@.kind(v)) ==> old(grid)@.cells.contains_key(v),
            value matches LiteralValue::Array(rows) ==> rows@.len() <= u32::MAX && width(
                rows_view(rows@),
            ) <= u32::MAX,
        ensures
            final(self).wf(),
            final(grid).wf(),
            final(self)@ == (if value is Array {
                LayerView { pending: 0, ..old(self)@ }
            } else {
                old(self)@
            }),
            is_effect_plan(
                old(self).seen(old(grid)),
                v,
                value,
                max_spill_cells,
                r,
                final(self).seen(final(grid)),
            ),
    {
        let array = matches!(value, LiteralValue::Array(_));
        if array {
            self.flush(grid, layouts);
            let r = plan_vertex_effects(grid, v, value, max_spill_cells);
            proof {
                self.nothing_pending(grid);
            }
            r
        } else {
            let ghost g = grid@;
            let r = plan_vertex_effects(grid, v, value, max_spill_cells);
            proof {
                assert(grid@ == g);
            }
            r
        }
    }

    /// Carries out one effect. A plain value is buffered, unless the layer is narrow; what collects
    /// changes or touches spilled arrays sees the grid with all buffered writes.
    pub fn apply(
        &mut self,
        locks: &mut ShimSpillManager,
        grid: &mut Grid,
        layouts: &FxHashMap<u16, SheetLayout>,
        delta: &mut DeltaCollector,
        log: &mut SpillLog,
        effect: &Effect,
        plan: Result<(), ExcelError>,
        value_cache_enabled: bool,
        max_spill_cells: u32,
    ) -> (r: (Result<(), ExcelError>, Option<u64>))
        requires
            old(self).wf(),
            old(self)@.drawn < u64::MAX,
            old(grid).wf(),
            old(delta).wf(),
            layouts_ok(layouts@),
            !(effect is WriteCell) ==> can_be_taken_down(
                old(log)@.0,
                old(grid)@,
                effect_vertex(effect@),
                max_spill_cells,
            ),
            effect matches Effect::SpillCommit { anchor_vertex, target_cells, values, .. } ==> {
                &&& old(grid)@.cells.contains_key(*anchor_vertex)
                &&& covers(rows_view(values@), target_cells@.len())
            },
        ensures
            final(self).wf(),
            final(grid).wf(),
            final(delta).wf(),
            final(self)@.vertices == old(self)@.vertices,
            final(self)@.reads_range == old(self)@.reads_range,
            final(self)@.next == old(self)@.next,
            final(self)@.mode == old(self)@.mode,
            final(self)@.buffered == old(self)@.buffered,
            final(self)@.drawn <= old(self)@.drawn + 1,
            final(delta)@ == applied_delta(old(delta)@, old(self).seen(old(grid)), effect@),
            match effect_objection(
                old(self).seen(old(grid)),
                effect@,
                plan_view(plan),
                value_cache_enabled,
            ) {
                Some(e) => {
                    &&& r.0 matches Err(x) && x@ == e
                    &&& final(self).seen(final(grid)) == old(self).seen(old(grid))
                    &&& final(log)@ == old(log)@
                },
                None => {
                    &&& r.0 is Ok
                    &&& final(self).seen(final(grid)) == applied(
                        old(self).seen(old(grid)),
                        effect@,
                    )
                    &&& final(log)@ == applied_log(
                        old(log)@,
                        old(self).seen(old(grid)),
                        effect@,
                        max_spill_cells,
                    )
                },
            },
            final(locks)@ == (if effect is SpillCommit {
                old(locks)@.remove(effect_vertex(effect@))
            } else {
                old(locks)@
            }),
            r.1 == (if effect is SpillCommit && old(locks)@.contains_key(effect_vertex(effect@)) {
                Some(old(locks)@[effect_vertex(effect@)])
            } else {
                None
            }),
    {
        let direct = !self.buffered || !matches!(effect, Effect::WriteCell { .. });
        if direct || delta.collects() {
            self.flush(grid, layouts);
        }
        if direct {
            let r = apply_effect(
                locks,
                grid,
                delta,
                log,
                effect,
                plan,
                value_cache_enabled,
                max_spill_cells,
            );
            proof {
                self.nothing_pending(grid);
            }
            return r;
        }
        if let Effect::WriteCell { vertex_id, value } = effect {
            if delta.collects() {
                proof {
                    self.nothing_pending(grid);
                }
                record_own_change(grid, delta, *vertex_id, value);
            }
            grid.hold_buffered(*vertex_id, value, layouts, &mut self.buffer);
        }
        (Ok(()), None)
    }

    /// Ends the layer early: buffered writes reach the grid.
    pub fn abandon(&mut self, grid: &mut Grid, layouts: &FxHashMap<u16, SheetLayout>)
        requires
            old(self).wf(),
            old(grid).wf(),
            layouts_ok(layouts@),
        ensures
            final(self).wf(),
            final(grid).wf(),
            final(self)@ == (LayerView { pending: 0, ..old(self)@ }),
            final(grid)@ == old(self).seen(old(grid)),
    {
        self.flush(grid, layouts);
    }
}

/// Those of the first `n` items whose flag is as wanted, in order.
pub open spec fn picked(items: Seq<u32>, flags: Seq<bool>, wanted: bool, n: nat) -> Seq<u32>
    decreases n,
{
    if n == 0 {
        Seq::empty()
    } else if flags[n - 1] == wanted {
        picked(items, flags, wanted, (n - 1) as nat).push(items[n - 1])
    } else {
        picked(items, flags, wanted, (n - 1) as nat)
    }
}

/// The two phases of a layer whose vertices run beside each other: those that read no range come
/// first, so that those that read one see their values.
pub fn layer_phases(vertices: &Vec<VertexId>, reads_range: &Vec<bool>) -> (r: (
    Vec<VertexId>,
    Vec<VertexId>,
))
    requires
        vertices@.len() == reads_range@.len(),
    ensures
        r.0@ == picked(vertices@, reads_range@, false, vertices@.len()),
        r.1@ == picked(vertices@, reads_range@, true, vertices@.len()),
{
    let mut first: Vec<VertexId> = Vec::new();
    let mut second: Vec<VertexId> = Vec::new();
    let mut i: usize = 0;
    while i < vertices.len()
        invariant
            vertices@.len() == reads_range@.len(),
            i <= vertices@.len(),
            first@ == picked(vertices@, reads_range@, false, i as nat),
            second@ == picked(vertices@, reads_range@, true, i as nat),
        decreases vertices@.len() - i,
    {
        if reads_range[i] {
            second.push(vertices[i]);
        } else {
            first.push(vertices[i]);
        }
        i = i + 1;
    }
    (first, second)
}

/// A computed result of a vertex.
pub type VertexResult = (VertexId, LiteralValue);

pub open spec fn results_view(results: Seq<VertexResult>) -> Seq<(u32, ValueView)> {
    Seq::new(results.len(), |i: int| (results[i].0, results[i].1@))
}

/// Those of the first `n` results that are arrays, or those that are none, in order.
pub open spec fn sorted_out(results: Seq<(u32, ValueView)>, arrays: bool, n: nat) -> Seq<
    (u32, ValueView),
>
    decreases n,
{
    if n == 0 {
        Seq::empty()
    } else if (results[n - 1].1 is Array) == arrays {
        sorted_out(results, arrays, (n - 1) as nat).push(results[n - 1])
    } else {
        sorted_out(results, arrays, (n - 1) as nat)
    }
}

/// The order in which results are taken over: arrays first, so that they have spilled before single
/// values are looked at, and then the others, each in the order in which they came.
pub fn arrays_first(results: &Vec<VertexResult>) -> (r: (Vec<VertexResult>, Vec<VertexResult>))
    ensures
        results_view(r.0@) == sorted_out(results_view(results@), true, results@.len()),
        results_view(r.1@) == sorted_out(results_view(results@), false, results@.len()),
{
    let ghost model = results_view(results@);
    let mut arrays: Vec<VertexResult> = Vec::new();
    let mut others: Vec<VertexResult> = Vec::new();
    assert(results_view(arrays@) =~= sorted_out(model, true, 0));
    assert(results_view(others@) =~= sorted_out(model, false, 0));
    let mut i: usize = 0;
    while i < results.len()
        invariant
            i <= results@.len(),
            model == results_view(results@),
            results_view(arrays@) == sorted_out(model, true, i as nat),
            results_view(others@) == sorted_out(model, false, i as nat),
        decreases results@.len() - i,
    {
        let (v, value) = (results[i].0, &results[i].1);
        assert(model[i as int] == (v, value@));
        let copy = value.duplicate();
        let ghost a = arrays@;
        let ghost b = others@;
        if matches!(value, LiteralValue::Array(_)) {
            assert(value@ is Array);
            arrays.push((v, copy));
            assert(results_view(arrays@) =~= results_view(a).push((v, value@)));
        } else {
            assert(!(value@ is Array));
            others.push((v, copy));
            assert(results_view(others@) =~= results_view(b).push((v, value@)));
        }
        i = i + 1;
    }
    (arrays, others)
}

/// The two phases hold every vertex of the layer once.
pub proof fn phases_hold_every_vertex_once(vertices: Seq<u32>, reads_range: Seq<bool>, n: nat)
    requires
        n <= vertices.len(),
        vertices.len() == reads_range.len(),
    ensures
        (picked(vertices, reads_range, false, n) + picked(vertices, reads_range, true, n)).to_multiset()
            == vertices.take(n as int).to_multiset(),
    decreases n,
{
    let a = picked(vertices, reads_range, false, n);
    let b = picked(vertices, reads_range, true, n);
    broadcast use vstd::seq_lib::group_to_multiset_ensures;
    if n == 0 {
        assert(a + b =~= vertices.take(0));
    } else {
        let m = (n - 1) as nat;
        phases_hold_every_vertex_once(vertices, reads_range, m);
        let a0 = picked(vertices, reads_range, false, m);
        let b0 = picked(vertices, reads_range, true, m);
        let v = vertices[n - 1];
        assert(vertices.take(n as int) =~= vertices.take(m as int).push(v));
        vstd::seq_lib::lemma_multiset_commutative(a0, b0);
        vstd::seq_lib::lemma_multiset_commutative(a, b);
        if reads_range[n - 1] {
            assert(b.to_multiset() =~= b0.to_multiset().insert(v));
        } else {
            assert(a.to_multiset() =~= a0.to_multiset().insert(v));
        }
        assert((a + b).to_multiset() =~= vertices.take(n as int).to_multiset());
    }
}

/// Each vertex is in the phase that its flag names.
pub proof fn phases_part_the_vertices_by_their_flag(
    items: Seq<u32>,
    flags: Seq<bool>,
    wanted: bool,
    n: nat,
    i: int,
)
    requires
        n <= items.len(),
        items.len() == flags.len(),
        0 <= i < n,
        flags[i] == wanted,
    ensures
        picked(items, flags, wanted, n).contains(items[i]),
    decreases n,
{
    let before = picked(items, flags, wanted, (n - 1) as nat);
    if i == n - 1 {
        assert(before.push(items[n - 1])[before.len() as int] == items[i]);
    } else {
        phases_part_the_vertices_by_their_flag(items, flags, wanted, (n - 1) as nat, i);
        let k = choose|k: int| 0 <= k < before.len() && before[k] == items[i];
        assert(before.push(items[n - 1])[k] == items[i]);
    }
}

/// Arrays are parted from the other results, and none is lost or added.
pub proof fn results_are_parted_into_arrays_and_others(results: Seq<(u32, ValueView)>, n: nat, i: int)
    requires
        n <= results.len(),
        0 <= i < n,
    ensures
        sorted_out(results, true, n).len() + sorted_out(results, false, n).len() == n,
        results[i].1 is Array ==> sorted_out(results, true, n).contains(results[i]),
        !(results[i].1 is Array) ==> sorted_out(results, false, n).contains(results[i]),
        forall|k: int|
            0 <= k < sorted_out(results, true, n).len() ==> (#[trigger] sorted_out(
                results,
                true,
                n,
            )[k]).1 is Array,
        forall|k: int|
            0 <= k < sorted_out(results, false, n).len() ==> !((#[trigger] sorted_out(
                results,
                false,
                n,
            )[k]).1 is Array),
    decreases n,
{
    let m = (n - 1) as nat;
    lemma_parted(results, m);
    let (a, b) = (sorted_out(results, true, m), sorted_out(results, false, m));
    if i < m {
        results_are_parted_into_arrays_and_others(results, m, i);
        if results[i].1 is Array {
            let k = choose|k: int| 0 <= k < a.len() && a[k] == results[i];
            assert(a.push(results[n - 1])[k] == results[i]);
        } else {
            let k = choose|k: int| 0 <= k < b.len() && b[k] == results[i];
            assert(b.push(results[n - 1])[k] == results[i]);
        }
    } else {
        assert(a.push(results[n - 1])[a.len() as int] == results[i]);
        assert(b.push(results[n - 1])[b.len() as int] == results[i]);
    }
}

proof fn lemma_parted(results: Seq<(u32, ValueView)>, n: nat)
    requires
        n <= results.len(),
    ensures
        sorted_out(results, true, n).len() + sorted_out(results, false, n).len() == n,
        forall|k: int|
            0 <= k < sorted_out(results, true, n).len() ==> (#[trigger] sorted_out(
                results,
                true,
                n,
            )[k]).1 is Array,
        forall|k: int|
            0 <= k < sorted_out(results, false, n).len() ==> !((#[trigger] sorted_out(
                results,
                false,
                n,
            )[k]).1 is Array),
    decreases n,
{
    if n > 0 {
        lemma_parted(results, (n - 1) as nat);
    }
}

/// A layer of eight vertices or more is buffered. In a layer that can be cancelled the first vertex and
/// every so many after it are preceded by a look at the flag; in a plain one none is.
pub proof fn layers_look_at_the_flag_at_even_distances(width: nat, i: int)
    requires
        i >= 0,
    ensures
        is_buffered(width) <==> width >= 8,
        !is_checked(LayerMode::Plain, i),
        is_checked(LayerMode::Cancellable, 256 * i),
        is_checked(LayerMode::DemandDriven, 128 * i),
        !is_checked(LayerMode::Cancellable, 256 * i + 128),
        0 < i < 256 ==> !is_checked(LayerMode::Cancellable, i),
        0 < i < 128 ==> !is_checked(LayerMode::DemandDriven, i),
{
}

/// A cancelled layer fails with an error of its own kind, whose text tells evaluations on demand from
/// others.
pub proof fn cancelled_layers_say_so(mode: LayerMode)
    ensures
        cancelled_in_layer(mode).kind == ErrorKind::Cancelled,
        cancelled_in_layer(LayerMode::DemandDriven).message == Some(
            "Demand-driven evaluation cancelled within layer"@,
        ),
        cancelled_in_layer(LayerMode::Cancellable).message == Some("Evaluation cancelled within layer"@),
{
}

/// A phase keeps the order of the layer: its vertices stand at ascending places of it.
pub proof fn phases_keep_the_order(items: Seq<u32>, flags: Seq<bool>, wanted: bool, n: nat) -> (places: Seq<int>)
    requires
        n <= items.len(),
        items.len() == flags.len(),
    ensures
        places.len() == picked(items, flags, wanted, n).len(),
        forall|k: int|
            #![trigger places[k]]
            0 <= k < places.len() ==> 0 <= places[k] < n && flags[places[k]] == wanted && picked(
                items,
                flags,
                wanted,
                n,
            )[k] == items[places[k]],
        forall|k: int, l: int| 0 <= k < l < places.len() ==> #[trigger] places[k] < #[trigger] places[l],
    decreases n,
{
    if n == 0 {
        Seq::empty()
    } else {
        let before = phases_keep_the_order(items, flags, wanted, (n - 1) as nat);
        if flags[n - 1] == wanted {
            before.push(n - 1)
        } else {
            before
        }
    }
}

/// The arrays among the results, and the others, stand in the order in which they came.
pub proof fn parted_results_keep_their_order(results: Seq<(u32, ValueView)>, arrays: bool, n: nat)
    requires
        n <= results.len(),
    ensures
        sorted_out(results, arrays, n) == results.take(n as int).filter(
            |r: (u32, ValueView)| (r.1 is Array) == arrays,
        ),
    decreases n,
{
    reveal(Seq::filter);
    if n > 0 {
        parted_results_keep_their_order(results, arrays, (n - 1) as nat);
        let long = results.take(n as int);
        assert(long.drop_last() =~= results.take(n - 1));
        assert(long.last() == results[n - 1]);
    } else {
        assert(results.take(0) =~= Seq::empty());
    }
}

} // verus!
