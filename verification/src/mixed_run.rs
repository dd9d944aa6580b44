//! The run over the layers of a mixed schedule: spans and legacy formulas in their order.
use crate::coord::{SheetId, VertexId};
use crate::coordinator::{capped_sum, stale_span_error};
use crate::value::{ErrorKind, ExcelError, error_with};
use vstd::prelude::*;

verus! {

/// A work item of a mixed layer: a legacy formula, or a task for a span with the sheet of the span;
/// a stale span has none.
#[derive(Clone, Copy, Debug, PartialEq, Eq, Structural)]
pub enum MixedItem {
    Legacy(VertexId),
    Span { sheet: Option<SheetId>, task: usize },
}

/// What is done next in a mixed run.
#[derive(Debug)]
pub enum MixedAction {
    /// Evaluate these legacy formulas as one layer.
    Vertices { vertices: Vec<VertexId>, parallel: bool },
    /// Evaluate these tasks of spans of one sheet.
    Spans { sheet_id: SheetId, tasks: Vec<usize> },
    /// Write out what the spans of the layer computed.
    Flush,
    /// Give up.
    Fail(ExcelError),
    /// End; so many cells were computed.
    Finish(usize),
}

/// A run over mixed layers.
#[derive(Debug)]
pub struct MixedRun {
    layers: Vec<Vec<MixedItem>>,
    layer: usize,
    place: usize,
    has_pool: bool,
    computed: usize,
}

/// The model of a [`MixedRun`].
pub struct MixedView {
    pub layers: Seq<Seq<MixedItem>>,
    /// The layer that is worked on, and the next item of it.
    pub layer: nat,
    pub place: nat,
    pub has_pool: bool,
    pub computed: usize,
}

/// Whether two items are computed together: both are legacy formulas, or spans of one sheet.
pub open spec fn goes_with(a: MixedItem, b: MixedItem) -> bool {
    match (a, b) {
        (MixedItem::Legacy(_), MixedItem::Legacy(_)) => true,
        (MixedItem::Span { sheet: Some(s), .. }, MixedItem::Span { sheet: Some(t), .. }) => s == t,
        _ => false,
    }
}

/// The end of the run of items from `i` on that go with the first one.
pub open spec fn run_end(items: Seq<MixedItem>, first: MixedItem, i: int) -> int
    decreases items.len() - i,
{
    if i >= items.len() || !goes_with(first, items[i]) {
        i
    } else {
        run_end(items, first, i + 1)
    }
}

/// The formulas of legacy items.
pub open spec fn vertices_of(items: Seq<MixedItem>) -> Seq<u32> {
    Seq::new(items.len(), |i: int| items[i]->Legacy_0)
}

/// The tasks of span items.
pub open spec fn tasks_of(items: Seq<MixedItem>) -> Seq<usize> {
    Seq::new(items.len(), |i: int| items[i]->task)
}

pub open spec fn layers_view(layers: Seq<Vec<MixedItem>>) -> Seq<Seq<MixedItem>> {
    Seq::new(layers.len(), |i: int| layers[i]@)
}

impl MixedView {
    /// The items of the layer that is worked on.
    pub open spec fn items(self) -> Seq<MixedItem> {
        self.layers[self.layer as int]
    }

    /// The run with its next item behind the ones that go together.
    pub open spec fn behind_run(self) -> MixedView {
        MixedView {
            place: run_end(self.items(), self.items()[self.place as int], self.place as int) as nat,
            ..self
        }
    }

    /// The items that go together.
    pub open spec fn run(self) -> Seq<MixedItem> {
        self.items().subrange(self.place as int, self.behind_run().place as int)
    }

    /// Whether the run is further than the other one.
    pub open spec fn is_further_than(self, other: MixedView) -> bool {
        self.layer > other.layer || (self.layer == other.layer && self.place > other.place)
    }
}

proof fn lemma_run_end(items: Seq<MixedItem>, first: MixedItem, i: int)
    requires
        0 <= i <= items.len(),
    ensures
        i <= run_end(items, first, i) <= items.len(),
        forall|k: int| i <= k < run_end(items, first, i) ==> goes_with(first, #[trigger] items[k]),
    decreases items.len() - i,
{
    if i < items.len() && goes_with(first, items[i]) {
        lemma_run_end(items, first, i + 1);
    }
}

fn go_together(a: MixedItem, b: MixedItem) -> (r: bool)
    ensures
        r == goes_with(a, b),
{
    match (a, b) {
        (MixedItem::Legacy(_), MixedItem::Legacy(_)) => true,
        (MixedItem::Span { sheet: Some(s), .. }, MixedItem::Span { sheet: Some(t), .. }) => s == t,
        _ => false,
    }
}

impl MixedRun {
    pub closed spec fn view(&self) -> MixedView {
        MixedView {
            layers: layers_view(self.layers@),
            layer: self.layer as nat,
            place: self.place as nat,
            has_pool: self.has_pool,
            computed: self.computed,
        }
    }

    pub closed spec fn wf(&self) -> bool {
        &&& self.layer <= self.layers@.len()
        &&& self.layer < self.layers@.len() ==> self.place <= self.layers@[self.layer as int]@.len()
        &&& self.layer == self.layers@.len() ==> self.place == 0
    }

    /// A run before its first item.
    pub fn new(layers: Vec<Vec<MixedItem>>, has_pool: bool) -> (r: MixedRun)
        ensures
            r.wf(),
            r@ == (MixedView {
                layers: layers_view(layers@),
                layer: 0,
                place: 0,
                has_pool,
                computed: 0,
            }),
    {
        MixedRun { layers, layer: 0, place: 0, has_pool, computed: 0 }
    }

    /// Counts computed cells; the count stops at the largest machine integer.
    pub fn count(&mut self, n: usize)
        requires
            old(self).wf(),
        ensures
            final(self).wf(),
            final(self)@ == (MixedView {
                computed: capped_sum(old(self)@.computed, n),
                ..old(self)@
            }),
    {
        self.computed = self.computed.saturating_add(n);
    }

    /// Decides what is done next: items that go together are computed together; a layer ends with
    /// writing out; a stale span ends the run.
    pub fn advance(&mut self) -> (action: MixedAction)
        requires
            old(self).wf(),
        ensures
            final(self).wf(),
            ({
                let v = old(self)@;
                let w = final(self)@;
                if v.layer >= v.layers.len() {
                    action == MixedAction::Finish(v.computed) && w == v
                } else if v.place >= v.items().len() {
                    &&& action is Flush
                    &&& w == (MixedView { layer: v.layer + 1, place: 0, ..v })
                    &&& w.is_further_than(v)
                } else {
                    match v.items()[v.place as int] {
                        MixedItem::Legacy(_) => {
                            &&& action matches MixedAction::Vertices { vertices, parallel }
                                && vertices@ == vertices_of(v.run()) && parallel == (v.has_pool
                                && vertices@.len() > 1)
                            &&& w == v.behind_run()
                            &&& w.is_further_than(v)
                        },
                        MixedItem::Span { sheet: Some(s), .. } => {
                            &&& action matches MixedAction::Spans { sheet_id, tasks } && sheet_id
                                == s && tasks@ == tasks_of(v.run())
                            &&& w == v.behind_run()
                            &&& w.is_further_than(v)
                        },
                        MixedItem::Span { sheet: None, .. } => {
                            &&& action matches MixedAction::Fail(e) && e@ == error_with(
                                ErrorKind::NImpl,
                                "FormulaPlane schedule referenced a stale span"@,
                            )
                            &&& w == v
                        },
                    }
                }
            }),
    {
        let ghost v = self@;
        if self.layer >= self.layers.len() {
            return MixedAction::Finish(self.computed);
        }
        assert(v.items() == self.layers@[self.layer as int]@);
        if self.place >= self.layers[self.layer].len() {
            self.layer = self.layer + 1;
            self.place = 0;
            return MixedAction::Flush;
        }
        let first = self.layers[self.layer][self.place];
        let from: usize = self.place;
        match first {
            MixedItem::Span { sheet: None, .. } => MixedAction::Fail(stale_span_error()),
            MixedItem::Legacy(_) => {
                let end = self.find_end(first, from);
                proof {
                    lemma_run_end(v.items(), first, from as int);
                }
                let mut vertices: Vec<VertexId> = Vec::new();
                let mut i: usize = from;
                while i < end
                    invariant
                        self@ == v,
                        self.layer < self.layers@.len(),
                        v.items() == self.layers@[self.layer as int]@,
                        from <= i <= end <= v.items().len(),
                        first is Legacy,
                        forall|k: int|
                            from <= k < end ==> goes_with(first, #[trigger] v.items()[k]),
                        vertices@.len() == i - from,
                        forall|k: int|
                            0 <= k < vertices@.len() ==> #[trigger] vertices@[k] == v.items()[from
                                + k]->Legacy_0,
                    decreases end - i,
                {
                    let item = self.layers[self.layer][i];
                    assert(goes_with(first, v.items()[i as int]));
                    if let MixedItem::Legacy(vertex) = item {
                        vertices.push(vertex);
                    }
                    i = i + 1;
                }
                self.place = end;
                assert(vertices@ =~= vertices_of(v.run()));
                let parallel = self.has_pool && vertices.len() > 1;
                MixedAction::Vertices { vertices, parallel }
            },
            MixedItem::Span { sheet: Some(sheet_id), .. } => {
                let end = self.find_end(first, from);
                proof {
                    lemma_run_end(v.items(), first, from as int);
                }
                let mut tasks: Vec<usize> = Vec::new();
                let mut i: usize = from;
                while i < end
                    invariant
                        self@ == v,
                        self.layer < self.layers@.len(),
                        v.items() == self.layers@[self.layer as int]@,
                        from <= i <= end <= v.items().len(),
                        first is Span,
                        forall|k: int|
                            from <= k < end ==> goes_with(first, #[trigger] v.items()[k]),
                        tasks@.len() == i - from,
                        forall|k: int|
                            0 <= k < tasks@.len() ==> #[trigger] tasks@[k] == v.items()[from
                                + k]->task,
                    decreases end - i,
                {
                    let item = self.layers[self.layer][i];
                    assert(goes_with(first, v.items()[i as int]));
                    if let MixedItem::Span { task, .. } = item {
                        tasks.push(task);
                    }
                    i = i + 1;
                }
                self.place = end;
                assert(tasks@ =~= tasks_of(v.run()));
                MixedAction::Spans { sheet_id, tasks }
            },
        }
    }

    fn find_end(&self, first: MixedItem, from: usize) -> (end: usize)
        requires
            self.wf(),
            self.layer < self.layers@.len(),
            from < self.layers@[self.layer as int]@.len(),
            goes_with(first, self.layers@[self.layer as int]@[from as int]),
        ensures
            end == run_end(self.layers@[self.layer as int]@, first, from as int),
            from < end <= self.layers@[self.layer as int]@.len(),
    {
        let items = &self.layers[self.layer];
        let n: usize = items.len();
        let mut end: usize = from + 1;
        while end < n && go_together(first, items[end])
            invariant
                n == items@.len(),
                from < end <= n,
                run_end(items@, first, from as int) == run_end(items@, first, end as int),
            decreases items@.len() - end,
        {
            end = end + 1;
        }
        end
    }
}

/// A run of a mixed layer is as long as its items go together: formulas one by one with formulas, and
/// spans with spans of the same sheet; the next item, if any, goes with another run.
pub proof fn runs_hold_what_goes_together(items: Seq<MixedItem>, first: MixedItem, i: int, k: int)
    requires
        0 <= i <= items.len(),
    ensures
        i <= run_end(items, first, i) <= items.len(),
        i <= k < run_end(items, first, i) ==> (first is Legacy && items[k] is Legacy) || (
        first matches MixedItem::Span { sheet: Some(s), .. } && items[k] matches MixedItem::Span {
            sheet: Some(t),
            ..
        } && s == t),
        run_end(items, first, i) < items.len() ==> ({
            let next = items[run_end(items, first, i)];
            &&& !(first is Legacy && next is Legacy)
            &&& !(first matches MixedItem::Span { sheet: Some(s), .. } && next matches MixedItem::Span {
                sheet: Some(t),
                ..
            } && s == t)
        }),
    decreases items.len() - i,
{
    if i < items.len() && goes_with(first, items[i]) {
        runs_hold_what_goes_together(items, first, i + 1, k);
    }
}

/// The formulas and the spans of a run are handed out one for one, in their order.
pub proof fn runs_are_handed_out_in_order(items: Seq<MixedItem>, i: int)
    requires
        0 <= i < items.len(),
    ensures
        vertices_of(items).len() == items.len(),
        tasks_of(items).len() == items.len(),
        items[i] matches MixedItem::Legacy(v) ==> vertices_of(items)[i] == v,
        items[i] matches MixedItem::Span { task, .. } ==> tasks_of(items)[i] == task,
{
}

} // verus!
