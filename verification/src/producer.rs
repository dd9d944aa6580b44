//! Formula producers: legacy vertices and spans, their dirty parts, and the cells behind them.
use crate::coord::{CellRef, VertexId, cell_key, keys_name_their_cells, rect_cells_are_the_rectangle, spec_cell_key};
use crate::fx::set_insert;
use crate::region::{PlacementDomain, Region};
use crate::span_plan::SpanRef;
use crate::value::{ErrorKind, ExcelError, error_with};
use rustc_hash::FxHashSet;
use vstd::prelude::*;

verus! {

/// What computes a cell: a vertex of the graph or a formula span.
#[derive(Clone, Copy, Debug, PartialEq, Eq, Structural)]
pub enum FormulaProducerId {
    Legacy(VertexId),
    Span(u64),
}

/// The part of a producer's results that is out of date.
#[derive(Debug)]
pub enum ProducerDirtyDomain {
    Whole,
    Cells(Vec<CellRef>),
    Regions(Vec<Region>),
}

/// The part of a span that is to be evaluated.
#[derive(Debug)]
pub enum SpanDirtyDomain {
    WholeSpan(SpanRef),
    Cells(Vec<CellRef>),
    Regions(Vec<Region>),
}

/// The part of the span that a dirty producer asks for.
pub fn producer_dirty_to_span_dirty(dirty: ProducerDirtyDomain, span_ref: SpanRef) -> (r:
    SpanDirtyDomain)
    ensures
        r == (match dirty {
            ProducerDirtyDomain::Whole => SpanDirtyDomain::WholeSpan(span_ref),
            ProducerDirtyDomain::Cells(cells) => SpanDirtyDomain::Cells(cells),
            ProducerDirtyDomain::Regions(regions) => SpanDirtyDomain::Regions(regions),
        }),
{
    match dirty {
        ProducerDirtyDomain::Whole => SpanDirtyDomain::WholeSpan(span_ref),
        ProducerDirtyDomain::Cells(cells) => SpanDirtyDomain::Cells(cells),
        ProducerDirtyDomain::Regions(regions) => SpanDirtyDomain::Regions(regions),
    }
}

/// Whether the dirty part holds the cell.
pub open spec fn dirty_has(dirty: ProducerDirtyDomain, cell: CellRef) -> bool {
    match dirty {
        ProducerDirtyDomain::Whole => true,
        ProducerDirtyDomain::Cells(cells) => cells@.contains(cell),
        ProducerDirtyDomain::Regions(regions) => exists|i: int|
            0 <= i < regions@.len() && (#[trigger] regions@[i]).has_cell(cell),
    }
}

/// The keys of the cells of the domain that the dirty part holds.
pub open spec fn dirty_keys(domain: PlacementDomain, dirty: ProducerDirtyDomain) -> Set<u128> {
    Set::new(
        |k: u128|
            exists|cell: CellRef|
                domain.has_cell(cell) && dirty_has(dirty, cell) && #[trigger] spec_cell_key(cell)
                    == k,
    )
}

proof fn lemma_domain_cells(domain: PlacementDomain, cell: CellRef)
    requires
        domain.valid(),
    ensures
        domain.cells().contains(cell) == domain.has_cell(cell),
{
    let (r0, r1, c0, c1) = domain.bounds();
    rect_cells_are_the_rectangle(
        CellRef { sheet_id: domain.spec_sheet(), row: r0, col: c0 },
        r1 - r0 + 1,
        c1 - c0 + 1,
        cell,
    );
}

fn any_region_holds(regions: &Vec<Region>, cell: CellRef) -> (b: bool)
    ensures
        b == exists|i: int| 0 <= i < regions@.len() && (#[trigger] regions@[i]).has_cell(cell),
{
    let mut i: usize = 0;
    while i < regions.len()
        invariant
            i <= regions@.len(),
            forall|k: int| 0 <= k < i ==> !(#[trigger] regions@[k]).has_cell(cell),
        decreases regions@.len() - i,
    {
        if regions[i].contains_key(cell) {
            return true;
        }
        i = i + 1;
    }
    false
}

/// Adds the keys of the span's dirty cells to the set.
pub fn insert_formula_plane_dirty_coords_for_span(
    domain: Option<&PlacementDomain>,
    dirty: &ProducerDirtyDomain,
    out: &mut FxHashSet<u128>,
) -> (r: Result<(), ExcelError>)
    requires
        domain matches Some(d) ==> d.valid(),
    ensures
        match domain {
            None => {
                &&& r matches Err(e) && e@ == error_with(
                    ErrorKind::NImpl,
                    "FormulaPlane dirty transfer referenced a stale span"@,
                )
                &&& final(out)@ == old(out)@
            },
            Some(d) => r is Ok && final(out)@ == old(out)@.union(dirty_keys(*d, *dirty)),
        },
{
    let domain = match domain {
        Some(d) => d,
        None => {
            return Err(
                ExcelError::new(ErrorKind::NImpl).with_message(
                    "FormulaPlane dirty transfer referenced a stale span",
                ),
            );
        },
    };
    let ghost before = out@;
    match dirty {
        ProducerDirtyDomain::Cells(cells) => {
            let mut i: usize = 0;
            while i < cells.len()
                invariant
                    i <= cells@.len(),
                    forall|k: u128| #[trigger]
                        out@.contains(k) <==> before.contains(k) || exists|j: int|
                            0 <= j < i && domain.has_cell(#[trigger] cells@[j]) && spec_cell_key(
                                cells@[j],
                            ) == k,
                decreases cells@.len() - i,
            {
                let cell = cells[i];
                let ghost prior = out@;
                if domain.contains(cell) {
                    set_insert(out, cell_key(cell));
                }
                proof {
                    assert forall|k: u128| #[trigger] out@.contains(k) <==> before.contains(k)
                        || exists|j: int|
                        0 <= j < i + 1 && domain.has_cell(#[trigger] cells@[j]) && spec_cell_key(
                            cells@[j],
                        ) == k by {
                        assert(out@.contains(k) <==> prior.contains(k) || (domain.has_cell(cell)
                            && k == spec_cell_key(cell)));
                        if prior.contains(k) && !before.contains(k) {
                            let j = choose|j: int|
                                0 <= j < i && domain.has_cell(#[trigger] cells@[j])
                                    && spec_cell_key(cells@[j]) == k;
                            assert(domain.has_cell(cells@[j]));
                        }
                        if domain.has_cell(cell) && k == spec_cell_key(cell) {
                            assert(domain.has_cell(cells@[i as int]));
                        }
                    }
                }
                i = i + 1;
            }
            proof {
                assert forall|k: u128| out@.contains(k) <==> before.union(
                    dirty_keys(*domain, *dirty),
                ).contains(k) by {
                    if dirty_keys(*domain, *dirty).contains(k) {
                        let cell = choose|cell: CellRef|
                            domain.has_cell(cell) && dirty_has(*dirty, cell)
                                && #[trigger] spec_cell_key(cell) == k;
                        let j = choose|j: int| 0 <= j < cells@.len() && cells@[j] == cell;
                        assert(domain.has_cell(cells@[j]));
                    }
                    if out@.contains(k) && !before.contains(k) {
                        let j = choose|j: int|
                            0 <= j < cells@.len() && domain.has_cell(#[trigger] cells@[j])
                                && spec_cell_key(cells@[j]) == k;
                        assert(cells@.contains(cells@[j]));
                        assert(dirty_has(*dirty, cells@[j]));
                    }
                }
                assert(out@ =~= before.union(dirty_keys(*domain, *dirty)));
            }
        },
        _ => {
            let cells = domain.placements();
            let mut i: usize = 0;
            while i < cells.len()
                invariant
                    i <= cells@.len(),
                    cells@ == domain.cells(),
                    !(dirty is Cells),
                    forall|k: u128| #[trigger]
                        out@.contains(k) <==> before.contains(k) || exists|j: int|
                            0 <= j < i && dirty_has(*dirty, #[trigger] cells@[j]) && spec_cell_key(
                                cells@[j],
                            ) == k,
                decreases cells@.len() - i,
            {
                let cell = cells[i];
                let ghost prior = out@;
                let hit = match dirty {
                    ProducerDirtyDomain::Regions(regions) => any_region_holds(regions, cell),
                    _ => true,
                };
                assert(hit == dirty_has(*dirty, cell));
                if hit {
                    set_insert(out, cell_key(cell));
                }
                proof {
                    assert forall|k: u128| #[trigger] out@.contains(k) <==> before.contains(k)
                        || exists|j: int|
                        0 <= j < i + 1 && dirty_has(*dirty, #[trigger] cells@[j]) && spec_cell_key(
                            cells@[j],
                        ) == k by {
                        assert(out@.contains(k) <==> prior.contains(k) || (hit && k
                            == spec_cell_key(cell)));
                        if prior.contains(k) && !before.contains(k) {
                            let j = choose|j: int|
                                0 <= j < i && dirty_has(*dirty, #[trigger] cells@[j])
                                    && spec_cell_key(cells@[j]) == k;
                            assert(dirty_has(*dirty, cells@[j]));
                        }
                        if hit && k == spec_cell_key(cell) {
                            assert(dirty_has(*dirty, cells@[i as int]));
                        }
                    }
                }
                i = i + 1;
            }
            proof {
                assert forall|k: u128| out@.contains(k) <==> before.union(
                    dirty_keys(*domain, *dirty),
                ).contains(k) by {
                    if dirty_keys(*domain, *dirty).contains(k) {
                        let cell = choose|cell: CellRef|
                            domain.has_cell(cell) && dirty_has(*dirty, cell)
                                && #[trigger] spec_cell_key(cell) == k;
                        lemma_domain_cells(*domain, cell);
                        let j = choose|j: int| 0 <= j < cells@.len() && cells@[j] == cell;
                        assert(dirty_has(*dirty, cells@[j]));
                    }
                    if out@.contains(k) && !before.contains(k) {
                        let j = choose|j: int|
                            0 <= j < cells@.len() && dirty_has(*dirty, #[trigger] cells@[j])
                                && spec_cell_key(cells@[j]) == k;
                        assert(domain.cells().contains(cells@[j]));
                        lemma_domain_cells(*domain, cells@[j]);
                    }
                }
                assert(out@ =~= before.union(dirty_keys(*domain, *dirty)));
            }
        },
    }
    Ok(())
}

/// A producer with the part of it that is to be computed.
#[derive(Debug)]
pub struct FormulaProducerWork {
    pub producer: FormulaProducerId,
    pub dirty: ProducerDirtyDomain,
}

/// An active span: its reference and its cells, where the reference is not stale.
#[derive(Debug)]
pub struct SpanDomain {
    pub span_ref: SpanRef,
    pub domain: Option<PlacementDomain>,
}

/// The position of the span with the given identifier; of several the last one counts.
pub open spec fn span_position(spans: Seq<SpanDomain>, id: u64) -> Option<int>
    decreases spans.len(),
{
    if spans.len() == 0 {
        None
    } else if spans.last().span_ref.id == id {
        Some(spans.len() - 1)
    } else {
        span_position(spans.drop_last(), id)
    }
}

proof fn lemma_span_position(spans: Seq<SpanDomain>, id: u64, n: int)
    requires
        0 <= n <= spans.len(),
        forall|i: int| n <= i < spans.len() ==> (#[trigger] spans[i]).span_ref.id != id,
    ensures
        span_position(spans, id) == span_position(spans.take(n), id),
        span_position(spans, id) matches Some(i) ==> 0 <= i < spans.len()
            && spans[i].span_ref.id == id,
    decreases spans.len(),
{
    if spans.len() > 0 {
        if n == spans.len() {
            assert(spans.take(n) =~= spans);
            if spans.last().span_ref.id != id {
                lemma_span_position(spans.drop_last(), id, n - 1);
            }
        } else {
            lemma_span_position(spans.drop_last(), id, n);
            assert(spans.drop_last().take(n) =~= spans.take(n));
        }
    } else {
        assert(spans.take(n) =~= spans);
    }
}

fn find_span(spans: &Vec<SpanDomain>, id: u64) -> (r: Option<usize>)
    ensures
        span_position(spans@, id) == (match r {
            Some(i) => Some(i as int),
            None => None,
        }),
        r matches Some(i) ==> i < spans@.len() && spans@[i as int].span_ref.id == id,
{
    let mut n: usize = spans.len();
    while n > 0
        invariant
            n <= spans@.len(),
            forall|i: int| n <= i < spans@.len() ==> (#[trigger] spans@[i]).span_ref.id != id,
        decreases n,
    {
        if spans[n - 1].span_ref.id == id {
            proof {
                lemma_span_position(spans@, id, n as int);
                assert(spans@.take(n as int).last() == spans@[n - 1]);
            }
            return Some(n - 1);
        }
        n = n - 1;
    }
    proof {
        lemma_span_position(spans@, id, 0);
    }
    None
}

/// What the dirty cells of a pass are built from.
pub struct DirtyClosure {
    pub work: Vec<FormulaProducerWork>,
    pub fallbacks: Vec<FormulaProducerId>,
}

/// The span that a producer names, by position among the active ones.
pub open spec fn span_of(spans: Seq<SpanDomain>, producer: FormulaProducerId) -> Option<int> {
    match producer {
        FormulaProducerId::Span(id) => span_position(spans, id),
        FormulaProducerId::Legacy(_) => None,
    }
}

/// Whether a span that the pass computes has lost its geometry.
pub open spec fn closure_hits_stale(
    spans: Seq<SpanDomain>,
    closure: DirtyClosure,
    works: int,
    fallbacks: int,
) -> bool {
    ||| exists|w: int|
        0 <= w < works && (span_of(spans, (#[trigger] closure.work@[w]).producer) matches Some(i)
            && spans[i].domain is None)
    ||| exists|f: int|
        0 <= f < fallbacks && (span_of(spans, #[trigger] closure.fallbacks@[f]) matches Some(i)
            && spans[i].domain is None)
}

/// Whether the cell with the key is dirty by one of the first items of the closure: named by work
/// of its span, or lying in a span that fell back.
pub open spec fn closure_has(
    spans: Seq<SpanDomain>,
    closure: DirtyClosure,
    works: int,
    fallbacks: int,
    k: u128,
) -> bool {
    ||| exists|w: int|
        0 <= w < works && (span_of(spans, (#[trigger] closure.work@[w]).producer) matches Some(i)
            && spans[i].domain is Some && dirty_keys(
            spans[i].domain->Some_0,
            closure.work@[w].dirty,
        ).contains(k))
    ||| exists|f: int|
        0 <= f < fallbacks && (span_of(spans, #[trigger] closure.fallbacks@[f]) matches Some(i)
            && spans[i].domain is Some && dirty_keys(
            spans[i].domain->Some_0,
            ProducerDirtyDomain::Whole,
        ).contains(k))
}

/// Whether the cell with the key lies in one of the first `n` spans.
pub open spec fn spans_have(spans: Seq<SpanDomain>, n: int, k: u128) -> bool {
    exists|i: int|
        0 <= i < n && (#[trigger] spans[i]).domain is Some && dirty_keys(
            spans[i].domain->Some_0,
            ProducerDirtyDomain::Whole,
        ).contains(k)
}

pub open spec fn stale_span_error() -> crate::value::ErrorView {
    error_with(ErrorKind::NImpl, "FormulaPlane dirty transfer referenced a stale span"@)
}

/// The keys of the span cells that are out of date: all of them when the spans were not evaluated
/// under the current indexes, none when nothing changed since, and else the cells that the closure
/// of the changes names.
pub fn compute_current_formula_plane_dirty_result_coords(
    spans: &Vec<SpanDomain>,
    epoch_seen: u64,
    indexes_epoch: u64,
    nothing_pending: bool,
    closure: &DirtyClosure,
) -> (r: Result<FxHashSet<u128>, ExcelError>)
    requires
        forall|i: int|
            0 <= i < spans@.len() ==> ((#[trigger] spans@[i]).domain matches Some(d) ==> d.valid()),
    ensures
        epoch_seen != indexes_epoch ==> match r {
            Ok(set) => {
                &&& forall|i: int| 0 <= i < spans@.len() ==> (#[trigger] spans@[i]).domain is Some
                &&& forall|k: u128| #[trigger] set@.contains(k) == spans_have(
                    spans@,
                    spans@.len() as int,
                    k,
                )
            },
            Err(e) => {
                &&& exists|i: int| 0 <= i < spans@.len() && (#[trigger] spans@[i]).domain is None
                &&& e@ == stale_span_error()
            },
        },
        epoch_seen == indexes_epoch && nothing_pending ==> (r matches Ok(set) && set@
            == Set::<u128>::empty()),
        epoch_seen == indexes_epoch && !nothing_pending ==> match r {
            Ok(set) => {
                let works = closure.work@.len() as int;
                let fallbacks = closure.fallbacks@.len() as int;
                &&& !closure_hits_stale(spans@, *closure, works, fallbacks)
                &&& forall|k: u128| #[trigger]
                    set@.contains(k) == closure_has(spans@, *closure, works, fallbacks, k)
            },
            Err(e) => {
                &&& closure_hits_stale(
                    spans@,
                    *closure,
                    closure.work@.len() as int,
                    closure.fallbacks@.len() as int,
                )
                &&& e@ == stale_span_error()
            },
        },
{
    let mut out: FxHashSet<u128> = FxHashSet::default();
    if epoch_seen != indexes_epoch {
        let mut i: usize = 0;
        while i < spans.len()
            invariant
                i <= spans@.len(),
                forall|i: int|
                    0 <= i < spans@.len() ==> ((#[trigger] spans@[i]).domain matches Some(d)
                        ==> d.valid()),
                epoch_seen != indexes_epoch,
                forall|j: int| 0 <= j < i ==> (#[trigger] spans@[j]).domain is Some,
                forall|k: u128| #[trigger] out@.contains(k) == spans_have(spans@, i as int, k),
            decreases spans@.len() - i,
        {
            let ghost prior = out@;
            let r = insert_formula_plane_dirty_coords_for_span(
                spans[i].domain.as_ref(),
                &ProducerDirtyDomain::Whole,
                &mut out,
            );
            match r {
                Ok(()) => {},
                Err(e) => {
                    assert(spans@[i as int].domain is None);
                    return Err(e);
                },
            }
            proof {
                assert forall|k: u128| #[trigger] out@.contains(k) == spans_have(
                    spans@,
                    i + 1,
                    k,
                ) by {
                    let added = dirty_keys(
                        spans@[i as int].domain->Some_0,
                        ProducerDirtyDomain::Whole,
                    );
                    assert(out@.contains(k) == (prior.contains(k) || added.contains(k)));
                    if prior.contains(k) {
                        let j = choose|j: int|
                            0 <= j < i && (#[trigger] spans@[j]).domain is Some && dirty_keys(
                                spans@[j].domain->Some_0,
                                ProducerDirtyDomain::Whole,
                            ).contains(k);
                        assert(spans@[j].domain is Some);
                    }
                    if added.contains(k) {
                        assert(spans@[i as int].domain is Some);
                    }
                }
            }
            i = i + 1;
        }
        return Ok(out);
    }
    if nothing_pending {
        return Ok(out);
    }
    let mut w: usize = 0;
    while w < closure.work.len()
        invariant
            w <= closure.work@.len(),
            forall|i: int|
                0 <= i < spans@.len() ==> ((#[trigger] spans@[i]).domain matches Some(d)
                    ==> d.valid()),
            !closure_hits_stale(spans@, *closure, w as int, 0),
            forall|k: u128| #[trigger]
                out@.contains(k) == closure_has(spans@, *closure, w as int, 0, k),
            epoch_seen == indexes_epoch,
            !nothing_pending,
        decreases closure.work@.len() - w,
    {
        let item = &closure.work[w];
        let ghost prior = out@;
        let position = match item.producer {
            FormulaProducerId::Span(id) => find_span(spans, id),
            FormulaProducerId::Legacy(_) => None,
        };
        if let Some(p) = position {
            let r = insert_formula_plane_dirty_coords_for_span(
                spans[p].domain.as_ref(),
                &item.dirty,
                &mut out,
            );
            match r {
                Ok(()) => {},
                Err(e) => {
                    assert(span_of(spans@, closure.work@[w as int].producer) == Some(p as int));
                    return Err(e);
                },
            }
        }
        proof {
            let at = span_of(spans@, closure.work@[w as int].producer);
            assert forall|k: u128| #[trigger] out@.contains(k) == closure_has(
                spans@,
                *closure,
                w + 1,
                0,
                k,
            ) by {
                if closure_has(spans@, *closure, w as int, 0, k) {
                    let j = choose|j: int|
                        0 <= j < w && (span_of(
                            spans@,
                            (#[trigger] closure.work@[j]).producer,
                        ) matches Some(i) && spans@[i].domain is Some && dirty_keys(
                            spans@[i].domain->Some_0,
                            closure.work@[j].dirty,
                        ).contains(k));
                    assert(closure.work@[j].producer == closure.work@[j].producer);
                }
                if out@.contains(k) && !prior.contains(k) {
                    assert(closure.work@[w as int].producer == item.producer);
                }
            }
        }
        w = w + 1;
    }
    let mut f: usize = 0;
    let ghost works = closure.work@.len() as int;
    while f < closure.fallbacks.len()
        invariant
            f <= closure.fallbacks@.len(),
            works == closure.work@.len(),
            forall|i: int|
                0 <= i < spans@.len() ==> ((#[trigger] spans@[i]).domain matches Some(d)
                    ==> d.valid()),
            !closure_hits_stale(spans@, *closure, works, f as int),
            forall|k: u128| #[trigger]
                out@.contains(k) == closure_has(spans@, *closure, works, f as int, k),
            epoch_seen == indexes_epoch,
            !nothing_pending,
        decreases closure.fallbacks@.len() - f,
    {
        let producer = closure.fallbacks[f];
        let ghost prior = out@;
        let position = match producer {
            FormulaProducerId::Span(id) => find_span(spans, id),
            FormulaProducerId::Legacy(_) => None,
        };
        if let Some(p) = position {
            let r = insert_formula_plane_dirty_coords_for_span(
                spans[p].domain.as_ref(),
                &ProducerDirtyDomain::Whole,
                &mut out,
            );
            match r {
                Ok(()) => {},
                Err(e) => {
                    assert(span_of(spans@, closure.fallbacks@[f as int]) == Some(p as int));
                    return Err(e);
                },
            }
        }
        proof {
            assert forall|k: u128| #[trigger] out@.contains(k) == closure_has(
                spans@,
                *closure,
                works,
                f + 1,
                k,
            ) by {
                if closure_has(spans@, *closure, works, f as int, k) {
                    if exists|j: int|
                        0 <= j < f && (span_of(
                            spans@,
                            #[trigger] closure.fallbacks@[j],
                        ) matches Some(i) && spans@[i].domain is Some && dirty_keys(
                            spans@[i].domain->Some_0,
                            ProducerDirtyDomain::Whole,
                        ).contains(k)) {
                        let j = choose|j: int|
                            0 <= j < f && (span_of(
                                spans@,
                                #[trigger] closure.fallbacks@[j],
                            ) matches Some(i) && spans@[i].domain is Some && dirty_keys(
                                spans@[i].domain->Some_0,
                                ProducerDirtyDomain::Whole,
                            ).contains(k));
                        assert(closure.fallbacks@[j] == closure.fallbacks@[j]);
                    }
                }
                if out@.contains(k) && !prior.contains(k) {
                    assert(closure.fallbacks@[f as int] == producer);
                }
            }
        }
        f = f + 1;
    }
    Ok(out)
}

/// What a dirty part of a span holds: all of its cells, those listed, or those of the regions listed,
/// and never a cell that the span is not placed on.
pub proof fn dirty_cells_lie_on_the_span(domain: PlacementDomain, dirty: ProducerDirtyDomain, cell: CellRef)
    ensures
        dirty_keys(domain, dirty).contains(spec_cell_key(cell)) <==> domain.has_cell(cell) && (match dirty {
            ProducerDirtyDomain::Whole => true,
            ProducerDirtyDomain::Cells(cells) => cells@.contains(cell),
            ProducerDirtyDomain::Regions(regions) => exists|i: int|
                0 <= i < regions@.len() && (#[trigger] regions@[i]).has_cell(cell),
        }),
{
    keys_name_their_cells(cell);
    if dirty_keys(domain, dirty).contains(spec_cell_key(cell)) {
        let c = choose|c: CellRef|
            domain.has_cell(c) && dirty_has(dirty, c) && #[trigger] spec_cell_key(c) == spec_cell_key(cell);
        keys_name_their_cells(c);
    }
}

/// A span is found by its number, wherever it stands, and the last of that number where there are
/// several; a vertex is no span.
pub proof fn spans_are_found_by_their_number(spans: Seq<SpanDomain>, id: u64)
    ensures
        match span_position(spans, id) {
            Some(i) => 0 <= i < spans.len() && spans[i].span_ref.id == id && forall|j: int|
                i < j < spans.len() ==> (#[trigger] spans[j]).span_ref.id != id,
            None => forall|j: int| 0 <= j < spans.len() ==> (#[trigger] spans[j]).span_ref.id != id,
        },
        span_of(spans, FormulaProducerId::Span(id)) == span_position(spans, id),
        forall|v: u32| #[trigger] span_of(spans, FormulaProducerId::Legacy(v)) is None,
    decreases spans.len(),
{
    if spans.len() > 0 {
        let front = spans.drop_last();
        spans_are_found_by_their_number(front, id);
        if spans.last().span_ref.id != id {
            assert forall|j: int|
                0 <= j < spans.len() && (span_position(spans, id) matches Some(i) ==> i < j) implies (
            #[trigger] spans[j]).span_ref.id != id by {
                if j < front.len() {
                    assert(front[j] == spans[j]);
                }
            }
        }
    }
}

/// Cells that are out of date are found: those of the work on a span that lie on it and are dirty, and
/// all cells of a span that has to be evaluated as a whole.
pub proof fn dirty_cells_of_all_work_are_found(
    spans: Seq<SpanDomain>,
    closure: DirtyClosure,
    w: int,
    f: int,
    cell: CellRef,
)
    ensures
        0 <= w < closure.work@.len() && (span_of(spans, closure.work@[w].producer) matches Some(i)
            && spans[i].domain is Some && dirty_keys(
            spans[i].domain->Some_0,
            closure.work@[w].dirty,
        ).contains(spec_cell_key(cell))) ==> closure_has(
            spans,
            closure,
            closure.work@.len() as int,
            closure.fallbacks@.len() as int,
            spec_cell_key(cell),
        ),
        0 <= f < closure.fallbacks@.len() && (span_of(spans, closure.fallbacks@[f]) matches Some(i)
            && spans[i].domain is Some && spans[i].domain->Some_0.has_cell(cell)) ==> closure_has(
            spans,
            closure,
            closure.work@.len() as int,
            closure.fallbacks@.len() as int,
            spec_cell_key(cell),
        ),
        0 <= w < closure.work@.len() && (span_of(spans, closure.work@[w].producer) matches Some(i)
            && spans[i].domain is None) ==> closure_hits_stale(
            spans,
            closure,
            closure.work@.len() as int,
            closure.fallbacks@.len() as int,
        ),
        0 <= f < spans.len() && spans[f].domain is Some && spans[f].domain->Some_0.has_cell(cell)
            ==> spans_have(spans, spans.len() as int, spec_cell_key(cell)),
        stale_span_error().kind == ErrorKind::NImpl,
{
    if 0 <= f < closure.fallbacks@.len() {
        if let Some(i) = span_of(spans, closure.fallbacks@[f]) {
            if spans[i].domain is Some {
                dirty_cells_lie_on_the_span(
                    spans[i].domain->Some_0,
                    ProducerDirtyDomain::Whole,
                    cell,
                );
            }
        }
    }
    if 0 <= f < spans.len() && spans[f].domain is Some {
        dirty_cells_lie_on_the_span(spans[f].domain->Some_0, ProducerDirtyDomain::Whole, cell);
    }
}

} // verus!
