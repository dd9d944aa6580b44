//! What the mixed schedule of legacy formulas and formula spans is built from.
use crate::coord::{CellRef, SheetId, VertexId};
use crate::fx::set_insert;
use crate::producer::{DirtyClosure, FormulaProducerId, FormulaProducerWork, ProducerDirtyDomain};
use crate::reference_type::{SharedRangeRef, range_region, shared_range_to_region_pattern};
use crate::region::{AxisRange, Region};
use crate::span_plan::{Projection, ReadDependency, SpanRef};
use crate::value::{ErrorKind, ErrorView, ExcelError, error_with};
use rustc_hash::FxHashSet;
use vstd::prelude::*;

verus! {

/// How span work is seeded: every active span whole, or only what captured changes reach.
#[derive(Clone, Copy, Debug, PartialEq, Eq, Structural)]
pub enum SpanSeedMode {
    WholeAll,
    DirtyClosure,
}

/// The read summary of an active span, as far as the plane still has it.
#[derive(Debug)]
pub enum SpanReads {
    NoSummary,
    StaleSummary,
    Summary { result_region: Region, dependencies: Vec<ReadDependency> },
}

/// An active span as the schedule sees it; `result_region` is absent where the reference is stale.
#[derive(Debug)]
pub struct ScheduledSpan {
    pub span_ref: SpanRef,
    pub result_region: Option<Region>,
    pub reads: SpanReads,
}

/// A legacy formula vertex as the schedule sees it.
#[derive(Debug)]
pub struct LegacyFormula {
    pub vertex: VertexId,
    pub cell: Option<CellRef>,
    pub dirty: bool,
    /// The cells of its dependencies; a dependency that is no cell is absent.
    pub dependencies: Vec<Option<CellRef>>,
    pub ranges: Vec<SharedRangeRef>,
}

/// A producer and where its results lie.
#[derive(Clone, Copy, Debug, PartialEq, Eq, Structural)]
pub struct ProducerResult {
    pub producer: FormulaProducerId,
    pub region: Region,
}

/// A region that a producer reads.
#[derive(Clone, Copy, Debug, PartialEq, Eq, Structural)]
pub struct ConsumerRead {
    pub consumer: FormulaProducerId,
    pub read_region: Region,
    pub result_region: Region,
    pub projection: Projection,
}

/// The indexes and the seeded work of a mixed schedule.
pub struct MixedInputs {
    pub producers: Vec<ProducerResult>,
    pub reads: Vec<ConsumerRead>,
    pub work: Vec<FormulaProducerWork>,
    pub scheduled_legacy: Vec<VertexId>,
}

/// What stands in the way of scheduling the span.
pub open spec fn span_failure(s: ScheduledSpan) -> Option<ErrorView> {
    match (s.result_region, s.reads) {
        (None, _) => Some(error_with(ErrorKind::NImpl, "FormulaPlane active span ref is stale"@)),
        (Some(_), SpanReads::NoSummary) => Some(
            error_with(ErrorKind::NImpl, "FormulaPlane active span is missing read summary"@),
        ),
        (Some(_), SpanReads::StaleSummary) => Some(
            error_with(ErrorKind::NImpl, "FormulaPlane active span has stale read summary"@),
        ),
        (Some(r), SpanReads::Summary { result_region, .. }) => if result_region != r {
            Some(error_with(ErrorKind::NImpl, "FormulaPlane active span read summary is stale"@))
        } else {
            None
        },
    }
}

/// The reads of a span.
pub open spec fn span_reads(s: ScheduledSpan) -> Seq<ConsumerRead> {
    let dependencies = s.reads->dependencies@;
    Seq::new(
        dependencies.len(),
        |i: int|
            ConsumerRead {
                consumer: FormulaProducerId::Span(s.span_ref.id),
                read_region: dependencies[i].read_region,
                result_region: s.reads->result_region,
                projection: dependencies[i].projection,
            },
    )
}

pub open spec fn spans_reads(spans: Seq<ScheduledSpan>, n: nat) -> Seq<ConsumerRead>
    decreases n,
{
    if n == 0 {
        Seq::empty()
    } else {
        spans_reads(spans, (n - 1) as nat) + span_reads(spans[n - 1])
    }
}

pub open spec fn spans_results(spans: Seq<ScheduledSpan>) -> Seq<ProducerResult> {
    Seq::new(
        spans.len(),
        |i: int|
            ProducerResult {
                producer: FormulaProducerId::Span(spans[i].span_ref.id),
                region: spans[i].result_region->Some_0,
            },
    )
}

/// Whole work for every span.
pub open spec fn spans_work(spans: Seq<ScheduledSpan>) -> Seq<FormulaProducerWork> {
    Seq::new(
        spans.len(),
        |i: int|
            FormulaProducerWork {
                producer: FormulaProducerId::Span(spans[i].span_ref.id),
                dirty: ProducerDirtyDomain::Whole,
            },
    )
}

pub open spec fn cell_region(cell: CellRef) -> Region {
    Region {
        sheet_id: cell.sheet_id,
        rows: AxisRange::Point(cell.row),
        cols: AxisRange::Point(cell.col),
    }
}

/// The results of the first `n` legacy formulas that stand in a cell.
pub open spec fn legacy_results(legacy: Seq<LegacyFormula>, n: nat) -> Seq<ProducerResult>
    decreases n,
{
    if n == 0 {
        Seq::empty()
    } else {
        let before = legacy_results(legacy, (n - 1) as nat);
        match legacy[n - 1].cell {
            Some(cell) => before.push(
                ProducerResult {
                    producer: FormulaProducerId::Legacy(legacy[n - 1].vertex),
                    region: cell_region(cell),
                },
            ),
            None => before,
        }
    }
}

/// The dirty ones of the first `n` legacy formulas that stand in a cell.
pub open spec fn legacy_scheduled(legacy: Seq<LegacyFormula>, n: nat) -> Seq<VertexId>
    decreases n,
{
    if n == 0 {
        Seq::empty()
    } else {
        let before = legacy_scheduled(legacy, (n - 1) as nat);
        if legacy[n - 1].cell is Some && legacy[n - 1].dirty {
            before.push(legacy[n - 1].vertex)
        } else {
            before
        }
    }
}

/// Whole work for each of the vertices.
pub open spec fn vertices_work(vertices: Seq<VertexId>) -> Seq<FormulaProducerWork> {
    Seq::new(
        vertices.len(),
        |i: int|
            FormulaProducerWork {
                producer: FormulaProducerId::Legacy(vertices[i]),
                dirty: ProducerDirtyDomain::Whole,
            },
    )
}

/// The regions of the first `n` dependencies that are cells, each region once.
pub open spec fn dependency_regions(dependencies: Seq<Option<CellRef>>, n: nat) -> Seq<Region>
    decreases n,
{
    if n == 0 {
        Seq::empty()
    } else {
        let before = dependency_regions(dependencies, (n - 1) as nat);
        match dependencies[n - 1] {
            Some(cell) => push_new(before, cell_region(cell)),
            None => before,
        }
    }
}

/// The list with the region behind it, unless the list holds the region.
pub open spec fn push_new(regions: Seq<Region>, region: Region) -> Seq<Region> {
    if regions.contains(region) {
        regions
    } else {
        regions.push(region)
    }
}

/// The given regions followed by those of the first `n` ranges that have one, each region once.
pub open spec fn with_range_regions(
    regions: Seq<Region>,
    ranges: Seq<SharedRangeRef>,
    default_sheet: SheetId,
    n: nat,
) -> Seq<Region>
    decreases n,
{
    if n == 0 {
        regions
    } else {
        let before = with_range_regions(regions, ranges, default_sheet, (n - 1) as nat);
        match range_region(ranges[n - 1], default_sheet) {
            Some(region) => push_new(before, region),
            None => before,
        }
    }
}

/// The regions that a legacy formula reads: its cell dependencies, then its ranges, each once.
pub open spec fn legacy_regions(f: LegacyFormula, default_sheet: SheetId) -> Seq<Region> {
    with_range_regions(
        dependency_regions(f.dependencies@, f.dependencies@.len()),
        f.ranges@,
        default_sheet,
        f.ranges@.len(),
    )
}

/// The reads of a legacy formula; one that stands in no cell has none.
pub open spec fn legacy_reads(f: LegacyFormula, default_sheet: SheetId) -> Seq<ConsumerRead> {
    match f.cell {
        Some(cell) => {
            let regions = legacy_regions(f, default_sheet);
            Seq::new(
                regions.len(),
                |i: int|
                    ConsumerRead {
                        consumer: FormulaProducerId::Legacy(f.vertex),
                        read_region: regions[i],
                        result_region: cell_region(cell),
                        projection: Projection::WholeResult,
                    },
            )
        },
        None => Seq::empty(),
    }
}

pub open spec fn all_legacy_reads(
    legacy: Seq<LegacyFormula>,
    default_sheet: SheetId,
    n: nat,
) -> Seq<ConsumerRead>
    decreases n,
{
    if n == 0 {
        Seq::empty()
    } else {
        all_legacy_reads(legacy, default_sheet, (n - 1) as nat) + legacy_reads(
            legacy[n - 1],
            default_sheet,
        )
    }
}

fn regions_hold(regions: &Vec<Region>, region: Region) -> (b: bool)
    ensures
        b == regions@.contains(region),
{
    let mut i: usize = 0;
    while i < regions.len()
        invariant
            i <= regions@.len(),
            forall|k: int| 0 <= k < i ==> #[trigger] regions@[k] != region,
        decreases regions@.len() - i,
    {
        if regions[i] == region {
            assert(regions@[i as int] == region);
            return true;
        }
        i = i + 1;
    }
    false
}

/// The regions that a legacy formula reads, each once.
fn collect_legacy_regions(f: &LegacyFormula, default_sheet: SheetId) -> (regions: Vec<Region>)
    ensures
        regions@ == legacy_regions(*f, default_sheet),
{
    let mut regions: Vec<Region> = Vec::new();
    let mut i: usize = 0;
    while i < f.dependencies.len()
        invariant
            i <= f.dependencies@.len(),
            regions@ == dependency_regions(f.dependencies@, i as nat),
        decreases f.dependencies@.len() - i,
    {
        if let Some(cell) = f.dependencies[i] {
            let region = Region::point(cell.sheet_id, cell.row, cell.col);
            if !regions_hold(&regions, region) {
                regions.push(region);
            }
        }
        i = i + 1;
    }
    let ghost cells = regions@;
    let mut j: usize = 0;
    while j < f.ranges.len()
        invariant
            j <= f.ranges@.len(),
            regions@ == with_range_regions(cells, f.ranges@, default_sheet, j as nat),
        decreases f.ranges@.len() - j,
    {
        if let Some(region) = shared_range_to_region_pattern(&f.ranges[j], default_sheet) {
            if !regions_hold(&regions, region) {
                regions.push(region);
            }
        }
        j = j + 1;
    }
    regions
}

/// The indexes over all spans and legacy formulas, and the seeded work: every span whole in the
/// `WholeAll` mode, then every dirty legacy formula. The first span that cannot be scheduled makes
/// the build fail.
pub fn build_formula_plane_mixed_schedule(
    mode: SpanSeedMode,
    spans: &Vec<ScheduledSpan>,
    legacy: &Vec<LegacyFormula>,
    default_sheet: SheetId,
) -> (r: Result<MixedInputs, ExcelError>)
    ensures
        match r {
            Ok(m) => {
                &&& forall|i: int|
                    0 <= i < spans@.len() ==> span_failure(#[trigger] spans@[i]) is None
                &&& m.producers@ == spans_results(spans@) + legacy_results(
                    legacy@,
                    legacy@.len(),
                )
                &&& m.reads@ == spans_reads(spans@, spans@.len()) + all_legacy_reads(
                    legacy@,
                    default_sheet,
                    legacy@.len(),
                )
                &&& m.scheduled_legacy@ == legacy_scheduled(legacy@, legacy@.len())
                &&& m.work@ == (if mode == SpanSeedMode::WholeAll {
                    spans_work(spans@)
                } else {
                    Seq::empty()
                }) + vertices_work(m.scheduled_legacy@)
            },
            Err(e) => exists|i: int|
                {
                    &&& 0 <= i < spans@.len()
                    &&& span_failure(#[trigger] spans@[i]) == Some(e@)
                    &&& forall|j: int| 0 <= j < i ==> span_failure(#[trigger] spans@[j]) is None
                },
        },
{
    let mut producers: Vec<ProducerResult> = Vec::new();
    let mut reads: Vec<ConsumerRead> = Vec::new();
    let mut work: Vec<FormulaProducerWork> = Vec::new();
    let mut i: usize = 0;
    while i < spans.len()
        invariant
            i <= spans@.len(),
            forall|j: int| 0 <= j < i ==> span_failure(#[trigger] spans@[j]) is None,
            producers@.len() == i,
            forall|j: int| 0 <= j < i ==> #[trigger] producers@[j] == spans_results(spans@)[j],
            reads@ == spans_reads(spans@, i as nat),
            mode == SpanSeedMode::WholeAll ==> work@.len() == i && forall|j: int|
                0 <= j < i ==> #[trigger] work@[j] == spans_work(spans@)[j],
            mode != SpanSeedMode::WholeAll ==> work@.len() == 0,
        decreases spans@.len() - i,
    {
        let span = &spans[i];
        let region = match span.result_region {
            Some(region) => region,
            None => {
                let e = ExcelError::new(ErrorKind::NImpl).with_message(
                    "FormulaPlane active span ref is stale",
                );
                assert(span_failure(spans@[i as int]) == Some(e@));
                return Err(e);
            },
        };
        producers.push(
            ProducerResult { producer: FormulaProducerId::Span(span.span_ref.id), region },
        );
        match &span.reads {
            SpanReads::NoSummary => {
                let e = ExcelError::new(ErrorKind::NImpl).with_message(
                    "FormulaPlane active span is missing read summary",
                );
                assert(span_failure(spans@[i as int]) == Some(e@));
                return Err(e);
            },
            SpanReads::StaleSummary => {
                let e = ExcelError::new(ErrorKind::NImpl).with_message(
                    "FormulaPlane active span has stale read summary",
                );
                assert(span_failure(spans@[i as int]) == Some(e@));
                return Err(e);
            },
            SpanReads::Summary { result_region, dependencies } => {
                if *result_region != region {
                    let e = ExcelError::new(ErrorKind::NImpl).with_message(
                        "FormulaPlane active span read summary is stale",
                    );
                    assert(span_failure(spans@[i as int]) == Some(e@));
                    return Err(e);
                }
                let ghost before = reads@;
                let mut d: usize = 0;
                while d < dependencies.len()
                    invariant
                        d <= dependencies@.len(),
                        span.reads == (SpanReads::Summary {
                            result_region: *result_region,
                            dependencies: *dependencies,
                        }),
                        reads@ == before + span_reads(*span).take(d as int),
                    decreases dependencies@.len() - d,
                {
                    let dependency = dependencies[d];
                    reads.push(
                        ConsumerRead {
                            consumer: FormulaProducerId::Span(span.span_ref.id),
                            read_region: dependency.read_region,
                            result_region: *result_region,
                            projection: dependency.projection,
                        },
                    );
                    assert(reads@ =~= before + span_reads(*span).take(d + 1));
                    d = d + 1;
                }
                assert(span_reads(*span).take(d as int) =~= span_reads(*span));
            },
        }
        if matches!(mode, SpanSeedMode::WholeAll) {
            work.push(
                FormulaProducerWork {
                    producer: FormulaProducerId::Span(span.span_ref.id),
                    dirty: ProducerDirtyDomain::Whole,
                },
            );
        }
        i = i + 1;
    }
    assert(producers@ =~= spans_results(spans@));
    let ghost span_producers = producers@;
    let ghost span_work = work@;
    let ghost span_read_list = reads@;
    assert(span_work =~= (if mode == SpanSeedMode::WholeAll {
        spans_work(spans@)
    } else {
        Seq::empty()
    }));
    let mut scheduled_legacy: Vec<VertexId> = Vec::new();
    let mut v: usize = 0;
    assert(span_producers + legacy_results(legacy@, 0) =~= span_producers);
    assert(span_work + vertices_work(scheduled_legacy@) =~= span_work);
    while v < legacy.len()
        invariant
            v <= legacy@.len(),
            producers@ == span_producers + legacy_results(legacy@, v as nat),
            scheduled_legacy@ == legacy_scheduled(legacy@, v as nat),
            work@ == span_work + vertices_work(scheduled_legacy@),
        decreases legacy@.len() - v,
    {
        let f = &legacy[v];
        if let Some(cell) = f.cell {
            let ghost before = legacy_results(legacy@, v as nat);
            let result = ProducerResult {
                producer: FormulaProducerId::Legacy(f.vertex),
                region: Region::point(cell.sheet_id, cell.row, cell.col),
            };
            producers.push(result);
            assert(producers@ =~= span_producers + before.push(result));
            if f.dirty {
                let ghost listed = scheduled_legacy@;
                scheduled_legacy.push(f.vertex);
                work.push(
                    FormulaProducerWork {
                        producer: FormulaProducerId::Legacy(f.vertex),
                        dirty: ProducerDirtyDomain::Whole,
                    },
                );
                assert(work@ =~= span_work + vertices_work(scheduled_legacy@));
            }
        }
        v = v + 1;
    }
    let mut u: usize = 0;
    assert(span_read_list + all_legacy_reads(legacy@, default_sheet, 0) =~= span_read_list);
    while u < legacy.len()
        invariant
            u <= legacy@.len(),
            reads@ == span_read_list + all_legacy_reads(legacy@, default_sheet, u as nat),
        decreases legacy@.len() - u,
    {
        let f = &legacy[u];
        let ghost before = reads@;
        if let Some(cell) = f.cell {
            let regions = collect_legacy_regions(f, default_sheet);
            let result_region = Region::point(cell.sheet_id, cell.row, cell.col);
            let mut k: usize = 0;
            while k < regions.len()
                invariant
                    k <= regions@.len(),
                    f.cell == Some(cell),
                    regions@ == legacy_regions(*f, default_sheet),
                    result_region == cell_region(cell),
                    reads@ == before + legacy_reads(*f, default_sheet).take(k as int),
                decreases regions@.len() - k,
            {
                reads.push(
                    ConsumerRead {
                        consumer: FormulaProducerId::Legacy(f.vertex),
                        read_region: regions[k],
                        result_region,
                        projection: Projection::WholeResult,
                    },
                );
                assert(reads@ =~= before + legacy_reads(*f, default_sheet).take(k + 1));
                k = k + 1;
            }
            assert(legacy_reads(*f, default_sheet).take(k as int) =~= legacy_reads(
                *f,
                default_sheet,
            ));
        }
        proof {
            let listed = all_legacy_reads(legacy@, default_sheet, u as nat);
            let added = legacy_reads(*f, default_sheet);
            assert(reads@ =~= before + added);
            assert(span_read_list + (listed + added) =~= (span_read_list + listed) + added);
        }
        u = u + 1;
    }
    Ok(MixedInputs { producers, reads, work, scheduled_legacy })
}

/// Whether the list holds whole work for the span.
pub open spec fn whole_work_for(work: Seq<FormulaProducerWork>, id: u64) -> bool {
    exists|i: int|
        0 <= i < work.len() && (#[trigger] work[i]).producer == FormulaProducerId::Span(id)
            && work[i].dirty is Whole
}

/// The work once the first `n` fallbacks have their span computed whole.
pub open spec fn with_fallbacks(
    work: Seq<FormulaProducerWork>,
    fallbacks: Seq<FormulaProducerId>,
    n: nat,
) -> Seq<FormulaProducerWork>
    decreases n,
{
    if n == 0 {
        work
    } else {
        let before = with_fallbacks(work, fallbacks, (n - 1) as nat);
        match fallbacks[n - 1] {
            FormulaProducerId::Span(id) if !whole_work_for(before, id) => before.push(
                FormulaProducerWork {
                    producer: FormulaProducerId::Span(id),
                    dirty: ProducerDirtyDomain::Whole,
                },
            ),
            _ => before,
        }
    }
}

/// Adds what the closure of captured changes asks for: its work, and every span that it could not
/// bound as a whole, once. Without pending changes, and where all spans are computed whole anyway,
/// nothing is added.
pub fn add_closure_work(
    mode: SpanSeedMode,
    nothing_pending: bool,
    work: &mut Vec<FormulaProducerWork>,
    closure: DirtyClosure,
)
    ensures
        final(work)@ == (if mode == SpanSeedMode::DirtyClosure && !nothing_pending {
            with_fallbacks(
                old(work)@ + closure.work@,
                closure.fallbacks@,
                closure.fallbacks@.len(),
            )
        } else {
            old(work)@
        }),
{
    if !matches!(mode, SpanSeedMode::DirtyClosure) || nothing_pending {
        return;
    }
    let DirtyClosure { work: mut closure_work, fallbacks } = closure;
    work.append(&mut closure_work);
    let ghost base = work@;
    let mut already_whole: FxHashSet<u64> = FxHashSet::default();
    let mut i: usize = 0;
    while i < work.len()
        invariant
            i <= work@.len(),
            work@ == base,
            forall|id: u64| #[trigger]
                already_whole@.contains(id) == whole_work_for(base.take(i as int), id),
        decreases work@.len() - i,
    {
        let ghost prior = already_whole@;
        let item = &work[i];
        let whole = matches!(item.dirty, ProducerDirtyDomain::Whole);
        if let FormulaProducerId::Span(id) = item.producer {
            if whole {
                set_insert(&mut already_whole, id);
            }
        }
        proof {
            let before = base.take(i as int);
            let after = base.take(i + 1);
            assert(after =~= before.push(base[i as int]));
            assert forall|id: u64| #[trigger] already_whole@.contains(id) == whole_work_for(
                after,
                id,
            ) by {
                if whole_work_for(before, id) {
                    let k = choose|k: int|
                        0 <= k < before.len() && (#[trigger] before[k]).producer
                            == FormulaProducerId::Span(id) && before[k].dirty is Whole;
                    assert(after[k] == before[k]);
                }
                if whole_work_for(after, id) && !whole_work_for(before, id) {
                    let k = choose|k: int|
                        0 <= k < after.len() && (#[trigger] after[k]).producer
                            == FormulaProducerId::Span(id) && after[k].dirty is Whole;
                    if k < i {
                        assert(before[k] == after[k]);
                    }
                }
                if already_whole@.contains(id) && !prior.contains(id) {
                    assert(after[i as int].producer == FormulaProducerId::Span(id));
                }
            }
        }
        i = i + 1;
    }
    assert(base.take(i as int) =~= base);
    let mut f: usize = 0;
    while f < fallbacks.len()
        invariant
            f <= fallbacks@.len(),
            work@ == with_fallbacks(base, fallbacks@, f as nat),
            forall|id: u64| #[trigger] already_whole@.contains(id) == whole_work_for(work@, id),
        decreases fallbacks@.len() - f,
    {
        if let FormulaProducerId::Span(id) = fallbacks[f] {
            let ghost before = work@;
            let ghost prior = already_whole@;
            if set_insert(&mut already_whole, id) {
                work.push(
                    FormulaProducerWork {
                        producer: FormulaProducerId::Span(id),
                        dirty: ProducerDirtyDomain::Whole,
                    },
                );
                proof {
                    assert forall|other: u64| #[trigger] already_whole@.contains(other)
                        == whole_work_for(work@, other) by {
                        if whole_work_for(before, other) {
                            let k = choose|k: int|
                                0 <= k < before.len() && (#[trigger] before[k]).producer
                                    == FormulaProducerId::Span(other) && before[k].dirty is Whole;
                            assert(work@[k] == before[k]);
                        }
                        if whole_work_for(work@, other) && !whole_work_for(before, other) {
                            let k = choose|k: int|
                                0 <= k < work@.len() && (#[trigger] work@[k]).producer
                                    == FormulaProducerId::Span(other) && work@[k].dirty is Whole;
                            if k < before.len() {
                                assert(before[k] == work@[k]);
                            }
                        }
                        if other == id {
                            assert(work@[before.len() as int].producer == FormulaProducerId::Span(id));
                        }
                    }
                }
            } else {
                assert(already_whole@ =~= prior);
            }
        }
        f = f + 1;
    }
}

/// Why the mixed schedule fell back.
#[derive(Clone, Copy, Debug, PartialEq, Eq, Structural)]
pub enum MixedScheduleFallbackReason {
    CycleDetected,
    CapacityExceeded,
    UnsupportedProjection,
    MissingResultRegion,
}

/// A producer that the mixed schedule could not order.
#[derive(Clone, Copy, Debug, PartialEq, Eq, Structural)]
pub struct MixedScheduleFallback {
    pub producer: FormulaProducerId,
    pub reason: MixedScheduleFallbackReason,
}

/// The active span with the identifier, if there is one; of several the last one counts.
pub open spec fn ref_by_id(refs: Seq<SpanRef>, id: u64) -> Option<SpanRef>
    decreases refs.len(),
{
    if refs.len() == 0 {
        None
    } else if refs.last().id == id {
        Some(refs.last())
    } else {
        ref_by_id(refs.drop_last(), id)
    }
}

fn find_ref(refs: &Vec<SpanRef>, id: u64) -> (r: Option<SpanRef>)
    ensures
        r == ref_by_id(refs@, id),
{
    let mut n: usize = refs.len();
    assert(refs@.take(n as int) =~= refs@);
    while n > 0
        invariant
            n <= refs@.len(),
            ref_by_id(refs@, id) == ref_by_id(refs@.take(n as int), id),
        decreases n,
    {
        assert(refs@.take(n as int).last() == refs@[n - 1]);
        assert(refs@.take(n as int).drop_last() =~= refs@.take(n - 1));
        if refs[n - 1].id == id {
            return Some(refs[n - 1]);
        }
        n = n - 1;
    }
    None
}

fn refs_hold(refs: &Vec<SpanRef>, span_ref: SpanRef) -> (b: bool)
    ensures
        b == refs@.contains(span_ref),
{
    let mut i: usize = 0;
    while i < refs.len()
        invariant
            i <= refs@.len(),
            forall|k: int| 0 <= k < i ==> #[trigger] refs@[k] != span_ref,
        decreases refs@.len() - i,
    {
        if refs[i] == span_ref {
            assert(refs@[i as int] == span_ref);
            return true;
        }
        i = i + 1;
    }
    false
}

/// The active spans among the first `n` fallbacks that take part in a cycle, each once, in the
/// order of the fallbacks.
pub open spec fn cyclic_refs(
    fallbacks: Seq<MixedScheduleFallback>,
    refs: Seq<SpanRef>,
    n: nat,
) -> Seq<SpanRef>
    decreases n,
{
    if n == 0 {
        Seq::empty()
    } else {
        let before = cyclic_refs(fallbacks, refs, (n - 1) as nat);
        let f = fallbacks[n - 1];
        match f.producer {
            FormulaProducerId::Span(id) if f.reason == MixedScheduleFallbackReason::CycleDetected
            => match ref_by_id(refs, id) {
                Some(r) if !before.contains(r) => before.push(r),
                _ => before,
            },
            _ => before,
        }
    }
}

/// The active spans that take part in a cycle.
pub fn collect_cyclic_span_refs(fallbacks: &Vec<MixedScheduleFallback>, refs: &Vec<SpanRef>) -> (r:
    Vec<SpanRef>)
    ensures
        r@ == cyclic_refs(fallbacks@, refs@, fallbacks@.len()),
{
    let mut out: Vec<SpanRef> = Vec::new();
    let mut i: usize = 0;
    while i < fallbacks.len()
        invariant
            i <= fallbacks@.len(),
            out@ == cyclic_refs(fallbacks@, refs@, i as nat),
        decreases fallbacks@.len() - i,
    {
        let f = fallbacks[i];
        if f.reason == MixedScheduleFallbackReason::CycleDetected {
            if let FormulaProducerId::Span(id) = f.producer {
                if let Some(span_ref) = find_ref(refs, id) {
                    let known = refs_hold(&out, span_ref);
                    if !known {
                        out.push(span_ref);
                    }
                }
            }
        }
        i = i + 1;
    }
    out
}

/// A span can be scheduled exactly where it and what is known of its reads are up to date, and these are
/// of the region that it fills.
pub proof fn spans_are_scheduled_where_their_reads_are_known(s: ScheduledSpan)
    ensures
        span_failure(s) is None <==> (s.result_region matches Some(r) && s.reads matches SpanReads::Summary {
            result_region,
            ..
        } && result_region == r),
        span_failure(s) matches Some(e) ==> e.kind == ErrorKind::NImpl,
{
}

/// Every dependency of a span is a read of it, in their order.
pub proof fn every_dependency_of_a_span_is_read(s: ScheduledSpan, i: int)
    requires
        s.reads is Summary,
        0 <= i < s.reads->dependencies@.len(),
    ensures
        span_reads(s).len() == s.reads->dependencies@.len(),
        ({
            let r = span_reads(s)[i];
            &&& r.consumer == FormulaProducerId::Span(s.span_ref.id)
            &&& r.read_region == s.reads->dependencies@[i].read_region
            &&& r.projection == s.reads->dependencies@[i].projection
            &&& r.result_region == s.reads->result_region
        }),
{
}

/// Every formula in a cell is known by its cell, dirty or not; those to be evaluated are the dirty ones.
pub proof fn formulas_in_cells_are_known_and_the_dirty_ones_scheduled(
    legacy: Seq<LegacyFormula>,
    n: nat,
    i: int,
)
    requires
        n <= legacy.len(),
        0 <= i < n,
        legacy[i].cell is Some,
    ensures
        exists|k: int|
            0 <= k < legacy_results(legacy, n).len() && ({
                let r = #[trigger] legacy_results(legacy, n)[k];
                &&& r.producer == FormulaProducerId::Legacy(legacy[i].vertex)
                &&& forall|c: CellRef| #[trigger] r.region.has_cell(c) <==> c == legacy[i].cell->Some_0
            }),
        legacy[i].dirty ==> legacy_scheduled(legacy, n).contains(legacy[i].vertex),
    decreases n,
{
    let m = (n - 1) as nat;
    let (results, list) = (legacy_results(legacy, m), legacy_scheduled(legacy, m));
    if i == m {
        let all = legacy_results(legacy, n);
        let r = all[results.len() as int];
        assert forall|c: CellRef| #[trigger] r.region.has_cell(c) <==> c == legacy[i].cell->Some_0 by {}
        if legacy[i].dirty {
            assert(legacy_scheduled(legacy, n)[list.len() as int] == legacy[i].vertex);
        }
    } else {
        formulas_in_cells_are_known_and_the_dirty_ones_scheduled(legacy, m, i);
        let k = choose|k: int|
            0 <= k < results.len() && ({
                let r = #[trigger] results[k];
                &&& r.producer == FormulaProducerId::Legacy(legacy[i].vertex)
                &&& forall|c: CellRef| #[trigger] r.region.has_cell(c) <==> c == legacy[i].cell->Some_0
            });
        assert(legacy_results(legacy, n)[k] == results[k]);
        if legacy[i].dirty {
            let j = choose|j: int| 0 <= j < list.len() && list[j] == legacy[i].vertex;
            assert(legacy_scheduled(legacy, n)[j] == legacy[i].vertex);
        }
    }
}

/// Only dirty formulas in cells are scheduled.
pub proof fn only_dirty_formulas_are_scheduled(legacy: Seq<LegacyFormula>, n: nat, v: u32)
    requires
        n <= legacy.len(),
        legacy_scheduled(legacy, n).contains(v),
    ensures
        exists|i: int|
            0 <= i < n && (#[trigger] legacy[i]).vertex == v && legacy[i].dirty && legacy[i].cell is Some,
    decreases n,
{
    if n > 0 {
        let m = (n - 1) as nat;
        let list = legacy_scheduled(legacy, m);
        let all = legacy_scheduled(legacy, n);
        let k = choose|k: int| 0 <= k < all.len() && all[k] == v;
        if k < list.len() {
            assert(list[k] == v);
            only_dirty_formulas_are_scheduled(legacy, m, v);
        }
    }
}

/// A formula reads every cell that it depends on and every range that has a region.
pub proof fn formulas_read_their_cells_and_ranges(f: LegacyFormula, default_sheet: SheetId, i: int)
    ensures
        0 <= i < f.dependencies@.len() && f.dependencies@[i] is Some ==> legacy_regions(
            f,
            default_sheet,
        ).contains(cell_region(f.dependencies@[i]->Some_0)),
        0 <= i < f.ranges@.len() && range_region(f.ranges@[i], default_sheet) is Some ==> legacy_regions(
            f,
            default_sheet,
        ).contains(range_region(f.ranges@[i], default_sheet)->Some_0),
        f.cell is Some ==> legacy_reads(f, default_sheet).len() == legacy_regions(f, default_sheet).len(),
        f.cell is None ==> legacy_reads(f, default_sheet).len() == 0,
{
    let cells = dependency_regions(f.dependencies@, f.dependencies@.len());
    if 0 <= i < f.dependencies@.len() && f.dependencies@[i] is Some {
        lemma_cells_are_read(f.dependencies@, f.dependencies@.len(), i);
        lemma_ranges_keep(
            cells,
            f.ranges@,
            default_sheet,
            f.ranges@.len(),
            cell_region(f.dependencies@[i]->Some_0),
        );
    }
    if 0 <= i < f.ranges@.len() && range_region(f.ranges@[i], default_sheet) is Some {
        lemma_ranges_are_read(cells, f.ranges@, default_sheet, f.ranges@.len(), i);
    }
}

proof fn lemma_push_new(regions: Seq<Region>, region: Region, kept: Region)
    ensures
        push_new(regions, region).contains(region),
        regions.contains(kept) ==> push_new(regions, region).contains(kept),
{
    assert(regions.push(region)[regions.len() as int] == region);
    if regions.contains(kept) {
        let i = choose|i: int| 0 <= i < regions.len() && regions[i] == kept;
        assert(regions.push(region)[i] == kept);
    }
}

proof fn lemma_cells_are_read(dependencies: Seq<Option<CellRef>>, n: nat, i: int)
    requires
        n <= dependencies.len(),
        0 <= i < n,
        dependencies[i] is Some,
    ensures
        dependency_regions(dependencies, n).contains(cell_region(dependencies[i]->Some_0)),
    decreases n,
{
    let before = dependency_regions(dependencies, (n - 1) as nat);
    if i < n - 1 {
        lemma_cells_are_read(dependencies, (n - 1) as nat, i);
    }
    if let Some(cell) = dependencies[n - 1] {
        lemma_push_new(before, cell_region(cell), cell_region(dependencies[i]->Some_0));
    }
}

proof fn lemma_ranges_keep(
    regions: Seq<Region>,
    ranges: Seq<SharedRangeRef>,
    default_sheet: SheetId,
    n: nat,
    kept: Region,
)
    requires
        n <= ranges.len(),
        regions.contains(kept),
    ensures
        with_range_regions(regions, ranges, default_sheet, n).contains(kept),
    decreases n,
{
    if n > 0 {
        lemma_ranges_keep(regions, ranges, default_sheet, (n - 1) as nat, kept);
        if let Some(r) = range_region(ranges[n - 1], default_sheet) {
            lemma_push_new(
                with_range_regions(regions, ranges, default_sheet, (n - 1) as nat),
                r,
                kept,
            );
        }
    }
}

proof fn lemma_ranges_are_read(
    regions: Seq<Region>,
    ranges: Seq<SharedRangeRef>,
    default_sheet: SheetId,
    n: nat,
    i: int,
)
    requires
        n <= ranges.len(),
        0 <= i < n,
        range_region(ranges[i], default_sheet) is Some,
    ensures
        with_range_regions(regions, ranges, default_sheet, n).contains(
            range_region(ranges[i], default_sheet)->Some_0,
        ),
    decreases n,
{
    let before = with_range_regions(regions, ranges, default_sheet, (n - 1) as nat);
    if i < n - 1 {
        lemma_ranges_are_read(regions, ranges, default_sheet, (n - 1) as nat, i);
    }
    if let Some(r) = range_region(ranges[n - 1], default_sheet) {
        lemma_push_new(before, r, range_region(ranges[i], default_sheet)->Some_0);
    }
}

/// A span that has to be evaluated as a whole is so: there is work for all of it.
pub proof fn fallbacks_are_evaluated_as_a_whole(
    work: Seq<FormulaProducerWork>,
    fallbacks: Seq<FormulaProducerId>,
    n: nat,
    i: int,
)
    requires
        n <= fallbacks.len(),
        0 <= i < n,
        fallbacks[i] is Span,
    ensures
        exists|k: int|
            0 <= k < with_fallbacks(work, fallbacks, n).len() && (#[trigger] with_fallbacks(
                work,
                fallbacks,
                n,
            )[k]).producer == fallbacks[i] && with_fallbacks(work, fallbacks, n)[k].dirty is Whole,
    decreases n,
{
    let before = with_fallbacks(work, fallbacks, (n - 1) as nat);
    let all = with_fallbacks(work, fallbacks, n);
    if i < n - 1 {
        fallbacks_are_evaluated_as_a_whole(work, fallbacks, (n - 1) as nat, i);
        let k = choose|k: int|
            0 <= k < before.len() && (#[trigger] before[k]).producer == fallbacks[i] && before[k].dirty
                is Whole;
        assert(all[k] == before[k]);
    } else if let FormulaProducerId::Span(id) = fallbacks[i] {
        if whole_work_for(before, id) {
            let k = choose|k: int|
                0 <= k < before.len() && (#[trigger] before[k]).producer == FormulaProducerId::Span(id)
                    && before[k].dirty is Whole;
            assert(all[k] == before[k]);
        } else {
            assert(all[before.len() as int].producer == fallbacks[i]);
        }
    }
}

/// A span that fell back because of a cycle is among those on one.
pub proof fn cyclic_spans_are_those_that_fell_back_for_a_cycle(
    fallbacks: Seq<MixedScheduleFallback>,
    refs: Seq<SpanRef>,
    n: nat,
    i: int,
)
    requires
        n <= fallbacks.len(),
        0 <= i < n,
        fallbacks[i].reason == MixedScheduleFallbackReason::CycleDetected,
        fallbacks[i].producer matches FormulaProducerId::Span(id) && ref_by_id(refs, id) is Some,
    ensures
        cyclic_refs(fallbacks, refs, n).contains(
            ref_by_id(refs, fallbacks[i].producer->Span_0)->Some_0,
        ),
    decreases n,
{
    let before = cyclic_refs(fallbacks, refs, (n - 1) as nat);
    let all = cyclic_refs(fallbacks, refs, n);
    let r = ref_by_id(refs, fallbacks[i].producer->Span_0)->Some_0;
    if i < n - 1 {
        cyclic_spans_are_those_that_fell_back_for_a_cycle(fallbacks, refs, (n - 1) as nat, i);
        let k = choose|k: int| 0 <= k < before.len() && before[k] == r;
        assert(all[k] == before[k]);
    } else if !before.contains(r) {
        assert(all[before.len() as int] == r);
    }
}

/// Every span is scheduled as a whole, fills its region, and reads all of its dependencies.
pub proof fn every_span_is_scheduled_as_a_whole(spans: Seq<ScheduledSpan>, n: nat, i: int, k: int)
    requires
        n <= spans.len(),
        0 <= i < n,
        spans[i].result_region is Some,
        spans[i].reads is Summary,
    ensures
        spans_results(spans).len() == spans.len(),
        spans_results(spans)[i].producer == FormulaProducerId::Span(spans[i].span_ref.id),
        spans_results(spans)[i].region == spans[i].result_region->Some_0,
        spans_work(spans).len() == spans.len(),
        spans_work(spans)[i].producer == FormulaProducerId::Span(spans[i].span_ref.id),
        spans_work(spans)[i].dirty is Whole,
        0 <= k < spans[i].reads->dependencies@.len() ==> spans_reads(spans, n).contains(
            ConsumerRead {
                consumer: FormulaProducerId::Span(spans[i].span_ref.id),
                read_region: spans[i].reads->dependencies@[k].read_region,
                result_region: spans[i].reads->result_region,
                projection: spans[i].reads->dependencies@[k].projection,
            },
        ),
    decreases n,
{
    let before = spans_reads(spans, (n - 1) as nat);
    let more = span_reads(spans[n - 1]);
    if 0 <= k < spans[i].reads->dependencies@.len() {
        let r = ConsumerRead {
            consumer: FormulaProducerId::Span(spans[i].span_ref.id),
            read_region: spans[i].reads->dependencies@[k].read_region,
            result_region: spans[i].reads->result_region,
            projection: spans[i].reads->dependencies@[k].projection,
        };
        if i < n - 1 {
            every_span_is_scheduled_as_a_whole(spans, (n - 1) as nat, i, k);
            let j = choose|j: int| 0 <= j < before.len() && before[j] == r;
            assert((before + more)[j] == r);
        } else {
            assert(more[k] == r);
            assert((before + more)[before.len() + k] == r);
        }
    }
}

/// Every read of every formula in a cell is among the reads.
pub proof fn every_read_of_a_formula_is_known(
    legacy: Seq<LegacyFormula>,
    default_sheet: SheetId,
    n: nat,
    i: int,
    k: int,
)
    requires
        n <= legacy.len(),
        0 <= i < n,
        0 <= k < legacy_reads(legacy[i], default_sheet).len(),
    ensures
        all_legacy_reads(legacy, default_sheet, n).contains(legacy_reads(legacy[i], default_sheet)[k]),
    decreases n,
{
    let before = all_legacy_reads(legacy, default_sheet, (n - 1) as nat);
    let more = legacy_reads(legacy[n - 1], default_sheet);
    let r = legacy_reads(legacy[i], default_sheet)[k];
    if i < n - 1 {
        every_read_of_a_formula_is_known(legacy, default_sheet, (n - 1) as nat, i, k);
        let j = choose|j: int| 0 <= j < before.len() && before[j] == r;
        assert((before + more)[j] == r);
    } else {
        assert((before + more)[before.len() + k] == r);
    }
}

} // verus!
