//! Planning a structural edit over the active formula spans: one decision per span, and the plain
//! formulas that demoted spans leave behind.
use crate::ast::{AstNode, AstView, substitute_literal_slots_for_template_placement, with_slots};
use crate::coord::{CellRef, SheetId, cell_key, spec_cell_key};
use crate::fx::set_contains;
use crate::region::{PlacementDomain, Region, domain_region, regions_meet};
use crate::store::{at_1_based, cell_at};
use crate::structural::{
    StructuralOp, checked_shift_u32, compact_domain_through_delete, compact_region_through_delete,
    compacted_domain, compacted_region, op_shift, shifted, shifted_domain, shifted_region,
};
use crate::value::{ErrorKind, ErrorView, ExcelError, LiteralValue, error_with, row_view};
use rustc_hash::FxHashSet;
use vstd::prelude::*;

verus! {

/// A formula span, with the generation that tells a reused identifier apart.
#[derive(Clone, Copy, Debug, PartialEq, Eq, Structural)]
pub struct SpanRef {
    pub id: u64,
    pub generation: u64,
}

/// How a region lies to a structural edit.
#[derive(Clone, Copy, Debug, PartialEq, Eq, Structural)]
pub enum AxisShiftCase {
    OtherSheet,
    EntirelyBelow,
    EntirelyAboveShift,
    Straddles,
    DeleteFullyContains,
}

/// How a change of a read region reaches the results: all of them, or by a numbered rule.
#[derive(Clone, Copy, Debug, PartialEq, Eq, Structural)]
pub enum Projection {
    WholeResult,
    Rule(u32),
}

/// A region that a span reads, and the rule by which changes there reach its results.
#[derive(Clone, Copy, Debug, PartialEq, Eq, Structural)]
pub struct ReadDependency {
    pub read_region: Region,
    pub projection: Projection,
}

/// A read of a span together with how the region lies to the edit at hand.
#[derive(Clone, Copy, Debug, PartialEq, Eq, Structural)]
pub struct ReadFacts {
    pub dependency: ReadDependency,
    pub case: AxisShiftCase,
}

/// What a span reads and where its results lie.
#[derive(Debug)]
pub struct ReadSummary {
    pub result_region: Region,
    pub dependencies: Vec<ReadDependency>,
}

/// The model of a [`ReadSummary`].
#[verifier::ext_equal]
pub struct ReadSummaryView {
    pub result_region: Region,
    pub dependencies: Seq<ReadDependency>,
}

impl View for ReadSummary {
    type V = ReadSummaryView;

    open spec fn view(&self) -> ReadSummaryView {
        ReadSummaryView { result_region: self.result_region, dependencies: self.dependencies@ }
    }
}

/// What the classification of a span under the edit asks for.
#[derive(Clone, Copy, Debug, PartialEq, Eq, Structural)]
pub enum SpanShift {
    NoOp,
    Remove,
    DemotePartialDelete,
    DemoteOther,
    Shift { row_delta: i64, col_delta: i64, origin_row_delta: i64, origin_col_delta: i64 },
}

/// What planning reads of a binding set.
#[derive(Clone, Copy, Debug, PartialEq, Eq, Structural)]
pub struct BindingSetFacts {
    pub single_literal: bool,
    pub has_value_refs: bool,
}

/// The binding set of a span: its identifier, and its contents where the set still exists.
#[derive(Clone, Copy, Debug, PartialEq, Eq, Structural)]
pub struct BindingFacts {
    pub id: u64,
    pub set: Option<BindingSetFacts>,
}

/// What planning reads of an active span.
#[derive(Debug)]
pub struct SpanFacts {
    pub span_ref: SpanRef,
    pub template_id: u64,
    /// The one-based row and column of the template, where the template still exists.
    pub template_origin: Option<(u32, u32)>,
    pub domain: PlacementDomain,
    pub result_domain: PlacementDomain,
    pub reads: Option<Vec<ReadFacts>>,
    pub binding: Option<BindingFacts>,
    pub shift: SpanShift,
}

/// A span that stays a span with new geometry.
#[derive(Debug)]
pub struct ShiftPlan {
    pub span_ref: SpanRef,
    pub template_id: u64,
    pub new_origin_row: u32,
    pub new_origin_col: u32,
    pub new_domain: PlacementDomain,
    pub new_read_summary: Option<ReadSummary>,
    pub binding_set_id: Option<u64>,
    pub force_binding_residual_axes: bool,
}

/// The model of a [`ShiftPlan`].
#[verifier::ext_equal]
pub struct ShiftPlanView {
    pub span_ref: SpanRef,
    pub template_id: u64,
    pub new_origin_row: u32,
    pub new_origin_col: u32,
    pub new_domain: PlacementDomain,
    pub new_read_summary: Option<ReadSummaryView>,
    pub binding_set_id: Option<u64>,
    pub force_binding_residual_axes: bool,
}

pub open spec fn summary_view(s: Option<ReadSummary>) -> Option<ReadSummaryView> {
    match s {
        Some(s) => Some(s@),
        None => None,
    }
}

impl View for ShiftPlan {
    type V = ShiftPlanView;

    open spec fn view(&self) -> ShiftPlanView {
        ShiftPlanView {
            span_ref: self.span_ref,
            template_id: self.template_id,
            new_origin_row: self.new_origin_row,
            new_origin_col: self.new_origin_col,
            new_domain: self.new_domain,
            new_read_summary: summary_view(self.new_read_summary),
            binding_set_id: self.binding_set_id,
            force_binding_residual_axes: self.force_binding_residual_axes,
        }
    }
}

/// What happens to one span.
pub enum SpanDecision {
    Keep,
    Remove,
    Demote,
    Shift(ShiftPlanView),
    Fail(ErrorView),
}

/// A read of a span that moves as a whole: a region that the edit does not move stays, one that it
/// moves follows, and any other has no image.
pub open spec fn shifted_read(f: ReadFacts, row_delta: i64, col_delta: i64) -> Option<
    ReadDependency,
> {
    match f.case {
        AxisShiftCase::OtherSheet | AxisShiftCase::EntirelyBelow => Some(f.dependency),
        AxisShiftCase::EntirelyAboveShift => match shifted_region(
            f.dependency.read_region,
            row_delta,
            col_delta,
        ) {
            Some(r) => Some(
                ReadDependency { read_region: r, projection: f.dependency.projection },
            ),
            None => None,
        },
        AxisShiftCase::Straddles | AxisShiftCase::DeleteFullyContains => None,
    }
}

/// A read of a span that a deletion shrinks: as for a moved span, except that a region which the
/// deletion cuts is compacted.
pub open spec fn compacted_read(f: ReadFacts, op: StructuralOp) -> Option<ReadDependency> {
    match f.case {
        AxisShiftCase::Straddles => match compacted_region(f.dependency.read_region, op) {
            Some(r) => Some(
                ReadDependency { read_region: r, projection: f.dependency.projection },
            ),
            None => None,
        },
        _ => shifted_read(f, op_shift(op).0, op_shift(op).1),
    }
}

/// The images of all reads, where each has one.
pub open spec fn all_images(images: Seq<Option<ReadDependency>>) -> Option<Seq<ReadDependency>> {
    if forall|i: int| 0 <= i < images.len() ==> #[trigger] images[i] is Some {
        Some(Seq::new(images.len(), |i: int| images[i]->Some_0))
    } else {
        None
    }
}

pub open spec fn shifted_reads(reads: Seq<ReadFacts>, row_delta: i64, col_delta: i64) -> Option<
    Seq<ReadDependency>,
> {
    all_images(Seq::new(reads.len(), |i: int| shifted_read(reads[i], row_delta, col_delta)))
}

pub open spec fn compacted_reads(reads: Seq<ReadFacts>, op: StructuralOp) -> Option<
    Seq<ReadDependency>,
> {
    all_images(Seq::new(reads.len(), |i: int| compacted_read(reads[i], op)))
}

/// Whether the edit meets the results or a read of the span.
pub open spec fn span_touches(f: SpanFacts, affected: Region) -> bool {
    ||| regions_meet(domain_region(f.result_domain), affected)
    ||| match f.reads {
        Some(reads) => exists|i: int|
            0 <= i < reads@.len() && regions_meet(
                (#[trigger] reads@[i]).dependency.read_region,
                affected,
            ),
        None => false,
    }
}

/// Whether the span's bindings survive a change of its domain.
pub open spec fn binding_safe(f: SpanFacts) -> bool {
    match f.binding {
        Some(BindingFacts { set: Some(set), .. }) => set.single_literal,
        _ => true,
    }
}

/// Whether the span memoizes by values that it reads.
pub open spec fn binding_has_value_refs(f: SpanFacts) -> bool {
    match f.binding {
        Some(BindingFacts { set: Some(set), .. }) => set.has_value_refs,
        _ => false,
    }
}

pub open spec fn binding_id(f: SpanFacts) -> Option<u64> {
    match f.binding {
        Some(b) => Some(b.id),
        None => None,
    }
}

/// What a deletion that takes a part of the span's cells does to it: the span shrinks if its
/// bindings, its domain and all its reads have a compacted form, and is demoted otherwise.
pub open spec fn partial_delete_decision(f: SpanFacts, op: StructuralOp) -> SpanDecision {
    match compacted_domain(f.domain, op) {
        Some(domain) if binding_safe(f) => {
            let result_region = domain_region(domain);
            let origin_row = (domain.bounds().0 + 1) as u32;
            let origin_col = (domain.bounds().2 + 1) as u32;
            let reads = match f.reads {
                Some(reads) => compacted_reads(reads@, op),
                None => None,
            };
            if f.reads is Some && reads is None {
                SpanDecision::Demote
            } else {
                match f.template_origin {
                    None => SpanDecision::Fail(
                        error_with(
                            ErrorKind::Ref,
                            "FormulaPlane delete compaction found a span with a missing template"@,
                        ),
                    ),
                    Some((row, col)) => SpanDecision::Shift(
                        ShiftPlanView {
                            span_ref: f.span_ref,
                            template_id: f.template_id,
                            new_origin_row: origin_row,
                            new_origin_col: origin_col,
                            new_domain: domain,
                            new_read_summary: match reads {
                                Some(dependencies) => Some(
                                    ReadSummaryView { result_region, dependencies },
                                ),
                                None => None,
                            },
                            binding_set_id: binding_id(f),
                            force_binding_residual_axes: binding_has_value_refs(f) && (origin_row
                                != row || origin_col != col),
                        },
                    ),
                }
            }
        },
        _ => SpanDecision::Demote,
    }
}

/// What moving the span as a whole makes of it, or what stands in the way.
pub open spec fn shift_decision(
    f: SpanFacts,
    row_delta: i64,
    col_delta: i64,
    origin_row_delta: i64,
    origin_col_delta: i64,
) -> SpanDecision {
    match f.template_origin {
        None => SpanDecision::Fail(
            error_with(
                ErrorKind::Ref,
                "FormulaPlane shift found a span with a missing template"@,
            ),
        ),
        Some((row, col)) => match shifted(row, origin_row_delta) {
            None => SpanDecision::Fail(
                error_with(
                    ErrorKind::Ref,
                    "FormulaPlane shift overflowed template origin row"@,
                ),
            ),
            Some(new_origin_row) => match shifted(col, origin_col_delta) {
                None => SpanDecision::Fail(
                    error_with(
                        ErrorKind::Ref,
                        "FormulaPlane shift overflowed template origin column"@,
                    ),
                ),
                Some(new_origin_col) => match shifted_domain(f.domain, row_delta, col_delta) {
                    None => SpanDecision::Fail(
                        error_with(ErrorKind::Ref, "FormulaPlane shift overflowed span domain"@),
                    ),
                    Some(domain) => {
                        let reads = match f.reads {
                            Some(reads) => shifted_reads(reads@, row_delta, col_delta),
                            None => None,
                        };
                        if f.reads is Some && reads is None {
                            SpanDecision::Fail(
                                error_with(
                                    ErrorKind::Ref,
                                    "FormulaPlane shift could not project read summary"@,
                                ),
                            )
                        } else {
                            SpanDecision::Shift(
                                ShiftPlanView {
                                    span_ref: f.span_ref,
                                    template_id: f.template_id,
                                    new_origin_row,
                                    new_origin_col,
                                    new_domain: domain,
                                    new_read_summary: match reads {
                                        Some(dependencies) => Some(
                                            ReadSummaryView {
                                                result_region: domain_region(domain),
                                                dependencies,
                                            },
                                        ),
                                        None => None,
                                    },
                                    binding_set_id: binding_id(f),
                                    force_binding_residual_axes: binding_has_value_refs(f) && (
                                    origin_row_delta != 0 || origin_col_delta != 0),
                                },
                            )
                        }
                    },
                },
            },
        },
    }
}

/// What happens to a span. Without a structural edit, which is a plain write into the affected
/// region, a span is demoted exactly if its results or a read meet the region.
pub open spec fn span_decision(f: SpanFacts, op: Option<StructuralOp>, affected: Region) -> SpanDecision {
    match op {
        None => if span_touches(f, affected) {
            SpanDecision::Demote
        } else {
            SpanDecision::Keep
        },
        Some(op) => match f.shift {
            SpanShift::NoOp => SpanDecision::Keep,
            SpanShift::Remove => SpanDecision::Remove,
            SpanShift::DemotePartialDelete => partial_delete_decision(f, op),
            SpanShift::DemoteOther => SpanDecision::Demote,
            SpanShift::Shift { row_delta, col_delta, origin_row_delta, origin_col_delta } => {
                shift_decision(f, row_delta, col_delta, origin_row_delta, origin_col_delta)
            },
        },
    }
}

fn shift_read(f: &ReadFacts, row_delta: i64, col_delta: i64) -> (r: Option<ReadDependency>)
    ensures
        r == shifted_read(*f, row_delta, col_delta),
{
    match f.case {
        AxisShiftCase::OtherSheet | AxisShiftCase::EntirelyBelow => Some(f.dependency),
        AxisShiftCase::EntirelyAboveShift => {
            match f.dependency.read_region.project_through_axis_shift(row_delta, col_delta) {
                Some(r) => Some(
                    ReadDependency { read_region: r, projection: f.dependency.projection },
                ),
                None => None,
            }
        },
        AxisShiftCase::Straddles | AxisShiftCase::DeleteFullyContains => None,
    }
}

fn compact_read(f: &ReadFacts, op: StructuralOp) -> (r: Option<ReadDependency>)
    ensures
        r == compacted_read(*f, op),
{
    match f.case {
        AxisShiftCase::Straddles => match compact_region_through_delete(
            f.dependency.read_region,
            op,
        ) {
            Some(r) => Some(
                ReadDependency { read_region: r, projection: f.dependency.projection },
            ),
            None => None,
        },
        _ => {
            let (row_delta, col_delta) = op.axis_shift_delta();
            shift_read(f, row_delta, col_delta)
        },
    }
}

/// The reads of a span that moves as a whole, where each region has an image.
pub fn shifted_read_summary(
    reads: &Vec<ReadFacts>,
    new_result_region: Region,
    row_delta: i64,
    col_delta: i64,
) -> (r: Option<ReadSummary>)
    ensures
        summary_view(r) == (match shifted_reads(reads@, row_delta, col_delta) {
            Some(dependencies) => Some(
                ReadSummaryView { result_region: new_result_region, dependencies },
            ),
            None => None,
        }),
{
    let ghost images = Seq::new(
        reads@.len(),
        |i: int| shifted_read(reads@[i], row_delta, col_delta),
    );
    let mut dependencies: Vec<ReadDependency> = Vec::new();
    let mut i: usize = 0;
    while i < reads.len()
        invariant
            i <= reads@.len(),
            images == Seq::new(
                reads@.len(),
                |i: int| shifted_read(reads@[i], row_delta, col_delta),
            ),
            dependencies@.len() == i,
            forall|k: int| 0 <= k < i ==> #[trigger] images[k] == Some(dependencies@[k]),
        decreases reads@.len() - i,
    {
        assert(images[i as int] == shifted_read(reads@[i as int], row_delta, col_delta));
        match shift_read(&reads[i], row_delta, col_delta) {
            Some(d) => {
                dependencies.push(d);
            },
            None => {
                return None;
            },
        }
        i = i + 1;
    }
    assert(dependencies@ =~= all_images(images)->Some_0);
    Some(ReadSummary { result_region: new_result_region, dependencies })
}

/// The reads of a span that a deletion shrinks, where each region has an image.
pub fn compact_read_summary_through_delete(
    reads: &Vec<ReadFacts>,
    new_result_region: Region,
    op: StructuralOp,
) -> (r: Option<ReadSummary>)
    ensures
        summary_view(r) == (match compacted_reads(reads@, op) {
            Some(dependencies) => Some(
                ReadSummaryView { result_region: new_result_region, dependencies },
            ),
            None => None,
        }),
{
    let ghost images = Seq::new(reads@.len(), |i: int| compacted_read(reads@[i], op));
    let mut dependencies: Vec<ReadDependency> = Vec::new();
    let mut i: usize = 0;
    while i < reads.len()
        invariant
            i <= reads@.len(),
            images == Seq::new(reads@.len(), |i: int| compacted_read(reads@[i], op)),
            dependencies@.len() == i,
            forall|k: int| 0 <= k < i ==> #[trigger] images[k] == Some(dependencies@[k]),
        decreases reads@.len() - i,
    {
        assert(images[i as int] == compacted_read(reads@[i as int], op));
        match compact_read(&reads[i], op) {
            Some(d) => {
                dependencies.push(d);
            },
            None => {
                return None;
            },
        }
        i = i + 1;
    }
    assert(dependencies@ =~= all_images(images)->Some_0);
    Some(ReadSummary { result_region: new_result_region, dependencies })
}

/// Whether a read of the span meets the region.
pub fn span_any_read_region_intersects_affected(reads: &Vec<ReadFacts>, affected: &Region) -> (b:
    bool)
    ensures
        b == exists|i: int|
            0 <= i < reads@.len() && regions_meet(
                (#[trigger] reads@[i]).dependency.read_region,
                *affected,
            ),
{
    let mut i: usize = 0;
    while i < reads.len()
        invariant
            i <= reads@.len(),
            forall|k: int|
                0 <= k < i ==> !regions_meet(
                    (#[trigger] reads@[k]).dependency.read_region,
                    *affected,
                ),
        decreases reads@.len() - i,
    {
        if reads[i].dependency.read_region.intersects(affected) {
            return true;
        }
        i = i + 1;
    }
    false
}

/// The outcome for one span, where nothing stands in the way.
pub enum SpanStep {
    Keep,
    Remove,
    Demote,
    Shift(ShiftPlan),
}

/// Whether the outcome is the one that the decision names.
pub open spec fn step_is(step: Result<SpanStep, ExcelError>, decision: SpanDecision) -> bool {
    match (step, decision) {
        (Ok(SpanStep::Keep), SpanDecision::Keep) => true,
        (Ok(SpanStep::Remove), SpanDecision::Remove) => true,
        (Ok(SpanStep::Demote), SpanDecision::Demote) => true,
        (Ok(SpanStep::Shift(p)), SpanDecision::Shift(v)) => p@ == v,
        (Err(e), SpanDecision::Fail(v)) => e@ == v,
        _ => false,
    }
}

fn shrink_span(f: &SpanFacts, op: StructuralOp) -> (r: Result<SpanStep, ExcelError>)
    requires
        f.domain.valid(),
    ensures
        step_is(r, partial_delete_decision(*f, op)),
{
    let (safe, value_refs) = match f.binding {
        Some(BindingFacts { set: Some(set), .. }) => (set.single_literal, set.has_value_refs),
        _ => (true, false),
    };
    let binding_set_id = match f.binding {
        Some(b) => Some(b.id),
        None => None,
    };
    if !safe {
        return Ok(SpanStep::Demote);
    }
    let domain = match compact_domain_through_delete(&f.domain, op) {
        Some(domain) => domain,
        None => {
            return Ok(SpanStep::Demote);
        },
    };
    let result_region = Region::from_domain(&domain);
    let (had_reads, summary) = match &f.reads {
        Some(reads) => (true, compact_read_summary_through_delete(reads, result_region, op)),
        None => (false, None),
    };
    if had_reads && summary.is_none() {
        return Ok(SpanStep::Demote);
    }
    let (new_origin_row, new_origin_col) = domain.origin_1_based();
    match f.template_origin {
        None => Err(
            ExcelError::new(ErrorKind::Ref).with_message(
                "FormulaPlane delete compaction found a span with a missing template",
            ),
        ),
        Some((row, col)) => {
            let plan = ShiftPlan {
                span_ref: f.span_ref,
                template_id: f.template_id,
                new_origin_row,
                new_origin_col,
                new_domain: domain,
                new_read_summary: summary,
                binding_set_id,
                force_binding_residual_axes: value_refs && (new_origin_row != row || new_origin_col
                    != col),
            };
            Ok(SpanStep::Shift(plan))
        },
    }
}

fn move_span(
    f: &SpanFacts,
    row_delta: i64,
    col_delta: i64,
    origin_row_delta: i64,
    origin_col_delta: i64,
) -> (r: Result<SpanStep, ExcelError>)
    ensures
        step_is(
            r,
            shift_decision(*f, row_delta, col_delta, origin_row_delta, origin_col_delta),
        ),
{
    let value_refs = match f.binding {
        Some(BindingFacts { set: Some(set), .. }) => set.has_value_refs,
        _ => false,
    };
    let binding_set_id = match f.binding {
        Some(b) => Some(b.id),
        None => None,
    };
    let (row, col) = match f.template_origin {
        Some(origin) => origin,
        None => {
            return Err(
                ExcelError::new(ErrorKind::Ref).with_message(
                    "FormulaPlane shift found a span with a missing template",
                ),
            );
        },
    };
    let new_origin_row = match checked_shift_u32(row, origin_row_delta) {
        Some(r) => r,
        None => {
            return Err(
                ExcelError::new(ErrorKind::Ref).with_message(
                    "FormulaPlane shift overflowed template origin row",
                ),
            );
        },
    };
    let new_origin_col = match checked_shift_u32(col, origin_col_delta) {
        Some(c) => c,
        None => {
            return Err(
                ExcelError::new(ErrorKind::Ref).with_message(
                    "FormulaPlane shift overflowed template origin column",
                ),
            );
        },
    };
    let domain = match f.domain.project_through_axis_shift(row_delta, col_delta) {
        Some(d) => d,
        None => {
            return Err(
                ExcelError::new(ErrorKind::Ref).with_message(
                    "FormulaPlane shift overflowed span domain",
                ),
            );
        },
    };
    let result_region = Region::from_domain(&domain);
    let (had_reads, summary) = match &f.reads {
        Some(reads) => (
            true,
            shifted_read_summary(reads, result_region, row_delta, col_delta),
        ),
        None => (false, None),
    };
    if had_reads && summary.is_none() {
        return Err(
            ExcelError::new(ErrorKind::Ref).with_message(
                "FormulaPlane shift could not project read summary",
            ),
        );
    }
    Ok(
        SpanStep::Shift(
            ShiftPlan {
                span_ref: f.span_ref,
                template_id: f.template_id,
                new_origin_row,
                new_origin_col,
                new_domain: domain,
                new_read_summary: summary,
                binding_set_id,
                force_binding_residual_axes: value_refs && (origin_row_delta != 0
                    || origin_col_delta != 0),
            },
        ),
    )
}

/// What happens to one span.
pub fn plan_span(f: &SpanFacts, op: Option<StructuralOp>, affected: Region) -> (r: Result<
    SpanStep,
    ExcelError,
>)
    requires
        f.domain.valid(),
    ensures
        step_is(r, span_decision(*f, op, affected)),
{
    match op {
        None => {
            let result_region = Region::from_domain(&f.result_domain);
            let result_affected = result_region.intersects(&affected);
            let read_affected = match &f.reads {
                Some(reads) => span_any_read_region_intersects_affected(reads, &affected),
                None => false,
            };
            if result_affected || read_affected {
                Ok(SpanStep::Demote)
            } else {
                Ok(SpanStep::Keep)
            }
        },
        Some(op) => match f.shift {
            SpanShift::NoOp => Ok(SpanStep::Keep),
            SpanShift::Remove => Ok(SpanStep::Remove),
            SpanShift::DemotePartialDelete => shrink_span(f, op),
            SpanShift::DemoteOther => Ok(SpanStep::Demote),
            SpanShift::Shift { row_delta, col_delta, origin_row_delta, origin_col_delta } => {
                move_span(f, row_delta, col_delta, origin_row_delta, origin_col_delta)
            },
        },
    }
}

/// What a structural edit does to all spans.
pub struct SpanPlans {
    pub shifts: Vec<ShiftPlan>,
    pub removes: Vec<SpanRef>,
    pub demotes: Vec<SpanRef>,
}

/// The models of a list of shift plans.
pub open spec fn shift_views(plans: Seq<ShiftPlan>) -> Seq<ShiftPlanView> {
    Seq::new(plans.len(), |i: int| plans[i]@)
}

/// The shift plans of the first `n` spans, in the order of the spans.
pub open spec fn shifts_of(
    spans: Seq<SpanFacts>,
    op: Option<StructuralOp>,
    affected: Region,
    n: nat,
) -> Seq<ShiftPlanView>
    decreases n,
{
    if n == 0 {
        Seq::empty()
    } else {
        let before = shifts_of(spans, op, affected, (n - 1) as nat);
        match span_decision(spans[n - 1], op, affected) {
            SpanDecision::Shift(p) => before.push(p),
            _ => before,
        }
    }
}

/// The removed ones among the first `n` spans, in the order of the spans.
pub open spec fn removes_of(
    spans: Seq<SpanFacts>,
    op: Option<StructuralOp>,
    affected: Region,
    n: nat,
) -> Seq<SpanRef>
    decreases n,
{
    if n == 0 {
        Seq::empty()
    } else {
        let before = removes_of(spans, op, affected, (n - 1) as nat);
        if span_decision(spans[n - 1], op, affected) is Remove {
            before.push(spans[n - 1].span_ref)
        } else {
            before
        }
    }
}

/// The demoted ones among the first `n` spans, in the order of the spans.
pub open spec fn demotes_of(
    spans: Seq<SpanFacts>,
    op: Option<StructuralOp>,
    affected: Region,
    n: nat,
) -> Seq<SpanRef>
    decreases n,
{
    if n == 0 {
        Seq::empty()
    } else {
        let before = demotes_of(spans, op, affected, (n - 1) as nat);
        if span_decision(spans[n - 1], op, affected) is Demote {
            before.push(spans[n - 1].span_ref)
        } else {
            before
        }
    }
}

/// Whether no decision over the first `n` spans fails.
pub open spec fn none_fails(
    spans: Seq<SpanFacts>,
    op: Option<StructuralOp>,
    affected: Region,
    n: int,
) -> bool {
    forall|i: int| 0 <= i < n ==> !(span_decision(#[trigger] spans[i], op, affected) is Fail)
}

/// The plan of a structural edit over the active spans: every span gets its decision, the three
/// lists keep the order of the spans, and the first decision that fails makes the plan fail.
pub fn plan_spans_for_structural_op(
    spans: &Vec<SpanFacts>,
    op: Option<StructuralOp>,
    affected: Region,
) -> (r: Result<SpanPlans, ExcelError>)
    requires
        forall|i: int| 0 <= i < spans@.len() ==> (#[trigger] spans@[i]).domain.valid(),
    ensures
        match r {
            Ok(p) => {
                &&& none_fails(spans@, op, affected, spans@.len() as int)
                &&& shift_views(p.shifts@) == shifts_of(spans@, op, affected, spans@.len())
                &&& p.removes@ == removes_of(spans@, op, affected, spans@.len())
                &&& p.demotes@ == demotes_of(spans@, op, affected, spans@.len())
            },
            Err(e) => exists|i: int|
                0 <= i < spans@.len() && none_fails(spans@, op, affected, i) && span_decision(
                    #[trigger] spans@[i],
                    op,
                    affected,
                ) == SpanDecision::Fail(e@),
        },
{
    let mut shifts: Vec<ShiftPlan> = Vec::new();
    let mut removes: Vec<SpanRef> = Vec::new();
    let mut demotes: Vec<SpanRef> = Vec::new();
    let mut i: usize = 0;
    assert(shift_views(shifts@) =~= shifts_of(spans@, op, affected, 0));
    while i < spans.len()
        invariant
            i <= spans@.len(),
            forall|i: int| 0 <= i < spans@.len() ==> (#[trigger] spans@[i]).domain.valid(),
            none_fails(spans@, op, affected, i as int),
            shift_views(shifts@) == shifts_of(spans@, op, affected, i as nat),
            removes@ == removes_of(spans@, op, affected, i as nat),
            demotes@ == demotes_of(spans@, op, affected, i as nat),
        decreases spans@.len() - i,
    {
        let f = &spans[i];
        let ghost decision = span_decision(spans@[i as int], op, affected);
        match plan_span(f, op, affected) {
            Ok(SpanStep::Keep) => {},
            Ok(SpanStep::Remove) => {
                removes.push(f.span_ref);
            },
            Ok(SpanStep::Demote) => {
                demotes.push(f.span_ref);
            },
            Ok(SpanStep::Shift(plan)) => {
                let ghost before = shifts@;
                shifts.push(plan);
                assert(shift_views(shifts@) =~= shift_views(before).push(plan@));
            },
            Err(e) => {
                assert(decision == SpanDecision::Fail(e@));
                return Err(e);
            },
        }
        i = i + 1;
    }
    Ok(SpanPlans { shifts, removes, demotes })
}

/// A span that is demoted is neither removed nor moved, and the other way round: the three lists
/// of a plan hold as many spans as are not kept.
pub proof fn plan_partitions_the_spans(
    spans: Seq<SpanFacts>,
    op: Option<StructuralOp>,
    affected: Region,
    n: nat,
)
    requires
        n <= spans.len(),
        none_fails(spans, op, affected, n as int),
    ensures
        shifts_of(spans, op, affected, n).len() + removes_of(spans, op, affected, n).len()
            + demotes_of(spans, op, affected, n).len() + kept_of(spans, op, affected, n) == n,
    decreases n,
{
    if n > 0 {
        plan_partitions_the_spans(spans, op, affected, (n - 1) as nat);
        assert(!(span_decision(spans[n - 1], op, affected) is Fail));
    }
}

/// How many of the first `n` spans are kept as they are.
pub open spec fn kept_of(
    spans: Seq<SpanFacts>,
    op: Option<StructuralOp>,
    affected: Region,
    n: nat,
) -> nat
    decreases n,
{
    if n == 0 {
        0
    } else {
        let before = kept_of(spans, op, affected, (n - 1) as nat);
        if span_decision(spans[n - 1], op, affected) is Keep {
            before + 1
        } else {
            before
        }
    }
}

/// The template of a span that is demoted.
#[derive(Debug)]
pub struct DemotedTemplate {
    pub origin_row: u32,
    pub origin_col: u32,
    pub ast: Option<AstNode>,
}

/// What demotion reads of a span. `literals` holds, for each cell of the domain row by row, the
/// literals bound there, where there are any.
#[derive(Debug)]
pub struct DemotedSpan {
    pub span_ref: SpanRef,
    pub sheet_id: SheetId,
    pub template: Option<DemotedTemplate>,
    pub domain: PlacementDomain,
    pub binding: Option<BindingFacts>,
    pub literals: Vec<Option<Vec<LiteralValue>>>,
}

/// The formula that takes a span's place in one cell: a tree, and how far its relative references
/// move from the template. Row and column are one-based.
#[derive(Debug)]
pub struct PlacedFormula {
    pub sheet_id: SheetId,
    pub row: u32,
    pub col: u32,
    pub row_delta: i64,
    pub col_delta: i64,
    pub ast: AstNode,
}

/// The model of a [`PlacedFormula`].
pub struct PlacedView {
    pub sheet_id: SheetId,
    pub row: u32,
    pub col: u32,
    pub row_delta: i64,
    pub col_delta: i64,
    pub ast: AstView,
}

impl View for PlacedFormula {
    type V = PlacedView;

    open spec fn view(&self) -> PlacedView {
        PlacedView {
            sheet_id: self.sheet_id,
            row: self.row,
            col: self.col,
            row_delta: self.row_delta,
            col_delta: self.col_delta,
            ast: self.ast@,
        }
    }
}

/// What stands in the way of demoting the span.
pub open spec fn demotion_failure(s: DemotedSpan) -> Option<ErrorView> {
    match s.template {
        None => Some(
            error_with(
                ErrorKind::Ref,
                "FormulaPlane demotion found a span with a missing template"@,
            ),
        ),
        Some(DemotedTemplate { ast: None, .. }) => Some(
            error_with(
                ErrorKind::Ref,
                "FormulaPlane demotion could not retrieve the template AST"@,
            ),
        ),
        _ => None,
    }
}

/// The formula of the span's cell number `k`: the template, with the literals bound at the cell
/// where the span binds more than one set of literals.
pub open spec fn placed_ast(s: DemotedSpan, k: int) -> AstView {
    let template = s.template->Some_0.ast->Some_0@;
    let binds = match s.binding {
        Some(BindingFacts { set: Some(set), .. }) => !set.single_literal,
        _ => false,
    };
    if binds && k < s.literals@.len() && s.literals@[k] is Some {
        with_slots(template, row_view(s.literals@[k]->Some_0@), 0)
    } else {
        template
    }
}

/// The formula that takes the span's place in its cell number `k`.
pub open spec fn placed(s: DemotedSpan, k: int) -> PlacedView {
    let cell = s.domain.cells()[k];
    PlacedView {
        sheet_id: s.sheet_id,
        row: (cell.row + 1) as u32,
        col: (cell.col + 1) as u32,
        row_delta: (cell.row + 1 - s.template->Some_0.origin_row) as i64,
        col_delta: (cell.col + 1 - s.template->Some_0.origin_col) as i64,
        ast: placed_ast(s, k),
    }
}

/// The formulas that take the span's place, cell by cell.
pub open spec fn placed_all(s: DemotedSpan) -> Seq<PlacedView> {
    Seq::new(s.domain.cells().len(), |k: int| placed(s, k))
}

/// The formulas that take the place of the first `n` spans.
pub open spec fn placed_upto(spans: Seq<DemotedSpan>, n: nat) -> Seq<PlacedView>
    decreases n,
{
    if n == 0 {
        Seq::empty()
    } else {
        placed_upto(spans, (n - 1) as nat) + placed_all(spans[n - 1])
    }
}

pub open spec fn placed_views(formulas: Seq<PlacedFormula>) -> Seq<PlacedView> {
    Seq::new(formulas.len(), |i: int| formulas[i]@)
}

fn demote_span(s: &DemotedSpan, template: &DemotedTemplate, ast: &AstNode, out: &mut Vec<PlacedFormula>)
    requires
        s.domain.valid(),
        s.template == Some(*template),
        template.ast == Some(*ast),
    ensures
        placed_views(final(out)@) == placed_views(old(out)@) + placed_all(*s),
{
    let cells = s.domain.placements();
    let binds = match s.binding {
        Some(BindingFacts { set: Some(set), .. }) => !set.single_literal,
        _ => false,
    };
    let ghost before = out@;
    let mut k: usize = 0;
    while k < cells.len()
        invariant
            k <= cells@.len(),
            cells@ == s.domain.cells(),
            s.domain.valid(),
            s.template == Some(*template),
            template.ast == Some(*ast),
            binds == (match s.binding {
                Some(BindingFacts { set: Some(set), .. }) => !set.single_literal,
                _ => false,
            }),
            out@.len() == before.len() + k,
            forall|i: int| 0 <= i < before.len() ==> #[trigger] out@[i] == before[i],
            forall|i: int| 0 <= i < k ==> (#[trigger] out@[before.len() + i])@ == placed(*s, i),
        decreases cells@.len() - k,
    {
        let cell = cells[k];
        proof {
            let (r0, r1, c0, c1) = s.domain.bounds();
            crate::coord::rect_cells_are_the_rectangle(
                CellRef { sheet_id: s.domain.spec_sheet(), row: r0, col: c0 },
                r1 - r0 + 1,
                c1 - c0 + 1,
                cell,
            );
            assert(s.domain.cells().contains(cells@[k as int]));
        }
        let row = cell.row + 1;
        let col = cell.col + 1;
        let row_delta = row as i64 - template.origin_row as i64;
        let col_delta = col as i64 - template.origin_col as i64;
        let bound = if binds && k < s.literals.len() {
            match &s.literals[k] {
                Some(binding) => substitute_literal_slots_for_template_placement(ast, binding),
                None => ast.duplicate(),
            }
        } else {
            ast.duplicate()
        };
        let formula = PlacedFormula {
            sheet_id: s.sheet_id,
            row,
            col,
            row_delta,
            col_delta,
            ast: bound,
        };
        assert(formula@ == placed(*s, k as int));
        out.push(formula);
        k = k + 1;
    }
    proof {
        let all = placed_views(before) + placed_all(*s);
        assert forall|i: int| 0 <= i < all.len() implies placed_views(out@)[i] == all[i] by {
            if i >= before.len() {
                assert(out@[before.len() + (i - before.len())]@ == placed(*s, i - before.len()));
            }
        }
        assert(placed_views(out@) =~= all);
    }
}

/// The formulas that the demoted spans leave behind, span by span and row by row, or the first
/// failure.
pub fn plan_demotions(spans: &Vec<DemotedSpan>) -> (r: Result<Vec<PlacedFormula>, ExcelError>)
    requires
        forall|i: int| 0 <= i < spans@.len() ==> (#[trigger] spans@[i]).domain.valid(),
    ensures
        match r {
            Ok(formulas) => {
                &&& forall|i: int|
                    0 <= i < spans@.len() ==> demotion_failure(#[trigger] spans@[i]) is None
                &&& placed_views(formulas@) == placed_upto(spans@, spans@.len())
            },
            Err(e) => exists|i: int|
                {
                    &&& 0 <= i < spans@.len()
                    &&& demotion_failure(#[trigger] spans@[i]) == Some(e@)
                    &&& forall|j: int|
                        0 <= j < i ==> demotion_failure(#[trigger] spans@[j]) is None
                },
        },
{
    let mut out: Vec<PlacedFormula> = Vec::new();
    let mut i: usize = 0;
    assert(placed_views(out@) =~= placed_upto(spans@, 0));
    while i < spans.len()
        invariant
            i <= spans@.len(),
            forall|i: int| 0 <= i < spans@.len() ==> (#[trigger] spans@[i]).domain.valid(),
            forall|j: int| 0 <= j < i ==> demotion_failure(#[trigger] spans@[j]) is None,
            placed_views(out@) == placed_upto(spans@, i as nat),
        decreases spans@.len() - i,
    {
        let s = &spans[i];
        match &s.template {
            None => {
                let e = ExcelError::new(ErrorKind::Ref).with_message(
                    "FormulaPlane demotion found a span with a missing template",
                );
                assert(demotion_failure(spans@[i as int]) == Some(e@));
                return Err(e);
            },
            Some(template) => match &template.ast {
                None => {
                    let e = ExcelError::new(ErrorKind::Ref).with_message(
                        "FormulaPlane demotion could not retrieve the template AST",
                    );
                    assert(demotion_failure(spans@[i as int]) == Some(e@));
                    return Err(e);
                },
                Some(ast) => {
                    demote_span(s, template, ast, &mut out);
                },
            },
        }
        i = i + 1;
    }
    Ok(out)
}

/// The cell of a formula that takes a span's place.
pub open spec fn placed_cell(f: PlacedView) -> CellRef {
    at_1_based(f.sheet_id, f.row, f.col)
}

/// The cells of the formulas that take the place of demoted spans.
pub fn placed_cells(formulas: &Vec<PlacedFormula>) -> (cells: Vec<CellRef>)
    ensures
        cells@ == Seq::new(formulas@.len(), |i: int| placed_cell(formulas@[i]@)),
{
    let mut out: Vec<CellRef> = Vec::new();
    let mut i: usize = 0;
    while i < formulas.len()
        invariant
            i <= formulas@.len(),
            out@.len() == i,
            forall|k: int| 0 <= k < i ==> #[trigger] out@[k] == placed_cell(formulas@[k]@),
        decreases formulas@.len() - i,
    {
        let f = &formulas[i];
        out.push(cell_at(f.sheet_id, f.row, f.col));
        i = i + 1;
    }
    assert(out@ =~= Seq::new(formulas@.len(), |i: int| placed_cell(formulas@[i]@)));
    out
}

/// The first `n` cells without those that are out of date.
pub open spec fn up_to_date(cells: Seq<CellRef>, dirty: Set<u128>, n: nat) -> Seq<CellRef>
    decreases n,
{
    if n == 0 {
        Seq::empty()
    } else {
        let before = up_to_date(cells, dirty, (n - 1) as nat);
        if dirty.contains(spec_cell_key(cells[n - 1])) {
            before
        } else {
            before.push(cells[n - 1])
        }
    }
}

/// The cells of demoted spans whose formulas need no evaluation: those that were up to date as part
/// of their span, where its computed values are kept; none where these are cleared. `dirty` holds
/// the keys of the cells that were out of date.
pub fn clean_after_demotion(
    cells: &Vec<CellRef>,
    clear_computed_overlays: bool,
    dirty: &FxHashSet<u128>,
) -> (r: Vec<CellRef>)
    ensures
        r@ == (if clear_computed_overlays {
            Seq::empty()
        } else {
            up_to_date(cells@, dirty@, cells@.len())
        }),
{
    let mut out: Vec<CellRef> = Vec::new();
    if clear_computed_overlays {
        return out;
    }
    let mut i: usize = 0;
    while i < cells.len()
        invariant
            i <= cells@.len(),
            out@ == up_to_date(cells@, dirty@, i as nat),
        decreases cells@.len() - i,
    {
        if !set_contains(dirty, &cell_key(cells[i])) {
            out.push(cells[i]);
        }
        i = i + 1;
    }
    out
}

/// What becomes of a span when lines are inserted or deleted: one that is out of reach is kept as it is,
/// one whose cells are deleted is removed, and one that the lines go through is taken apart, unless the
/// deletion leaves it in one piece.
pub proof fn spans_are_kept_removed_or_taken_apart(f: SpanFacts, op: StructuralOp, affected: Region)
    ensures
        f.shift is NoOp ==> span_decision(f, Some(op), affected) is Keep,
        f.shift is Remove ==> span_decision(f, Some(op), affected) is Remove,
        f.shift is DemoteOther ==> span_decision(f, Some(op), affected) is Demote,
        f.shift is DemotePartialDelete ==> !(span_decision(f, Some(op), affected) is Keep) && !(
        span_decision(f, Some(op), affected) is Remove),
        f.shift is Shift ==> span_decision(f, Some(op), affected) is Shift || span_decision(
            f,
            Some(op),
            affected,
        ) is Fail,
{
}

/// A span whose cells or whose reads have a cell in common with an edit of another kind is taken apart.
pub proof fn touched_spans_are_taken_apart(f: SpanFacts, affected: Region, cell: CellRef, i: int)
    requires
        affected.has_cell(cell),
        f.result_domain.has_cell(cell) || (f.reads matches Some(reads) && 0 <= i < reads@.len()
            && reads@[i].dependency.read_region.has_cell(cell)),
    ensures
        span_decision(f, None, affected) is Demote,
{
    crate::region::a_domain_and_its_region_hold_the_same_cells(f.result_domain, cell);
    if f.result_domain.has_cell(cell) {
        assert(domain_region(f.result_domain).has_cell(cell) && affected.has_cell(cell));
        assert(regions_meet(domain_region(f.result_domain), affected));
    } else {
        let reads = f.reads->Some_0;
        assert(reads@[i].dependency.read_region.has_cell(cell) && affected.has_cell(cell));
        assert(regions_meet(reads@[i].dependency.read_region, affected));
    }
}

/// A span that has no cell in common with such an edit, and reads none of its cells, is kept.
pub proof fn untouched_spans_are_kept(f: SpanFacts, affected: Region)
    requires
        forall|c: CellRef| #[trigger] affected.has_cell(c) ==> !f.result_domain.has_cell(c),
        f.reads matches Some(reads) ==> forall|k: int, c: CellRef|
            0 <= k < reads@.len() && #[trigger] affected.has_cell(c) ==> !(
            #[trigger] reads@[k]).dependency.read_region.has_cell(c),
    ensures
        span_decision(f, None, affected) is Keep,
{
    if regions_meet(domain_region(f.result_domain), affected) {
        let c = choose|c: CellRef|
            domain_region(f.result_domain).has_cell(c) && #[trigger] affected.has_cell(c);
        crate::region::a_domain_and_its_region_hold_the_same_cells(f.result_domain, c);
        assert(!f.result_domain.has_cell(c));
    }
    if let Some(reads) = f.reads {
        assert forall|k: int| 0 <= k < reads@.len() implies !regions_meet(
            (#[trigger] reads@[k]).dependency.read_region,
            affected,
        ) by {
            if regions_meet(reads@[k].dependency.read_region, affected) {
                let c = choose|c: CellRef|
                    reads@[k].dependency.read_region.has_cell(c) && #[trigger] affected.has_cell(c);
                assert(!reads@[k].dependency.read_region.has_cell(c));
            }
        }
    }
}

/// What a shrunk span reads: a region that the deletion goes through is closed over the deleted lines;
/// one behind them moves back by as many lines; one out of reach stays; one that is deleted is lost, and
/// with it the span. The projection stays.
pub proof fn reads_close_over_deleted_lines(f: ReadFacts, op: StructuralOp)
    ensures
        f.case is Straddles ==> match compacted_region(f.dependency.read_region, op) {
            Some(r) => compacted_read(f, op) == Some(
                ReadDependency { read_region: r, projection: f.dependency.projection },
            ),
            None => compacted_read(f, op) is None,
        },
        f.case is OtherSheet || f.case is EntirelyBelow ==> compacted_read(f, op) == Some(f.dependency),
        f.case is DeleteFullyContains ==> compacted_read(f, op) is None,
        f.case is EntirelyAboveShift ==> match shifted_region(
            f.dependency.read_region,
            op_shift(op).0,
            op_shift(op).1,
        ) {
            Some(r) => compacted_read(f, op) == Some(
                ReadDependency { read_region: r, projection: f.dependency.projection },
            ),
            None => compacted_read(f, op) is None,
        },
        f.case is Straddles ==> shifted_read(f, op_shift(op).0, op_shift(op).1) is None,
{
}

/// A shifted span keeps its number, its template and its literals; its cells move as far as it is
/// shifted, its origin as far as the origin is, and each of its reads by its own case: what lies out of
/// reach stays, what lies behind moves along.
pub proof fn a_shifted_span_moves_with_its_reads(
    f: SpanFacts,
    row_delta: i64,
    col_delta: i64,
    origin_row_delta: i64,
    origin_col_delta: i64,
    p: ShiftPlanView,
    i: int,
)
    requires
        shift_decision(f, row_delta, col_delta, origin_row_delta, origin_col_delta) == SpanDecision::Shift(p),
    ensures
        p.span_ref == f.span_ref && p.template_id == f.template_id,
        p.binding_set_id is Some <==> f.binding is Some,
        f.template_origin matches Some((row, col)) && p.new_origin_row == row + origin_row_delta
            && p.new_origin_col == col + origin_col_delta,
        shifted_domain(f.domain, row_delta, col_delta) == Some(p.new_domain),
        p.new_read_summary is Some <==> f.reads is Some,
        f.reads matches Some(reads) ==> {
            let s = p.new_read_summary->Some_0;
            &&& s.dependencies.len() == reads@.len()
            &&& s.result_region == domain_region(p.new_domain)
            &&& 0 <= i < reads@.len() ==> ({
                let (old, new) = (reads@[i].dependency, s.dependencies[i]);
                &&& new.projection == old.projection
                &&& reads@[i].case is OtherSheet || reads@[i].case is EntirelyBelow ==> new.read_region
                    == old.read_region
                &&& reads@[i].case is EntirelyAboveShift ==> shifted_region(
                    old.read_region,
                    row_delta,
                    col_delta,
                ) == Some(new.read_region)
                &&& !(reads@[i].case is Straddles) && !(reads@[i].case is DeleteFullyContains)
            })
        },
        p.force_binding_residual_axes ==> origin_row_delta != 0 || origin_col_delta != 0,
{
    if let Some(reads) = f.reads {
        let images = Seq::new(
            reads@.len(),
            |k: int| shifted_read(reads@[k], row_delta, col_delta),
        );
        if 0 <= i < reads@.len() {
            assert(images[i] is Some);
            assert(images[i] == shifted_read(reads@[i], row_delta, col_delta));
        }
    }
}

/// A shift that leaves the sheet, or whose reads cannot move along, fails as a whole.
pub proof fn shifts_that_leave_the_sheet_fail(
    f: SpanFacts,
    row_delta: i64,
    col_delta: i64,
    origin_row_delta: i64,
    origin_col_delta: i64,
)
    ensures
        ({
            let d = shift_decision(f, row_delta, col_delta, origin_row_delta, origin_col_delta);
            &&& d is Shift || (d matches SpanDecision::Fail(e) && e.kind == ErrorKind::Ref)
            &&& f.template_origin is None ==> d is Fail
            &&& shifted_domain(f.domain, row_delta, col_delta) is None ==> d is Fail
            &&& f.template_origin matches Some((row, col)) ==> (row + origin_row_delta < 0 || row
                + origin_row_delta > u32::MAX || col + origin_col_delta < 0 || col + origin_col_delta
                > u32::MAX ==> d is Fail)
        }),
{
}

/// A span that a deletion leaves in one piece shrinks with its reads, and begins at the first cell that
/// is left, counted from one; one of several literals is taken apart.
pub proof fn a_span_shrinks_with_its_reads(f: SpanFacts, op: StructuralOp, p: ShiftPlanView)
    requires
        partial_delete_decision(f, op) == SpanDecision::Shift(p),
    ensures
        p.span_ref == f.span_ref && p.template_id == f.template_id,
        compacted_domain(f.domain, op) == Some(p.new_domain),
        p.new_domain.bounds().0 < u32::MAX ==> p.new_origin_row == p.new_domain.bounds().0 + 1,
        p.new_domain.bounds().2 < u32::MAX ==> p.new_origin_col == p.new_domain.bounds().2 + 1,
        f.binding matches Some(BindingFacts { set: Some(set), .. }) ==> set.single_literal,
        p.new_read_summary is Some <==> f.reads is Some,
        f.reads matches Some(reads) ==> p.new_read_summary->Some_0.dependencies.len() == reads@.len()
            && p.new_read_summary->Some_0.result_region == domain_region(p.new_domain),
{
}

/// A span that is taken apart leaves a formula in each of its cells: the template, with the literals of
/// the cell where they differ from cell to cell, moved by the distance from the template's origin.
pub proof fn a_demoted_span_leaves_a_formula_in_each_cell(s: DemotedSpan, k: int)
    requires
        demotion_failure(s) is None,
        s.domain.valid(),
        0 <= k < s.domain.cells().len(),
    ensures
        placed_all(s).len() == s.domain.cells().len(),
        ({
            let p = placed_all(s)[k];
            let cell = s.domain.cells()[k];
            let t = s.template->Some_0;
            let binds = s.binding matches Some(BindingFacts { set: Some(set), .. }) && !set.single_literal;
            &&& p.sheet_id == s.sheet_id
            &&& cell.row < u32::MAX && cell.col < u32::MAX ==> p.row == cell.row + 1 && p.col == cell.col + 1
                && p.row_delta == p.row - t.origin_row && p.col_delta == p.col - t.origin_col
            &&& !binds ==> p.ast == t.ast->Some_0@
            &&& binds && k < s.literals@.len() && s.literals@[k] is Some ==> p.ast == with_slots(
                t.ast->Some_0@,
                row_view(s.literals@[k]->Some_0@),
                0,
            )
        }),
{
}

/// The cells of a taken apart span that were up to date are all but the dirty ones.
pub proof fn cells_that_are_not_dirty_stay_up_to_date(cells: Seq<CellRef>, dirty: Set<u128>, n: nat, c: CellRef)
    requires
        n <= cells.len(),
    ensures
        up_to_date(cells, dirty, n).contains(c) <==> cells.take(n as int).contains(c) && !dirty.contains(
            spec_cell_key(c),
        ),
    decreases n,
{
    if n > 0 {
        let m = (n - 1) as nat;
        cells_that_are_not_dirty_stay_up_to_date(cells, dirty, m, c);
        let (short, long) = (cells.take(m as int), cells.take(n as int));
        let last = cells[n - 1];
        assert(long =~= short.push(last));
        let before = up_to_date(cells, dirty, m);
        assert(before.push(last)[before.len() as int] == last);
        assert(short.push(last)[short.len() as int] == last);
        if before.contains(c) {
            let i = choose|i: int| 0 <= i < before.len() && before[i] == c;
            assert(before.push(last)[i] == c);
        }
        if short.contains(c) {
            let i = choose|i: int| 0 <= i < short.len() && short[i] == c;
            assert(long[i] == c);
        }
        if before.push(last).contains(c) && c != last {
            let i = choose|i: int| 0 <= i < before.push(last).len() && before.push(last)[i] == c;
            assert(before[i] == c);
        }
        if long.contains(c) && c != last {
            let i = choose|i: int| 0 <= i < long.len() && long[i] == c;
            assert(short[i] == c);
        }
    } else {
        assert(cells.take(0) =~= Seq::empty());
    }
}

} // verus!
