//! What inserting or deleting rows and columns does to formula spans: which spans move, shrink,
//! disappear or fall back to single formulas.
use crate::coord::{CellRef, SheetId};
use crate::region::{AxisRange, PlacementDomain, Region};
use vstd::prelude::*;

verus! {

/// A structural edit of a sheet.
#[derive(Clone, Copy, Debug, PartialEq, Eq, Structural)]
pub enum StructuralOp {
    InsertRows { sheet_id: SheetId, before: u32, count: u32 },
    DeleteRows { sheet_id: SheetId, start: u32, count: u32 },
    InsertColumns { sheet_id: SheetId, before: u32, count: u32 },
    DeleteColumns { sheet_id: SheetId, start: u32, count: u32 },
}

/// How many rows or columns an edit adds or takes away.
pub open spec fn op_count(op: StructuralOp) -> u32 {
    match op {
        StructuralOp::InsertRows { count, .. } => count,
        StructuralOp::DeleteRows { count, .. } => count,
        StructuralOp::InsertColumns { count, .. } => count,
        StructuralOp::DeleteColumns { count, .. } => count,
    }
}

/// How far the rows and columns behind the edit move.
pub open spec fn op_shift(op: StructuralOp) -> (i64, i64) {
    match op {
        StructuralOp::InsertRows { count, .. } => (count as i64, 0),
        StructuralOp::DeleteRows { count, .. } => ((0 - count) as i64, 0),
        StructuralOp::InsertColumns { count, .. } => (0, count as i64),
        StructuralOp::DeleteColumns { count, .. } => (0, (0 - count) as i64),
    }
}

impl StructuralOp {
    pub fn count(&self) -> (r: u32)
        ensures
            r == op_count(*self),
    {
        match *self {
            StructuralOp::InsertRows { count, .. } => count,
            StructuralOp::DeleteRows { count, .. } => count,
            StructuralOp::InsertColumns { count, .. } => count,
            StructuralOp::DeleteColumns { count, .. } => count,
        }
    }

    pub fn axis_shift_delta(&self) -> (r: (i64, i64))
        ensures
            r == op_shift(*self),
    {
        match *self {
            StructuralOp::InsertRows { count, .. } => (count as i64, 0),
            StructuralOp::DeleteRows { count, .. } => (0 - count as i64, 0),
            StructuralOp::InsertColumns { count, .. } => (0, count as i64),
            StructuralOp::DeleteColumns { count, .. } => (0, 0 - count as i64),
        }
    }
}

/// `value` moved by `delta`, where the sum is an index.
pub open spec fn shifted(value: u32, delta: i64) -> Option<u32> {
    if 0 <= value + delta <= u32::MAX {
        Some((value + delta) as u32)
    } else {
        None
    }
}

pub fn checked_shift_u32(value: u32, delta: i64) -> (r: Option<u32>)
    ensures
        r == shifted(value, delta),
{
    let sum: i128 = value as i128 + delta as i128;
    if 0 <= sum && sum <= u32::MAX as i128 {
        Some(sum as u32)
    } else {
        None
    }
}

/// An axis range whose bounded ends are moved by `delta`.
pub open spec fn shifted_axis(axis: AxisRange, delta: i64) -> Option<AxisRange> {
    match axis {
        AxisRange::Point(p) => match shifted(p, delta) {
            Some(p) => Some(AxisRange::Point(p)),
            None => None,
        },
        AxisRange::Span(min, max) => match (shifted(min, delta), shifted(max, delta)) {
            (Some(min), Some(max)) => Some(AxisRange::Span(min, max)),
            _ => None,
        },
        AxisRange::From(min) => match shifted(min, delta) {
            Some(min) => Some(AxisRange::From(min)),
            None => None,
        },
        AxisRange::To(max) => match shifted(max, delta) {
            Some(max) => Some(AxisRange::To(max)),
            None => None,
        },
        AxisRange::All => Some(AxisRange::All),
    }
}

fn shift_axis(axis: AxisRange, delta: i64) -> (r: Option<AxisRange>)
    ensures
        r == shifted_axis(axis, delta),
{
    match axis {
        AxisRange::Point(p) => match checked_shift_u32(p, delta) {
            Some(p) => Some(AxisRange::Point(p)),
            None => None,
        },
        AxisRange::Span(min, max) => match (
            checked_shift_u32(min, delta),
            checked_shift_u32(max, delta),
        ) {
            (Some(min), Some(max)) => Some(AxisRange::Span(min, max)),
            _ => None,
        },
        AxisRange::From(min) => match checked_shift_u32(min, delta) {
            Some(min) => Some(AxisRange::From(min)),
            None => None,
        },
        AxisRange::To(max) => match checked_shift_u32(max, delta) {
            Some(max) => Some(AxisRange::To(max)),
            None => None,
        },
        AxisRange::All => Some(AxisRange::All),
    }
}

/// A region moved by the two deltas, where every bounded end stays an index.
pub open spec fn shifted_region(region: Region, row_delta: i64, col_delta: i64) -> Option<Region> {
    match (shifted_axis(region.rows, row_delta), shifted_axis(region.cols, col_delta)) {
        (Some(rows), Some(cols)) => Some(Region { sheet_id: region.sheet_id, rows, cols }),
        _ => None,
    }
}

impl Region {
    pub fn project_through_axis_shift(&self, row_delta: i64, col_delta: i64) -> (r: Option<Region>)
        ensures
            r == shifted_region(*self, row_delta, col_delta),
    {
        match (shift_axis(self.rows, row_delta), shift_axis(self.cols, col_delta)) {
            (Some(rows), Some(cols)) => Some(Region { sheet_id: self.sheet_id, rows, cols }),
            _ => None,
        }
    }
}

/// A placement domain moved by the two deltas, where every bound stays an index.
pub open spec fn shifted_domain(
    d: PlacementDomain,
    row_delta: i64,
    col_delta: i64,
) -> Option<PlacementDomain> {
    let (r0, r1, c0, c1) = d.bounds();
    match (
        shifted(r0, row_delta),
        shifted(r1, row_delta),
        shifted(c0, col_delta),
        shifted(c1, col_delta),
    ) {
        (Some(a), Some(b), Some(c), Some(e)) => Some(
            match d {
                PlacementDomain::RowRun { sheet_id, .. } => PlacementDomain::RowRun {
                    sheet_id,
                    row_start: a,
                    row_end: b,
                    col: c,
                },
                PlacementDomain::ColRun { sheet_id, .. } => PlacementDomain::ColRun {
                    sheet_id,
                    row: a,
                    col_start: c,
                    col_end: e,
                },
                PlacementDomain::Rect { sheet_id, .. } => PlacementDomain::Rect {
                    sheet_id,
                    row_start: a,
                    row_end: b,
                    col_start: c,
                    col_end: e,
                },
            },
        ),
        _ => None,
    }
}

impl PlacementDomain {
    pub fn project_through_axis_shift(&self, row_delta: i64, col_delta: i64) -> (r: Option<
        PlacementDomain,
    >)
        ensures
            r == shifted_domain(*self, row_delta, col_delta),
    {
        let (r0, r1, c0, c1) = self.corners();
        let a = checked_shift_u32(r0, row_delta);
        let b = checked_shift_u32(r1, row_delta);
        let c = checked_shift_u32(c0, col_delta);
        let e = checked_shift_u32(c1, col_delta);
        match (a, b, c, e) {
            (Some(a), Some(b), Some(c), Some(e)) => Some(
                match *self {
                    PlacementDomain::RowRun { sheet_id, .. } => PlacementDomain::RowRun {
                        sheet_id,
                        row_start: a,
                        row_end: b,
                        col: c,
                    },
                    PlacementDomain::ColRun { sheet_id, .. } => PlacementDomain::ColRun {
                        sheet_id,
                        row: a,
                        col_start: c,
                        col_end: e,
                    },
                    PlacementDomain::Rect { sheet_id, .. } => PlacementDomain::Rect {
                        sheet_id,
                        row_start: a,
                        row_end: b,
                        col_start: c,
                        col_end: e,
                    },
                },
            ),
            _ => None,
        }
    }
}

/// The difference of two indices, not below zero.
pub open spec fn floor_sub(a: u32, b: u32) -> u32 {
    if a >= b {
        (a - b) as u32
    } else {
        0
    }
}

/// The first index behind the `count` indices from `start`, as far as indices go.
pub open spec fn delete_end(start: u32, count: u32) -> u32 {
    if start + count <= u32::MAX {
        (start + count) as u32
    } else {
        u32::MAX
    }
}

/// The interval from `min` to `max` once the `count` indices from `start` are gone. An interval
/// that the deletion does not touch moves down by `count`; one that it covers is gone.
pub open spec fn compacted_axis(min: u32, max: u32, start: u32, count: u32) -> Option<(u32, u32)> {
    let end = delete_end(start, count);
    if max < start || min >= end {
        Some((floor_sub(min, count), floor_sub(max, count)))
    } else if min >= start && max < end {
        None
    } else {
        Some(
            (
                if min < start {
                    min
                } else {
                    start
                },
                if max >= end {
                    (max - count) as u32
                } else {
                    (start - 1) as u32
                },
            ),
        )
    }
}

pub fn compact_axis_through_delete(min: u32, max: u32, start: u32, count: u32) -> (r: Option<
    (u32, u32),
>)
    ensures
        r == compacted_axis(min, max, start, count),
{
    let end = start.saturating_add(count);
    if max < start || min >= end {
        return Some((min.saturating_sub(count), max.saturating_sub(count)));
    }
    let keeps_left = min < start;
    let keeps_right = max >= end;
    match (keeps_left, keeps_right) {
        (false, false) => None,
        (true, false) => Some((min, start - 1)),
        (false, true) => Some((start, max - count)),
        (true, true) => Some((min, max - count)),
    }
}

/// Where the index `i` goes when the `count` indices from `start` are deleted; a deleted index
/// goes nowhere.
pub open spec fn index_after_delete(i: u32, start: u32, count: u32) -> Option<u32> {
    if i < start {
        Some(i)
    } else if i < start + count {
        None
    } else {
        Some((i - count) as u32)
    }
}

/// An interval that the deletion touches shrinks to exactly the images of its surviving indices.
pub proof fn compacted_axis_holds_the_survivors(
    min: u32,
    max: u32,
    start: u32,
    count: u32,
    j: u32,
)
    requires
        start + count <= u32::MAX,
        min <= max,
        max >= start,
        min < start + count,
    ensures
        match compacted_axis(min, max, start, count) {
            Some((lo, hi)) => (lo <= j <= hi) <==> (exists|i: u32|
                min <= i <= max && #[trigger] index_after_delete(i, start, count) == Some(j)),
            None => !exists|i: u32|
                min <= i <= max && #[trigger] index_after_delete(i, start, count) == Some(j),
        },
{
    if let Some((lo, hi)) = compacted_axis(min, max, start, count) {
        if lo <= j <= hi {
            if j < start {
                assert(index_after_delete(j, start, count) == Some(j));
            } else {
                let i = (j + count) as u32;
                assert(index_after_delete(i, start, count) == Some(j));
            }
        }
    }
}

/// A domain once the deletion has taken its part of it: rows go from row runs and rectangles,
/// columns from column runs and rectangles; no other pair has a compacted form.
pub open spec fn compacted_domain(d: PlacementDomain, op: StructuralOp) -> Option<PlacementDomain> {
    match (d, op) {
        (
            PlacementDomain::RowRun { sheet_id, row_start, row_end, col },
            StructuralOp::DeleteRows { start, count, .. },
        ) => match compacted_axis(row_start, row_end, start, count) {
            Some((a, b)) => Some(
                PlacementDomain::RowRun { sheet_id, row_start: a, row_end: b, col },
            ),
            None => None,
        },
        (
            PlacementDomain::Rect { sheet_id, row_start, row_end, col_start, col_end },
            StructuralOp::DeleteRows { start, count, .. },
        ) => match compacted_axis(row_start, row_end, start, count) {
            Some((a, b)) => Some(
                PlacementDomain::Rect { sheet_id, row_start: a, row_end: b, col_start, col_end },
            ),
            None => None,
        },
        (
            PlacementDomain::ColRun { sheet_id, row, col_start, col_end },
            StructuralOp::DeleteColumns { start, count, .. },
        ) => match compacted_axis(col_start, col_end, start, count) {
            Some((a, b)) => Some(
                PlacementDomain::ColRun { sheet_id, row, col_start: a, col_end: b },
            ),
            None => None,
        },
        (
            PlacementDomain::Rect { sheet_id, row_start, row_end, col_start, col_end },
            StructuralOp::DeleteColumns { start, count, .. },
        ) => match compacted_axis(col_start, col_end, start, count) {
            Some((a, b)) => Some(
                PlacementDomain::Rect { sheet_id, row_start, row_end, col_start: a, col_end: b },
            ),
            None => None,
        },
        _ => None,
    }
}

pub fn compact_domain_through_delete(d: &PlacementDomain, op: StructuralOp) -> (r: Option<
    PlacementDomain,
>)
    ensures
        r == compacted_domain(*d, op),
{
    match (*d, op) {
        (
            PlacementDomain::RowRun { sheet_id, row_start, row_end, col },
            StructuralOp::DeleteRows { start, count, .. },
        ) => match compact_axis_through_delete(row_start, row_end, start, count) {
            Some((a, b)) => Some(
                PlacementDomain::RowRun { sheet_id, row_start: a, row_end: b, col },
            ),
            None => None,
        },
        (
            PlacementDomain::Rect { sheet_id, row_start, row_end, col_start, col_end },
            StructuralOp::DeleteRows { start, count, .. },
        ) => match compact_axis_through_delete(row_start, row_end, start, count) {
            Some((a, b)) => Some(
                PlacementDomain::Rect { sheet_id, row_start: a, row_end: b, col_start, col_end },
            ),
            None => None,
        },
        (
            PlacementDomain::ColRun { sheet_id, row, col_start, col_end },
            StructuralOp::DeleteColumns { start, count, .. },
        ) => match compact_axis_through_delete(col_start, col_end, start, count) {
            Some((a, b)) => Some(
                PlacementDomain::ColRun { sheet_id, row, col_start: a, col_end: b },
            ),
            None => None,
        },
        (
            PlacementDomain::Rect { sheet_id, row_start, row_end, col_start, col_end },
            StructuralOp::DeleteColumns { start, count, .. },
        ) => match compact_axis_through_delete(col_start, col_end, start, count) {
            Some((a, b)) => Some(
                PlacementDomain::Rect { sheet_id, row_start, row_end, col_start: a, col_end: b },
            ),
            None => None,
        },
        _ => None,
    }
}

/// An axis range once the deletion has taken its part of it. A range that is open at one end has
/// no compacted form.
pub open spec fn compacted_axis_range(axis: AxisRange, start: u32, count: u32) -> Option<AxisRange> {
    match axis {
        AxisRange::Point(p) => match compacted_axis(p, p, start, count) {
            Some((p, _)) => Some(AxisRange::Point(p)),
            None => None,
        },
        AxisRange::Span(min, max) => match compacted_axis(min, max, start, count) {
            Some((a, b)) => Some(AxisRange::Span(a, b)),
            None => None,
        },
        AxisRange::All => Some(AxisRange::All),
        AxisRange::From(_) => None,
        AxisRange::To(_) => None,
    }
}

pub fn compact_axis_range_through_delete(axis: AxisRange, start: u32, count: u32) -> (r: Option<
    AxisRange,
>)
    ensures
        r == compacted_axis_range(axis, start, count),
{
    match axis {
        AxisRange::Point(p) => match compact_axis_through_delete(p, p, start, count) {
            Some((p, _)) => Some(AxisRange::Point(p)),
            None => None,
        },
        AxisRange::Span(min, max) => match compact_axis_through_delete(min, max, start, count) {
            Some((a, b)) => Some(AxisRange::Span(a, b)),
            None => None,
        },
        AxisRange::All => Some(AxisRange::All),
        AxisRange::From(_) => None,
        AxisRange::To(_) => None,
    }
}

/// A region once the deletion has taken its part of it; a region of another sheet stays.
pub open spec fn compacted_region(region: Region, op: StructuralOp) -> Option<Region> {
    match op {
        StructuralOp::DeleteRows { sheet_id, start, count } if region.sheet_id == sheet_id => {
            match compacted_axis_range(region.rows, start, count) {
                Some(rows) => Some(Region { sheet_id, rows, cols: region.cols }),
                None => None,
            }
        },
        StructuralOp::DeleteColumns { sheet_id, start, count } if region.sheet_id == sheet_id => {
            match compacted_axis_range(region.cols, start, count) {
                Some(cols) => Some(Region { sheet_id, rows: region.rows, cols }),
                None => None,
            }
        },
        _ => Some(region),
    }
}

pub fn compact_region_through_delete(region: Region, op: StructuralOp) -> (r: Option<Region>)
    ensures
        r == compacted_region(region, op),
{
    match op {
        StructuralOp::DeleteRows { sheet_id, start, count } if region.sheet_id == sheet_id => {
            match compact_axis_range_through_delete(region.rows, start, count) {
                Some(rows) => Some(Region { sheet_id, rows, cols: region.cols }),
                None => None,
            }
        },
        StructuralOp::DeleteColumns { sheet_id, start, count } if region.sheet_id == sheet_id => {
            match compact_axis_range_through_delete(region.cols, start, count) {
                Some(cols) => Some(Region { sheet_id, rows: region.rows, cols }),
                None => None,
            }
        },
        _ => Some(region),
    }
}

/// A shifted region holds exactly the cells that lie as many rows and columns further as the region was
/// shifted; none is lost, even where the region has no end.
pub proof fn shifted_regions_hold_the_shifted_cells(
    region: Region,
    row_delta: i64,
    col_delta: i64,
    cell: CellRef,
    moved: CellRef,
)
    requires
        cell.sheet_id == moved.sheet_id,
        moved.row == cell.row + row_delta,
        moved.col == cell.col + col_delta,
        shifted_region(region, row_delta, col_delta) is Some,
    ensures
        shifted_region(region, row_delta, col_delta)->Some_0.has_cell(moved) <==> region.has_cell(cell),
{
}

/// A region has no shifted one exactly where one of its bounds would leave the range of addresses.
pub proof fn only_regions_that_leave_the_sheet_are_lost(region: Region, row_delta: i64, col_delta: i64)
    ensures
        ({
            let stays = |i: u32, d: i64| 0 <= i + d <= 0xffff_ffff;
            let axis = |a: AxisRange, d: i64|
                match a {
                    AxisRange::Point(p) => stays(p, d),
                    AxisRange::Span(x, y) => stays(x, d) && stays(y, d),
                    AxisRange::From(x) => stays(x, d),
                    AxisRange::To(y) => stays(y, d),
                    AxisRange::All => true,
                };
            shifted_region(region, row_delta, col_delta) is Some <==> axis(region.rows, row_delta) && axis(
                region.cols,
                col_delta,
            )
        }),
{
}

/// A shifted domain holds exactly the cells that lie as many rows and columns further, keeps its shape,
/// and there is none exactly where one of its bounds would leave the range of addresses.
pub proof fn shifted_domains_hold_the_shifted_cells(
    d: PlacementDomain,
    row_delta: i64,
    col_delta: i64,
    cell: CellRef,
    moved: CellRef,
)
    requires
        cell.sheet_id == moved.sheet_id,
        moved.row == cell.row + row_delta,
        moved.col == cell.col + col_delta,
    ensures
        match shifted_domain(d, row_delta, col_delta) {
            Some(e) => {
                &&& e.has_cell(moved) <==> d.has_cell(cell)
                &&& e is RowRun == d is RowRun && e is ColRun == d is ColRun
            },
            None => {
                let (r0, r1, c0, c1) = d.bounds();
                ||| r0 + row_delta < 0 || r0 + row_delta > 0xffff_ffff
                ||| r1 + row_delta < 0 || r1 + row_delta > 0xffff_ffff
                ||| c0 + col_delta < 0 || c0 + col_delta > 0xffff_ffff
                ||| c1 + col_delta < 0 || c1 + col_delta > 0xffff_ffff
            },
        },
{
}

/// An insertion shifts forward by the number of lines and a deletion back, rows along rows and columns
/// along columns.
pub proof fn operations_shift_by_their_lines(op: StructuralOp)
    ensures
        ({
            let (rows, cols) = op_shift(op);
            &&& op is InsertRows ==> rows == op->InsertRows_count && cols == 0 && op_count(op) == rows
            &&& op is DeleteRows ==> rows == -op->DeleteRows_count && cols == 0 && op_count(op) == -rows
            &&& op is InsertColumns ==> cols == op->InsertColumns_count && rows == 0 && op_count(op) == cols
            &&& op is DeleteColumns ==> cols == -op->DeleteColumns_count && rows == 0 && op_count(op) == -cols
        }),
{
}

/// An interval behind the deleted lines moves back by as many lines, keeping its length; one that lies
/// on them alone is gone; one that holds them all shrinks by as many.
pub proof fn intervals_close_over_deleted_lines(min: u32, max: u32, start: u32, count: u32)
    requires
        start + count <= u32::MAX,
        min <= max,
    ensures
        min >= start + count ==> compacted_axis(min, max, start, count) == Some(
            ((min - count) as u32, (max - count) as u32),
        ),
        start <= min && max < start + count ==> compacted_axis(min, max, start, count) is None,
        compacted_axis(min, max, start, count) is None ==> start <= min && max < start + count,
        min < start && max >= start + count ==> (compacted_axis(min, max, start, count) matches Some((a, b))
            && a == min && b - a == max - min - count),
        min < start && start <= max < start + count ==> (compacted_axis(min, max, start, count) matches Some(
            (a, b),
        ) && a == min && b == start - 1),
        start <= min < start + count && max >= start + count ==> (compacted_axis(
            min,
            max,
            start,
            count,
        ) matches Some((a, b)) && a == start && b == max - count),
{
}

/// A deletion shrinks a domain along its own axis, keeping its shape and its place on the other axis;
/// a run across the deleted lines has no compacted domain.
pub proof fn domains_shrink_along_the_deleted_lines(d: PlacementDomain, op: StructuralOp)
    ensures
        match compacted_domain(d, op) {
            Some(e) => {
                let (r0, r1, c0, c1) = d.bounds();
                let (s0, s1, t0, t1) = e.bounds();
                &&& e is RowRun == d is RowRun && e is ColRun == d is ColRun
                &&& e.spec_sheet() == d.spec_sheet()
                &&& match op {
                    StructuralOp::DeleteRows { start, count, .. } => compacted_axis(r0, r1, start, count)
                        == Some((s0, s1)) && t0 == c0 && t1 == c1,
                    StructuralOp::DeleteColumns { start, count, .. } => compacted_axis(
                        c0,
                        c1,
                        start,
                        count,
                    ) == Some((t0, t1)) && s0 == r0 && s1 == r1,
                    _ => false,
                }
            },
            None => {
                ||| op is InsertRows || op is InsertColumns
                ||| d is ColRun && op is DeleteRows
                ||| d is RowRun && op is DeleteColumns
                ||| (op matches StructuralOp::DeleteRows { start, count, .. } && compacted_axis(
                    d.bounds().0,
                    d.bounds().1,
                    start,
                    count,
                ) is None)
                ||| (op matches StructuralOp::DeleteColumns { start, count, .. } && compacted_axis(
                    d.bounds().2,
                    d.bounds().3,
                    start,
                    count,
                ) is None)
            },
        },
{
}

/// A deletion leaves the regions of other sheets as they are, and the other axis of those on its sheet.
pub proof fn regions_shrink_on_their_sheet_alone(region: Region, sheet_id: SheetId, start: u32, count: u32)
    ensures
        ({
            let rows = compacted_region(region, StructuralOp::DeleteRows { sheet_id, start, count });
            let cols = compacted_region(region, StructuralOp::DeleteColumns { sheet_id, start, count });
            if region.sheet_id != sheet_id {
                rows == Some(region) && cols == Some(region)
            } else {
                &&& rows matches Some(r) ==> r.cols == region.cols && r.sheet_id == sheet_id
                &&& cols matches Some(r) ==> r.rows == region.rows && r.sheet_id == sheet_id
                &&& region.rows is All ==> rows == Some(region)
                &&& region.cols is All ==> cols == Some(region)
                &&& region.rows matches AxisRange::Span(a, b) ==> (match compacted_axis(
                    a,
                    b,
                    start,
                    count,
                ) {
                    Some((x, y)) => rows == Some(Region { rows: AxisRange::Span(x, y), ..region }),
                    None => rows is None,
                })
                &&& region.cols matches AxisRange::Span(a, b) ==> (match compacted_axis(
                    a,
                    b,
                    start,
                    count,
                ) {
                    Some((x, y)) => cols == Some(Region { cols: AxisRange::Span(x, y), ..region }),
                    None => cols is None,
                })
                &&& region.rows matches AxisRange::Point(p) ==> (start + count <= u32::MAX ==> (rows is None
                    <==> start <= p < start + count))
                &&& region.cols matches AxisRange::Point(p) ==> (start + count <= u32::MAX ==> (cols is None
                    <==> start <= p < start + count))
            }
        }),
        region.sheet_id == sheet_id && start + count <= u32::MAX ==> {
            &&& region.rows matches AxisRange::Point(p) ==> p >= start + count ==> compacted_region(
                region,
                StructuralOp::DeleteRows { sheet_id, start, count },
            ) == Some(Region { rows: AxisRange::Point((p - count) as u32), ..region })
            &&& region.cols matches AxisRange::Point(p) ==> p >= start + count ==> compacted_region(
                region,
                StructuralOp::DeleteColumns { sheet_id, start, count },
            ) == Some(Region { cols: AxisRange::Point((p - count) as u32), ..region })
        },
{
}

} // verus!
