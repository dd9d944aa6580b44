//! Parsed references: cells, ranges, names, structured table references and external references.
use crate::coord::SheetId;
use crate::region::{AxisRange, Region, rect_region};
use vstd::prelude::*;

verus! {

/// A part of a table that a structured reference names by an item keyword.
#[derive(Clone, Copy, Debug, PartialEq, Eq, Structural)]
pub enum SpecialItem {
    Headers,
    Data,
    Totals,
    All,
    ThisRow,
}

/// What a structured reference selects of its table.
#[derive(Debug)]
pub enum TableSpecifier {
    All,
    Data,
    Headers,
    Totals,
    Row,
    Column(String),
    ColumnRange(String, String),
    SpecialItem(SpecialItem),
    Combination,
}

/// A structured reference.
#[derive(Debug)]
pub struct TableReference {
    pub name: String,
    pub specifier: Option<TableSpecifier>,
}

/// Whether an external reference names a cell or a range.
#[derive(Clone, Copy, Debug, PartialEq, Eq, Structural)]
pub enum ExternalRefKind {
    Cell,
    Range,
}

/// A reference. Rows and columns are one-based; an absent bound is open.
#[derive(Debug)]
pub enum ReferenceType {
    Cell { sheet: Option<String>, row: u32, col: u32, row_abs: bool, col_abs: bool },
    Range {
        sheet: Option<String>,
        start_row: Option<u32>,
        start_col: Option<u32>,
        end_row: Option<u32>,
        end_col: Option<u32>,
        start_row_abs: bool,
        start_col_abs: bool,
        end_row_abs: bool,
        end_col_abs: bool,
    },
    Cell3D { sheet_first: String, sheet_last: String, row: u32, col: u32 },
    Range3D {
        sheet_first: String,
        sheet_last: String,
        start_row: Option<u32>,
        start_col: Option<u32>,
        end_row: Option<u32>,
        end_col: Option<u32>,
    },
    NamedRange(String),
    Table(TableReference),
    External { raw: String, kind: ExternalRefKind },
}

fn copy_text(t: &Option<String>) -> (r: Option<String>)
    ensures
        r == *t,
{
    match t {
        Some(s) => Some(s.clone()),
        None => None,
    }
}

impl TableSpecifier {
    pub fn duplicate(&self) -> (r: TableSpecifier)
        ensures
            r == *self,
    {
        match self {
            TableSpecifier::All => TableSpecifier::All,
            TableSpecifier::Data => TableSpecifier::Data,
            TableSpecifier::Headers => TableSpecifier::Headers,
            TableSpecifier::Totals => TableSpecifier::Totals,
            TableSpecifier::Row => TableSpecifier::Row,
            TableSpecifier::Column(c) => TableSpecifier::Column(c.clone()),
            TableSpecifier::ColumnRange(a, b) => TableSpecifier::ColumnRange(a.clone(), b.clone()),
            TableSpecifier::SpecialItem(i) => TableSpecifier::SpecialItem(*i),
            TableSpecifier::Combination => TableSpecifier::Combination,
        }
    }
}

impl ReferenceType {
    pub fn duplicate(&self) -> (r: ReferenceType)
        ensures
            r == *self,
    {
        match self {
            ReferenceType::Cell { sheet, row, col, row_abs, col_abs } => ReferenceType::Cell {
                sheet: copy_text(sheet),
                row: *row,
                col: *col,
                row_abs: *row_abs,
                col_abs: *col_abs,
            },
            ReferenceType::Range {
                sheet,
                start_row,
                start_col,
                end_row,
                end_col,
                start_row_abs,
                start_col_abs,
                end_row_abs,
                end_col_abs,
            } => ReferenceType::Range {
                sheet: copy_text(sheet),
                start_row: *start_row,
                start_col: *start_col,
                end_row: *end_row,
                end_col: *end_col,
                start_row_abs: *start_row_abs,
                start_col_abs: *start_col_abs,
                end_row_abs: *end_row_abs,
                end_col_abs: *end_col_abs,
            },
            ReferenceType::Cell3D { sheet_first, sheet_last, row, col } => ReferenceType::Cell3D {
                sheet_first: sheet_first.clone(),
                sheet_last: sheet_last.clone(),
                row: *row,
                col: *col,
            },
            ReferenceType::Range3D {
                sheet_first,
                sheet_last,
                start_row,
                start_col,
                end_row,
                end_col,
            } => ReferenceType::Range3D {
                sheet_first: sheet_first.clone(),
                sheet_last: sheet_last.clone(),
                start_row: *start_row,
                start_col: *start_col,
                end_row: *end_row,
                end_col: *end_col,
            },
            ReferenceType::NamedRange(name) => ReferenceType::NamedRange(name.clone()),
            ReferenceType::Table(t) => ReferenceType::Table(
                TableReference {
                    name: t.name.clone(),
                    specifier: match &t.specifier {
                        Some(s) => Some(s.duplicate()),
                        None => None,
                    },
                },
            ),
            ReferenceType::External { raw, kind } => ReferenceType::External {
                raw: raw.clone(),
                kind: *kind,
            },
        }
    }
}

/// How a reference names its sheet.
#[derive(Debug)]
pub enum SheetLocator {
    Current,
    Id(SheetId),
    Name(String),
}

/// One bound of a range: a zero-based index and whether it is absolute.
#[derive(Clone, Copy, Debug, PartialEq, Eq, Structural)]
pub struct AxisBound {
    pub index: u32,
    pub abs: bool,
}

/// A range by zero-based bounds; an absent bound is open.
#[derive(Debug)]
pub struct SharedRangeRef {
    pub sheet: SheetLocator,
    pub start_row: Option<AxisBound>,
    pub start_col: Option<AxisBound>,
    pub end_row: Option<AxisBound>,
    pub end_col: Option<AxisBound>,
}

/// The region of a range dependency: a rectangle, one whole column or one whole row. A range that
/// names its sheet by text, and every other shape, has none.
pub open spec fn range_region(range: SharedRangeRef, default_sheet: SheetId) -> Option<Region> {
    let sheet_id = match range.sheet {
        SheetLocator::Id(id) => Some(id),
        SheetLocator::Current => Some(default_sheet),
        SheetLocator::Name(_) => None,
    };
    match (sheet_id, range.start_row, range.end_row, range.start_col, range.end_col) {
        (Some(sheet_id), Some(sr), Some(er), Some(sc), Some(ec)) => Some(
            rect_region(sheet_id, sr.index, er.index, sc.index, ec.index),
        ),
        (Some(sheet_id), None, None, Some(sc), Some(ec)) if sc.index == ec.index => Some(
            Region { sheet_id, rows: AxisRange::All, cols: AxisRange::Point(sc.index) },
        ),
        (Some(sheet_id), Some(sr), Some(er), None, None) if sr.index == er.index => Some(
            Region { sheet_id, rows: AxisRange::Point(sr.index), cols: AxisRange::All },
        ),
        _ => None,
    }
}

pub fn shared_range_to_region_pattern(range: &SharedRangeRef, default_sheet: SheetId) -> (r: Option<
    Region,
>)
    ensures
        r == range_region(*range, default_sheet),
{
    let sheet_id = match &range.sheet {
        SheetLocator::Id(id) => *id,
        SheetLocator::Current => default_sheet,
        SheetLocator::Name(_) => {
            return None;
        },
    };
    match (range.start_row, range.end_row, range.start_col, range.end_col) {
        (Some(sr), Some(er), Some(sc), Some(ec)) => Some(
            Region::rect(sheet_id, sr.index, er.index, sc.index, ec.index),
        ),
        (None, None, Some(sc), Some(ec)) if sc.index == ec.index => Some(
            Region::whole_col(sheet_id, sc.index),
        ),
        (Some(sr), Some(er), None, None) if sr.index == er.index => Some(
            Region::whole_row(sheet_id, sr.index),
        ),
        _ => None,
    }
}

/// The region of a range holds exactly the cells between its bounds, on the sheet that it names by
/// number, or on the one at hand where it names none.
pub proof fn ranges_hold_the_cells_between_their_bounds(
    range: SharedRangeRef,
    default_sheet: SheetId,
    cell: crate::coord::CellRef,
)
    requires
        range_region(range, default_sheet) is Some,
    ensures
        range_region(range, default_sheet)->Some_0.has_cell(cell) <==> {
            &&& range.sheet matches SheetLocator::Id(id) ==> cell.sheet_id == id
            &&& range.sheet is Current ==> cell.sheet_id == default_sheet
            &&& range.start_row matches Some(b) ==> b.index <= cell.row
            &&& range.end_row matches Some(b) ==> cell.row <= b.index
            &&& range.start_col matches Some(b) ==> b.index <= cell.col
            &&& range.end_col matches Some(b) ==> cell.col <= b.index
        },
{
}

/// Only rectangles, one whole column and one whole row have a region, on a sheet that is not named by
/// text.
pub proof fn rectangles_and_single_lines_have_a_region(range: SharedRangeRef, default_sheet: SheetId)
    ensures
        range_region(range, default_sheet) is Some <==> !(range.sheet is Name) && {
            let rows = range.start_row is Some && range.end_row is Some;
            let cols = range.start_col is Some && range.end_col is Some;
            let no_rows = range.start_row is None && range.end_row is None;
            let no_cols = range.start_col is None && range.end_col is None;
            ||| rows && cols
            ||| no_rows && cols && range.start_col->Some_0.index == range.end_col->Some_0.index
            ||| rows && no_cols && range.start_row->Some_0.index == range.end_row->Some_0.index
        },
{
}

} // verus!
