//! What a reference stands for.
use crate::coord::{CellRef, SheetId};
use crate::grid::{Grid, GridView};
use crate::reference_type::{AxisBound, ExternalRefKind, ReferenceType, SheetLocator, SpecialItem, TableSpecifier};
use crate::number::ZERO_BITS;
use crate::store::{CellStore, StoreView, at_1_based, read};
use crate::text::{address_parts, split_address};
use crate::used_bounds::Bounds;
use crate::value::{ErrorKind, ErrorView, ExcelError, LiteralValue, ValueView, bare_error, error_with, row_view, rows_view};
use vstd::prelude::*;

verus! {

/// A cell of a known sheet, with its anchors.
#[derive(Clone, Copy, Debug, PartialEq, Eq, Structural)]
pub struct AnchoredCell {
    pub cell: CellRef,
    pub row_abs: bool,
    pub col_abs: bool,
}

/// A range of a known sheet by zero-based bounds; an absent bound is open.
#[derive(Clone, Copy, Debug, PartialEq, Eq, Structural)]
pub struct SheetRange {
    pub sheet_id: SheetId,
    pub start_row: Option<AxisBound>,
    pub start_col: Option<AxisBound>,
    pub end_row: Option<AxisBound>,
    pub end_col: Option<AxisBound>,
}

/// A reference to a cell or a range whose sheet is known.
#[derive(Clone, Copy, Debug, PartialEq, Eq, Structural)]
pub enum SheetRef {
    Cell(AnchoredCell),
    Range(SheetRange),
}

/// The zero-based bound of a one-based one.
pub open spec fn bound_of(index: Option<u32>, abs: bool) -> Option<AxisBound> {
    match index {
        Some(i) => Some(AxisBound { index: (i - 1) as u32, abs }),
        None => None,
    }
}

fn to_bound(index: Option<u32>, abs: bool) -> (r: Option<AxisBound>)
    requires
        index matches Some(i) ==> i > 0,
    ensures
        r == bound_of(index, abs),
{
    match index {
        Some(i) => Some(AxisBound { index: i - 1, abs }),
        None => None,
    }
}

/// The sheet of a reference: the one that it names, or the current one. Nothing is found on an
/// unknown current sheet.
pub open spec fn sheet_of(
    names_sheet: bool,
    current_id: Option<SheetId>,
    named_id: Option<SheetId>,
) -> Option<SheetId> {
    if current_id is None {
        None
    } else if names_sheet {
        named_id
    } else {
        current_id
    }
}

/// What a reference to a cell or a range stands for: nothing if an index is zero, the bounds are
/// refused, or the sheet is unknown.
pub open spec fn shared_ref(
    reference: ReferenceType,
    accepted: bool,
    current_id: Option<SheetId>,
    named_id: Option<SheetId>,
) -> Option<SheetRef> {
    match reference {
        ReferenceType::Cell { sheet, row, col, row_abs, col_abs } => match sheet_of(
            sheet is Some,
            current_id,
            named_id,
        ) {
            Some(sheet_id) if row > 0 && col > 0 => Some(
                SheetRef::Cell(
                    AnchoredCell {
                        cell: CellRef { sheet_id, row: (row - 1) as u32, col: (col - 1) as u32 },
                        row_abs,
                        col_abs,
                    },
                ),
            ),
            _ => None,
        },
        ReferenceType::Range {
            sheet,
            start_row,
            start_col,
            end_row,
            end_col,
            start_row_abs,
            start_col_abs,
            end_row_abs,
            end_col_abs,
        } => match sheet_of(sheet is Some, current_id, named_id) {
            Some(sheet_id) if start_row != Some(0u32) && start_col != Some(0u32) && end_row != Some(
                0u32,
            ) && end_col != Some(0u32) && accepted => Some(
                SheetRef::Range(
                    SheetRange {
                        sheet_id,
                        start_row: bound_of(start_row, start_row_abs),
                        start_col: bound_of(start_col, start_col_abs),
                        end_row: bound_of(end_row, end_row_abs),
                        end_col: bound_of(end_col, end_col_abs),
                    },
                ),
            ),
            _ => None,
        },
        _ => None,
    }
}

/// Resolves a reference to a cell or a range. `current_id` is the current sheet, `named_id` the
/// sheet that the reference names, and `accepted` tells whether the bounds make a range.
pub fn resolve_shared_ref(
    reference: &ReferenceType,
    accepted: bool,
    current_id: Option<SheetId>,
    named_id: Option<SheetId>,
) -> (r: Result<SheetRef, ExcelError>)
    ensures
        match shared_ref(*reference, accepted, current_id, named_id) {
            Some(x) => r == Ok::<SheetRef, ExcelError>(x),
            None => r matches Err(e) && e@ == bare_error(ErrorKind::Ref),
        },
{
    match reference {
        ReferenceType::Cell { sheet, row, col, row_abs, col_abs } => {
            if *row == 0 || *col == 0 || current_id.is_none() {
                return Err(ExcelError::new(ErrorKind::Ref));
            }
            let id = if sheet.is_some() {
                named_id
            } else {
                current_id
            };
            match id {
                Some(sheet_id) => Ok(
                    SheetRef::Cell(
                        AnchoredCell {
                            cell: CellRef { sheet_id, row: *row - 1, col: *col - 1 },
                            row_abs: *row_abs,
                            col_abs: *col_abs,
                        },
                    ),
                ),
                None => Err(ExcelError::new(ErrorKind::Ref)),
            }
        },
        ReferenceType::Range {
            sheet,
            start_row,
            start_col,
            end_row,
            end_col,
            start_row_abs,
            start_col_abs,
            end_row_abs,
            end_col_abs,
        } => {
            if is_zero(*start_row) || is_zero(*start_col) || is_zero(*end_row) || is_zero(
                *end_col,
            ) || !accepted || current_id.is_none() {
                return Err(ExcelError::new(ErrorKind::Ref));
            }
            let id = if sheet.is_some() {
                named_id
            } else {
                current_id
            };
            match id {
                Some(sheet_id) => Ok(
                    SheetRef::Range(
                        SheetRange {
                            sheet_id,
                            start_row: to_bound(*start_row, *start_row_abs),
                            start_col: to_bound(*start_col, *start_col_abs),
                            end_row: to_bound(*end_row, *end_row_abs),
                            end_col: to_bound(*end_col, *end_col_abs),
                        },
                    ),
                ),
                None => Err(ExcelError::new(ErrorKind::Ref)),
            }
        },
        _ => Err(ExcelError::new(ErrorKind::Ref)),
    }
}

fn is_zero(i: Option<u32>) -> (b: bool)
    ensures
        b == (i == Some(0u32)),
{
    match i {
        Some(x) => x == 0,
        None => false,
    }
}

/// The bounds of a range while open ones are being filled in; they are one-based.
#[derive(Clone, Copy, Debug, PartialEq, Eq, Structural)]
pub struct OpenBounds {
    pub start_row: Option<u32>,
    pub start_col: Option<u32>,
    pub end_row: Option<u32>,
    pub end_col: Option<u32>,
}

/// What open bounds depend on.
#[derive(Clone, Copy, Debug, PartialEq, Eq, Structural)]
pub enum BoundsQuestion {
    /// Which rows are used in these columns?
    RowsOf { start_col: u32, end_col: u32 },
    /// Which columns are used in these rows?
    ColsOf { start_row: u32, end_row: u32 },
    /// Nothing is open at its end.
    Settled,
}

/// The index, or the other one where there is none.
pub open spec fn or_else(i: Option<u32>, other: u32) -> u32 {
    match i {
        Some(x) => x,
        None => other,
    }
}

fn pick(i: Option<u32>, other: u32) -> (r: u32)
    ensures
        r == or_else(i, other),
{
    match i {
        Some(x) => x,
        None => other,
    }
}

impl OpenBounds {
    /// What is asked next: a range open at both ends of an axis is settled first, its rows before
    /// its columns.
    pub open spec fn question(self) -> BoundsQuestion {
        let cols = or_else(self.start_col, 1);
        let rows = or_else(self.start_row, 1);
        let ask_rows = BoundsQuestion::RowsOf {
            start_col: cols,
            end_col: or_else(self.end_col, cols),
        };
        let ask_cols = BoundsQuestion::ColsOf {
            start_row: rows,
            end_row: or_else(self.end_row, rows),
        };
        if self.start_row is None && self.end_row is None {
            ask_rows
        } else if self.start_col is None && self.end_col is None {
            ask_cols
        } else if self.end_row is None {
            ask_rows
        } else if self.end_col is None {
            ask_cols
        } else {
            BoundsQuestion::Settled
        }
    }

    pub fn ask(&self) -> (q: BoundsQuestion)
        ensures
            q == self.question(),
    {
        let cols = pick(self.start_col, 1);
        let rows = pick(self.start_row, 1);
        let ask_rows = BoundsQuestion::RowsOf { start_col: cols, end_col: pick(self.end_col, cols) };
        let ask_cols = BoundsQuestion::ColsOf { start_row: rows, end_row: pick(self.end_row, rows) };
        if self.start_row.is_none() && self.end_row.is_none() {
            ask_rows
        } else if self.start_col.is_none() && self.end_col.is_none() {
            ask_cols
        } else if self.end_row.is_none() {
            ask_rows
        } else if self.end_col.is_none() {
            ask_cols
        } else {
            BoundsQuestion::Settled
        }
    }

    /// The bounds once the used rows are known: the range ends at the last used row, or where open
    /// ranges end if none is used.
    pub open spec fn with_rows(self, used: Option<Bounds>, max_rows: u32) -> OpenBounds {
        OpenBounds {
            start_row: Some(or_else(self.start_row, 1)),
            end_row: Some(
                match used {
                    Some((_, last)) => last,
                    None => max_rows,
                },
            ),
            ..self
        }
    }

    /// The bounds once the used columns are known.
    pub open spec fn with_cols(self, used: Option<Bounds>, max_cols: u32) -> OpenBounds {
        OpenBounds {
            start_col: Some(or_else(self.start_col, 1)),
            end_col: Some(
                match used {
                    Some((_, last)) => last,
                    None => max_cols,
                },
            ),
            ..self
        }
    }

    pub fn supply_rows(&mut self, used: Option<Bounds>, max_open_ended_rows: u32)
        ensures
            *final(self) == old(self).with_rows(used, max_open_ended_rows),
    {
        self.start_row = Some(pick(self.start_row, 1));
        self.end_row = match used {
            Some((_, last)) => Some(last),
            None => Some(max_open_ended_rows),
        };
    }

    pub fn supply_cols(&mut self, used: Option<Bounds>, max_open_ended_cols: u32)
        ensures
            *final(self) == old(self).with_cols(used, max_open_ended_cols),
    {
        self.start_col = Some(pick(self.start_col, 1));
        self.end_col = match used {
            Some((_, last)) => Some(last),
            None => Some(max_open_ended_cols),
        };
    }

    /// The block of settled bounds: an open start is the first row or column.
    pub open spec fn block(self, sheet_id: SheetId) -> Block {
        Block {
            sheet_id,
            start_row: or_else(self.start_row, 1),
            start_col: or_else(self.start_col, 1),
            end_row: or_else(self.end_row, 0),
            end_col: or_else(self.end_col, 0),
        }
    }

    pub fn settle(&self, sheet_id: SheetId) -> (b: Block)
        requires
            self.question() is Settled,
        ensures
            b == self.block(sheet_id),
            b.end_row == self.end_row->Some_0,
            b.end_col == self.end_col->Some_0,
    {
        Block {
            sheet_id,
            start_row: pick(self.start_row, 1),
            start_col: pick(self.start_col, 1),
            end_row: pick(self.end_row, 0),
            end_col: pick(self.end_col, 0),
        }
    }
}

/// Open bounds are settled after two answers at most: the rows are asked for once, and the columns
/// are.
pub proof fn two_answers_settle_any_bounds(
    b: OpenBounds,
    first: Option<Bounds>,
    second: Option<Bounds>,
    max_rows: u32,
    max_cols: u32,
)
    ensures
        b.question() is RowsOf ==> {
            let c = b.with_rows(first, max_rows);
            &&& !(c.question() is RowsOf)
            &&& c.question() is ColsOf ==> c.with_cols(second, max_cols).question() is Settled
        },
        b.question() is ColsOf ==> {
            let c = b.with_cols(first, max_cols);
            &&& !(c.question() is ColsOf)
            &&& c.question() is RowsOf ==> c.with_rows(second, max_rows).question() is Settled
        },
{
}

/// Bounds that are all given are settled as they are.
pub proof fn given_bounds_are_kept(sr: u32, sc: u32, er: u32, ec: u32, sheet_id: SheetId)
    ensures
        ({
            let b = OpenBounds {
                start_row: Some(sr),
                start_col: Some(sc),
                end_row: Some(er),
                end_col: Some(ec),
            };
            b.question() is Settled && b.block(sheet_id) == (Block {
                sheet_id,
                start_row: sr,
                start_col: sc,
                end_row: er,
                end_col: ec,
            })
        }),
{
}

/// A block of cells by one-based bounds, both ends included.
#[derive(Clone, Copy, Debug, PartialEq, Eq, Structural)]
pub struct Block {
    pub sheet_id: SheetId,
    pub start_row: u32,
    pub start_col: u32,
    pub end_row: u32,
    pub end_col: u32,
}

impl Block {
    pub open spec fn is_empty(self) -> bool {
        self.end_row < self.start_row || self.end_col < self.start_col
    }

    /// How many rows the block has.
    pub open spec fn height(self) -> int {
        self.end_row - self.start_row + 1
    }

    pub open spec fn width(self) -> int {
        self.end_col - self.start_col + 1
    }
}

/// How the cells of a block are handed out.
#[derive(Clone, Copy, Debug, PartialEq, Eq, Structural)]
pub enum BlockView {
    /// No cells at all.
    Nothing,
    /// The values of the cells, read one by one.
    Read(Block),
    /// An empty window on the storage of the sheet.
    EmptyWindow,
    /// A window on the storage of the sheet, from a zero-based cell to another.
    Window { start_row: u32, start_col: u32, end_row: u32, end_col: u32 },
}

/// How a block is handed out: read one by one where values are wanted and they are not too many,
/// and else as a window on the storage.
pub open spec fn block_view(b: Block, materialize: bool, max_cells: u32, has_storage: bool) -> BlockView {
    if materialize && b.is_empty() {
        BlockView::Nothing
    } else if materialize && b.height() * b.width() <= max_cells {
        BlockView::Read(b)
    } else if !has_storage {
        BlockView::Nothing
    } else if b.is_empty() {
        BlockView::EmptyWindow
    } else {
        BlockView::Window {
            start_row: crate::used_bounds::zero_based(b.start_row),
            start_col: crate::used_bounds::zero_based(b.start_col),
            end_row: crate::used_bounds::zero_based(b.end_row),
            end_col: crate::used_bounds::zero_based(b.end_col),
        }
    }
}

pub fn view_block(b: Block, materialize: bool, max_spill_cells: u32, has_storage: bool) -> (r: BlockView)
    ensures
        r == block_view(b, materialize, max_spill_cells, has_storage),
{
    let empty = b.end_row < b.start_row || b.end_col < b.start_col;
    if materialize {
        if empty {
            return BlockView::Nothing;
        }
        let h: u128 = (b.end_row - b.start_row) as u128 + 1;
        let w: u128 = (b.end_col - b.start_col) as u128 + 1;
        assert(h * w <= 0x1_0000_0000 * 0x1_0000_0000) by (nonlinear_arith)
            requires
                0 <= h <= 0x1_0000_0000,
                0 <= w <= 0x1_0000_0000,
        ;
        if h * w <= max_spill_cells as u128 {
            return BlockView::Read(b);
        }
    }
    if !has_storage {
        return BlockView::Nothing;
    }
    if empty {
        BlockView::EmptyWindow
    } else {
        BlockView::Window {
            start_row: b.start_row.saturating_sub(1),
            start_col: b.start_col.saturating_sub(1),
            end_row: b.end_row.saturating_sub(1),
            end_col: b.end_col.saturating_sub(1),
        }
    }
}

/// How a single cell is handed out: read at once where values are wanted or the sheet has no storage,
/// and else as a window on the storage.
pub open spec fn cell_view(c: CellRef, materialize: bool, has_storage: bool) -> BlockView {
    if materialize || !has_storage {
        BlockView::Read(
            Block {
                sheet_id: c.sheet_id,
                start_row: (c.row + 1) as u32,
                start_col: (c.col + 1) as u32,
                end_row: (c.row + 1) as u32,
                end_col: (c.col + 1) as u32,
            },
        )
    } else {
        BlockView::Window { start_row: c.row, start_col: c.col, end_row: c.row, end_col: c.col }
    }
}

pub fn view_cell(c: CellRef, materialize: bool, has_storage: bool) -> (r: BlockView)
    requires
        c.row < u32::MAX,
        c.col < u32::MAX,
    ensures
        r == cell_view(c, materialize, has_storage),
{
    if materialize || !has_storage {
        let (row, col) = (c.row + 1, c.col + 1);
        BlockView::Read(
            Block { sheet_id: c.sheet_id, start_row: row, start_col: col, end_row: row, end_col: col },
        )
    } else {
        BlockView::Window { start_row: c.row, start_col: c.col, end_row: c.row, end_col: c.col }
    }
}

/// The view of a range of values: a window on the storage, an empty one where the bounds are
/// reversed, and nothing without storage.
pub fn read_range_values(b: Block, has_storage: bool) -> (r: BlockView)
    ensures
        r == block_view(b, false, 0, has_storage),
{
    view_block(b, false, 0, has_storage)
}

/// What the cells of a block show, row by row.
pub open spec fn block_values(g: GridView, b: Block) -> Seq<Seq<ValueView>> {
    if b.is_empty() {
        Seq::empty()
    } else {
        Seq::new(
            b.height() as nat,
            |r: int|
                Seq::new(
                    b.width() as nat,
                    |c: int|
                        g.reading(
                            CellRef {
                                sheet_id: b.sheet_id,
                                row: (b.start_row + r - 1) as u32,
                                col: (b.start_col + c - 1) as u32,
                            },
                        ),
                ),
        )
    }
}

/// Reads the cells of a block.
pub fn read_block(grid: &Grid, b: Block) -> (rows: Vec<Vec<LiteralValue>>)
    requires
        grid.wf(),
        b.start_row > 0,
        b.start_col > 0,
    ensures
        rows_view(rows@) == block_values(grid@, b),
{
    let ghost goal = block_values(grid@, b);
    let mut rows: Vec<Vec<LiteralValue>> = Vec::new();
    if b.end_row < b.start_row || b.end_col < b.start_col {
        assert(rows_view(rows@) =~= goal);
        return rows;
    }
    let h: u64 = (b.end_row - b.start_row) as u64 + 1;
    let w: u64 = (b.end_col - b.start_col) as u64 + 1;
    let mut r: u64 = 0;
    while r < h
        invariant
            grid.wf(),
            b.start_row > 0,
            b.start_col > 0,
            h == b.height(),
            w == b.width(),
            !b.is_empty(),
            r <= h,
            goal == block_values(grid@, b),
            rows@.len() == r,
            forall|k: int| 0 <= k < r ==> row_view((#[trigger] rows@[k])@) == goal[k],
        decreases h - r,
    {
        let mut row: Vec<LiteralValue> = Vec::new();
        let mut c: u64 = 0;
        while c < w
            invariant
                grid.wf(),
                b.start_row > 0,
                b.start_col > 0,
                h == b.height(),
                w == b.width(),
                !b.is_empty(),
                r < h,
                c <= w,
                row@.len() == c,
                forall|k: int|
                    0 <= k < c ==> (#[trigger] row@[k])@ == grid@.reading(
                        CellRef {
                            sheet_id: b.sheet_id,
                            row: (b.start_row + r - 1) as u32,
                            col: (b.start_col + k - 1) as u32,
                        },
                    ),
            decreases w - c,
        {
            let cell = CellRef {
                sheet_id: b.sheet_id,
                row: (b.start_row as u64 + r - 1) as u32,
                col: (b.start_col as u64 + c - 1) as u32,
            };
            row.push(grid.read_cell(cell));
            c = c + 1;
        }
        assert(row_view(row@) =~= goal[r as int]);
        rows.push(row);
        r = r + 1;
    }
    assert(rows_view(rows@) =~= goal);
    rows
}

/// What a name stands for.
#[derive(Debug)]
pub enum NamedDefinition {
    Cell(CellRef),
    Range { start: CellRef, end: CellRef },
    Literal(LiteralValue),
    /// A formula, with the value that its vertex holds.
    Formula(Option<LiteralValue>),
}

/// A table of the workbook, with the positions of the columns that a reference to it names.
#[derive(Clone, Copy, Debug, PartialEq, Eq, Structural)]
pub struct TableEntry {
    pub start: CellRef,
    pub end: CellRef,
    pub header_row: bool,
    pub totals_row: bool,
    /// The position of the column, or of the first column of a column range.
    pub first_column: Option<u32>,
    /// The position of the last column of a column range.
    pub last_column: Option<u32>,
}

/// What the workbook knows about a reference.
#[derive(Debug)]
pub struct ReferenceFacts {
    /// The current sheet.
    pub current_id: Option<SheetId>,
    /// The sheet that the reference names.
    pub named_id: Option<SheetId>,
    /// Whether the bounds of the reference make a range.
    pub accepted: bool,
    /// What the name stands for.
    pub name: Option<NamedDefinition>,
    /// Whether an outside source has a single value of that name.
    pub source_scalar: bool,
    /// The table of that name.
    pub table: Option<TableEntry>,
    /// Whether an outside source has a table of that name.
    pub source_table: bool,
}

/// Where the values of a reference come from.
#[derive(Debug)]
pub enum ReferencePlan {
    /// A range of a sheet, whose open bounds are still to be filled in.
    Range { sheet_id: SheetId, bounds: OpenBounds },
    /// One cell.
    Cell(CellRef),
    /// A block that is given from corner to corner.
    Corners { start: CellRef, end: CellRef },
    /// A part of a table: zero-based bounds in the storage of the sheet.
    TablePart { sheet_id: SheetId, start_row: u64, start_col: u64, end_row: u64, end_col: u64 },
    /// No part of the table.
    NoPart { sheet_id: SheetId },
    /// A value.
    Value(LiteralValue),
    /// A value of an outside source.
    SourceScalar(String),
    /// A table of an outside source.
    SourceTable { name: String, specifier: Option<TableSpecifier> },
    /// A name that only the resolver knows.
    ForeignName(String),
    /// A table that only the resolver knows.
    ForeignTable(String),
}

/// The model of a [`ReferencePlan`].
pub enum PlanView {
    Range { sheet_id: SheetId, bounds: OpenBounds },
    Cell(CellRef),
    Corners { start: CellRef, end: CellRef },
    TablePart { sheet_id: SheetId, start_row: int, start_col: int, end_row: int, end_col: int },
    NoPart { sheet_id: SheetId },
    Value(ValueView),
    SourceScalar(Seq<char>),
    SourceTable { name: Seq<char>, specifier: Option<TableSpecifier> },
    ForeignName(Seq<char>),
    ForeignTable(Seq<char>),
}

impl ReferencePlan {
    pub open spec fn view(&self) -> PlanView {
        match *self {
            ReferencePlan::Range { sheet_id, bounds } => PlanView::Range { sheet_id, bounds },
            ReferencePlan::Cell(c) => PlanView::Cell(c),
            ReferencePlan::Corners { start, end } => PlanView::Corners { start, end },
            ReferencePlan::TablePart { sheet_id, start_row, start_col, end_row, end_col } =>
                PlanView::TablePart {
                sheet_id,
                start_row: start_row as int,
                start_col: start_col as int,
                end_row: end_row as int,
                end_col: end_col as int,
            },
            ReferencePlan::NoPart { sheet_id } => PlanView::NoPart { sheet_id },
            ReferencePlan::Value(v) => PlanView::Value(v@),
            ReferencePlan::SourceScalar(n) => PlanView::SourceScalar(n@),
            ReferencePlan::SourceTable { name, specifier } => PlanView::SourceTable {
                name: name@,
                specifier,
            },
            ReferencePlan::ForeignName(n) => PlanView::ForeignName(n@),
            ReferencePlan::ForeignTable(n) => PlanView::ForeignTable(n@),
        }
    }
}

/// The part of a table between two rows and columns, if there is anything between them.
pub open spec fn table_part(sheet_id: SheetId, sr: int, sc: int, er: int, ec: int) -> PlanView {
    if sr > er || sc > ec {
        PlanView::NoPart { sheet_id }
    } else {
        PlanView::TablePart { sheet_id, start_row: sr, start_col: sc, end_row: er, end_col: ec }
    }
}

/// The first row of the data of a table.
pub open spec fn data_start(t: TableEntry) -> int {
    if t.header_row {
        t.start.row + 1
    } else {
        t.start.row as int
    }
}

/// The last row of the data of a table.
pub open spec fn data_end(t: TableEntry) -> int {
    if t.totals_row && t.end.row > 0 {
        t.end.row - 1
    } else {
        t.end.row as int
    }
}

/// What a structured reference selects of a table.
pub open spec fn table_plan(t: TableEntry, specifier: Option<TableSpecifier>) -> Result<
    PlanView,
    ErrorView,
> {
    let sheet_id = t.start.sheet_id;
    let (sr, sc, er, ec) = (
        t.start.row as int,
        t.start.col as int,
        t.end.row as int,
        t.end.col as int,
    );
    let (dr, de) = (data_start(t), data_end(t));
    let headers = if t.header_row {
        table_part(sheet_id, sr, sc, sr, ec)
    } else {
        PlanView::NoPart { sheet_id }
    };
    let totals = if t.totals_row {
        table_part(sheet_id, er, sc, er, ec)
    } else {
        PlanView::NoPart { sheet_id }
    };
    match specifier {
        None => Err(
            error_with(ErrorKind::NImpl, "Table reference without specifier is unsupported"@),
        ),
        Some(TableSpecifier::Column(_)) => match t.first_column {
            Some(i) => Ok(table_part(sheet_id, dr, sc + i, de, sc + i)),
            None => Err(error_with(ErrorKind::Ref, "Column refers to unknown table column"@)),
        },
        Some(TableSpecifier::ColumnRange(_, _)) => match (t.first_column, t.last_column) {
            (Some(a), Some(b)) => Ok(
                if a <= b {
                    table_part(sheet_id, dr, sc + a, de, sc + b)
                } else {
                    table_part(sheet_id, dr, sc + b, de, sc + a)
                },
            ),
            _ => Err(error_with(ErrorKind::Ref, "Column range refers to unknown column(s)"@)),
        },
        Some(TableSpecifier::All) => Ok(table_part(sheet_id, sr, sc, er, ec)),
        Some(TableSpecifier::Data) => Ok(table_part(sheet_id, dr, sc, de, ec)),
        Some(TableSpecifier::Headers) => Ok(headers),
        Some(TableSpecifier::Totals) => Ok(totals),
        Some(TableSpecifier::SpecialItem(item)) => match item {
            SpecialItem::All => Ok(table_part(sheet_id, sr, sc, er, ec)),
            SpecialItem::Data => Ok(table_part(sheet_id, dr, sc, de, ec)),
            SpecialItem::Headers => Ok(headers),
            SpecialItem::Totals => Ok(totals),
            SpecialItem::ThisRow => Err(
                error_with(
                    ErrorKind::NImpl,
                    "@ (This Row) requires table-aware context; not yet supported"@,
                ),
            ),
        },
        Some(TableSpecifier::Row) | Some(TableSpecifier::Combination) => Err(
            error_with(ErrorKind::NImpl, "Complex structured references not yet supported"@),
        ),
    }
}

fn part(sheet_id: SheetId, sr: u64, sc: u64, er: u64, ec: u64) -> (r: ReferencePlan)
    ensures
        r@ == table_part(sheet_id, sr as int, sc as int, er as int, ec as int),
{
    if sr > er || sc > ec {
        ReferencePlan::NoPart { sheet_id }
    } else {
        ReferencePlan::TablePart { sheet_id, start_row: sr, start_col: sc, end_row: er, end_col: ec }
    }
}

/// Finds what a structured reference selects of a table.
pub fn resolve_table_part(t: &TableEntry, specifier: &Option<TableSpecifier>) -> (r: Result<
    ReferencePlan,
    ExcelError,
>)
    ensures
        match table_plan(*t, *specifier) {
            Ok(p) => r matches Ok(x) && x@ == p,
            Err(e) => r matches Err(x) && x@ == e,
        },
{
    let sheet_id = t.start.sheet_id;
    let sr = t.start.row as u64;
    let sc = t.start.col as u64;
    let er = t.end.row as u64;
    let ec = t.end.col as u64;
    let dr = if t.header_row {
        sr + 1
    } else {
        sr
    };
    let de = if t.totals_row {
        er.saturating_sub(1)
    } else {
        er
    };
    let item = match specifier {
        None => {
            return Err(
                ExcelError::new(ErrorKind::NImpl).with_message(
                    "Table reference without specifier is unsupported",
                ),
            );
        },
        Some(TableSpecifier::Column(_)) => {
            return match t.first_column {
                Some(i) => Ok(part(sheet_id, dr, sc + i as u64, de, sc + i as u64)),
                None => Err(
                    ExcelError::new(ErrorKind::Ref).with_message(
                        "Column refers to unknown table column",
                    ),
                ),
            };
        },
        Some(TableSpecifier::ColumnRange(_, _)) => {
            return match (t.first_column, t.last_column) {
                (Some(a), Some(b)) => {
                    if a <= b {
                        Ok(part(sheet_id, dr, sc + a as u64, de, sc + b as u64))
                    } else {
                        Ok(part(sheet_id, dr, sc + b as u64, de, sc + a as u64))
                    }
                },
                _ => Err(
                    ExcelError::new(ErrorKind::Ref).with_message(
                        "Column range refers to unknown column(s)",
                    ),
                ),
            };
        },
        Some(TableSpecifier::All) => SpecialItem::All,
        Some(TableSpecifier::Data) => SpecialItem::Data,
        Some(TableSpecifier::Headers) => SpecialItem::Headers,
        Some(TableSpecifier::Totals) => SpecialItem::Totals,
        Some(TableSpecifier::SpecialItem(i)) => *i,
        Some(TableSpecifier::Row) | Some(TableSpecifier::Combination) => {
            return Err(
                ExcelError::new(ErrorKind::NImpl).with_message(
                    "Complex structured references not yet supported",
                ),
            );
        },
    };
    match item {
        SpecialItem::All => Ok(part(sheet_id, sr, sc, er, ec)),
        SpecialItem::Data => Ok(part(sheet_id, dr, sc, de, ec)),
        SpecialItem::Headers => {
            if t.header_row {
                Ok(part(sheet_id, sr, sc, sr, ec))
            } else {
                Ok(ReferencePlan::NoPart { sheet_id })
            }
        },
        SpecialItem::Totals => {
            if t.totals_row {
                Ok(part(sheet_id, er, sc, er, ec))
            } else {
                Ok(ReferencePlan::NoPart { sheet_id })
            }
        },
        SpecialItem::ThisRow => Err(
            ExcelError::new(ErrorKind::NImpl).with_message(
                "@ (This Row) requires table-aware context; not yet supported",
            ),
        ),
    }
}

/// The bounds of a range, counted from one.
pub open spec fn open_bounds(r: SheetRange) -> OpenBounds {
    OpenBounds {
        start_row: counted(r.start_row),
        start_col: counted(r.start_col),
        end_row: counted(r.end_row),
        end_col: counted(r.end_col),
    }
}

pub open spec fn counted(b: Option<AxisBound>) -> Option<u32> {
    match b {
        Some(x) => Some((x.index + 1) as u32),
        None => None,
    }
}

fn count_from_one(b: Option<AxisBound>) -> (r: Option<u32>)
    requires
        b matches Some(x) ==> x.index < u32::MAX,
    ensures
        r == counted(b),
{
    match b {
        Some(x) => Some(x.index + 1),
        None => None,
    }
}

/// What a name stands for that the workbook defines: `None` where the name is a formula without a
/// value.
pub open spec fn named_plan(definition: NamedDefinition) -> Option<PlanView> {
    match definition {
        NamedDefinition::Cell(c) => Some(PlanView::Cell(c)),
        NamedDefinition::Range { start, end } => Some(PlanView::Corners { start, end }),
        NamedDefinition::Literal(v) => Some(PlanView::Value(v@)),
        NamedDefinition::Formula(Some(v)) => Some(PlanView::Value(v@)),
        NamedDefinition::Formula(None) => None,
    }
}

/// What a reference stands for.
pub open spec fn reference_plan(reference: ReferenceType, facts: ReferenceFacts) -> Result<
    PlanView,
    ErrorView,
> {
    match reference {
        ReferenceType::External { raw, kind } => match kind {
            ExternalRefKind::Cell => if facts.source_scalar {
                Ok(PlanView::SourceScalar(raw@))
            } else {
                Err(error_with(ErrorKind::Name, "Undefined name: "@ + raw@))
            },
            ExternalRefKind::Range => if facts.source_table {
                Ok(
                    PlanView::SourceTable {
                        name: raw@,
                        specifier: Some(TableSpecifier::Data),
                    },
                )
            } else {
                Err(error_with(ErrorKind::Name, "Undefined table: "@ + raw@))
            },
        },
        ReferenceType::Cell { .. } | ReferenceType::Range { .. } => match shared_ref(
            reference,
            facts.accepted,
            facts.current_id,
            facts.named_id,
        ) {
            Some(SheetRef::Cell(c)) => Ok(PlanView::Cell(c.cell)),
            Some(SheetRef::Range(r)) => Ok(
                PlanView::Range { sheet_id: r.sheet_id, bounds: open_bounds(r) },
            ),
            None => Err(bare_error(ErrorKind::Ref)),
        },
        ReferenceType::NamedRange(name) => {
            let defined = match facts.name {
                Some(d) if facts.current_id is Some => named_plan(d),
                _ => None,
            };
            match defined {
                Some(p) => Ok(p),
                None => if facts.source_scalar {
                    Ok(PlanView::SourceScalar(name@))
                } else {
                    Ok(PlanView::ForeignName(name@))
                },
            }
        },
        ReferenceType::Table(t) => match facts.table {
            Some(entry) => table_plan(entry, t.specifier),
            None => if facts.source_table {
                Ok(PlanView::SourceTable { name: t.name@, specifier: t.specifier })
            } else {
                Ok(PlanView::ForeignTable(t.name@))
            },
        },
        ReferenceType::Cell3D { .. } | ReferenceType::Range3D { .. } => Err(
            error_with(ErrorKind::NImpl, "3D references are not yet supported"@),
        ),
    }
}

fn prefixed(prefix: &str, name: &String) -> (r: String)
    ensures
        r@ == prefix@ + name@,
{
    let mut out = prefix.to_string();
    out.append(name.as_str());
    out
}

fn copy_specifier(s: &Option<TableSpecifier>) -> (r: Option<TableSpecifier>)
    ensures
        r == *s,
{
    match s {
        Some(x) => Some(x.duplicate()),
        None => None,
    }
}

/// Finds where the values of a reference come from.
pub fn resolve_range_view(reference: &ReferenceType, facts: &ReferenceFacts) -> (r: Result<
    ReferencePlan,
    ExcelError,
>)
    ensures
        match reference_plan(*reference, *facts) {
            Ok(p) => r matches Ok(x) && x@ == p,
            Err(e) => r matches Err(x) && x@ == e,
        },
{
    match reference {
        ReferenceType::External { raw, kind } => match kind {
            ExternalRefKind::Cell => {
                if facts.source_scalar {
                    Ok(ReferencePlan::SourceScalar(raw.clone()))
                } else {
                    let message = prefixed("Undefined name: ", raw);
                    Err(ExcelError::new(ErrorKind::Name).with_message(message.as_str()))
                }
            },
            ExternalRefKind::Range => {
                if facts.source_table {
                    Ok(
                        ReferencePlan::SourceTable {
                            name: raw.clone(),
                            specifier: Some(TableSpecifier::Data),
                        },
                    )
                } else {
                    let message = prefixed("Undefined table: ", raw);
                    Err(ExcelError::new(ErrorKind::Name).with_message(message.as_str()))
                }
            },
        },
        ReferenceType::Cell { .. } | ReferenceType::Range { .. } => {
            match resolve_shared_ref(
                reference,
                facts.accepted,
                facts.current_id,
                facts.named_id,
            ) {
                Ok(SheetRef::Cell(c)) => Ok(ReferencePlan::Cell(c.cell)),
                Ok(SheetRef::Range(r)) => {
                    let bounds = OpenBounds {
                        start_row: count_from_one(r.start_row),
                        start_col: count_from_one(r.start_col),
                        end_row: count_from_one(r.end_row),
                        end_col: count_from_one(r.end_col),
                    };
                    Ok(ReferencePlan::Range { sheet_id: r.sheet_id, bounds })
                },
                Err(e) => Err(e),
            }
        },
        ReferenceType::NamedRange(name) => {
            if facts.current_id.is_some() {
                match &facts.name {
                    Some(NamedDefinition::Cell(c)) => {
                        return Ok(ReferencePlan::Cell(*c));
                    },
                    Some(NamedDefinition::Range { start, end }) => {
                        return Ok(ReferencePlan::Corners { start: *start, end: *end });
                    },
                    Some(NamedDefinition::Literal(v)) => {
                        return Ok(ReferencePlan::Value(v.duplicate()));
                    },
                    Some(NamedDefinition::Formula(Some(v))) => {
                        return Ok(ReferencePlan::Value(v.duplicate()));
                    },
                    _ => {},
                }
            }
            if facts.source_scalar {
                Ok(ReferencePlan::SourceScalar(name.clone()))
            } else {
                Ok(ReferencePlan::ForeignName(name.clone()))
            }
        },
        ReferenceType::Table(t) => match &facts.table {
            Some(entry) => resolve_table_part(entry, &t.specifier),
            None => {
                if facts.source_table {
                    Ok(
                        ReferencePlan::SourceTable {
                            name: t.name.clone(),
                            specifier: copy_specifier(&t.specifier),
                        },
                    )
                } else {
                    Ok(ReferencePlan::ForeignTable(t.name.clone()))
                }
            },
        },
        ReferenceType::Cell3D { .. } | ReferenceType::Range3D { .. } => Err(
            ExcelError::new(ErrorKind::NImpl).with_message("3D references are not yet supported"),
        ),
    }
}

/// Whether every place of the reference can be counted from one.
pub open spec fn is_countable(r: SheetRef) -> bool {
    match r {
        SheetRef::Cell(c) => c.cell.row < u32::MAX && c.cell.col < u32::MAX,
        SheetRef::Range(b) => {
            &&& b.start_row matches Some(x) ==> x.index < u32::MAX
            &&& b.start_col matches Some(x) ==> x.index < u32::MAX
            &&& b.end_row matches Some(x) ==> x.index < u32::MAX
            &&& b.end_col matches Some(x) ==> x.index < u32::MAX
        },
    }
}

/// The reference as it is written, with its places counted from one.
pub open spec fn written_out(sheet: Option<String>, r: SheetRef) -> ReferenceType {
    match r {
        SheetRef::Cell(c) => ReferenceType::Cell {
            sheet,
            row: (c.cell.row + 1) as u32,
            col: (c.cell.col + 1) as u32,
            row_abs: c.row_abs,
            col_abs: c.col_abs,
        },
        SheetRef::Range(b) => ReferenceType::Range {
            sheet,
            start_row: counted(b.start_row),
            start_col: counted(b.start_col),
            end_row: counted(b.end_row),
            end_col: counted(b.end_col),
            start_row_abs: is_abs(b.start_row),
            start_col_abs: is_abs(b.start_col),
            end_row_abs: is_abs(b.end_row),
            end_col_abs: is_abs(b.end_col),
        },
    }
}

/// The parsed form of a reference to a cell or range whose sheet is given by name or left out.
pub fn reference_of(sheet: Option<String>, r: &SheetRef) -> (x: ReferenceType)
    requires
        is_countable(*r),
    ensures
        x == written_out(sheet, *r),
{
    match r {
        SheetRef::Cell(c) => ReferenceType::Cell {
            sheet,
            row: c.cell.row + 1,
            col: c.cell.col + 1,
            row_abs: c.row_abs,
            col_abs: c.col_abs,
        },
        SheetRef::Range(b) => ReferenceType::Range {
            sheet,
            start_row: count_from_one(b.start_row),
            start_col: count_from_one(b.start_col),
            end_row: count_from_one(b.end_row),
            end_col: count_from_one(b.end_col),
            start_row_abs: absolute(b.start_row),
            start_col_abs: absolute(b.start_col),
            end_row_abs: absolute(b.end_row),
            end_col_abs: absolute(b.end_col),
        },
    }
}

/// Plans how a reference with a resolved place is read: as the reference that is written so. `sheet`
/// is the name of its sheet, or nothing where that is the sheet that it stands on.
pub fn resolve_range_view_sheet_ref(sheet: Option<String>, r: &SheetRef, facts: &ReferenceFacts) -> (x:
    Result<ReferencePlan, ExcelError>)
    requires
        is_countable(*r),
    ensures
        match reference_plan(written_out(sheet, *r), *facts) {
            Ok(p) => x matches Ok(plan) && plan@ == p,
            Err(e) => x matches Err(err) && err@ == e,
        },
{
    let reference = reference_of(sheet, r);
    resolve_range_view(&reference, facts)
}

pub open spec fn is_abs(b: Option<AxisBound>) -> bool {
    b matches Some(x) && x.abs
}

fn absolute(b: Option<AxisBound>) -> (r: bool)
    ensures
        r == is_abs(b),
{
    match b {
        Some(x) => x.abs,
        None => false,
    }
}

/// Writing a resolved reference out and resolving it again on the same sheet gives it back.
pub proof fn references_survive_a_round_trip(r: SheetRef, sheet_id: SheetId, reference: ReferenceType)
    requires
        is_countable(r),
        match r {
            SheetRef::Cell(c) => c.cell.sheet_id == sheet_id,
            SheetRef::Range(b) => b.sheet_id == sheet_id,
        },
        reference == written_out(None, r),
    ensures
        shared_ref(reference, true, Some(sheet_id), None) == Some(r),
{
}

/// What is known of a reference without reading it.
#[derive(Clone, Copy, Debug, PartialEq, Eq, Structural)]
pub struct ReferenceInfo {
    pub first_sheet_index: Option<usize>,
    pub sheet_count: Option<usize>,
    pub first_cell: Option<CellRef>,
}

/// What the workbook knows about the sheets that a reference speaks of.
#[derive(Debug)]
pub struct InspectFacts {
    /// The sheet of the reference, or its first sheet: the one that it names, or the current one.
    pub sheet_id: Option<SheetId>,
    /// The position of that sheet among those in use.
    pub sheet_index: Option<usize>,
    /// How many sheets lie between the first and the last one.
    pub span_len: Option<usize>,
    /// The current sheet.
    pub current_id: Option<SheetId>,
    /// What the name stands for.
    pub name: Option<NamedDefinition>,
    /// The position of the sheet that the name or the table stands on.
    pub target_index: Option<usize>,
    /// The first cell of the table.
    pub table_start: Option<CellRef>,
}

/// The first cell of a reference with one-based indices, and the position of its sheet.
pub open spec fn cell_info(facts: InspectFacts, row: u32, col: u32) -> Option<(usize, CellRef)> {
    match (facts.sheet_id, facts.sheet_index) {
        (Some(sheet_id), Some(index)) if row > 0 && col > 0 => Some(
            (index, CellRef { sheet_id, row: (row - 1) as u32, col: (col - 1) as u32 }),
        ),
        _ => None,
    }
}

/// What is known of a reference; `None` where it refers to nothing.
pub open spec fn reference_info(reference: ReferenceType, facts: InspectFacts) -> Option<
    ReferenceInfo,
> {
    match reference {
        ReferenceType::Cell { row, col, .. } => single_info(cell_info(facts, row, col), Some(1)),
        ReferenceType::Range { start_row, start_col, .. } => single_info(
            cell_info(facts, or_else(start_row, 1), or_else(start_col, 1)),
            Some(1),
        ),
        ReferenceType::Cell3D { row, col, .. } => single_info(
            cell_info(facts, row, col),
            facts.span_len,
        ),
        ReferenceType::Range3D { start_row, start_col, .. } => single_info(
            cell_info(facts, or_else(start_row, 1), or_else(start_col, 1)),
            facts.span_len,
        ),
        ReferenceType::NamedRange(_) => match facts.name {
            Some(d) if facts.current_id is Some => Some(
                match d {
                    NamedDefinition::Cell(cell) => ReferenceInfo {
                        first_sheet_index: facts.target_index,
                        sheet_count: Some(1),
                        first_cell: Some(cell),
                    },
                    NamedDefinition::Range { start, .. } => ReferenceInfo {
                        first_sheet_index: facts.target_index,
                        sheet_count: Some(1),
                        first_cell: Some(start),
                    },
                    _ => ReferenceInfo {
                        first_sheet_index: None,
                        sheet_count: None,
                        first_cell: None,
                    },
                },
            ),
            _ => None,
        },
        ReferenceType::Table(_) => match facts.table_start {
            Some(start) => Some(
                ReferenceInfo {
                    first_sheet_index: facts.target_index,
                    sheet_count: Some(1),
                    first_cell: Some(start),
                },
            ),
            None => None,
        },
        ReferenceType::External { .. } => None,
    }
}

pub open spec fn single_info(first: Option<(usize, CellRef)>, sheet_count: Option<usize>) -> Option<
    ReferenceInfo,
> {
    match first {
        Some((index, cell)) => Some(
            ReferenceInfo {
                first_sheet_index: Some(index),
                sheet_count,
                first_cell: Some(cell),
            },
        ),
        None => None,
    }
}

fn first_cell(facts: &InspectFacts, row: u32, col: u32, sheet_count: Option<usize>) -> (r: Result<
    ReferenceInfo,
    ExcelError,
>)
    ensures
        match single_info(cell_info(*facts, row, col), sheet_count) {
            Some(x) => r == Ok::<ReferenceInfo, ExcelError>(x),
            None => r matches Err(e) && e@ == bare_error(ErrorKind::Ref),
        },
{
    match (facts.sheet_id, facts.sheet_index) {
        (Some(sheet_id), Some(index)) => {
            if row == 0 || col == 0 {
                return Err(ExcelError::new(ErrorKind::Ref));
            }
            Ok(
                ReferenceInfo {
                    first_sheet_index: Some(index),
                    sheet_count,
                    first_cell: Some(CellRef { sheet_id, row: row - 1, col: col - 1 }),
                },
            )
        },
        _ => Err(ExcelError::new(ErrorKind::Ref)),
    }
}

/// Tells what is known of a reference without reading it.
pub fn inspect_reference(reference: &ReferenceType, facts: &InspectFacts) -> (r: Result<
    ReferenceInfo,
    ExcelError,
>)
    ensures
        match reference_info(*reference, *facts) {
            Some(x) => r == Ok::<ReferenceInfo, ExcelError>(x),
            None => r matches Err(e) && e@ == bare_error(ErrorKind::Ref),
        },
{
    match reference {
        ReferenceType::Cell { row, col, .. } => first_cell(facts, *row, *col, Some(1)),
        ReferenceType::Range { start_row, start_col, .. } => first_cell(
            facts,
            pick(*start_row, 1),
            pick(*start_col, 1),
            Some(1),
        ),
        ReferenceType::Cell3D { row, col, .. } => first_cell(facts, *row, *col, facts.span_len),
        ReferenceType::Range3D { start_row, start_col, .. } => first_cell(
            facts,
            pick(*start_row, 1),
            pick(*start_col, 1),
            facts.span_len,
        ),
        ReferenceType::NamedRange(_) => {
            if facts.current_id.is_none() {
                return Err(ExcelError::new(ErrorKind::Ref));
            }
            match &facts.name {
                Some(NamedDefinition::Cell(cell)) => Ok(
                    ReferenceInfo {
                        first_sheet_index: facts.target_index,
                        sheet_count: Some(1),
                        first_cell: Some(*cell),
                    },
                ),
                Some(NamedDefinition::Range { start, .. }) => Ok(
                    ReferenceInfo {
                        first_sheet_index: facts.target_index,
                        sheet_count: Some(1),
                        first_cell: Some(*start),
                    },
                ),
                Some(_) => Ok(
                    ReferenceInfo { first_sheet_index: None, sheet_count: None, first_cell: None },
                ),
                None => Err(ExcelError::new(ErrorKind::Ref)),
            }
        },
        ReferenceType::Table(_) => match facts.table_start {
            Some(start) => Ok(
                ReferenceInfo {
                    first_sheet_index: facts.target_index,
                    sheet_count: Some(1),
                    first_cell: Some(start),
                },
            ),
            None => Err(ExcelError::new(ErrorKind::Ref)),
        },
        ReferenceType::External { .. } => Err(ExcelError::new(ErrorKind::Ref)),
    }
}

/// The sheet that a locator names for reading, if there is one.
pub open spec fn read_sheet(
    loc: SheetLocator,
    current_id: Option<SheetId>,
    named_id: Option<SheetId>,
) -> Option<SheetId> {
    match loc {
        SheetLocator::Id(id) => Some(id),
        SheetLocator::Name(_) => named_id,
        SheetLocator::Current => current_id,
    }
}

/// Finds the sheet that a locator names for reading; an unknown one is an error.
pub fn resolve_sheet_locator_for_read(
    loc: &SheetLocator,
    current_id: Option<SheetId>,
    named_id: Option<SheetId>,
) -> (r: Result<SheetId, ExcelError>)
    ensures
        match read_sheet(*loc, current_id, named_id) {
            Some(id) => r == Ok::<SheetId, ExcelError>(id),
            None => r matches Err(e) && e@ == bare_error(ErrorKind::Ref),
        },
{
    let found = match loc {
        SheetLocator::Id(id) => Some(*id),
        SheetLocator::Name(_) => named_id,
        SheetLocator::Current => current_id,
    };
    match found {
        Some(id) => Ok(id),
        None => Err(ExcelError::new(ErrorKind::Ref)),
    }
}

/// The sheet that a locator names for writing, where a named sheet is made if there is none.
pub open spec fn written_sheet(loc: SheetLocator, current_id: SheetId, named_id: SheetId) -> SheetId {
    match loc {
        SheetLocator::Id(id) => id,
        SheetLocator::Name(_) => named_id,
        SheetLocator::Current => current_id,
    }
}

/// Finds the sheet that a locator names for writing, where a named sheet is made if there is none.
pub fn resolve_sheet_locator_for_write(loc: &SheetLocator, current_id: SheetId, named_id: SheetId) -> (r:
    SheetId)
    ensures
        r == written_sheet(*loc, current_id, named_id),
{
    match loc {
        SheetLocator::Id(id) => *id,
        SheetLocator::Name(_) => named_id,
        SheetLocator::Current => current_id,
    }
}

/// What a reference to a cell comes to that names its sheet: what the cell shows, or zero where that
/// is nothing.
pub open spec fn cell_or_zero(s: StoreView, sheet_id: Option<SheetId>, row: u32, col: u32) -> ValueView {
    match sheet_id {
        Some(id) => match read(s, at_1_based(id, row, col)) {
            ValueView::Empty => ValueView::Number(ZERO_BITS),
            v => v,
        },
        None => ValueView::Number(ZERO_BITS),
    }
}

/// Reads a cell by its one-based address for a reference without a formula around it. The sheet has
/// to be named; a cell that shows nothing counts as zero, and so does one of an unknown sheet.
/// `sheet` tells whether a sheet is named, and which one that is.
pub fn resolve_cell_reference(
    store: &CellStore,
    sheet: Option<Option<SheetId>>,
    row: u32,
    col: u32,
) -> (r: Result<LiteralValue, ExcelError>)
    requires
        store.wf(),
    ensures
        match sheet {
            Some(sheet_id) => r matches Ok(v) && v@ == cell_or_zero(store@, sheet_id, row, col),
            None => r matches Err(e) && e@ == error_with(
                ErrorKind::Ref,
                "Unqualified cell reference resolved without sheet context"@,
            ),
        },
{
    match sheet {
        Some(sheet_id) => {
            if let Some(id) = sheet_id {
                if let Some(v) = store.get_cell_value(id, row, col) {
                    return Ok(v);
                }
            }
            Ok(LiteralValue::Number(ZERO_BITS))
        },
        None => Err(
            ExcelError::new(ErrorKind::Ref).with_message(
                "Unqualified cell reference resolved without sheet context",
            ),
        ),
    }
}

/// Reads a cell by its one-based address for a formula. `sheet_id` is the sheet that the reference
/// names, or the current one; an unknown one is refused.
pub fn resolve_cell_reference_value(
    store: &CellStore,
    sheet_id: Option<SheetId>,
    row: u32,
    col: u32,
) -> (r: Result<LiteralValue, ExcelError>)
    requires
        store.wf(),
    ensures
        match sheet_id {
            Some(id) => r matches Ok(v) && v@ == read(store@, at_1_based(id, row, col)),
            None => r matches Err(e) && e@ == bare_error(ErrorKind::Ref),
        },
{
    match sheet_id {
        Some(id) => match store.get_cell_value(id, row, col) {
            Some(v) => Ok(v),
            None => Ok(LiteralValue::Empty),
        },
        None => Err(ExcelError::new(ErrorKind::Ref)),
    }
}

/// The error of an address whose cell part cannot be read.
pub open spec fn bad_address(cell_part: Seq<char>, reason: Seq<char>) -> ErrorView {
    error_with(ErrorKind::Ref, "Invalid cell reference `"@ + cell_part + "`: "@ + reason)
}

/// Reads an address: the sheet is the one in front of the exclamation mark, or the default one.
/// `parsed` is what reading the cell part gave.
pub fn parse_a1_notation(address: &str, default_sheet: &str, parsed: Result<(u32, u32), String>) -> (r:
    Result<(String, u32, u32), ExcelError>)
    ensures
        ({
            let (sheet, cell_part) = address_parts(address@);
            match parsed {
                Ok((row, col)) => r matches Ok((s, x, y)) && x == row && y == col && s@ == (
                match sheet {
                    Some(name) => name,
                    None => default_sheet@,
                }),
                Err(reason) => r matches Err(e) && e@ == bad_address(cell_part, reason@),
            }
        }),
{
    let (sheet, cell_part) = split_address(address);
    match parsed {
        Ok((row, col)) => match sheet {
            Some(name) => Ok((name, row, col)),
            None => Ok((default_sheet.to_string(), row, col)),
        },
        Err(reason) => {
            let mut message = "Invalid cell reference `".to_string();
            message.append(cell_part.as_str());
            message.append("`: ");
            message.append(reason.as_str());
            Err(ExcelError::new(ErrorKind::Ref).with_message(message.as_str()))
        },
    }
}

/// A row of a table is part of its data exactly where it is neither its header row nor its totals row,
/// and the data has all the columns that are selected: one, those between two, or all.
pub proof fn the_data_of_a_table_are_its_other_rows(
    t: TableEntry,
    specifier: TableSpecifier,
    row: int,
    col: int,
)
    requires
        t.start.row <= t.end.row,
        t.start.col <= t.end.col,
        t.totals_row ==> t.end.row > 0,
        specifier is Column || specifier is ColumnRange || specifier is Data || specifier
            == TableSpecifier::SpecialItem(SpecialItem::Data),
        specifier is Column ==> t.first_column is Some,
        specifier is ColumnRange ==> t.first_column is Some && t.last_column is Some,
    ensures
        ({
            let here = {
                &&& t.start.row <= row <= t.end.row
                &&& !(t.header_row && row == t.start.row)
                &&& !(t.totals_row && row == t.end.row)
                &&& if specifier is Column {
                    col == t.start.col + t.first_column->0
                } else if specifier is ColumnRange {
                    (t.start.col + t.first_column->0 <= col <= t.start.col + t.last_column->0) || (
                    t.start.col + t.last_column->0 <= col <= t.start.col + t.first_column->0)
                } else {
                    t.start.col <= col <= t.end.col
                }
            };
            match table_plan(t, Some(specifier)) {
                Ok(PlanView::TablePart { sheet_id, start_row, start_col, end_row, end_col }) => {
                    &&& sheet_id == t.start.sheet_id
                    &&& here <==> start_row <= row <= end_row && start_col <= col <= end_col
                },
                Ok(PlanView::NoPart { sheet_id }) => sheet_id == t.start.sheet_id && !here,
                _ => false,
            }
        }),
{
}

/// The other parts of a table: all of it, its header row and its totals row, where it has them.
pub proof fn the_parts_of_a_table(t: TableEntry, specifier: TableSpecifier, row: int, col: int)
    requires
        t.start.row <= t.end.row,
        t.start.col <= t.end.col,
        specifier is All || specifier is Headers || specifier is Totals || (
        specifier matches TableSpecifier::SpecialItem(i) && (i == SpecialItem::All || i
            == SpecialItem::Headers || i == SpecialItem::Totals)),
    ensures
        ({
            let all = specifier is All || specifier == TableSpecifier::SpecialItem(SpecialItem::All);
            let headers = specifier is Headers || specifier == TableSpecifier::SpecialItem(
                SpecialItem::Headers,
            );
            let here = {
                &&& t.start.col <= col <= t.end.col
                &&& if all {
                    t.start.row <= row <= t.end.row
                } else if headers {
                    t.header_row && row == t.start.row
                } else {
                    t.totals_row && row == t.end.row
                }
            };
            match table_plan(t, Some(specifier)) {
                Ok(PlanView::TablePart { sheet_id, start_row, start_col, end_row, end_col }) => {
                    &&& sheet_id == t.start.sheet_id
                    &&& here <==> start_row <= row <= end_row && start_col <= col <= end_col
                },
                Ok(PlanView::NoPart { sheet_id }) => sheet_id == t.start.sheet_id && !here,
                _ => false,
            }
        }),
{
}

/// What a structured reference cannot be resolved to: columns that the table lacks, and forms that are
/// not supported.
pub proof fn unknown_parts_of_a_table_are_refused(t: TableEntry, specifier: Option<TableSpecifier>)
    ensures
        specifier matches Some(TableSpecifier::Column(_)) ==> (t.first_column is None <==> table_plan(
            t,
            specifier,
        ) is Err),
        specifier matches Some(TableSpecifier::ColumnRange(_, _)) ==> (t.first_column is None
            || t.last_column is None <==> table_plan(t, specifier) is Err),
        table_plan(t, specifier) matches Err(e) ==> e.kind == (if specifier matches Some(
            TableSpecifier::Column(_),
        ) || specifier matches Some(TableSpecifier::ColumnRange(_, _)) {
            ErrorKind::Ref
        } else {
            ErrorKind::NImpl
        }),
        specifier is None || specifier == Some(TableSpecifier::Row) || specifier == Some(
            TableSpecifier::Combination,
        ) || specifier == Some(TableSpecifier::SpecialItem(SpecialItem::ThisRow)) ==> table_plan(
            t,
            specifier,
        ) is Err,
{
}

/// A cell reference names the cell one row and one column less, since references count from one; it has
/// no cell where the row or the column is zero, where the sheet that it names is unknown, or where the
/// current one is.
pub proof fn cell_references_name_their_cells(
    sheet: Option<String>,
    row: u32,
    col: u32,
    row_abs: bool,
    col_abs: bool,
    accepted: bool,
    current_id: Option<SheetId>,
    named_id: Option<SheetId>,
)
    ensures
        ({
            let r = shared_ref(
                ReferenceType::Cell { sheet, row, col, row_abs, col_abs },
                accepted,
                current_id,
                named_id,
            );
            let wanted = if sheet is Some {
                named_id
            } else {
                current_id
            };
            if row >= 1 && col >= 1 && current_id is Some && wanted is Some {
                r matches Some(SheetRef::Cell(c)) && c.cell.sheet_id == wanted->Some_0 && c.cell.row + 1 == row
                    && c.cell.col + 1 == col && c.row_abs == row_abs && c.col_abs == col_abs
            } else {
                r is None
            }
        }),
{
}

/// Open bounds are settled by the used region: a missing first row or column is the first one, a missing
/// last one the last that is used, or the last of the sheet where nothing is used; given bounds are kept.
pub proof fn open_bounds_are_settled_by_what_is_used(b: OpenBounds, used: Option<Bounds>, max: u32)
    ensures
        b.with_rows(used, max).start_row == (if b.start_row is Some {
            b.start_row
        } else {
            Some(1u32)
        }),
        b.with_cols(used, max).start_col == (if b.start_col is Some {
            b.start_col
        } else {
            Some(1u32)
        }),
        used matches Some((_, last)) ==> b.with_rows(used, max).end_row == Some(last) && b.with_cols(
            used,
            max,
        ).end_col == Some(last),
        used is None ==> b.with_rows(used, max).end_row == Some(max) && b.with_cols(used, max).end_col
            == Some(max),
        b.with_rows(used, max).start_col == b.start_col && b.with_rows(used, max).end_col == b.end_col,
        b.with_cols(used, max).start_row == b.start_row && b.with_cols(used, max).end_row == b.end_row,
{
}

/// What is asked to settle open bounds: rows where both rows or the last one are missing, in the
/// columns given; columns likewise; nothing where both ends are given.
pub proof fn missing_ends_are_asked_for(b: OpenBounds)
    ensures
        b.end_row is Some && b.end_col is Some ==> b.question() is Settled,
        b.start_row is None && b.end_row is None ==> b.question() is RowsOf,
        b.end_row is None && (b.start_col is Some || b.end_col is Some) ==> (b.question() matches
            BoundsQuestion::RowsOf { start_col, end_col } && (b.start_col matches Some(c) ==> start_col == c) && (
        b.start_col is None ==> start_col == 1) && (b.end_col matches Some(c) ==> end_col == c) && (
        b.end_col is None ==> end_col == start_col)),
        b.end_col is None && b.end_row is Some ==> (b.question() matches BoundsQuestion::ColsOf {
            start_row,
            end_row,
        } && (b.start_row matches Some(r) ==> start_row == r) && (b.start_row is None ==> start_row == 1) && (
        b.end_row matches Some(r) ==> end_row == r)),
{
}

/// A block is read where it is small enough, cell by cell, and else handed out as a window on the
/// storage from its first to its last cell, counted from zero; an empty one has no cells.
pub proof fn blocks_are_read_or_windowed(b: Block, materialize: bool, max_cells: u32, has_storage: bool)
    ensures
        ({
            let v = block_view(b, materialize, max_cells, has_storage);
            let empty = b.end_row < b.start_row || b.end_col < b.start_col;
            let count = (b.end_row - b.start_row + 1) * (b.end_col - b.start_col + 1);
            &&& materialize && empty ==> v is Nothing
            &&& materialize && !empty && count <= max_cells ==> v == BlockView::Read(b)
            &&& !materialize && empty && has_storage ==> v is EmptyWindow
            &&& (!materialize || (!empty && count > max_cells)) && !has_storage ==> v is Nothing
            &&& (!materialize || count > max_cells) && !empty && has_storage && b.start_row > 0 && b.start_col
                > 0 ==> v == (BlockView::Window {
                start_row: (b.start_row - 1) as u32,
                start_col: (b.start_col - 1) as u32,
                end_row: (b.end_row - 1) as u32,
                end_col: (b.end_col - 1) as u32,
            })
        }),
{
}

/// The values of a block are what its cells show, row by row; all of its rows and columns are there.
pub proof fn blocks_hold_the_values_of_their_cells(g: GridView, b: Block, row: u32, col: u32)
    requires
        1 <= b.start_row <= row <= b.end_row,
        1 <= b.start_col <= col <= b.end_col,
    ensures
        ({
            let rows = block_values(g, b);
            &&& rows.len() == b.end_row - b.start_row + 1
            &&& rows[row - b.start_row].len() == b.end_col - b.start_col + 1
            &&& rows[row - b.start_row][col - b.start_col] == g.reading(
                CellRef { sheet_id: b.sheet_id, row: (row - 1) as u32, col: (col - 1) as u32 },
            )
        }),
{
}

/// A name stands for the cell, the range or the value that it was defined as; one of a formula for the
/// value of the formula, where that is known.
pub proof fn names_stand_for_what_they_were_defined_as(
    name: String,
    facts: ReferenceFacts,
)
    ensures
        ({
            let r = reference_plan(ReferenceType::NamedRange(name), facts);
            let known = facts.current_id is Some;
            &&& facts.name matches Some(NamedDefinition::Cell(c)) ==> known ==> r == Ok::<PlanView, ErrorView>(
                PlanView::Cell(c),
            )
            &&& facts.name matches Some(NamedDefinition::Range { start, end }) ==> known ==> r == Ok::<
                PlanView,
                ErrorView,
            >(PlanView::Corners { start, end })
            &&& facts.name matches Some(NamedDefinition::Literal(v)) ==> known ==> r == Ok::<
                PlanView,
                ErrorView,
            >(PlanView::Value(v@))
            &&& facts.name matches Some(NamedDefinition::Formula(Some(v))) ==> known ==> r == Ok::<
                PlanView,
                ErrorView,
            >(PlanView::Value(v@))
            &&& facts.name is None || !known ==> r == Ok::<PlanView, ErrorView>(
                if facts.source_scalar {
                    PlanView::SourceScalar(name@)
                } else {
                    PlanView::ForeignName(name@)
                },
            )
        }),
{
}

/// A reference to a sheet by its number means that sheet, one by name the sheet of that name, and one to
/// the current sheet the current one.
pub proof fn locators_name_their_sheets(
    id: SheetId,
    name: String,
    current_id: Option<SheetId>,
    named_id: Option<SheetId>,
    current: SheetId,
    named: SheetId,
)
    ensures
        read_sheet(SheetLocator::Id(id), current_id, named_id) == Some(id),
        read_sheet(SheetLocator::Name(name), current_id, named_id) == named_id,
        read_sheet(SheetLocator::Current, current_id, named_id) == current_id,
        written_sheet(SheetLocator::Id(id), current, named) == id,
        written_sheet(SheetLocator::Name(name), current, named) == named,
        written_sheet(SheetLocator::Current, current, named) == current,
{
}

/// A referenced cell has the value that the storage shows, and zero where that is empty or the sheet is
/// unknown.
pub proof fn empty_cells_are_referenced_as_zero(s: StoreView, id: SheetId, row: u32, col: u32)
    requires
        row > 0,
        col > 0,
    ensures
        cell_or_zero(s, None, row, col) == ValueView::Number(0),
        ({
            let v = read(s, CellRef { sheet_id: id, row: (row - 1) as u32, col: (col - 1) as u32 });
            &&& v == ValueView::Empty ==> cell_or_zero(s, Some(id), row, col) == ValueView::Number(0)
            &&& v != ValueView::Empty ==> cell_or_zero(s, Some(id), row, col) == v
        }),
{
}

/// What is said of a reference: its first cell and the position of its first sheet, one sheet for what
/// lies on one and as many as it spans for one across sheets; nothing of outside references, nor where
/// the first row or column is zero or the sheet is unknown.
pub proof fn references_are_described_by_their_first_cell(
    reference: ReferenceType,
    facts: InspectFacts,
)
    ensures
        ({
            let r = reference_info(reference, facts);
            let known = facts.sheet_id is Some && facts.sheet_index is Some;
            let first = |row: u32, col: u32|
                CellRef { sheet_id: facts.sheet_id->Some_0, row: (row - 1) as u32, col: (col - 1) as u32 };
            &&& reference matches ReferenceType::Cell { row, col, .. } ==> if known && row > 0 && col > 0 {
                r == Some(
                    ReferenceInfo {
                        first_sheet_index: facts.sheet_index,
                        sheet_count: Some(1),
                        first_cell: Some(first(row, col)),
                    },
                )
            } else {
                r is None
            }
            &&& reference matches ReferenceType::Cell3D { row, col, .. } ==> if known && row > 0 && col > 0 {
                r == Some(
                    ReferenceInfo {
                        first_sheet_index: facts.sheet_index,
                        sheet_count: facts.span_len,
                        first_cell: Some(first(row, col)),
                    },
                )
            } else {
                r is None
            }
            &&& reference matches ReferenceType::Range {
                start_row: Some(row),
                start_col: Some(col),
                ..
            } ==> if known && row > 0 && col > 0 {
                r == Some(
                    ReferenceInfo {
                        first_sheet_index: facts.sheet_index,
                        sheet_count: Some(1),
                        first_cell: Some(first(row, col)),
                    },
                )
            } else {
                r is None
            }
            &&& reference matches ReferenceType::Range { start_row: None, start_col: None, .. } ==> if known {
                r == Some(
                    ReferenceInfo {
                        first_sheet_index: facts.sheet_index,
                        sheet_count: Some(1),
                        first_cell: Some(first(1, 1)),
                    },
                )
            } else {
                r is None
            }
            &&& reference matches ReferenceType::Table(_) ==> match facts.table_start {
                Some(start) => r == Some(
                    ReferenceInfo {
                        first_sheet_index: facts.target_index,
                        sheet_count: Some(1),
                        first_cell: Some(start),
                    },
                ),
                None => r is None,
            }
            &&& reference is External ==> r is None
        }),
{
}

/// References to outside cells and ranges, tables and cells across sheets: where an outside source has
/// them they are taken from there, and else they are unknown names; those across sheets are not
/// supported; one to a cell or range without a place is a reference error.
pub proof fn references_are_planned_by_their_kind(reference: ReferenceType, facts: ReferenceFacts)
    ensures
        ({
            let r = reference_plan(reference, facts);
            &&& reference matches ReferenceType::External { raw, kind } ==> {
                &&& kind == ExternalRefKind::Cell && facts.source_scalar ==> r == Ok::<PlanView, ErrorView>(
                    PlanView::SourceScalar(raw@),
                )
                &&& kind == ExternalRefKind::Range && facts.source_table ==> r == Ok::<PlanView, ErrorView>(
                    PlanView::SourceTable { name: raw@, specifier: Some(TableSpecifier::Data) },
                )
                &&& kind == ExternalRefKind::Cell && !facts.source_scalar ==> (r matches Err(e) && e.kind
                    == ErrorKind::Name)
                &&& kind == ExternalRefKind::Range && !facts.source_table ==> (r matches Err(e) && e.kind
                    == ErrorKind::Name)
            }
            &&& reference matches ReferenceType::Table(t) ==> (facts.table is None ==> r == Ok::<
                PlanView,
                ErrorView,
            >(
                if facts.source_table {
                    PlanView::SourceTable { name: t.name@, specifier: t.specifier }
                } else {
                    PlanView::ForeignTable(t.name@)
                },
            ))
            &&& reference is Cell3D || reference is Range3D ==> (r matches Err(e) && e.kind
                == ErrorKind::NImpl)
            &&& reference is Cell || reference is Range ==> (r matches Err(e) ==> e.kind == ErrorKind::Ref)
        }),
{
}

/// A single cell is read, or windowed where there is storage and it need not be read: always that cell
/// alone.
pub proof fn a_single_cell_is_viewed_alone(c: CellRef, materialize: bool, has_storage: bool)
    requires
        c.row < u32::MAX,
        c.col < u32::MAX,
    ensures
        materialize || !has_storage ==> (cell_view(c, materialize, has_storage) matches BlockView::Read(b)
            && b.sheet_id == c.sheet_id && b.start_row == c.row + 1 && b.end_row == c.row + 1 && b.start_col
            == c.col + 1 && b.end_col == c.col + 1),
        !materialize && has_storage ==> cell_view(c, materialize, has_storage) == (BlockView::Window {
            start_row: c.row,
            start_col: c.col,
            end_row: c.row,
            end_col: c.col,
        }),
{
}

/// A range reference is planned on its sheet with the bounds as written: each that is given is kept, and
/// each that is missing stays open. Without a known sheet, with a bound of zero, or where its bounds make
/// no range, it is a reference error.
pub proof fn range_references_keep_their_bounds(
    sheet: Option<String>,
    start_row: Option<u32>,
    start_col: Option<u32>,
    end_row: Option<u32>,
    end_col: Option<u32>,
    facts: ReferenceFacts,
)
    ensures
        ({
            let r = reference_plan(
                ReferenceType::Range {
                    sheet,
                    start_row,
                    start_col,
                    end_row,
                    end_col,
                    start_row_abs: false,
                    start_col_abs: false,
                    end_row_abs: false,
                    end_col_abs: false,
                },
                facts,
            );
            let wanted = if sheet is Some {
                facts.named_id
            } else {
                facts.current_id
            };
            if facts.current_id is Some && wanted is Some && facts.accepted && start_row != Some(0u32)
                && start_col != Some(0u32) && end_row != Some(0u32) && end_col != Some(0u32) {
                r matches Ok(PlanView::Range { sheet_id, bounds }) && sheet_id == wanted->Some_0
                    && bounds.start_row == start_row && bounds.start_col == start_col && bounds.end_row
                    == end_row && bounds.end_col == end_col
            } else {
                r matches Err(e) && e.kind == ErrorKind::Ref
            }
        }),
{
}

/// An address that names no cell is a reference error that quotes it.
pub proof fn bad_addresses_are_quoted(cell_part: Seq<char>, reason: Seq<char>)
    ensures
        bad_address(cell_part, reason).kind == ErrorKind::Ref,
        bad_address(cell_part, reason).message == Some(
            "Invalid cell reference `"@ + cell_part + "`: "@ + reason,
        ),
{
}

} // verus!
