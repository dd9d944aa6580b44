//! The values of names.
use crate::coord::{CellRef, SheetId, VertexId, spec_cell_key};
use crate::grid::{Grid, GridView};
use crate::outcome::{VertexStep, shown_or_zero, unknown_vertex_message, vertex_step};
use crate::resolve::{Block, NamedDefinition, block_values, read_block};
use crate::value::{ErrorKind, ErrorView, ExcelError, LiteralValue, ValueView, error_with, lemma_array_view, row_view, rows_view};
use crate::vertex::{VertexKind, is_formula};
use vstd::prelude::*;

verus! {

/// Where a name can be used.
#[derive(Clone, Copy, Debug, PartialEq, Eq, Structural)]
pub enum NameScope {
    Sheet(SheetId),
    Workbook,
}

/// A name of the workbook.
#[derive(Debug)]
pub struct NamedEntry {
    pub definition: NamedDefinition,
    pub scope: NameScope,
}

/// What there is to do for the value of a name.
#[derive(Debug)]
pub enum NameStep {
    /// The value is known.
    Known(LiteralValue),
    /// The formula that the name points at has to be evaluated first.
    Precedent(VertexId),
    /// The formula of the name has to be evaluated on the sheet, at the cell of the name if it has
    /// one.
    Evaluate { sheet_id: SheetId, cell: Option<CellRef> },
}

/// The model of a [`NameStep`].
pub enum NameView {
    Known(ValueView),
    Precedent(u32),
    Evaluate { sheet_id: SheetId, cell: Option<CellRef> },
}

impl NameStep {
    pub open spec fn view(&self) -> NameView {
        match *self {
            NameStep::Known(v) => NameView::Known(v@),
            NameStep::Precedent(v) => NameView::Precedent(v),
            NameStep::Evaluate { sheet_id, cell } => NameView::Evaluate { sheet_id, cell },
        }
    }
}

/// The sheet on which the formula of a name is evaluated.
pub open spec fn context_sheet(scope: NameScope, sheet_id: SheetId) -> SheetId {
    match scope {
        NameScope::Sheet(id) => id,
        NameScope::Workbook => sheet_id,
    }
}

/// The cell of a vertex, if it has one.
pub open spec fn cell_of(g: GridView, v: u32) -> Option<CellRef> {
    if g.cells.contains_key(v) {
        Some(g.cells[v])
    } else {
        None
    }
}

/// What an unknown name is answered with.
pub open spec fn missing_name() -> ErrorView {
    error_with(ErrorKind::Name, "Named range metadata missing"@)
}

fn missing_name_error() -> (e: ExcelError)
    ensures
        e@ == missing_name(),
{
    ExcelError::new(ErrorKind::Name).with_message("Named range metadata missing")
}

/// What a name that stands for one value comes to.
pub open spec fn scalar_step(g: GridView, v: u32, entry: Option<NamedEntry>, sheet_id: SheetId) -> Result<
    NameView,
    ErrorView,
> {
    match entry {
        None => Err(missing_name()),
        Some(e) => match e.definition {
            NamedDefinition::Cell(cell) => Ok(NameView::Known(g.reading(cell))),
            NamedDefinition::Literal(value) => Ok(NameView::Known(value@)),
            NamedDefinition::Formula(_) => Ok(
                NameView::Evaluate {
                    sheet_id: context_sheet(e.scope, sheet_id),
                    cell: cell_of(g, v),
                },
            ),
            NamedDefinition::Range { .. } => Err(
                error_with(ErrorKind::Value, "Range-valued name evaluated as scalar"@),
            ),
        },
    }
}

/// One value as an array.
pub open spec fn single(v: ValueView) -> ValueView {
    ValueView::Array(seq![seq![v]])
}

fn as_array(v: LiteralValue) -> (r: LiteralValue)
    ensures
        r@ == single(v@),
{
    let mut row: Vec<LiteralValue> = Vec::new();
    row.push(v);
    let mut rows: Vec<Vec<LiteralValue>> = Vec::new();
    rows.push(row);
    proof {
        lemma_array_view(rows);
        assert(row_view(row@) =~= seq![v@]);
        assert(rows_view(rows@) =~= seq![seq![v@]]);
    }
    LiteralValue::Array(rows)
}

/// What a range that a name stands for comes to: its values, unless it spans sheets, is reversed or
/// has too many cells.
pub open spec fn range_step(g: GridView, start: CellRef, end: CellRef, max_cells: u32) -> Result<
    NameView,
    ErrorView,
> {
    if start.sheet_id != end.sheet_id {
        Err(error_with(ErrorKind::Ref, "Named range cannot span sheets"@))
    } else if start.row > end.row || start.col > end.col {
        Err(error_with(ErrorKind::Ref, "Invalid named range bounds"@))
    } else if (end.row - start.row + 1) * (end.col - start.col + 1) > max_cells {
        Err(error_with(ErrorKind::NImpl, "Named range too large to materialize as an array"@))
    } else {
        Ok(NameView::Known(ValueView::Array(block_values(g, block_between(start, end)))))
    }
}

/// The block from one cell to another.
pub open spec fn block_between(start: CellRef, end: CellRef) -> Block {
    Block {
        sheet_id: start.sheet_id,
        start_row: (start.row + 1) as u32,
        start_col: (start.col + 1) as u32,
        end_row: (end.row + 1) as u32,
        end_col: (end.col + 1) as u32,
    }
}

/// What a name that stands for an array comes to.
pub open spec fn array_step(
    g: GridView,
    v: u32,
    entry: Option<NamedEntry>,
    sheet_id: SheetId,
    max_cells: u32,
) -> Result<NameView, ErrorView> {
    match entry {
        None => Err(missing_name()),
        Some(e) => match e.definition {
            NamedDefinition::Range { start, end } => range_step(g, start, end, max_cells),
            NamedDefinition::Cell(cell) => Ok(NameView::Known(single(g.reading(cell)))),
            NamedDefinition::Literal(value) => Ok(NameView::Known(single(value@))),
            NamedDefinition::Formula(_) => Ok(
                NameView::Evaluate {
                    sheet_id: context_sheet(e.scope, sheet_id),
                    cell: cell_of(g, v),
                },
            ),
        },
    }
}

pub open spec fn step_view(r: Result<NameStep, ExcelError>) -> Result<NameView, ErrorView> {
    match r {
        Ok(s) => Ok(s@),
        Err(e) => Err(e@),
    }
}

/// Whether the cells of a range are small enough to be counted from one.
pub open spec fn countable(entry: Option<NamedEntry>) -> bool {
    entry matches Some(e) ==> (e.definition matches NamedDefinition::Range { end, .. } ==> end.row
        < u32::MAX && end.col < u32::MAX)
}

fn formula_context(grid: &Grid, v: VertexId, scope: NameScope, sheet_id: SheetId) -> (r: NameStep)
    ensures
        r@ == (NameView::Evaluate {
            sheet_id: context_sheet(scope, sheet_id),
            cell: cell_of(grid@, v),
        }),
{
    let context = match scope {
        NameScope::Sheet(id) => id,
        NameScope::Workbook => sheet_id,
    };
    NameStep::Evaluate { sheet_id: context, cell: grid.cell_of(v) }
}

/// Finds the value of a name that stands for one value, without changing anything.
pub fn read_named_scalar(grid: &Grid, v: VertexId, entry: Option<&NamedEntry>, sheet_id: SheetId) -> (r: Result<
    NameStep,
    ExcelError,
>)
    requires
        grid.wf(),
    ensures
        step_view(r) == scalar_step(grid@, v, entry_of(entry), sheet_id),
{
    match entry {
        None => Err(missing_name_error()),
        Some(e) => match &e.definition {
            NamedDefinition::Cell(cell) => Ok(NameStep::Known(grid.read_cell(*cell))),
            NamedDefinition::Literal(value) => Ok(NameStep::Known(value.duplicate())),
            NamedDefinition::Formula(_) => Ok(formula_context(grid, v, e.scope, sheet_id)),
            NamedDefinition::Range { .. } => Err(
                ExcelError::new(ErrorKind::Value).with_message(
                    "Range-valued name evaluated as scalar",
                ),
            ),
        },
    }
}

pub open spec fn entry_of(entry: Option<&NamedEntry>) -> Option<NamedEntry> {
    match entry {
        Some(e) => Some(*e),
        None => None,
    }
}

/// Finds the value of a name that stands for an array, without changing anything.
pub fn read_named_array(
    grid: &Grid,
    v: VertexId,
    entry: Option<&NamedEntry>,
    sheet_id: SheetId,
    max_spill_cells: u32,
) -> (r: Result<NameStep, ExcelError>)
    requires
        grid.wf(),
        countable(entry_of(entry)),
    ensures
        step_view(r) == array_step(grid@, v, entry_of(entry), sheet_id, max_spill_cells),
{
    match entry {
        None => Err(missing_name_error()),
        Some(e) => match &e.definition {
            NamedDefinition::Range { start, end } => {
                if start.sheet_id != end.sheet_id {
                    return Err(
                        ExcelError::new(ErrorKind::Ref).with_message(
                            "Named range cannot span sheets",
                        ),
                    );
                }
                if start.row > end.row || start.col > end.col {
                    return Err(
                        ExcelError::new(ErrorKind::Ref).with_message("Invalid named range bounds"),
                    );
                }
                let h: u64 = (end.row - start.row) as u64 + 1;
                let w: u64 = (end.col - start.col) as u64 + 1;
                assert(h * w <= 0xffff_ffff * 0xffff_ffff) by (nonlinear_arith)
                    requires
                        0 <= h <= 0xffff_ffff,
                        0 <= w <= 0xffff_ffff,
                ;
                if h * w > max_spill_cells as u64 {
                    return Err(
                        ExcelError::new(ErrorKind::NImpl).with_message(
                            "Named range too large to materialize as an array",
                        ),
                    );
                }
                let block = Block {
                    sheet_id: start.sheet_id,
                    start_row: start.row + 1,
                    start_col: start.col + 1,
                    end_row: end.row + 1,
                    end_col: end.col + 1,
                };
                let rows = read_block(grid, block);
                proof {
                    lemma_array_view(rows);
                }
                Ok(NameStep::Known(LiteralValue::Array(rows)))
            },
            NamedDefinition::Cell(cell) => Ok(NameStep::Known(as_array(grid.read_cell(*cell)))),
            NamedDefinition::Literal(value) => Ok(NameStep::Known(as_array(value.duplicate()))),
            NamedDefinition::Formula(_) => Ok(formula_context(grid, v, e.scope, sheet_id)),
        },
    }
}

/// The formula in the cell that a name stands for, which is evaluated before the name.
pub open spec fn precedent(g: GridView, entry: Option<NamedEntry>) -> Option<u32> {
    match entry {
        Some(e) => match e.definition {
            NamedDefinition::Cell(cell) => {
                let k = spec_cell_key(cell);
                if g.vertex_at.contains_key(k) && is_formula(g.kind(g.vertex_at[k])) {
                    Some(g.vertex_at[k])
                } else {
                    None
                }
            },
            _ => None,
        },
        None => None,
    }
}

/// The grid once the vertex holds the value.
pub open spec fn with_value(g: GridView, v: u32, value: ValueView) -> GridView {
    GridView { values: g.values.insert(v, value), ..g }
}

/// Begins with a name that stands for one value. A value that is known is stored; a formula that
/// the name points at is evaluated first.
pub fn evaluate_named_scalar(
    grid: &mut Grid,
    v: VertexId,
    entry: Option<&NamedEntry>,
    sheet_id: SheetId,
) -> (r: Result<NameStep, ExcelError>)
    requires
        old(grid).wf(),
    ensures
        final(grid).wf(),
        match precedent(old(grid)@, entry_of(entry)) {
            Some(u) => r == Ok::<NameStep, ExcelError>(NameStep::Precedent(u)) && final(grid)@
                == old(grid)@,
            None => {
                &&& step_view(r) == scalar_step(old(grid)@, v, entry_of(entry), sheet_id)
                &&& final(grid)@ == (match step_view(r) {
                    Ok(NameView::Known(value)) => with_value(old(grid)@, v, value),
                    _ => old(grid)@,
                })
            },
        },
{
    if let Some(e) = entry {
        if let NamedDefinition::Cell(cell) = &e.definition {
            if let Some(u) = grid.vertex_in(*cell) {
                if grid.vertex_kind(u).formula() {
                    return Ok(NameStep::Precedent(u));
                }
            }
        }
    }
    let step = read_named_scalar(grid, v, entry, sheet_id);
    if let Ok(NameStep::Known(value)) = &step {
        grid.hold_silently(v, value);
    }
    step
}

/// What a name that stands for one value comes to, once its formula is evaluated: an array is an
/// error, and so is an error.
pub open spec fn scalar_outcome(result: Result<ValueView, ErrorView>) -> ValueView {
    match result {
        Ok(ValueView::Array(_)) => ValueView::Error(
            error_with(ErrorKind::NImpl, "Array result in scalar named range"@),
        ),
        Ok(v) => v,
        Err(e) => ValueView::Error(e),
    }
}

/// What a name that stands for an array comes to, once its formula is evaluated: a single value is
/// an array of one.
pub open spec fn array_outcome(result: Result<ValueView, ErrorView>) -> ValueView {
    match result {
        Ok(ValueView::Array(rows)) => ValueView::Array(rows),
        Ok(v) => single(v),
        Err(e) => ValueView::Error(e),
    }
}

pub open spec fn result_view(r: Result<LiteralValue, ExcelError>) -> Result<ValueView, ErrorView> {
    match r {
        Ok(v) => Ok(v@),
        Err(e) => Err(e@),
    }
}

/// Stores what the formula of a name that stands for one value came to.
pub fn finish_named_scalar(grid: &mut Grid, v: VertexId, result: Result<LiteralValue, ExcelError>) -> (r:
    LiteralValue)
    requires
        old(grid).wf(),
    ensures
        final(grid).wf(),
        r@ == scalar_outcome(result_view(result)),
        final(grid)@ == with_value(old(grid)@, v, r@),
{
    let value = match result {
        Ok(x) => match x {
            LiteralValue::Array(rows) => {
                assert(LiteralValue::Array(rows)@ is Array);
                LiteralValue::Error(
                    ExcelError::new(ErrorKind::NImpl).with_message(
                        "Array result in scalar named range",
                    ),
                )
            },
            other => other,
        },
        Err(e) => LiteralValue::Error(e),
    };
    grid.hold_silently(v, &value);
    value
}

/// What the formula of a name that stands for an array came to, as an array.
pub fn named_array_value(result: Result<LiteralValue, ExcelError>) -> (r: LiteralValue)
    ensures
        r@ == array_outcome(result_view(result)),
{
    match result {
        Ok(x) => match x {
            LiteralValue::Array(rows) => {
                proof {
                    lemma_array_view(rows);
                }
                LiteralValue::Array(rows)
            },
            other => as_array(other),
        },
        Err(e) => LiteralValue::Error(e),
    }
}

/// Begins with a name that stands for an array. A value that is known is stored.
pub fn evaluate_named_array(
    grid: &mut Grid,
    v: VertexId,
    entry: Option<&NamedEntry>,
    sheet_id: SheetId,
    max_spill_cells: u32,
) -> (r: Result<NameStep, ExcelError>)
    requires
        old(grid).wf(),
        countable(entry_of(entry)),
    ensures
        final(grid).wf(),
        step_view(r) == array_step(old(grid)@, v, entry_of(entry), sheet_id, max_spill_cells),
        final(grid)@ == (match step_view(r) {
            Ok(NameView::Known(value)) => with_value(old(grid)@, v, value),
            _ => old(grid)@,
        }),
{
    let step = read_named_array(grid, v, entry, sheet_id, max_spill_cells);
    if let Ok(NameStep::Known(value)) = &step {
        grid.hold_silently(v, value);
    }
    step
}

/// Stores what the formula of a name that stands for an array came to.
pub fn finish_named_array(grid: &mut Grid, v: VertexId, result: Result<LiteralValue, ExcelError>) -> (r:
    LiteralValue)
    requires
        old(grid).wf(),
    ensures
        final(grid).wf(),
        r@ == array_outcome(result_view(result)),
        final(grid)@ == with_value(old(grid)@, v, r@),
{
    let value = named_array_value(result);
    grid.hold_silently(v, &value);
    value
}

/// What there is to do for a vertex that is evaluated without changing anything.
#[derive(Debug)]
pub enum ReadStep {
    /// The value is known.
    Known(LiteralValue),
    /// The formula of the vertex has to be evaluated.
    Evaluate,
    /// The formula of a name that stands for one value has to be evaluated; its result is the
    /// value.
    EvaluateName { sheet_id: SheetId, cell: Option<CellRef> },
    /// The formula of a name that stands for an array has to be evaluated; its result is made an
    /// array.
    EvaluateNameArray { sheet_id: SheetId, cell: Option<CellRef> },
}

/// The model of a [`ReadStep`].
pub enum ReadView {
    Known(ValueView),
    Evaluate,
    EvaluateName { sheet_id: SheetId, cell: Option<CellRef> },
    EvaluateNameArray { sheet_id: SheetId, cell: Option<CellRef> },
}

impl ReadStep {
    pub open spec fn view(&self) -> ReadView {
        match *self {
            ReadStep::Known(v) => ReadView::Known(v@),
            ReadStep::Evaluate => ReadView::Evaluate,
            ReadStep::EvaluateName { sheet_id, cell } => ReadView::EvaluateName { sheet_id, cell },
            ReadStep::EvaluateNameArray { sheet_id, cell } => ReadView::EvaluateNameArray {
                sheet_id,
                cell,
            },
        }
    }
}

/// What there is to do for a vertex: a name is read, everything else is as for any other
/// evaluation.
pub open spec fn read_step(
    g: GridView,
    v: u32,
    exists: bool,
    has_formula: bool,
    entry: Option<NamedEntry>,
    sheet_id: SheetId,
    max_cells: u32,
) -> Result<ReadView, ErrorView> {
    let zero = ValueView::Number(crate::number::ZERO_BITS);
    if !exists {
        Err(error_with(ErrorKind::Ref, unknown_vertex_message(v)))
    } else {
        match g.kind(v) {
            VertexKind::FormulaScalar | VertexKind::FormulaArray => if has_formula {
                Ok(ReadView::Evaluate)
            } else {
                Ok(ReadView::Known(zero))
            },
            VertexKind::Empty | VertexKind::Cell => Ok(ReadView::Known(shown_or_zero(g, v))),
            VertexKind::NamedScalar => match scalar_step(g, v, entry, sheet_id) {
                Ok(NameView::Known(value)) => Ok(ReadView::Known(value)),
                Ok(NameView::Evaluate { sheet_id, cell }) => Ok(
                    ReadView::EvaluateName { sheet_id, cell },
                ),
                Ok(NameView::Precedent(_)) => Ok(ReadView::Evaluate),
                Err(e) => Err(e),
            },
            VertexKind::NamedArray => match array_step(g, v, entry, sheet_id, max_cells) {
                Ok(NameView::Known(value)) => Ok(ReadView::Known(value)),
                Ok(NameView::Evaluate { sheet_id, cell }) => Ok(
                    ReadView::EvaluateNameArray { sheet_id, cell },
                ),
                Ok(NameView::Precedent(_)) => Ok(ReadView::Evaluate),
                Err(e) => Err(e),
            },
            _ => Ok(ReadView::Known(zero)),
        }
    }
}

/// Decides what to do for a vertex that is evaluated without changing anything.
pub fn evaluate_vertex_immutable(
    grid: &Grid,
    v: VertexId,
    exists: bool,
    has_formula: bool,
    entry: Option<&NamedEntry>,
    sheet_id: SheetId,
    max_spill_cells: u32,
) -> (r: Result<ReadStep, ExcelError>)
    requires
        grid.wf(),
        countable(entry_of(entry)),
    ensures
        (match r {
            Ok(s) => Ok(s@),
            Err(e) => Err(e@),
        }) == read_step(
            grid@,
            v,
            exists,
            has_formula,
            entry_of(entry),
            sheet_id,
            max_spill_cells,
        ),
{
    match vertex_step(grid, v, exists, has_formula) {
        VertexStep::Unknown(e) => Err(e),
        VertexStep::Known(x) => Ok(ReadStep::Known(x)),
        VertexStep::Evaluate => Ok(ReadStep::Evaluate),
        VertexStep::NamedScalar => match read_named_scalar(grid, v, entry, sheet_id) {
            Ok(NameStep::Known(x)) => Ok(ReadStep::Known(x)),
            Ok(NameStep::Evaluate { sheet_id, cell }) => Ok(
                ReadStep::EvaluateName { sheet_id, cell },
            ),
            Ok(NameStep::Precedent(_)) => Ok(ReadStep::Evaluate),
            Err(e) => Err(e),
        },
        VertexStep::NamedArray => match read_named_array(
            grid,
            v,
            entry,
            sheet_id,
            max_spill_cells,
        ) {
            Ok(NameStep::Known(x)) => Ok(ReadStep::Known(x)),
            Ok(NameStep::Evaluate { sheet_id, cell }) => Ok(
                ReadStep::EvaluateNameArray { sheet_id, cell },
            ),
            Ok(NameStep::Precedent(_)) => Ok(ReadStep::Evaluate),
            Err(e) => Err(e),
        },
    }
}

/// A read that is recorded by hand, because it does not go through the evaluation of a formula.
#[derive(Clone, Copy, Debug, PartialEq, Eq, Structural)]
pub enum DirectRead {
    Nothing,
    Cell(CellRef),
    Rect { start: CellRef, end: CellRef },
}

/// The read of a name that points at a cell or a range; a range that spans sheets is not read.
pub open spec fn direct_read(kind: VertexKind, entry: Option<NamedEntry>) -> DirectRead {
    match (kind, entry) {
        (VertexKind::NamedScalar, Some(e)) | (VertexKind::NamedArray, Some(e)) => {
            match e.definition {
                NamedDefinition::Cell(cell) => DirectRead::Cell(cell),
                NamedDefinition::Range { start, end } if start.sheet_id == end.sheet_id =>
                    DirectRead::Rect { start, end },
                _ => DirectRead::Nothing,
            }
        },
        _ => DirectRead::Nothing,
    }
}

/// Decides what to do for a member of a cycle, and what it reads besides the reads that occur in
/// formulas.
pub fn evaluate_vertex_recorded(
    grid: &Grid,
    v: VertexId,
    exists: bool,
    has_formula: bool,
    entry: Option<&NamedEntry>,
    sheet_id: SheetId,
    max_spill_cells: u32,
) -> (r: (Result<ReadStep, ExcelError>, DirectRead))
    requires
        grid.wf(),
        countable(entry_of(entry)),
    ensures
        (match r.0 {
            Ok(s) => Ok(s@),
            Err(e) => Err(e@),
        }) == read_step(
            grid@,
            v,
            exists,
            has_formula,
            entry_of(entry),
            sheet_id,
            max_spill_cells,
        ),
        r.1 == (if exists {
            direct_read(grid@.kind(v), entry_of(entry))
        } else {
            DirectRead::Nothing
        }),
{
    let kind = grid.vertex_kind(v);
    let named = kind == VertexKind::NamedScalar || kind == VertexKind::NamedArray;
    let mut read = DirectRead::Nothing;
    if exists && named {
        if let Some(e) = entry {
            match &e.definition {
                NamedDefinition::Cell(cell) => {
                    read = DirectRead::Cell(*cell);
                },
                NamedDefinition::Range { start, end } => {
                    if start.sheet_id == end.sheet_id {
                        read = DirectRead::Rect { start: *start, end: *end };
                    }
                },
                _ => {},
            }
        }
    }
    let step = evaluate_vertex_immutable(
        grid,
        v,
        exists,
        has_formula,
        entry,
        sheet_id,
        max_spill_cells,
    );
    (step, read)
}

/// A name of one cell has the value that the cell shows, and one of a literal the literal; a formula is
/// evaluated on the sheet that the name belongs to; a range has no single value.
pub proof fn names_have_the_values_of_what_they_name(g: GridView, v: u32, e: NamedEntry, sheet_id: SheetId)
    ensures
        ({
            let r = scalar_step(g, v, Some(e), sheet_id);
            &&& e.definition matches NamedDefinition::Cell(cell) ==> r == Ok::<NameView, ErrorView>(
                NameView::Known(g.reading(cell)),
            )
            &&& e.definition matches NamedDefinition::Literal(value) ==> r == Ok::<NameView, ErrorView>(
                NameView::Known(value@),
            )
            &&& e.definition is Formula ==> (r matches Ok(NameView::Evaluate { sheet_id: s, cell }) && (
            e.scope matches NameScope::Sheet(id) ==> s == id) && (e.scope is Workbook ==> s == sheet_id)
                && (cell matches Some(c) ==> g.cells.contains_pair(v, c)) && (cell is None
                ==> !g.cells.contains_key(v)))
            &&& e.definition is Range ==> (r matches Err(x) && x.kind == ErrorKind::Value)
        }),
        scalar_step(g, v, None, sheet_id) matches Err(x) && x.kind == ErrorKind::Name,
        array_step(g, v, None, sheet_id, 0) matches Err(x) && x.kind == ErrorKind::Name,
{
}

/// A name of a range has the values that its cells show, row by row, as far as there are not more cells
/// than may be; ranges over several sheets and those that end before they start are errors.
pub proof fn named_ranges_have_the_values_of_their_cells(
    g: GridView,
    v: u32,
    e: NamedEntry,
    sheet_id: SheetId,
    max_cells: u32,
    row: u32,
    col: u32,
)
    requires
        e.definition matches NamedDefinition::Range { start, end } && end.row < u32::MAX && end.col
            < u32::MAX && start.row <= row <= end.row && start.col <= col <= end.col,
    ensures
        ({
            let r = array_step(g, v, Some(e), sheet_id, max_cells);
            let start = e.definition->start;
            let end = e.definition->end;
            let count = (end.row - start.row + 1) * (end.col - start.col + 1);
            &&& start.sheet_id != end.sheet_id ==> (r matches Err(x) && x.kind == ErrorKind::Ref)
            &&& start.sheet_id == end.sheet_id && count > max_cells ==> (r matches Err(x) && x.kind
                == ErrorKind::NImpl)
            &&& start.sheet_id == end.sheet_id && count <= max_cells ==> (r matches Ok(
                NameView::Known(ValueView::Array(rows)),
            ) && rows.len() == end.row - start.row + 1 && rows[row - start.row].len() == end.col - start.col
                + 1 && rows[row - start.row][col - start.col] == g.reading(
                CellRef { sheet_id: start.sheet_id, row, col },
            ))
        }),
{
}

/// A range that ends before it starts is an error.
pub proof fn reversed_named_ranges_are_refused(
    g: GridView,
    v: u32,
    e: NamedEntry,
    sheet_id: SheetId,
    max_cells: u32,
)
    requires
        e.definition matches NamedDefinition::Range { start, end } && (start.row > end.row || start.col
            > end.col),
    ensures
        array_step(g, v, Some(e), sheet_id, max_cells) matches Err(x) && x.kind == ErrorKind::Ref,
{
}

/// As an array, a name of one value is the array of this value.
pub proof fn single_values_are_arrays_of_one(g: GridView, v: u32, e: NamedEntry, sheet_id: SheetId, max_cells: u32)
    ensures
        ({
            let r = array_step(g, v, Some(e), sheet_id, max_cells);
            &&& e.definition matches NamedDefinition::Cell(cell) ==> (r matches Ok(
                NameView::Known(ValueView::Array(rows)),
            ) && rows.len() == 1 && rows[0].len() == 1 && rows[0][0] == g.reading(cell))
            &&& e.definition matches NamedDefinition::Literal(value) ==> (r matches Ok(
                NameView::Known(ValueView::Array(rows)),
            ) && rows.len() == 1 && rows[0].len() == 1 && rows[0][0] == value@)
            &&& e.definition is Formula ==> (r matches Ok(NameView::Evaluate { sheet_id: s, .. }) && (
            e.scope matches NameScope::Sheet(id) ==> s == id) && (e.scope is Workbook ==> s == sheet_id))
        }),
{
}

/// A name of a cell waits for the formula of the cell, of either kind, and for nothing else.
pub proof fn names_wait_for_the_formulas_they_name(g: GridView, e: NamedEntry, u: u32)
    ensures
        precedent(g, Some(e)) == Some(u) <==> (e.definition matches NamedDefinition::Cell(cell)
            && g.vertex_at.contains_pair(spec_cell_key(cell), u) && g.kinds.contains_key(u) && (g.kinds[u]
            == VertexKind::FormulaScalar || g.kinds[u] == VertexKind::FormulaArray)),
        precedent(g, None) is None,
{
}

/// What a name evaluates to: the error of a failed evaluation; as a scalar the value, where it is no
/// array, and an error where it is one; as an array the array, or the array of the one value.
pub proof fn names_evaluate_to_their_results(result: Result<ValueView, ErrorView>)
    ensures
        result matches Err(e) ==> scalar_outcome(result) == ValueView::Error(e) && array_outcome(result)
            == ValueView::Error(e),
        result matches Ok(v) ==> {
            &&& v is Array ==> (scalar_outcome(result) matches ValueView::Error(e) && e.kind
                == ErrorKind::NImpl) && array_outcome(result) == v
            &&& !(v is Array) ==> scalar_outcome(result) == v && (array_outcome(result) matches
                ValueView::Array(rows) && rows.len() == 1 && rows[0].len() == 1 && rows[0][0] == v)
        },
{
}

/// What a vertex is read as: an unknown one is an error; a formula of either kind is evaluated, and is
/// zero without its text; a cell shows its value, an empty one zero; anything else is zero.
pub proof fn vertices_are_read_by_their_kind(
    g: GridView,
    v: u32,
    has_formula: bool,
    entry: Option<NamedEntry>,
    sheet_id: SheetId,
    max_cells: u32,
)
    requires
        g.kinds.contains_key(v),
    ensures
        ({
            let r = read_step(g, v, true, has_formula, entry, sheet_id, max_cells);
            let zero = Ok::<ReadView, ErrorView>(ReadView::Known(ValueView::Number(0)));
            let kind = g.kinds[v];
            &&& kind == VertexKind::FormulaScalar || kind == VertexKind::FormulaArray ==> r == (
            if has_formula {
                Ok::<ReadView, ErrorView>(ReadView::Evaluate)
            } else {
                zero
            })
            &&& kind == VertexKind::Empty || kind == VertexKind::Cell ==> r == (if g.cells.contains_key(v)
                && g.reading(g.cells[v]) != ValueView::Empty {
                Ok::<ReadView, ErrorView>(ReadView::Known(g.reading(g.cells[v])))
            } else {
                zero
            })
            &&& kind == VertexKind::Range || kind == VertexKind::InfiniteRange || kind
                == VertexKind::External || kind == VertexKind::Table ==> r == zero
            &&& read_step(g, v, false, has_formula, entry, sheet_id, max_cells) matches Err(e) && e.kind
                == ErrorKind::Ref
        }),
        g.kinds[v] == VertexKind::NamedScalar ==> (read_step(
            g,
            v,
            true,
            has_formula,
            entry,
            sheet_id,
            max_cells,
        ) is Err <==> scalar_step(g, v, entry, sheet_id) is Err),
        g.kinds[v] == VertexKind::NamedArray ==> (read_step(
            g,
            v,
            true,
            has_formula,
            entry,
            sheet_id,
            max_cells,
        ) is Err <==> array_step(g, v, entry, sheet_id, max_cells) is Err),
{
}

/// A name reads its cell, or the cells of its range where they are on one sheet; no other vertex reads
/// any by itself.
pub proof fn names_read_the_cells_they_name(kind: VertexKind, e: NamedEntry)
    ensures
        kind != VertexKind::NamedScalar && kind != VertexKind::NamedArray ==> direct_read(kind, Some(e))
            == DirectRead::Nothing,
        direct_read(kind, None) == DirectRead::Nothing,
        kind == VertexKind::NamedScalar || kind == VertexKind::NamedArray ==> {
            &&& e.definition matches NamedDefinition::Cell(cell) ==> direct_read(kind, Some(e))
                == DirectRead::Cell(cell)
            &&& e.definition matches NamedDefinition::Range { start, end } ==> direct_read(kind, Some(e))
                == (if start.sheet_id == end.sheet_id {
                DirectRead::Rect { start, end }
            } else {
                DirectRead::Nothing
            })
            &&& e.definition is Literal || e.definition is Formula ==> direct_read(kind, Some(e))
                == DirectRead::Nothing
        },
{
}

} // verus!
