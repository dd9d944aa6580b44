//! What a computed result does to the grid.
use crate::coord::{CellRef, VertexId, rect_cells, rectangle};
use crate::grid::{DeltaCollector, DeltaView, Grid, GridView, changes_view, emptied, recorded};
use crate::number::ZERO_BITS;
use crate::spill::{ShimSpillManager, check_spill, commit_changes, commit_objection, commit_spill_and_mirror, covers, plan_view, spill_error, spill_failure, spill_objection, spilling, width};
use crate::text::{decimal, push_decimal};
use crate::value::{ErrorExtra, ErrorKind, ErrorView, ExcelError, LiteralValue, ValueView, error_with, row_view, rows_view};
use crate::vertex::{VertexKind, is_formula};
use vstd::prelude::*;

verus! {

/// What there is to do for a vertex that is asked for its value.
#[derive(Debug)]
pub enum VertexStep {
    /// The vertex is unknown.
    Unknown(ExcelError),
    /// The value is known without any evaluation.
    Known(LiteralValue),
    /// The vertex is a name that stands for a value.
    NamedScalar,
    /// The vertex is a name that stands for a range.
    NamedArray,
    /// The formula of the vertex has to be evaluated.
    Evaluate,
}

/// The message that an unknown vertex is answered with.
pub open spec fn unknown_vertex_message(v: u32) -> Seq<char> {
    "Vertex not found: VertexId("@ + decimal(v as nat) + ")"@
}

pub fn unknown_vertex(v: VertexId) -> (e: ExcelError)
    ensures
        e@ == error_with(ErrorKind::Ref, unknown_vertex_message(v)),
{
    let mut message = "Vertex not found: VertexId(".to_string();
    push_decimal(&mut message, v as u64);
    message.push(')');
    proof {
        reveal_strlit(")");
        assert(message@ =~= unknown_vertex_message(v));
    }
    ExcelError::new(ErrorKind::Ref).with_message(message.as_str())
}

/// What a vertex that is no formula and no name comes to: what its cell shows, or zero where that is
/// nothing.
pub open spec fn shown_or_zero(g: GridView, v: u32) -> ValueView {
    if g.cells.contains_key(v) && g.reading(g.cells[v]) != ValueView::Empty {
        g.reading(g.cells[v])
    } else {
        ValueView::Number(ZERO_BITS)
    }
}

/// Decides what to do for a vertex: a formula is evaluated, a plain cell shows its value, a name is
/// resolved, and everything else is zero. `has_formula` tells whether the graph has its formula.
pub fn vertex_step(grid: &Grid, v: VertexId, exists: bool, has_formula: bool) -> (r: VertexStep)
    requires
        grid.wf(),
    ensures
        !exists ==> (r matches VertexStep::Unknown(e) && e@ == error_with(
            ErrorKind::Ref,
            unknown_vertex_message(v),
        )),
        exists ==> match grid@.kind(v) {
            VertexKind::FormulaScalar | VertexKind::FormulaArray => if has_formula {
                r is Evaluate
            } else {
                r == VertexStep::Known(LiteralValue::Number(ZERO_BITS))
            },
            VertexKind::Empty | VertexKind::Cell => r matches VertexStep::Known(x) && x@
                == shown_or_zero(grid@, v),
            VertexKind::NamedScalar => r is NamedScalar,
            VertexKind::NamedArray => r is NamedArray,
            _ => r == VertexStep::Known(LiteralValue::Number(ZERO_BITS)),
        },
{
    if !exists {
        return VertexStep::Unknown(unknown_vertex(v));
    }
    match grid.vertex_kind(v) {
        VertexKind::FormulaScalar | VertexKind::FormulaArray => {
            if has_formula {
                VertexStep::Evaluate
            } else {
                VertexStep::Known(LiteralValue::Number(ZERO_BITS))
            }
        },
        VertexKind::Empty | VertexKind::Cell => {
            if let Some(cell) = grid.cell_of(v) {
                let shown = grid.read_cell(cell);
                if !shown.is_empty() {
                    return VertexStep::Known(shown);
                }
            }
            VertexStep::Known(LiteralValue::Number(ZERO_BITS))
        },
        VertexKind::NamedScalar => VertexStep::NamedScalar,
        VertexKind::NamedArray => VertexStep::NamedArray,
        _ => VertexStep::Known(LiteralValue::Number(ZERO_BITS)),
    }
}

/// What a result that is no array changes: the cell of the vertex gets the value, and every other
/// cell of an array that the vertex had spilled becomes empty.
pub open spec fn settle_changes(g: GridView, v: u32, value: ValueView) -> Seq<(CellRef, ValueView)> {
    let cells = g.spill_cells(v);
    if !g.cells.contains_key(v) {
        Seq::empty()
    } else if cells.len() == 0 {
        seq![(g.cells[v], value)]
    } else {
        Seq::new(
            cells.len(),
            |i: int|
                (
                    cells[i],
                    if cells[i] == g.cells[v] {
                        value
                    } else {
                        ValueView::Empty
                    },
                ),
        )
    }
}

fn list_settle_changes(grid: &Grid, v: VertexId, value: &LiteralValue) -> (r: Vec<
    (CellRef, LiteralValue),
>)
    ensures
        changes_view(r@) == settle_changes(grid@, v, value@),
        r@.len() == settle_changes(grid@, v, value@).len(),
{
    let mut out: Vec<(CellRef, LiteralValue)> = Vec::new();
    let anchor = match grid.cell_of(v) {
        Some(c) => c,
        None => {
            assert(changes_view(out@) =~= settle_changes(grid@, v, value@));
            return out;
        },
    };
    let cells = grid.spilled_cells(v);
    if cells.len() == 0 {
        out.push((anchor, value.duplicate()));
        assert(changes_view(out@) =~= settle_changes(grid@, v, value@));
        return out;
    }
    let mut i: usize = 0;
    while i < cells.len()
        invariant
            i <= cells@.len(),
            out@.len() == i,
            forall|k: int|
                0 <= k < i ==> (#[trigger] out@[k]).0 == cells@[k] && out@[k].1@ == (if cells@[k]
                    == anchor {
                    value@
                } else {
                    ValueView::Empty
                }),
        decreases cells@.len() - i,
    {
        let new = if cells[i] == anchor {
            value.duplicate()
        } else {
            LiteralValue::Empty
        };
        out.push((cells[i], new));
        i = i + 1;
    }
    assert(changes_view(out@) =~= settle_changes(grid@, v, value@));
    out
}

/// Takes over a result that is no array, an error included: an array that the vertex had spilled is
/// taken back, and the vertex holds and shows the value.
pub fn apply_non_array_result_from_parallel(
    grid: &mut Grid,
    delta: &mut DeltaCollector,
    v: VertexId,
    value: &LiteralValue,
)
    requires
        old(grid).wf(),
        old(delta).wf(),
    ensures
        final(grid).wf(),
        final(delta).wf(),
        final(grid)@ == old(grid)@.unspilling(v).holding(v, value@),
        final(delta)@ == ({
            let changes = settle_changes(old(grid)@, v, value@);
            recorded(old(delta)@, old(grid)@, changes, changes.len())
        }),
{
    let changes = list_settle_changes(grid, v, value);
    grid.record_changes(&changes, delta);
    grid.unspill(v);
    grid.hold(v, value);
}

/// The size of the rows: how many there are, and how long the first one is.
pub open spec fn array_size(rows: Seq<Seq<ValueView>>) -> (u32, u32) {
    (rows.len() as u32, width(rows) as u32)
}

pub fn size_of_array(rows: &Vec<Vec<LiteralValue>>) -> (r: (u32, u32))
    requires
        rows@.len() <= u32::MAX,
        width(rows_view(rows@)) <= u32::MAX,
    ensures
        r == array_size(rows_view(rows@)),
{
    if rows.len() == 0 {
        return (0, 0);
    }
    assert(rows_view(rows@)[0].len() == rows@[0]@.len());
    (rows.len() as u32, rows[0].len() as u32)
}

/// The grid once the vertex, whose array could not spill, holds and shows the error instead.
pub open spec fn failing(g: GridView, v: u32, error: ValueView) -> GridView {
    g.clearing(v).holding(v, error)
}

/// The collected cells once an array could not spill.
pub open spec fn failing_delta(d: DeltaView, g: GridView, v: u32, error: ValueView) -> DeltaView {
    let cells = g.spill_cells(v);
    recorded(
        recorded(d, g, emptied(cells), cells.len()),
        g.clearing(v),
        seq![(g.cells[v], error)],
        1,
    )
}

fn fail(grid: &mut Grid, delta: &mut DeltaCollector, v: VertexId, anchor: CellRef, error: &LiteralValue)
    requires
        old(grid).wf(),
        old(delta).wf(),
        old(grid)@.cells.contains_key(v),
        old(grid)@.cells[v] == anchor,
    ensures
        final(grid).wf(),
        final(delta).wf(),
        final(grid)@ == failing(old(grid)@, v, error@),
        final(delta)@ == failing_delta(old(delta)@, old(grid)@, v, error@),
{
    grid.clear_spill_projection_and_mirror(v, delta);
    let mut changes: Vec<(CellRef, LiteralValue)> = Vec::new();
    changes.push((anchor, error.duplicate()));
    assert(changes_view(changes@) =~= seq![(anchor, error@)]);
    grid.record_changes(&changes, delta);
    grid.hold(v, error);
}

/// What comes next for a vertex whose formula gave an array.
#[derive(Debug)]
pub enum ArrayStep {
    /// The array could not spill; the vertex shows this error.
    Refused(LiteralValue),
    /// The region of the targets has to be locked.
    Reserve { anchor: CellRef, rows: u32, cols: u32, targets: Vec<CellRef> },
}

/// The grid with the vertex marked as one that spills.
pub open spec fn marked(g: GridView, v: u32) -> GridView {
    GridView { kinds: g.kinds.insert(v, VertexKind::FormulaArray), ..g }
}

/// Begins with an array result: marks the vertex, and either refuses the array for its size or its
/// place, or asks for the targets to be locked.
pub fn begin_array(
    grid: &mut Grid,
    delta: &mut DeltaCollector,
    v: VertexId,
    rows: &Vec<Vec<LiteralValue>>,
    max_spill_cells: u32,
) -> (r: ArrayStep)
    requires
        old(grid).wf(),
        old(delta).wf(),
        old(grid)@.cells.contains_key(v),
        rows@.len() <= u32::MAX,
        width(rows_view(rows@)) <= u32::MAX,
    ensures
        final(grid).wf(),
        final(delta).wf(),
        ({
            let g = marked(old(grid)@, v);
            let anchor = g.cells[v];
            let (h, w) = array_size(rows_view(rows@));
            match spill_objection(anchor, h, w, max_spill_cells) {
                Some(message) => {
                    let error = ValueView::Error(spill_failure(message, h, w));
                    &&& r matches ArrayStep::Refused(e) && e@ == error
                    &&& final(grid)@ == failing(g, v, error)
                    &&& final(delta)@ == failing_delta(old(delta)@, g, v, error)
                },
                None => {
                    &&& r matches ArrayStep::Reserve { anchor: a, rows: rh, cols: rw, targets }
                        && a == anchor && rh == h && rw == w && targets@ == rect_cells(
                        anchor,
                        h as int,
                        w as int,
                    )
                    &&& final(grid)@ == g
                    &&& final(delta)@ == old(delta)@
                },
            }
        }),
{
    grid.set_kind(v, VertexKind::FormulaArray);
    let anchor = match grid.cell_of(v) {
        Some(c) => c,
        None => CellRef { sheet_id: 0, row: 0, col: 0 },
    };
    let (h, w) = size_of_array(rows);
    match check_spill(anchor, h, w, max_spill_cells) {
        Some(message) => {
            let error = LiteralValue::Error(spill_error(message, h, w));
            fail(grid, delta, v, anchor, &error);
            ArrayStep::Refused(error)
        },
        None => {
            let targets = rectangle(anchor, h, w);
            ArrayStep::Reserve { anchor, rows: h, cols: w, targets }
        },
    }
}

/// The error of a vertex whose targets could not be locked.
pub open spec fn lock_failure(e: ErrorView, rows: u32, cols: u32) -> ErrorView {
    spill_failure(
        match e.message {
            Some(m) => m,
            None => "Spill blocked"@,
        },
        rows,
        cols,
    )
}

pub fn lock_error(e: &ExcelError, rows: u32, cols: u32) -> (r: ExcelError)
    ensures
        r@ == lock_failure(e@, rows, cols),
{
    match &e.message {
        Some(m) => spill_error(m.as_str(), rows, cols),
        None => spill_error("Spill blocked", rows, cols),
    }
}

/// The first value of the rows, or empty.
pub open spec fn top_left(rows: Seq<Seq<ValueView>>) -> ValueView {
    if rows.len() > 0 && rows[0].len() > 0 {
        rows[0][0]
    } else {
        ValueView::Empty
    }
}

pub fn first_value(rows: &Vec<Vec<LiteralValue>>) -> (v: LiteralValue)
    ensures
        v@ == top_left(rows_view(rows@)),
{
    if rows.len() > 0 {
        assert(rows_view(rows@)[0] == row_view(rows@[0]@));
        if rows[0].len() > 0 {
            return rows[0][0].duplicate();
        }
    }
    LiteralValue::Empty
}

/// Finishes an array result once the request for its targets is answered. `plan` is what the graph
/// says of the targets; `mirrored` tells whether the anchor shows the first value again on its own.
/// The answers are what the vertex holds, and the lock to release.
pub fn finish_array(
    locks: &mut ShimSpillManager,
    grid: &mut Grid,
    delta: &mut DeltaCollector,
    v: VertexId,
    targets: &Vec<CellRef>,
    rows: &Vec<Vec<LiteralValue>>,
    answer: Result<u64, ExcelError>,
    plan: Result<(), ExcelError>,
    value_cache_enabled: bool,
    mirrored: bool,
) -> (r: (LiteralValue, Option<u64>))
    requires
        old(grid).wf(),
        old(delta).wf(),
        old(grid)@.cells.contains_key(v),
        rows@.len() <= u32::MAX,
        width(rows_view(rows@)) <= u32::MAX,
        covers(rows_view(rows@), targets@.len()),
    ensures
        final(grid).wf(),
        final(delta).wf(),
        ({
            let g = old(grid)@;
            let d = old(delta)@;
            let model = rows_view(rows@);
            let (h, w) = array_size(model);
            match answer {
                Err(e) => {
                    let error = ValueView::Error(lock_failure(e@, h, w));
                    &&& r.0@ == error
                    &&& r.1 is None
                    &&& final(locks)@ == old(locks)@
                    &&& final(grid)@ == failing(g, v, error)
                    &&& final(delta)@ == failing_delta(d, g, v, error)
                },
                Ok(id) => {
                    let changes = commit_changes(g, v, targets@, model);
                    let d1 = recorded(d, g, changes, changes.len());
                    &&& final(locks)@ == old(locks)@.remove(v)
                    &&& r.1 == (if id != 0 {
                        Some(id)
                    } else if old(locks)@.contains_key(v) {
                        Some(old(locks)@[v])
                    } else {
                        None
                    })
                    &&& match commit_objection(
                        g,
                        v,
                        targets@,
                        plan_view(plan),
                        value_cache_enabled,
                    ) {
                        Some(e) => {
                            &&& r.0@ == ValueView::Error(e)
                            &&& final(grid)@ == failing(g, v, ValueView::Error(e))
                            &&& final(delta)@ == failing_delta(d1, g, v, ValueView::Error(e))
                        },
                        None => {
                            let done = spilling(g, v, targets@, model);
                            &&& r.0@ == top_left(model)
                            &&& final(grid)@ == (if mirrored {
                                done.holding(v, top_left(model))
                            } else {
                                GridView { values: done.values.insert(v, top_left(model)), ..done }
                            })
                            &&& final(delta)@ == d1
                        },
                    }
                },
            }
        }),
{
    let anchor = match grid.cell_of(v) {
        Some(c) => c,
        None => CellRef { sheet_id: 0, row: 0, col: 0 },
    };
    match locks.reserve(v, answer) {
        Err(e) => {
            let (h, w) = size_of_array(rows);
            let error = LiteralValue::Error(lock_error(&e, h, w));
            fail(grid, delta, v, anchor, &error);
            (error, None)
        },
        Ok(()) => {
            let (outcome, released) = commit_spill_and_mirror(
                locks,
                grid,
                delta,
                v,
                targets,
                rows,
                plan,
                value_cache_enabled,
            );
            assert(locks@ =~= old(locks)@.remove(v));
            match outcome {
                Err(e) => {
                    let error = LiteralValue::Error(e);
                    fail(grid, delta, v, anchor, &error);
                    (error, released)
                },
                Ok(()) => {
                    let first = first_value(rows);
                    if mirrored {
                        grid.hold(v, &first);
                    } else {
                        grid.hold_silently(v, &first);
                    }
                    (first, released)
                },
            }
        },
    }
}

/// What comes next for a vertex whose result was computed beside others.
#[derive(Debug)]
pub enum ResultStep {
    /// The cell belongs to an array of another anchor; the result is dropped.
    Covered,
    /// The result is taken over.
    Applied,
    /// The result is an array whose targets have to be locked.
    Reserve { anchor: CellRef, rows: u32, cols: u32, targets: Vec<CellRef>, values: Vec<Vec<LiteralValue>> },
}

/// Whether the cell of the vertex belongs to an array that another vertex has spilled.
pub open spec fn is_covered(g: GridView, v: u32) -> bool {
    &&& g.cells.contains_key(v)
    &&& g.owners.contains_key(crate::coord::spec_cell_key(g.cells[v]))
    &&& g.owners[crate::coord::spec_cell_key(g.cells[v])] != v
}

pub fn covered(grid: &Grid, v: VertexId) -> (b: bool)
    ensures
        b == is_covered(grid@, v),
{
    match grid.cell_of(v) {
        Some(cell) => match grid.owner_of(cell) {
            Some(owner) => owner != v,
            None => false,
        },
        None => false,
    }
}

/// The cell of the vertex with the value that it gets.
pub open spec fn own_change(g: GridView, v: u32, value: ValueView) -> Seq<(CellRef, ValueView)> {
    if g.cells.contains_key(v) {
        seq![(g.cells[v], value)]
    } else {
        Seq::empty()
    }
}

/// Stores the value of a vertex and collects its cell where that changes.
pub fn update_vertex_value_with_delta(
    grid: &mut Grid,
    delta: &mut DeltaCollector,
    v: VertexId,
    value: &LiteralValue,
)
    requires
        old(grid).wf(),
        old(delta).wf(),
    ensures
        final(grid).wf(),
        final(delta).wf(),
        final(grid)@ == old(grid)@.holding(v, value@),
        final(delta)@ == recorded(
            old(delta)@,
            old(grid)@,
            own_change(old(grid)@, v, value@),
            own_change(old(grid)@, v, value@).len(),
        ),
{
    record_own_change(grid, delta, v, value);
    grid.hold(v, value);
}

/// Collects the cell of a vertex where the value differs from what it shows.
pub fn record_own_change(grid: &Grid, delta: &mut DeltaCollector, v: VertexId, value: &LiteralValue)
    requires
        grid.wf(),
        old(delta).wf(),
    ensures
        final(delta).wf(),
        final(delta)@ == recorded(
            old(delta)@,
            grid@,
            own_change(grid@, v, value@),
            own_change(grid@, v, value@).len(),
        ),
{
    let mut changes: Vec<(CellRef, LiteralValue)> = Vec::new();
    if let Some(cell) = grid.cell_of(v) {
        changes.push((cell, value.duplicate()));
    }
    assert(changes_view(changes@) =~= own_change(grid@, v, value@));
    grid.record_changes(&changes, delta);
}

/// Takes over a result that was computed beside others. The result of a vertex that is covered by
/// another vertex's array is dropped; only formulas spill.
pub fn apply_parallel_vertex_result(
    grid: &mut Grid,
    delta: &mut DeltaCollector,
    v: VertexId,
    result: LiteralValue,
    max_spill_cells: u32,
) -> (r: ResultStep)
    requires
        old(grid).wf(),
        old(delta).wf(),
        result is Array && is_formula(old(grid)@.kind(v)) ==> old(grid)@.cells.contains_key(v),
        result matches LiteralValue::Array(rows) ==> rows@.len() <= u32::MAX && width(
            rows_view(rows@),
        ) <= u32::MAX,
    ensures
        final(grid).wf(),
        final(delta).wf(),
        ({
            let g = old(grid)@;
            let d = old(delta)@;
            if is_covered(g, v) {
                r is Covered && final(grid)@ == g && final(delta)@ == d
            } else if !is_formula(g.kind(v)) {
                &&& r is Applied
                &&& final(grid)@ == g.holding(v, result@)
                &&& final(delta)@ == recorded(
                    d,
                    g,
                    own_change(g, v, result@),
                    own_change(g, v, result@).len(),
                )
            } else {
                match result {
                    LiteralValue::Array(rows) => {
                        let model = rows_view(rows@);
                        let (h, w) = array_size(model);
                        let g1 = marked(g, v);
                        match spill_objection(g.cells[v], h, w, max_spill_cells) {
                            Some(message) => {
                                let error = ValueView::Error(spill_failure(message, h, w));
                                &&& r is Applied
                                &&& final(grid)@ == failing(g1, v, error)
                                &&& final(delta)@ == failing_delta(d, g1, v, error)
                            },
                            None => {
                                &&& r matches ResultStep::Reserve {
                                    anchor,
                                    rows: rh,
                                    cols: rw,
                                    targets,
                                    values,
                                } && anchor == g.cells[v] && rh == h && rw == w && targets@
                                    == rect_cells(anchor, h as int, w as int) && values == rows
                                &&& final(grid)@ == g1
                                &&& final(delta)@ == d
                            },
                        }
                    },
                    _ => {
                        let changes = settle_changes(g, v, result@);
                        &&& r is Applied
                        &&& final(grid)@ == g.unspilling(v).holding(v, result@)
                        &&& final(delta)@ == recorded(d, g, changes, changes.len())
                    },
                }
            }
        }),
{
    if covered(grid, v) {
        return ResultStep::Covered;
    }
    if !grid.vertex_kind(v).formula() {
        update_vertex_value_with_delta(grid, delta, v, &result);
        return ResultStep::Applied;
    }
    match result {
        LiteralValue::Array(rows) => match begin_array(grid, delta, v, &rows, max_spill_cells) {
            ArrayStep::Refused(_) => ResultStep::Applied,
            ArrayStep::Reserve { anchor, rows: h, cols: w, targets } => ResultStep::Reserve {
                anchor,
                rows: h,
                cols: w,
                targets,
                values: rows,
            },
        },
        other => {
            apply_non_array_result_from_parallel(grid, delta, v, &other);
            ResultStep::Applied
        },
    }
}

/// What the result of a formula comes to.
#[derive(Debug)]
pub enum FormulaOutcome {
    /// The vertex holds this value.
    Stored(LiteralValue),
    /// The targets of the array have to be locked.
    Reserve {
        anchor: CellRef,
        rows: u32,
        cols: u32,
        targets: Vec<CellRef>,
        values: Vec<Vec<LiteralValue>>,
    },
}

/// What a result is stored as: an error is a value.
pub open spec fn stored_result(result: Result<LiteralValue, ExcelError>) -> ValueView {
    match result {
        Ok(value) => value@,
        Err(e) => ValueView::Error(e@),
    }
}

/// Takes over what the formula of a vertex came to. An error is stored like any other value, so that
/// it does not end the evaluation of other vertices.
pub fn store_formula_result(
    grid: &mut Grid,
    delta: &mut DeltaCollector,
    v: VertexId,
    result: Result<LiteralValue, ExcelError>,
    max_spill_cells: u32,
) -> (r: FormulaOutcome)
    requires
        old(grid).wf(),
        old(delta).wf(),
        old(grid)@.cells.contains_key(v),
        result matches Ok(LiteralValue::Array(rows)) ==> rows@.len() <= u32::MAX && width(
            rows_view(rows@),
        ) <= u32::MAX,
    ensures
        final(grid).wf(),
        final(delta).wf(),
        ({
            let g = old(grid)@;
            let d = old(delta)@;
            match result {
                Ok(LiteralValue::Array(rows)) => {
                    let model = rows_view(rows@);
                    let (h, w) = array_size(model);
                    let g1 = marked(g, v);
                    match spill_objection(g.cells[v], h, w, max_spill_cells) {
                        Some(message) => {
                            let error = ValueView::Error(spill_failure(message, h, w));
                            &&& r matches FormulaOutcome::Stored(e) && e@ == error
                            &&& final(grid)@ == failing(g1, v, error)
                            &&& final(delta)@ == failing_delta(d, g1, v, error)
                        },
                        None => {
                            &&& r matches FormulaOutcome::Reserve {
                                anchor,
                                rows: rh,
                                cols: rw,
                                targets,
                                values,
                            } && anchor == g.cells[v] && rh == h && rw == w && targets@
                                == rect_cells(anchor, h as int, w as int) && values == rows
                            &&& final(grid)@ == g1
                            &&& final(delta)@ == d
                        },
                    }
                },
                _ => {
                    let value = stored_result(result);
                    let changes = settle_changes(g, v, value);
                    &&& r matches FormulaOutcome::Stored(x) && x@ == value
                    &&& final(grid)@ == g.unspilling(v).holding(v, value)
                    &&& final(delta)@ == recorded(d, g, changes, changes.len())
                },
            }
        }),
{
    let value = match result {
        Ok(value) => value,
        Err(e) => LiteralValue::Error(e),
    };
    match value {
        LiteralValue::Array(rows) => match begin_array(grid, delta, v, &rows, max_spill_cells) {
            ArrayStep::Refused(e) => FormulaOutcome::Stored(e),
            ArrayStep::Reserve { anchor, rows: h, cols: w, targets } => FormulaOutcome::Reserve {
                anchor,
                rows: h,
                cols: w,
                targets,
                values: rows,
            },
        },
        other => {
            apply_non_array_result_from_parallel(grid, delta, v, &other);
            FormulaOutcome::Stored(other)
        },
    }
}

/// An array that could not spill leaves nothing behind: the vertex has no spilled cells, and holds
/// the error.
pub proof fn a_refused_array_leaves_no_spill(g: GridView, v: u32, error: ValueView)
    ensures
        failing(g, v, error).spill_cells(v).len() == 0,
        failing(g, v, error).values.contains_pair(v, error),
{
    let cells = g.spill_cells(v);
    if cells.len() > 0 {
        let forgotten = GridView {
            spills: g.spills.remove(v),
            owners: g.owners.remove_keys(crate::coord::cell_keys(cells)),
            ..g
        };
        crate::spill::lemma_showing_keeps(forgotten.telling(cells), emptied(cells), cells.len());
    }
}

/// A cell without a formula evaluates to what it shows, an empty one to zero.
pub proof fn empty_cells_evaluate_to_zero(g: GridView, v: u32)
    ensures
        !g.cells.contains_key(v) ==> shown_or_zero(g, v) == ValueView::Number(0),
        g.cells.contains_key(v) && g.reading(g.cells[v]) == ValueView::Empty ==> shown_or_zero(g, v)
            == ValueView::Number(0),
        g.cells.contains_key(v) && g.reading(g.cells[v]) != ValueView::Empty ==> shown_or_zero(g, v)
            == g.reading(g.cells[v]),
{
}

/// A cell that another formula's array covers takes no result of its own; one of its own array does.
pub proof fn only_cells_of_other_arrays_are_covered(g: GridView, v: u32)
    ensures
        is_covered(g, v) <==> g.cells.contains_key(v) && exists|u: u32|
            u != v && #[trigger] g.owners.contains_pair(crate::coord::spec_cell_key(g.cells[v]), u),
{
    if is_covered(g, v) {
        let k = crate::coord::spec_cell_key(g.cells[v]);
        assert(g.owners.contains_pair(k, g.owners[k]));
    }
}

/// The value of an array formula is the first value of its first row.
pub proof fn an_array_formula_has_its_first_value(rows: Seq<Seq<ValueView>>)
    ensures
        rows.len() > 0 && rows[0].len() > 0 ==> top_left(rows) == rows[0][0],
        rows.len() == 0 || rows[0].len() == 0 ==> top_left(rows) == ValueView::Empty,
{
}

/// A formula that has spilled is marked as one of arrays, and nothing else of the grid is changed.
pub proof fn marking_changes_the_kind_alone(g: GridView, v: u32, u: u32)
    ensures
        marked(g, v).kinds.contains_pair(v, VertexKind::FormulaArray),
        u != v ==> marked(g, v).kinds.contains_key(u) == g.kinds.contains_key(u) && (g.kinds.contains_key(u)
            ==> marked(g, v).kinds[u] == g.kinds[u]),
        marked(g, v).under == g.under,
        marked(g, v).values == g.values,
        marked(g, v).edits == g.edits,
        marked(g, v).spills == g.spills,
        marked(g, v).owners == g.owners,
        marked(g, v).cells == g.cells,
{
}

/// A formula whose array cannot spill shows the error in its cell, and the cells of an array that it
/// had spilled before show nothing.
pub proof fn a_refused_array_shows_its_error(g: GridView, v: u32, error: ErrorView, cell: CellRef)
    requires
        g.under.dom() == Set::<CellRef>::full(),
        g.cells.contains_key(v),
        g.kinds.contains_key(v),
        g.kinds[v] == VertexKind::FormulaScalar || g.kinds[v] == VertexKind::FormulaArray,
    ensures
        ({
            let h = failing(g, v, ValueView::Error(error));
            &&& h.values.contains_pair(v, ValueView::Error(error))
            &&& cell == g.cells[v] ==> (h.under[cell] matches ValueView::Error(e) && e.kind == error.kind)
            &&& cell != g.cells[v] && g.spills.contains_key(v) && g.spills[v].contains(cell)
                ==> h.under[cell] == ValueView::Empty
            &&& cell != g.cells[v] && !(g.spills.contains_key(v) && g.spills[v].contains(cell))
                ==> h.under[cell] == g.under[cell]
        }),
{
    crate::grid::a_cleared_array_shows_nothing(g, v, cell);
    let cells = g.spill_cells(v);
    if cells.len() > 0 {
        let forgotten = GridView {
            spills: g.spills.remove(v),
            owners: g.owners.remove_keys(crate::coord::cell_keys(cells)),
            ..g
        };
        crate::spill::lemma_showing_keeps(forgotten.telling(cells), emptied(cells), cells.len());
    }
    crate::grid::formulas_show_what_they_hold(g.clearing(v), v, ValueView::Error(error), v, cell);
}

/// What is collected of a settled result is its cell with the value, and, where an array was spilled,
/// every other cell of it as empty.
pub proof fn a_settled_result_is_collected_with_its_old_array(g: GridView, v: u32, value: ValueView, i: int)
    requires
        0 <= i < settle_changes(g, v, value).len(),
    ensures
        ({
            let (cell, new) = settle_changes(g, v, value)[i];
            &&& g.cells.contains_key(v)
            &&& cell == g.cells[v] ==> new == value
            &&& cell != g.cells[v] ==> new == ValueView::Empty && g.spills.contains_key(v)
                && g.spills[v].contains(cell)
            &&& !g.spills.contains_key(v) ==> cell == g.cells[v]
            &&& settle_changes(g, v, value).len() == (if g.spills.contains_key(v) && g.spills[v].len() > 0 {
                g.spills[v].len()
            } else {
                1
            })
        }),
{
}

/// A refused reservation is a spill error with the message of the refusal, and with the size that was
/// wanted.
pub proof fn refused_reservations_are_spill_errors(e: ErrorView, rows: u32, cols: u32)
    ensures
        lock_failure(e, rows, cols).kind == ErrorKind::Spill,
        lock_failure(e, rows, cols).extra == (ErrorExtra::Spill {
            expected_rows: rows,
            expected_cols: cols,
        }),
        e.message is Some ==> lock_failure(e, rows, cols).message == e.message,
        e.message is None ==> lock_failure(e, rows, cols).message == Some("Spill blocked"@),
{
}

/// The message of an unknown vertex names it, and an array is as high as it has rows and as wide as its
/// first row.
pub proof fn arrays_are_as_wide_as_their_first_row(v: u32, rows: Seq<Seq<ValueView>>)
    requires
        rows.len() <= u32::MAX,
        rows.len() > 0 ==> rows[0].len() <= u32::MAX,
    ensures
        unknown_vertex_message(v) == "Vertex not found: VertexId("@ + decimal(v as nat) + ")"@,
        array_size(rows).0 == rows.len(),
        rows.len() == 0 ==> array_size(rows).1 == 0,
        rows.len() > 0 ==> array_size(rows).1 == rows[0].len(),
{
}

/// A result is stored as its value, and a failed one as its error.
pub proof fn failed_results_are_stored_as_errors(result: Result<LiteralValue, ExcelError>, g: GridView, v: u32, value: ValueView)
    ensures
        result matches Ok(x) ==> stored_result(result) == x@,
        result matches Err(e) ==> stored_result(result) == ValueView::Error(e@),
        g.cells.contains_key(v) ==> own_change(g, v, value).len() == 1 && own_change(g, v, value)[0] == (
            g.cells[v],
            value,
        ),
        !g.cells.contains_key(v) ==> own_change(g, v, value).len() == 0,
{
}

/// A refused array is collected with its cell, where the error is new there.
pub proof fn a_refused_array_is_collected(d: DeltaView, g: GridView, v: u32, error: ValueView)
    requires
        d.mode == crate::grid::DeltaMode::Cells,
        !crate::value::value_eq(g.clearing(v).reading(g.cells[v]), error),
    ensures
        failing_delta(d, g, v, error).cells.contains(g.cells[v]),
{
    let cells = g.spill_cells(v);
    let first = recorded(d, g, emptied(cells), cells.len());
    crate::grid::lemma_recorded_mode(d, g, emptied(cells), cells.len());
    crate::grid::changed_cells_are_recorded(first, g.clearing(v), seq![(g.cells[v], error)], 1, 0);
}

} // verus!
