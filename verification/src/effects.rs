//! Results in two steps: first what they will do is planned, then it is done.
use crate::coord::{CellRef, VertexId, rect_cells, rectangle};
use crate::grid::{DeltaCollector, DeltaView, Grid, GridView, emptied, recorded};
use crate::outcome::{array_size, covered, first_value, is_covered, lock_error, lock_failure, marked, own_change, size_of_array, top_left, update_vertex_value_with_delta};
use crate::region::{is_scope_of_cells, scope_of_cells};
use crate::spill::{PACKED_MAX_COL, PACKED_MAX_ROW, ShimSpillManager, check_spill, commit_changes, commit_objection, commit_spill_and_mirror, covers, find_blocker, is_blocked, plan_view, spill_error, spill_failure, spill_objection, spilling, width};
use crate::value::{ErrorKind, ErrorView, ExcelError, LiteralValue, ValueView, row_view, rows_view};
use crate::vertex::{VertexKind, is_formula};
use vstd::prelude::*;

verus! {

/// One thing that a result does to the grid.
#[derive(Debug)]
pub enum Effect {
    WriteCell { vertex_id: VertexId, value: LiteralValue },
    SpillClear { anchor_vertex: VertexId },
    SpillCommit {
        anchor_vertex: VertexId,
        anchor_cell: CellRef,
        target_cells: Vec<CellRef>,
        values: Vec<Vec<LiteralValue>>,
    },
}

/// The model of an [`Effect`].
pub enum EffectView {
    WriteCell { vertex_id: u32, value: ValueView },
    SpillClear { anchor_vertex: u32 },
    SpillCommit {
        anchor_vertex: u32,
        anchor_cell: CellRef,
        target_cells: Seq<CellRef>,
        values: Seq<Seq<ValueView>>,
    },
}

impl Effect {
    pub open spec fn view(&self) -> EffectView {
        match *self {
            Effect::WriteCell { vertex_id, value } => EffectView::WriteCell {
                vertex_id,
                value: value@,
            },
            Effect::SpillClear { anchor_vertex } => EffectView::SpillClear { anchor_vertex },
            Effect::SpillCommit { anchor_vertex, anchor_cell, target_cells, values } =>
                EffectView::SpillCommit {
                anchor_vertex,
                anchor_cell,
                target_cells: target_cells@,
                values: rows_view(values@),
            },
        }
    }
}

pub open spec fn effects_view(effects: Seq<Effect>) -> Seq<EffectView> {
    Seq::new(effects.len(), |i: int| effects[i]@)
}

/// What a value that is no array does: an array that was spilled before is taken back first.
pub open spec fn scalar_effects(g: GridView, v: u32, value: ValueView) -> Seq<EffectView> {
    let write = EffectView::WriteCell { vertex_id: v, value };
    if g.spill_cells(v).len() > 0 {
        seq![EffectView::SpillClear { anchor_vertex: v }, write]
    } else {
        seq![write]
    }
}

/// What an array that cannot spill does.
pub open spec fn spill_error_effects(v: u32, error: ErrorView) -> Seq<EffectView> {
    seq![
        EffectView::SpillClear { anchor_vertex: v },
        EffectView::WriteCell { vertex_id: v, value: ValueView::Error(error) },
    ]
}

/// What an array does that can spill.
pub open spec fn spill_effects(
    g: GridView,
    v: u32,
    anchor: CellRef,
    targets: Seq<CellRef>,
    rows: Seq<Seq<ValueView>>,
) -> Seq<EffectView> {
    let commit = EffectView::SpillCommit {
        anchor_vertex: v,
        anchor_cell: anchor,
        target_cells: targets,
        values: rows,
    };
    let write = EffectView::WriteCell { vertex_id: v, value: top_left(rows) };
    if g.spill_cells(v).len() > 0 {
        seq![EffectView::SpillClear { anchor_vertex: v }, commit, write]
    } else {
        seq![commit, write]
    }
}

fn plan_scalar_effects(grid: &Grid, v: VertexId, value: LiteralValue) -> (r: Vec<Effect>)
    ensures
        effects_view(r@) == scalar_effects(grid@, v, value@),
{
    let mut effects: Vec<Effect> = Vec::new();
    if grid.spilled_cells(v).len() > 0 {
        effects.push(Effect::SpillClear { anchor_vertex: v });
    }
    effects.push(Effect::WriteCell { vertex_id: v, value });
    assert(effects_view(effects@) =~= scalar_effects(grid@, v, value@));
    effects
}

fn plan_spill_error_effects(v: VertexId, error: ExcelError) -> (r: Vec<Effect>)
    ensures
        effects_view(r@) == spill_error_effects(v, error@),
{
    let mut effects: Vec<Effect> = Vec::new();
    effects.push(Effect::SpillClear { anchor_vertex: v });
    effects.push(Effect::WriteCell { vertex_id: v, value: LiteralValue::Error(error) });
    assert(effects_view(effects@) =~= spill_error_effects(v, error@));
    effects
}

/// What the plan for a result needs next.
#[derive(Debug)]
pub enum EffectStep {
    /// The plan is complete.
    Planned(Vec<Effect>),
    /// The targets of an array have to be locked.
    Reserve { anchor: CellRef, rows: u32, cols: u32, targets: Vec<CellRef>, values: Vec<Vec<LiteralValue>> },
}

/// Whether the step is the plan of what the value does, and `after` the grid with it: a formula that
/// gives an array is marked, and nothing else is changed. The value of a cell that belongs to
/// another vertex's array is dropped, unless the vertex is a formula; only formulas spill.
pub open spec fn is_effect_plan(
    g: GridView,
    v: u32,
    value: LiteralValue,
    max_spill_cells: u32,
    r: EffectStep,
    after: GridView,
) -> bool {
    if !is_formula(g.kind(v)) {
        &&& after == g
        &&& r matches EffectStep::Planned(effects) && effects_view(effects@) == (if is_covered(
            g,
            v,
        ) {
            Seq::empty()
        } else {
            seq![EffectView::WriteCell { vertex_id: v, value: value@ }]
        })
    } else {
        match value {
            LiteralValue::Array(rows) => {
                let model = rows_view(rows@);
                let (h, w) = array_size(model);
                &&& after == marked(g, v)
                &&& match spill_objection(g.cells[v], h, w, max_spill_cells) {
                    Some(message) => r matches EffectStep::Planned(effects) && effects_view(
                        effects@,
                    ) == spill_error_effects(v, spill_failure(message, h, w)),
                    None => r matches EffectStep::Reserve {
                        anchor,
                        rows: rh,
                        cols: rw,
                        targets,
                        values,
                    } && anchor == g.cells[v] && rh == h && rw == w && targets@ == rect_cells(
                        anchor,
                        h as int,
                        w as int,
                    ) && values == rows,
                }
            },
            _ => {
                &&& after == g
                &&& r matches EffectStep::Planned(effects) && effects_view(effects@)
                    == scalar_effects(g, v, value@)
            },
        }
    }
}

/// Plans what a computed value does. The value of a cell that belongs to another vertex's array is
/// dropped, unless the vertex is a formula; only formulas spill.
pub fn plan_vertex_effects(
    grid: &mut Grid,
    v: VertexId,
    value: LiteralValue,
    max_spill_cells: u32,
) -> (r: EffectStep)
    requires
        old(grid).wf(),
        value is Array && is_formula(old(grid)@.kind(v)) ==> old(grid)@.cells.contains_key(v),
        value matches LiteralValue::Array(rows) ==> rows@.len() <= u32::MAX && width(
            rows_view(rows@),
        ) <= u32::MAX,
    ensures
        final(grid).wf(),
        is_effect_plan(old(grid)@, v, value, max_spill_cells, r, final(grid)@),
{
    if !grid.vertex_kind(v).formula() {
        let mut effects: Vec<Effect> = Vec::new();
        if covered(grid, v) {
            assert(effects_view(effects@) =~= Seq::empty());
            return EffectStep::Planned(effects);
        }
        let ghost model = value@;
        effects.push(Effect::WriteCell { vertex_id: v, value });
        assert(effects_view(effects@) =~= seq![
            EffectView::WriteCell { vertex_id: v, value: model },
        ]);
        return EffectStep::Planned(effects);
    }
    match value {
        LiteralValue::Array(rows) => {
            grid.set_kind(v, VertexKind::FormulaArray);
            let anchor = match grid.cell_of(v) {
                Some(c) => c,
                None => CellRef { sheet_id: 0, row: 0, col: 0 },
            };
            let (h, w) = size_of_array(&rows);
            match check_spill(anchor, h, w, max_spill_cells) {
                Some(message) => EffectStep::Planned(
                    plan_spill_error_effects(v, spill_error(message, h, w)),
                ),
                None => {
                    let targets = rectangle(anchor, h, w);
                    EffectStep::Reserve { anchor, rows: h, cols: w, targets, values: rows }
                },
            }
        },
        other => EffectStep::Planned(plan_scalar_effects(grid, v, other)),
    }
}

/// Why an array does not spill once its targets are locked: the graph objects, or a target shows a
/// value that is in the way.
pub open spec fn plan_objection(
    g: GridView,
    v: u32,
    targets: Seq<CellRef>,
    allowed: bool,
    value_cache_enabled: bool,
) -> Option<Seq<char>> {
    if !allowed {
        Some("Spill blocked"@)
    } else if !value_cache_enabled && is_blocked(g, v, targets) {
        Some("BlockedByValue"@)
    } else {
        None
    }
}

/// Plans what an array does once the request for its targets is answered. `allowed` tells whether
/// the graph lets the vertex spill there. The lock is kept until the plan is carried out.
pub fn plan_array_effects(
    locks: &mut ShimSpillManager,
    grid: &Grid,
    v: VertexId,
    anchor: CellRef,
    targets: Vec<CellRef>,
    rows: Vec<Vec<LiteralValue>>,
    answer: Result<u64, ExcelError>,
    allowed: bool,
    value_cache_enabled: bool,
) -> (r: Vec<Effect>)
    requires
        grid.wf(),
        grid@.cells.contains_key(v),
        rows@.len() <= u32::MAX,
        width(rows_view(rows@)) <= u32::MAX,
    ensures
        final(locks)@ == (match answer {
            Ok(id) if id != 0 => old(locks)@.insert(v, id),
            _ => old(locks)@,
        }),
        ({
            let model = rows_view(rows@);
            let (h, w) = array_size(model);
            effects_view(r@) == (match answer {
                Err(e) => spill_error_effects(v, lock_failure(e@, h, w)),
                Ok(_) => match plan_objection(
                    grid@,
                    v,
                    targets@,
                    allowed,
                    value_cache_enabled,
                ) {
                    Some(message) => spill_error_effects(v, spill_failure(message, h, w)),
                    None => spill_effects(grid@, v, anchor, targets@, model),
                },
            })
        }),
{
    let (h, w) = size_of_array(&rows);
    if let Err(e) = locks.reserve(v, answer) {
        return plan_spill_error_effects(v, lock_error(&e, h, w));
    }
    if !allowed {
        return plan_spill_error_effects(v, spill_error("Spill blocked", h, w));
    }
    if !value_cache_enabled && find_blocker(grid, v, &targets) {
        return plan_spill_error_effects(v, spill_error("BlockedByValue", h, w));
    }
    let first = first_value(&rows);
    let mut effects: Vec<Effect> = Vec::new();
    let ghost goal = spill_effects(grid@, v, anchor, targets@, rows_view(rows@));
    if grid.spilled_cells(v).len() > 0 {
        effects.push(Effect::SpillClear { anchor_vertex: v });
    }
    effects.push(
        Effect::SpillCommit {
            anchor_vertex: v,
            anchor_cell: anchor,
            target_cells: targets,
            values: rows,
        },
    );
    effects.push(Effect::WriteCell { vertex_id: v, value: first });
    assert(effects_view(effects@) =~= goal);
    effects
}

/// What a spilled array held.
#[derive(Debug)]
pub struct SpillSnapshot {
    pub target_cells: Vec<CellRef>,
    pub values: Vec<Vec<LiteralValue>>,
}

/// The model of a [`SpillSnapshot`].
pub struct SnapshotView {
    pub target_cells: Seq<CellRef>,
    pub values: Seq<Seq<ValueView>>,
}

impl SpillSnapshot {
    pub open spec fn view(&self) -> SnapshotView {
        SnapshotView { target_cells: self.target_cells@, values: rows_view(self.values@) }
    }
}

pub open spec fn snapshot_view(s: Option<SpillSnapshot>) -> Option<SnapshotView> {
    match s {
        Some(x) => Some(x@),
        None => None,
    }
}

/// Whether the cells lie on a sheet.
pub open spec fn on_sheet(cells: Seq<CellRef>) -> bool {
    forall|i: int|
        0 <= i < cells.len() ==> (#[trigger] cells[i]).row <= PACKED_MAX_ROW && cells[i].col
            <= PACKED_MAX_COL
}

/// The last row of the cells.
pub open spec fn bottom_row(cells: Seq<CellRef>, n: nat) -> u32
    decreases n,
{
    if n <= 1 || bottom_row(cells, (n - 1) as nat) > cells[n - 1].row {
        if n <= 1 {
            cells[0].row
        } else {
            bottom_row(cells, (n - 1) as nat)
        }
    } else {
        cells[n - 1].row
    }
}

/// The last column of the cells.
pub open spec fn right_col(cells: Seq<CellRef>, n: nat) -> u32
    decreases n,
{
    if n <= 1 || right_col(cells, (n - 1) as nat) > cells[n - 1].col {
        if n <= 1 {
            cells[0].col
        } else {
            right_col(cells, (n - 1) as nat)
        }
    } else {
        cells[n - 1].col
    }
}

/// Whether one of the cells stands in the row and the column.
pub open spec fn has_coord(cells: Seq<CellRef>, row: int, col: int) -> bool {
    exists|i: int| 0 <= i < cells.len() && (#[trigger] cells[i]).row == row && cells[i].col == col
}

/// The value that a snapshot has for a row and a column: what the cell shows, or empty where the
/// array has no cell.
pub open spec fn snapshot_value(g: GridView, cells: Seq<CellRef>, row: int, col: int) -> ValueView {
    if has_coord(cells, row, col) {
        g.reading(CellRef { sheet_id: cells[0].sheet_id, row: row as u32, col: col as u32 })
    } else {
        ValueView::Empty
    }
}

/// The rows of a snapshot: the rectangle from the first cell to the last row and column.
pub open spec fn snapshot_rows(g: GridView, cells: Seq<CellRef>) -> Seq<Seq<ValueView>> {
    let row0 = cells[0].row as int;
    let col0 = cells[0].col as int;
    Seq::new(
        (bottom_row(cells, cells.len()) - row0 + 1) as nat,
        |r: int|
            Seq::new(
                (right_col(cells, cells.len()) - col0 + 1) as nat,
                |c: int| snapshot_value(g, cells, row0 + r, col0 + c),
            ),
    )
}

/// The snapshot of what the vertex has spilled, with no more than `max` cells.
pub open spec fn snapshot_of(g: GridView, v: u32, max: u32) -> Option<SnapshotView> {
    let all = g.spill_cells(v);
    if all.len() == 0 {
        None
    } else {
        let cells = if all.len() > max {
            all.take(max as int)
        } else {
            all
        };
        Some(SnapshotView { target_cells: cells, values: snapshot_rows(g, cells) })
    }
}

proof fn lemma_extents(cells: Seq<CellRef>, n: nat)
    requires
        1 <= n <= cells.len(),
        on_sheet(cells),
    ensures
        cells[0].row <= bottom_row(cells, n) <= PACKED_MAX_ROW,
        cells[0].col <= right_col(cells, n) <= PACKED_MAX_COL,
    decreases n,
{
    if n > 1 {
        lemma_extents(cells, (n - 1) as nat);
    }
    assert(cells[n - 1].row <= PACKED_MAX_ROW);
    assert(cells[0].row <= PACKED_MAX_ROW);
}

fn snapshot_cell(grid: &Grid, cells: &Vec<CellRef>, row: u32, col: u32) -> (v: LiteralValue)
    requires
        grid.wf(),
        cells@.len() > 0,
    ensures
        v@ == snapshot_value(grid@, cells@, row as int, col as int),
{
    let mut i: usize = 0;
    while i < cells.len()
        invariant
            grid.wf(),
            i <= cells@.len(),
            forall|k: int|
                0 <= k < i ==> !((#[trigger] cells@[k]).row == row && cells@[k].col == col),
        decreases cells@.len() - i,
    {
        if cells[i].row == row && cells[i].col == col {
            assert(has_coord(cells@, row as int, col as int));
            return grid.read_cell(CellRef { sheet_id: cells[0].sheet_id, row, col });
        }
        i = i + 1;
    }
    LiteralValue::Empty
}

/// Whether what the vertex has spilled can be taken down where the change log is kept: an array has
/// cells on the sheet, and some of them may be kept.
pub open spec fn can_be_taken_down(kept: bool, g: GridView, v: u32, max: u32) -> bool {
    kept && g.spill_cells(v).len() > 0 ==> max > 0 && on_sheet(g.spill_cells(v))
}

/// Takes down what the vertex has spilled, as the change log keeps it.
pub fn snapshot_spill_for_anchor(grid: &Grid, v: VertexId, max_spill_cells: u32) -> (r: Option<
    SpillSnapshot,
>)
    requires
        grid.wf(),
        can_be_taken_down(true, grid@, v, max_spill_cells),
    ensures
        snapshot_view(r) == snapshot_of(grid@, v, max_spill_cells),
{
    let mut cells = grid.spilled_cells(v);
    if cells.len() == 0 {
        return None;
    }
    if cells.len() as u64 > max_spill_cells as u64 {
        cells.truncate(max_spill_cells as usize);
    }
    let ghost goal = snapshot_rows(grid@, cells@);
    let ghost list = cells@;
    let row0 = cells[0].row;
    let col0 = cells[0].col;
    let mut max_row: u32 = row0;
    let mut max_col: u32 = col0;
    let mut i: usize = 1;
    while i < cells.len()
        invariant
            1 <= i <= cells@.len(),
            max_row == bottom_row(cells@, i as nat),
            max_col == right_col(cells@, i as nat),
        decreases cells@.len() - i,
    {
        let cell = cells[i];
        if cell.row >= max_row {
            max_row = cell.row;
        }
        if cell.col >= max_col {
            max_col = cell.col;
        }
        i = i + 1;
    }
    assert(on_sheet(cells@));
    proof {
        lemma_extents(cells@, cells@.len());
    }
    let rows = max_row - row0 + 1;
    let cols = max_col - col0 + 1;
    let mut values: Vec<Vec<LiteralValue>> = Vec::new();
    let mut r: u32 = 0;
    while r < rows
        invariant
            grid.wf(),
            cells@ == list,
            list.len() > 0,
            row0 == list[0].row,
            col0 == list[0].col,
            rows == bottom_row(list, list.len()) - row0 + 1,
            cols == right_col(list, list.len()) - col0 + 1,
            row0 + rows <= PACKED_MAX_ROW + 1,
            col0 + cols <= PACKED_MAX_COL + 1,
            r <= rows,
            goal == snapshot_rows(grid@, list),
            values@.len() == r,
            forall|k: int| 0 <= k < r ==> row_view((#[trigger] values@[k])@) == goal[k],
        decreases rows - r,
    {
        let mut row: Vec<LiteralValue> = Vec::new();
        let mut c: u32 = 0;
        while c < cols
            invariant
                grid.wf(),
                cells@ == list,
                list.len() > 0,
                row0 + r <= PACKED_MAX_ROW,
                col0 + cols <= PACKED_MAX_COL + 1,
                c <= cols,
                row@.len() == c,
                forall|k: int|
                    0 <= k < c ==> (#[trigger] row@[k])@ == snapshot_value(
                        grid@,
                        list,
                        row0 + r,
                        col0 + k,
                    ),
            decreases cols - c,
        {
            row.push(snapshot_cell(grid, &cells, row0 + r, col0 + c));
            c = c + 1;
        }
        assert(row_view(row@) =~= goal[r as int]);
        values.push(row);
        r = r + 1;
    }
    assert(rows_view(values@) =~= goal);
    Some(SpillSnapshot { target_cells: cells, values })
}

/// An entry of the change log about a spilled array.
#[derive(Debug)]
#[allow(inconsistent_fields)]
pub enum SpillEvent {
    SpillCleared { anchor: VertexId, before: SpillSnapshot },
    SpillCommitted { anchor: VertexId, before: Option<SpillSnapshot>, after: SpillSnapshot },
}

/// The model of a [`SpillEvent`].
#[allow(inconsistent_fields)]
pub enum SpillEventView {
    SpillCleared { anchor: u32, before: SnapshotView },
    SpillCommitted { anchor: u32, before: Option<SnapshotView>, after: SnapshotView },
}

impl SpillEvent {
    pub open spec fn view(&self) -> SpillEventView {
        match *self {
            SpillEvent::SpillCleared { anchor, before } => SpillEventView::SpillCleared {
                anchor,
                before: before@,
            },
            SpillEvent::SpillCommitted { anchor, before, after } => SpillEventView::SpillCommitted {
                anchor,
                before: snapshot_view(before),
                after: after@,
            },
        }
    }
}

/// The change log as far as spilled arrays go; nothing is written while it is not kept.
#[derive(Debug)]
pub struct SpillLog {
    pub kept: bool,
    pub events: Vec<SpillEvent>,
}

pub open spec fn events_view(events: Seq<SpillEvent>) -> Seq<SpillEventView> {
    Seq::new(events.len(), |i: int| events[i]@)
}

impl SpillLog {
    pub open spec fn view(&self) -> (bool, Seq<SpillEventView>) {
        (self.kept, events_view(self.events@))
    }

    pub fn new(kept: bool) -> (l: SpillLog)
        ensures
            l@ == (kept, Seq::<SpillEventView>::empty()),
    {
        let l = SpillLog { kept, events: Vec::new() };
        assert(l@.1 =~= Seq::<SpillEventView>::empty());
        l
    }

    fn record(&mut self, event: SpillEvent)
        ensures
            final(self)@ == (old(self)@.0, old(self)@.1.push(event@)),
    {
        let ghost before = self.events@;
        self.events.push(event);
        assert(events_view(self.events@) =~= events_view(before).push(event@));
    }
}

/// The log once a clearing of the vertex's array is taken down.
pub open spec fn log_of_clear(
    log: (bool, Seq<SpillEventView>),
    g: GridView,
    v: u32,
    max: u32,
) -> (bool, Seq<SpillEventView>) {
    match snapshot_of(g, v, max) {
        Some(before) if log.0 => (
            log.0,
            log.1.push(SpillEventView::SpillCleared { anchor: v, before }),
        ),
        _ => log,
    }
}

/// Takes back the array that the vertex has spilled, if any.
pub fn apply_spill_clear(
    grid: &mut Grid,
    delta: &mut DeltaCollector,
    log: &mut SpillLog,
    v: VertexId,
    max_spill_cells: u32,
)
    requires
        old(grid).wf(),
        old(delta).wf(),
        can_be_taken_down(old(log)@.0, old(grid)@, v, max_spill_cells),
    ensures
        final(grid).wf(),
        final(delta).wf(),
        final(grid)@ == old(grid)@.clearing(v),
        final(delta)@ == recorded(
            old(delta)@,
            old(grid)@,
            emptied(old(grid)@.spill_cells(v)),
            old(grid)@.spill_cells(v).len(),
        ),
        final(log)@ == log_of_clear(old(log)@, old(grid)@, v, max_spill_cells),
{
    let snapshot = if log.kept {
        snapshot_spill_for_anchor(grid, v, max_spill_cells)
    } else {
        None
    };
    grid.clear_spill_projection_and_mirror(v, delta);
    if let Some(before) = snapshot {
        log.record(SpillEvent::SpillCleared { anchor: v, before });
    }
}

fn duplicate_cells(cells: &Vec<CellRef>) -> (r: Vec<CellRef>)
    ensures
        r@ == cells@,
{
    let mut out: Vec<CellRef> = Vec::new();
    let mut i: usize = 0;
    while i < cells.len()
        invariant
            i <= cells@.len(),
            out@ == cells@.take(i as int),
        decreases cells@.len() - i,
    {
        out.push(cells[i]);
        assert(out@ =~= cells@.take(i + 1));
        i = i + 1;
    }
    assert(cells@.take(i as int) =~= cells@);
    out
}

fn duplicate_rows(rows: &Vec<Vec<LiteralValue>>) -> (r: Vec<Vec<LiteralValue>>)
    ensures
        rows_view(r@) == rows_view(rows@),
{
    let mut out: Vec<Vec<LiteralValue>> = Vec::new();
    let mut i: usize = 0;
    while i < rows.len()
        invariant
            i <= rows@.len(),
            out@.len() == i,
            forall|k: int|
                0 <= k < i ==> row_view((#[trigger] out@[k])@) == row_view(rows@[k]@),
        decreases rows@.len() - i,
    {
        out.push(crate::value::duplicate_row(&rows[i]));
        i = i + 1;
    }
    assert(rows_view(out@) =~= rows_view(rows@));
    out
}

/// Spills an array. A refusal is handed back, and leaves the grid and the log as they were; cells
/// that were collected for it stay collected.
pub fn apply_spill_commit(
    locks: &mut ShimSpillManager,
    grid: &mut Grid,
    delta: &mut DeltaCollector,
    log: &mut SpillLog,
    v: VertexId,
    targets: &Vec<CellRef>,
    values: &Vec<Vec<LiteralValue>>,
    plan: Result<(), ExcelError>,
    value_cache_enabled: bool,
    max_spill_cells: u32,
) -> (r: (Result<(), ExcelError>, Option<u64>))
    requires
        old(grid).wf(),
        old(delta).wf(),
        old(grid)@.cells.contains_key(v),
        can_be_taken_down(old(log)@.0, old(grid)@, v, max_spill_cells),
        covers(rows_view(values@), targets@.len()),
    ensures
        final(grid).wf(),
        final(delta).wf(),
        final(locks)@ == old(locks)@.remove(v),
        r.1 == (if old(locks)@.contains_key(v) {
            Some(old(locks)@[v])
        } else {
            None
        }),
        ({
            let g = old(grid)@;
            let model = rows_view(values@);
            let changes = commit_changes(g, v, targets@, model);
            &&& final(delta)@ == recorded(old(delta)@, g, changes, changes.len())
            &&& match commit_objection(g, v, targets@, plan_view(plan), value_cache_enabled) {
                Some(e) => {
                    &&& r.0 matches Err(x) && x@ == e
                    &&& final(grid)@ == g
                    &&& final(log)@ == old(log)@
                },
                None => {
                    &&& r.0 is Ok
                    &&& final(grid)@ == spilling(g, v, targets@, model)
                    &&& final(log)@ == (if old(log)@.0 {
                        (
                            true,
                            old(log)@.1.push(
                                SpillEventView::SpillCommitted {
                                    anchor: v,
                                    before: snapshot_of(g, v, max_spill_cells),
                                    after: SnapshotView { target_cells: targets@, values: model },
                                },
                            ),
                        )
                    } else {
                        old(log)@
                    })
                },
            }
        }),
{
    let snapshot = if log.kept {
        snapshot_spill_for_anchor(grid, v, max_spill_cells)
    } else {
        None
    };
    let (outcome, released) = commit_spill_and_mirror(
        locks,
        grid,
        delta,
        v,
        targets,
        values,
        plan,
        value_cache_enabled,
    );
    if let Err(e) = outcome {
        return (Err(e), released);
    }
    if log.kept {
        let after = SpillSnapshot {
            target_cells: duplicate_cells(targets),
            values: duplicate_rows(values),
        };
        log.record(SpillEvent::SpillCommitted { anchor: v, before: snapshot, after });
    }
    (Ok(()), released)
}

/// The grid once the effect is applied, where it is not refused.
pub open spec fn applied(g: GridView, effect: EffectView) -> GridView {
    match effect {
        EffectView::WriteCell { vertex_id, value } => g.holding(vertex_id, value),
        EffectView::SpillClear { anchor_vertex } => g.clearing(anchor_vertex),
        EffectView::SpillCommit { anchor_vertex, target_cells, values, .. } => spilling(
            g,
            anchor_vertex,
            target_cells,
            values,
        ),
    }
}

/// What an applied effect collects.
pub open spec fn applied_delta(d: DeltaView, g: GridView, effect: EffectView) -> DeltaView {
    match effect {
        EffectView::WriteCell { vertex_id, value } => recorded(
            d,
            g,
            own_change(g, vertex_id, value),
            own_change(g, vertex_id, value).len(),
        ),
        EffectView::SpillClear { anchor_vertex } => recorded(
            d,
            g,
            emptied(g.spill_cells(anchor_vertex)),
            g.spill_cells(anchor_vertex).len(),
        ),
        EffectView::SpillCommit { anchor_vertex, target_cells, values, .. } => {
            let changes = commit_changes(g, anchor_vertex, target_cells, values);
            recorded(d, g, changes, changes.len())
        },
    }
}

/// Why the effect is refused.
pub open spec fn effect_objection(
    g: GridView,
    effect: EffectView,
    plan: Result<(), ErrorView>,
    value_cache_enabled: bool,
) -> Option<ErrorView> {
    match effect {
        EffectView::SpillCommit { anchor_vertex, target_cells, .. } => commit_objection(
            g,
            anchor_vertex,
            target_cells,
            plan,
            value_cache_enabled,
        ),
        _ => None,
    }
}

/// The vertex that an effect speaks of.
pub open spec fn effect_vertex(effect: EffectView) -> u32 {
    match effect {
        EffectView::WriteCell { vertex_id, .. } => vertex_id,
        EffectView::SpillClear { anchor_vertex } => anchor_vertex,
        EffectView::SpillCommit { anchor_vertex, .. } => anchor_vertex,
    }
}

/// The log once the effect is applied.
pub open spec fn applied_log(
    log: (bool, Seq<SpillEventView>),
    g: GridView,
    effect: EffectView,
    max: u32,
) -> (bool, Seq<SpillEventView>) {
    match effect {
        EffectView::WriteCell { .. } => log,
        EffectView::SpillClear { anchor_vertex } => log_of_clear(log, g, anchor_vertex, max),
        EffectView::SpillCommit { anchor_vertex, target_cells, values, .. } => if log.0 {
            (
                true,
                log.1.push(
                    SpillEventView::SpillCommitted {
                        anchor: anchor_vertex,
                        before: snapshot_of(g, anchor_vertex, max),
                        after: SnapshotView { target_cells, values },
                    },
                ),
            )
        } else {
            log
        },
    }
}

/// Carries out one effect. `plan` is what the graph says of the targets of an array. The second
/// answer is the lock to release.
pub fn apply_effect(
    locks: &mut ShimSpillManager,
    grid: &mut Grid,
    delta: &mut DeltaCollector,
    log: &mut SpillLog,
    effect: &Effect,
    plan: Result<(), ExcelError>,
    value_cache_enabled: bool,
    max_spill_cells: u32,
) -> (r: (Result<(), ExcelError>, Option<u64>))
    requires
        old(grid).wf(),
        old(delta).wf(),
        !(effect is WriteCell) ==> can_be_taken_down(
            old(log)@.0,
            old(grid)@,
            effect_vertex(effect@),
            max_spill_cells,
        ),
        effect matches Effect::SpillCommit { anchor_vertex, target_cells, values, .. } ==> {
            &&& old(grid)@.cells.contains_key(*anchor_vertex)
            &&& covers(rows_view(values@), target_cells@.len())
        },
    ensures
        final(grid).wf(),
        final(delta).wf(),
        final(delta)@ == applied_delta(old(delta)@, old(grid)@, effect@),
        match effect_objection(old(grid)@, effect@, plan_view(plan), value_cache_enabled) {
            Some(e) => {
                &&& r.0 matches Err(x) && x@ == e
                &&& final(grid)@ == old(grid)@
                &&& final(log)@ == old(log)@
            },
            None => {
                &&& r.0 is Ok
                &&& final(grid)@ == applied(old(grid)@, effect@)
                &&& final(log)@ == applied_log(old(log)@, old(grid)@, effect@, max_spill_cells)
            },
        },
        final(locks)@ == (if effect is SpillCommit {
            old(locks)@.remove(effect_vertex(effect@))
        } else {
            old(locks)@
        }),
        r.1 == (if effect is SpillCommit && old(locks)@.contains_key(effect_vertex(effect@)) {
            Some(old(locks)@[effect_vertex(effect@)])
        } else {
            None
        }),
{
    match effect {
        Effect::WriteCell { vertex_id, value } => {
            update_vertex_value_with_delta(grid, delta, *vertex_id, value);
            (Ok(()), None)
        },
        Effect::SpillClear { anchor_vertex } => {
            apply_spill_clear(grid, delta, log, *anchor_vertex, max_spill_cells);
            (Ok(()), None)
        },
        Effect::SpillCommit { anchor_vertex, anchor_cell: _, target_cells, values } => {
            apply_spill_commit(
                locks,
                grid,
                delta,
                log,
                *anchor_vertex,
                target_cells,
                values,
                plan,
                value_cache_enabled,
                max_spill_cells,
            )
        },
    }
}

/// The grid once the first `n` effects are applied.
pub open spec fn applied_all(g: GridView, effects: Seq<EffectView>, n: nat) -> GridView
    decreases n,
{
    if n == 0 {
        g
    } else {
        applied(applied_all(g, effects, (n - 1) as nat), effects[n - 1])
    }
}

/// A planned value that is no array comes to what taking it over at once comes to.
pub proof fn planned_scalars_come_to_the_same(g: GridView, v: u32, value: ValueView)
    requires
        g.spills.contains_key(v) ==> g.spills[v].len() > 0,
    ensures
        applied_all(g, scalar_effects(g, v, value), scalar_effects(g, v, value).len())
            == g.unspilling(v).holding(v, value),
{
    let effects = scalar_effects(g, v, value);
    reveal_with_fuel(applied_all, 3);
    if g.spill_cells(v).len() == 0 {
        assert(!g.spills.contains_key(v));
        assert(g.spills.remove(v) =~= g.spills);
        assert(g.owners.remove_keys(crate::coord::cell_keys(g.spill_cells(v))) =~= g.owners);
        assert(is_scope_of_cells(g.spill_cells(v), None));
        assert(scope_of_cells(g.spill_cells(v)) is None);
        assert(g.unspilling(v) =~= g);
    }
}

/// A planned array comes to what spilling it comes to, with the anchor showing the first value.
pub proof fn planned_arrays_come_to_the_same(
    g: GridView,
    v: u32,
    anchor: CellRef,
    targets: Seq<CellRef>,
    rows: Seq<Seq<ValueView>>,
)
    requires
        g.spill_cells(v).len() == 0,
    ensures
        applied_all(
            g,
            spill_effects(g, v, anchor, targets, rows),
            spill_effects(g, v, anchor, targets, rows).len(),
        ) == spilling(g, v, targets, rows).holding(v, top_left(rows)),
{
    reveal_with_fuel(applied_all, 3);
}

/// A scalar result clears the array that its formula had spilled, if any, and is written; nothing else is
/// planned.
pub proof fn scalar_results_clear_the_old_array(g: GridView, v: u32, value: ValueView)
    ensures
        ({
            let e = scalar_effects(g, v, value);
            let spilled = g.spills.contains_key(v) && g.spills[v].len() > 0;
            &&& e.len() == (if spilled {
                2nat
            } else {
                1nat
            })
            &&& e.last() == (EffectView::WriteCell { vertex_id: v, value })
            &&& spilled ==> e[0] == (EffectView::SpillClear { anchor_vertex: v })
        }),
{
}

/// An array clears the one that its formula had spilled, if any, is spilled onto its targets, and its
/// first value is written.
pub proof fn arrays_are_spilled_and_their_first_value_written(
    g: GridView,
    v: u32,
    anchor: CellRef,
    targets: Seq<CellRef>,
    rows: Seq<Seq<ValueView>>,
)
    requires
        rows.len() > 0,
        rows[0].len() > 0,
    ensures
        ({
            let e = spill_effects(g, v, anchor, targets, rows);
            let spilled = g.spills.contains_key(v) && g.spills[v].len() > 0;
            let n = e.len() as int;
            &&& n == (if spilled {
                3int
            } else {
                2int
            })
            &&& e[n - 1] == (EffectView::WriteCell { vertex_id: v, value: rows[0][0] })
            &&& e[n - 2] == (EffectView::SpillCommit {
                anchor_vertex: v,
                anchor_cell: anchor,
                target_cells: targets,
                values: rows,
            })
            &&& spilled ==> e[0] == (EffectView::SpillClear { anchor_vertex: v })
        }),
{
}

/// An array that may not spill clears the old one and leaves its error.
pub proof fn refused_arrays_clear_the_old_one_and_leave_an_error(v: u32, error: ErrorView)
    ensures
        spill_error_effects(v, error).len() == 2,
        spill_error_effects(v, error)[0] == (EffectView::SpillClear { anchor_vertex: v }),
        spill_error_effects(v, error)[1] == (EffectView::WriteCell {
            vertex_id: v,
            value: ValueView::Error(error),
        }),
{
}

/// A planned array is refused where the graph does not allow it, and, where values are not cached, where
/// one of its targets shows a value that is not its own.
pub proof fn planned_arrays_are_refused_where_something_is_in_the_way(
    g: GridView,
    v: u32,
    targets: Seq<CellRef>,
    allowed: bool,
    value_cache_enabled: bool,
)
    ensures
        !allowed ==> plan_objection(g, v, targets, allowed, value_cache_enabled) == Some("Spill blocked"@),
        allowed && !value_cache_enabled && is_blocked(g, v, targets) ==> plan_objection(
            g,
            v,
            targets,
            allowed,
            value_cache_enabled,
        ) == Some("BlockedByValue"@),
        allowed && (value_cache_enabled || !is_blocked(g, v, targets)) ==> plan_objection(
            g,
            v,
            targets,
            allowed,
            value_cache_enabled,
        ) is None,
{
}

/// What is taken down of an array before it goes: its cells, as many as may be, and what each of them
/// shows, at the place that it has from the first cell on.
pub proof fn snapshots_hold_what_the_array_showed(g: GridView, v: u32, max: u32, i: int)
    requires
        g.spills.contains_key(v),
        0 <= i < g.spills[v].len(),
        i < max,
        forall|k: int|
            0 <= k < g.spills[v].len() ==> (#[trigger] g.spills[v][k]).sheet_id == g.spills[v][0].sheet_id
                && g.spills[v][k].row >= g.spills[v][0].row && g.spills[v][k].col >= g.spills[v][0].col,
    ensures
        snapshot_of(g, v, max) matches Some(snap) && snap.target_cells[i] == g.spills[v][i]
            && snap.target_cells.len() == (if g.spills[v].len() > max {
            max as nat
        } else {
            g.spills[v].len()
        }) && ({
            let c = g.spills[v][i];
            let first = g.spills[v][0];
            &&& c.row - first.row < snap.values.len()
            &&& c.col - first.col < snap.values[c.row - first.row].len()
            &&& snap.values[c.row - first.row][c.col - first.col] == g.reading(c)
        }),
{
    let all = g.spill_cells(v);
    let cells = if all.len() > max {
        all.take(max as int)
    } else {
        all
    };
    assert(cells[0] == all[0] && cells[i] == all[i]);
    lemma_corner(cells, cells.len(), i);
    let c = all[i];
    assert(has_coord(cells, c.row as int, c.col as int)) by {
        assert(cells[i].row == c.row && cells[i].col == c.col);
    }
    assert(all[i].sheet_id == all[0].sheet_id);
    assert(c == (CellRef { sheet_id: cells[0].sheet_id, row: c.row, col: c.col }));
}

proof fn lemma_corner(cells: Seq<CellRef>, n: nat, i: int)
    requires
        n <= cells.len(),
        0 <= i < n,
    ensures
        cells[i].row <= bottom_row(cells, n),
        cells[i].col <= right_col(cells, n),
    decreases n,
{
    if n > 1 && i < n - 1 {
        lemma_corner(cells, (n - 1) as nat, i);
    }
}

/// What is planned for a result: nothing for a cell that another array covers and a write for any other
/// that is no formula; for a formula a write of its value, its old array cleared first; for an array the
/// reservation of the rectangle from its cell on, or its error where that is not on the sheet.
pub proof fn results_are_planned_by_what_they_are(
    g: GridView,
    v: u32,
    value: LiteralValue,
    max_spill_cells: u32,
    r: EffectStep,
    after: GridView,
)
    requires
        is_effect_plan(g, v, value, max_spill_cells, r, after),
    ensures
        ({
            let formula = g.kinds.contains_key(v) && (g.kinds[v] == VertexKind::FormulaScalar || g.kinds[v]
                == VertexKind::FormulaArray);
            let spilled = g.spills.contains_key(v) && g.spills[v].len() > 0;
            &&& !formula ==> after == g && (r matches EffectStep::Planned(effects) && effects@.len() == (
            if is_covered(g, v) {
                0nat
            } else {
                1nat
            }) && (!is_covered(g, v) ==> effects@[0]@ == (EffectView::WriteCell {
                vertex_id: v,
                value: value@,
            })))
            &&& formula && !(value is Array) ==> after == g && (r matches EffectStep::Planned(effects)
                && effects@.len() == (if spilled {
                2nat
            } else {
                1nat
            }) && effects@[effects@.len() - 1]@ == (EffectView::WriteCell { vertex_id: v, value: value@ }))
            &&& formula && value is Array ==> after.kinds.contains_pair(v, VertexKind::FormulaArray) && (
            r matches EffectStep::Planned(effects) ==> effects@.len() == 2 && effects@[0]@ == (
            EffectView::SpillClear { anchor_vertex: v }) && (effects@[1]@ matches EffectView::WriteCell {
                vertex_id,
                value: ValueView::Error(e),
            } && vertex_id == v && e.kind == ErrorKind::Spill)) && (r matches EffectStep::Reserve {
                anchor,
                rows,
                targets,
                ..
            } ==> anchor == g.cells[v] && targets@ == rect_cells(anchor, rows as int, width(
                rows_view(value->Array_0@),
            ) as u32 as int) && rows == value->Array_0@.len() as u32)
        }),
{
    if let EffectStep::Planned(effects) = r {
        assert(effects_view(effects@).len() == effects@.len());
        if effects@.len() > 0 {
            assert(effects_view(effects@)[0] == effects@[0]@);
            assert(effects_view(effects@)[effects@.len() - 1] == effects@[effects@.len() - 1]@);
        }
        if effects@.len() == 2 {
            assert(effects_view(effects@)[1] == effects@[1]@);
        }
    }
}

/// A kept log gets an entry for each array that is cleared, with what it showed, and for each that is
/// spilled, with what stood there before and what stands there now; nothing is logged of a write.
pub proof fn kept_logs_tell_of_arrays(
    log: (bool, Seq<SpillEventView>),
    g: GridView,
    v: u32,
    anchor_cell: CellRef,
    targets: Seq<CellRef>,
    values: Seq<Seq<ValueView>>,
    value: ValueView,
    max: u32,
)
    ensures
        applied_log(log, g, EffectView::WriteCell { vertex_id: v, value }, max) == log,
        !log.0 ==> applied_log(log, g, EffectView::SpillClear { anchor_vertex: v }, max) == log
            && applied_log(
            log,
            g,
            EffectView::SpillCommit { anchor_vertex: v, anchor_cell, target_cells: targets, values },
            max,
        ) == log,
        log.0 && g.spills.contains_key(v) && g.spills[v].len() > 0 ==> ({
            let after = applied_log(log, g, EffectView::SpillClear { anchor_vertex: v }, max);
            &&& after.0 && after.1.len() == log.1.len() + 1 && after.1.drop_last() == log.1
            &&& after.1.last() matches SpillEventView::SpillCleared { anchor, before } && anchor == v
                && snapshot_of(g, v, max) == Some(before)
        }),
        log.0 ==> ({
            let after = applied_log(
                log,
                g,
                EffectView::SpillCommit { anchor_vertex: v, anchor_cell, target_cells: targets, values },
                max,
            );
            &&& after.0 && after.1.len() == log.1.len() + 1 && after.1.drop_last() == log.1
            &&& after.1.last() matches SpillEventView::SpillCommitted { anchor, before, after: now } && anchor
                == v && before == snapshot_of(g, v, max) && now.target_cells == targets && now.values == values
        }),
{
    let a = applied_log(log, g, EffectView::SpillClear { anchor_vertex: v }, max);
    if a.1.len() > 0 {
        assert(a.1.len() == log.1.len() + 1 ==> a.1.drop_last() =~= log.1);
    }
    let b = applied_log(
        log,
        g,
        EffectView::SpillCommit { anchor_vertex: v, anchor_cell, target_cells: targets, values },
        max,
    );
    if log.0 {
        assert(b.1.drop_last() =~= log.1);
    }
}

} // verus!
