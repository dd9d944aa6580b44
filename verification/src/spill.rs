//! Array results: where they may spill, what blocks them, and what the grid is after them.
use crate::coord::{CellRef, VertexId, cell_key, cell_keys, keys_name_their_cells, spec_cell_key};
use crate::fx::{map_insert, map_remove, set_contains, set_insert};
use crate::grid::{DeltaCollector, Grid, GridView, changes_view, owned, recorded, shown};
use crate::region::{bounding, is_bounding, lemma_bounds_are_unique};
use crate::value::{ErrorExtra, ErrorKind, ErrorView, ExcelError, LiteralValue, ValueView, row_view, rows_view};
use crate::vertex::is_formula;
use rustc_hash::{FxHashMap, FxHashSet};
use vstd::prelude::*;

verus! {

/// The last row that a cell may stand in.
pub const PACKED_MAX_ROW: u32 = 1_048_575;

/// The last column that a cell may stand in.
pub const PACKED_MAX_COL: u32 = 16_383;

/// The error of an array that cannot spill.
pub open spec fn spill_failure(message: Seq<char>, rows: u32, cols: u32) -> ErrorView {
    ErrorView {
        kind: ErrorKind::Spill,
        message: Some(message),
        extra: ErrorExtra::Spill { expected_rows: rows, expected_cols: cols },
    }
}

pub fn spill_error(message: &str, rows: u32, cols: u32) -> (e: ExcelError)
    ensures
        e@ == spill_failure(message@, rows, cols),
{
    ExcelError::new(ErrorKind::Spill).with_message(message).with_extra(
        ErrorExtra::Spill { expected_rows: rows, expected_cols: cols },
    )
}

/// The last index of `n` indices from `start` on, between the first and the largest one.
pub open spec fn last_index(start: u32, n: u32) -> u32 {
    if start + n > u32::MAX {
        (u32::MAX - 1) as u32
    } else if start + n == 0 {
        0
    } else {
        (start + n - 1) as u32
    }
}

fn end_index(start: u32, n: u32) -> (r: u32)
    ensures
        r == last_index(start, n),
{
    start.saturating_add(n).saturating_sub(1)
}

/// Why an array of the size may not spill from the anchor: it has too many cells, or it would leave
/// the sheet.
pub open spec fn spill_objection(anchor: CellRef, rows: u32, cols: u32, max_cells: u32) -> Option<
    Seq<char>,
> {
    if rows * cols > max_cells {
        Some("SpillTooLarge"@)
    } else if last_index(anchor.row, rows) > PACKED_MAX_ROW || last_index(anchor.col, cols)
        > PACKED_MAX_COL {
        Some("Spill exceeds sheet bounds"@)
    } else {
        None
    }
}

pub fn check_spill(anchor: CellRef, rows: u32, cols: u32, max_cells: u32) -> (r: Option<&'static str>)
    ensures
        (match r {
            Some(m) => Some(m@),
            None => None,
        }) == spill_objection(anchor, rows, cols, max_cells),
{
    proof {
        assert(rows * cols <= 0xffff_fffe_0000_0001) by (nonlinear_arith)
            requires
                0 <= rows <= 0xffff_ffff,
                0 <= cols <= 0xffff_ffff,
        ;
        assert(0 <= rows * cols) by (nonlinear_arith)
            requires
                0 <= rows,
                0 <= cols,
        ;
    }
    let cells: u64 = rows as u64 * cols as u64;
    if cells > max_cells as u64 {
        return Some("SpillTooLarge");
    }
    if end_index(anchor.row, rows) > PACKED_MAX_ROW || end_index(anchor.col, cols)
        > PACKED_MAX_COL {
        return Some("Spill exceeds sheet bounds");
    }
    None
}

/// The region that a spill locks while it is under way.
#[derive(Clone, Copy, Debug, PartialEq, Eq, Structural)]
pub struct LockRegion {
    pub sheet_id: u32,
    pub row_start: u32,
    pub row_end: u32,
    pub col_start: u32,
    pub col_end: u32,
}

/// The region of a spill of the size at the anchor.
pub fn lock_region(anchor: CellRef, rows: u32, cols: u32) -> (r: LockRegion)
    ensures
        r == (LockRegion {
            sheet_id: anchor.sheet_id as u32,
            row_start: anchor.row,
            row_end: last_index(anchor.row, rows),
            col_start: anchor.col,
            col_end: last_index(anchor.col, cols),
        }),
{
    LockRegion {
        sheet_id: anchor.sheet_id as u32,
        row_start: anchor.row,
        row_end: end_index(anchor.row, rows),
        col_start: anchor.col,
        col_end: end_index(anchor.col, cols),
    }
}

/// The locks that spills under way hold.
#[derive(Debug)]
pub struct ShimSpillManager {
    active_locks: FxHashMap<u32, u64>,
}

impl ShimSpillManager {
    pub closed spec fn view(&self) -> Map<u32, u64> {
        self.active_locks@
    }

    pub fn new() -> (m: ShimSpillManager)
        ensures
            m@ == Map::<u32, u64>::empty(),
    {
        ShimSpillManager { active_locks: FxHashMap::default() }
    }

    /// Takes over what the lock table answered to a request of the owner. A lock with the number
    /// zero needs no release and is not kept.
    pub fn reserve(&mut self, owner: VertexId, answer: Result<u64, ExcelError>) -> (r: Result<
        (),
        ExcelError,
    >)
        ensures
            match answer {
                Ok(id) => {
                    &&& r is Ok
                    &&& final(self)@ == (if id != 0 {
                        old(self)@.insert(owner, id)
                    } else {
                        old(self)@
                    })
                },
                Err(e) => r == Err::<(), ExcelError>(e) && final(self)@ == old(self)@,
            },
    {
        match answer {
            Ok(id) => {
                if id != 0 {
                    map_insert(&mut self.active_locks, owner, id);
                }
                Ok(())
            },
            Err(e) => Err(e),
        }
    }

    /// Gives up the lock of the owner; the answer is the lock to release, if the owner held one.
    pub fn release_owner(&mut self, owner: VertexId) -> (r: Option<u64>)
        ensures
            final(self)@ == old(self)@.remove(owner),
            r == (if old(self)@.contains_key(owner) {
                Some(old(self)@[owner])
            } else {
                None
            }),
    {
        map_remove(&mut self.active_locks, &owner)
    }
}

/// Whether a cell's value keeps the vertex from spilling into it: the cell shows something, and is
/// neither the anchor nor part of a spilled array nor another formula's.
pub open spec fn is_blocker(g: GridView, v: u32, cell: CellRef) -> bool {
    let k = spec_cell_key(cell);
    &&& cell != g.cells[v]
    &&& !g.owners.contains_key(k)
    &&& !(g.vertex_at.contains_key(k) && g.vertex_at[k] != v && is_formula(
        g.kind(g.vertex_at[k]),
    ))
    &&& g.reading(cell) != ValueView::Empty
}

/// Whether a target shows a value that keeps the vertex from spilling.
pub open spec fn is_blocked(g: GridView, v: u32, targets: Seq<CellRef>) -> bool {
    exists|i: int| 0 <= i < targets.len() && is_blocker(g, v, #[trigger] targets[i])
}

pub fn find_blocker(grid: &Grid, v: VertexId, targets: &Vec<CellRef>) -> (b: bool)
    requires
        grid.wf(),
        grid@.cells.contains_key(v),
    ensures
        b == is_blocked(grid@, v, targets@),
{
    let anchor = match grid.cell_of(v) {
        Some(c) => c,
        None => {
            return false;
        },
    };
    let mut i: usize = 0;
    while i < targets.len()
        invariant
            grid.wf(),
            grid@.cells.contains_key(v),
            anchor == grid@.cells[v],
            i <= targets@.len(),
            forall|k: int| 0 <= k < i ==> !is_blocker(grid@, v, #[trigger] targets@[k]),
        decreases targets@.len() - i,
    {
        let cell = targets[i];
        let foreign_formula = match grid.vertex_in(cell) {
            Some(u) => u != v && grid.vertex_kind(u).formula(),
            None => false,
        };
        if cell != anchor && grid.owner_of(cell).is_none() && !foreign_formula
            && !grid.read_cell(cell).is_empty() {
            assert(is_blocker(grid@, v, targets@[i as int]));
            return true;
        }
        i = i + 1;
    }
    false
}

/// How many rows and columns the targets span.
pub open spec fn target_span(targets: Seq<CellRef>) -> (u32, u32) {
    if targets.len() == 0 {
        (0, 0)
    } else {
        let b = choose|b: (u32, u32, u32, u32)| #[trigger] is_span(targets, b);
        (span_len(b.0, b.1), span_len(b.2, b.3))
    }
}

pub open spec fn is_span(targets: Seq<CellRef>, b: (u32, u32, u32, u32)) -> bool {
    is_bounding(targets, b.0, b.1, b.2, b.3)
}

/// How many indices lie between two, both counted.
pub open spec fn span_len(low: u32, high: u32) -> u32 {
    if high - low + 1 > u32::MAX {
        u32::MAX
    } else if high < low {
        1
    } else {
        (high - low + 1) as u32
    }
}

fn span_of(targets: &Vec<CellRef>) -> (r: (u32, u32))
    ensures
        r == target_span(targets@),
{
    if targets.len() == 0 {
        return (0, 0);
    }
    let (r0, r1, c0, c1) = bounding(targets);
    proof {
        assert(is_span(targets@, (r0, r1, c0, c1)));
        let b = choose|b: (u32, u32, u32, u32)| #[trigger] is_span(targets@, b);
        lemma_bounds_are_unique(targets@, (r0, r1, c0, c1), b);
    }
    (r1.saturating_sub(r0).saturating_add(1), c1.saturating_sub(c0).saturating_add(1))
}

/// Whether the spill may be committed: the graph has no objection, and where the graph does not
/// know values, no target shows one that is in the way.
pub open spec fn commit_objection(
    g: GridView,
    v: u32,
    targets: Seq<CellRef>,
    plan: Result<(), ErrorView>,
    value_cache_enabled: bool,
) -> Option<ErrorView> {
    match plan {
        Err(e) => Some(e),
        Ok(()) => if !value_cache_enabled && is_blocked(g, v, targets) {
            Some(
                spill_failure("BlockedByValue"@, target_span(targets).0, target_span(targets).1),
            )
        } else {
            None
        },
    }
}

pub open spec fn plan_view(plan: Result<(), ExcelError>) -> Result<(), ErrorView> {
    match plan {
        Ok(()) => Ok(()),
        Err(e) => Err(e@),
    }
}

/// Decides whether a spill is committed, and registers it if so. Either way the lock of the anchor
/// is given up; the second answer is the lock to release.
pub fn commit_array_with_value_probe(
    locks: &mut ShimSpillManager,
    grid: &mut Grid,
    v: VertexId,
    targets: &Vec<CellRef>,
    plan: Result<(), ExcelError>,
    value_cache_enabled: bool,
) -> (r: (Result<(), ExcelError>, Option<u64>))
    requires
        old(grid).wf(),
        old(grid)@.cells.contains_key(v),
    ensures
        final(grid).wf(),
        final(locks)@ == old(locks)@.remove(v),
        r.1 == (if old(locks)@.contains_key(v) {
            Some(old(locks)@[v])
        } else {
            None
        }),
        match commit_objection(
            old(grid)@,
            v,
            targets@,
            plan_view(plan),
            value_cache_enabled,
        ) {
            Some(e) => r.0 matches Err(x) && x@ == e && final(grid)@ == old(grid)@,
            None => r.0 is Ok && final(grid)@ == registered(old(grid)@, v, targets@),
        },
{
    let released = locks.release_owner(v);
    if let Err(e) = plan {
        return (Err(e), released);
    }
    if !value_cache_enabled {
        if find_blocker(grid, v, targets) {
            let (rows, cols) = span_of(targets);
            return (Err(spill_error("BlockedByValue", rows, cols)), released);
        }
    }
    grid.register_spill(v, targets);
    (Ok(()), released)
}

/// The grid once the targets are registered as the spilled array of the vertex.
pub open spec fn registered(g: GridView, v: u32, targets: Seq<CellRef>) -> GridView {
    GridView {
        spills: g.spills.insert(v, targets),
        owners: owned(
            g.owners.remove_keys(cell_keys(g.spill_cells(v))),
            targets,
            v,
            targets.len(),
        ),
        ..g
    }
}

/// Whether the rows, of the width of the first one, hold a value for each of `n` targets; rows
/// without columns hold none, and none is asked of them.
pub open spec fn covers(rows: Seq<Seq<ValueView>>, n: nat) -> bool {
    let w = width(rows) as int;
    w > 0 ==> forall|i: int|
        #![trigger nth_value(rows, i)]
        0 <= i < n ==> i / w < rows.len() && i % w < rows[i / w].len()
}

/// How many columns the rows have.
pub open spec fn width(rows: Seq<Seq<ValueView>>) -> nat {
    if rows.len() == 0 {
        0
    } else {
        rows[0].len()
    }
}

/// The value number `i` of the rows, counted row by row.
pub open spec fn nth_value(rows: Seq<Seq<ValueView>>, i: int) -> ValueView {
    let w = width(rows) as int;
    if w > 0 && 0 <= i / w < rows.len() && i % w < rows[i / w].len() {
        rows[i / w][i % w]
    } else {
        ValueView::Empty
    }
}

/// The targets, each with its value.
pub open spec fn filled(targets: Seq<CellRef>, rows: Seq<Seq<ValueView>>) -> Seq<
    (CellRef, ValueView),
> {
    Seq::new(targets.len(), |i: int| (targets[i], nth_value(rows, i)))
}

/// Those of the first `n` cells that are no targets, each with the empty value.
pub open spec fn abandoned(cells: Seq<CellRef>, targets: Seq<CellRef>, n: nat) -> Seq<
    (CellRef, ValueView),
>
    decreases n,
{
    if n == 0 {
        Seq::empty()
    } else {
        let before = abandoned(cells, targets, (n - 1) as nat);
        if targets.contains(cells[n - 1]) {
            before
        } else {
            before.push((cells[n - 1], ValueView::Empty))
        }
    }
}

/// What a commit changes, as far as it is collected: cells that are left become empty, and targets
/// get their values; without values they count as emptied.
pub open spec fn commit_changes(g: GridView, v: u32, targets: Seq<CellRef>, rows: Seq<Seq<ValueView>>) -> Seq<
    (CellRef, ValueView),
> {
    let left = g.spill_cells(v);
    abandoned(left, targets, left.len()) + filled(targets, rows)
}

/// What a commit shows: as collected, but for targets without values, which stay as they are.
pub open spec fn commit_shows(g: GridView, v: u32, targets: Seq<CellRef>, rows: Seq<Seq<ValueView>>) -> Seq<
    (CellRef, ValueView),
> {
    let left = g.spill_cells(v);
    abandoned(left, targets, left.len()) + (if width(rows) == 0 {
        Seq::empty()
    } else {
        filled(targets, rows)
    })
}

/// The grid once the array is spilled.
pub open spec fn spilling(g: GridView, v: u32, targets: Seq<CellRef>, rows: Seq<Seq<ValueView>>) -> GridView {
    let left = g.spill_cells(v);
    let shows = commit_shows(g, v, targets, rows);
    registered(g, v, targets).telling(left).telling(targets).showing(shows, shows.len())
}

fn key_set(cells: &Vec<CellRef>) -> (s: FxHashSet<u128>)
    ensures
        forall|c: CellRef| #[trigger] s@.contains(spec_cell_key(c)) == cells@.contains(c),
{
    let mut s: FxHashSet<u128> = FxHashSet::default();
    let mut i: usize = 0;
    while i < cells.len()
        invariant
            i <= cells@.len(),
            forall|c: CellRef| #[trigger]
                s@.contains(spec_cell_key(c)) == cells@.take(i as int).contains(c),
        decreases cells@.len() - i,
    {
        let cell = cells[i];
        let ghost before = s@;
        set_insert(&mut s, cell_key(cell));
        proof {
            let head = cells@.take(i as int);
            let longer = cells@.take(i + 1);
            assert(longer =~= head.push(cell));
            assert forall|c: CellRef| #[trigger] s@.contains(spec_cell_key(c)) == longer.contains(
                c,
            ) by {
                keys_name_their_cells(c);
                keys_name_their_cells(cell);
                assert(before.contains(spec_cell_key(c)) == head.contains(c));
                if head.contains(c) {
                    let k = choose|k: int| 0 <= k < head.len() && head[k] == c;
                    assert(longer[k] == c);
                }
                if c == cell {
                    assert(longer[i as int] == c);
                }
                if longer.contains(c) && c != cell {
                    let k = choose|k: int| 0 <= k < longer.len() && longer[k] == c;
                    assert(head[k] == c);
                }
            }
        }
        i = i + 1;
    }
    assert(cells@.take(i as int) =~= cells@);
    s
}

fn list_abandoned(cells: &Vec<CellRef>, targets: &Vec<CellRef>) -> (r: Vec<(CellRef, LiteralValue)>)
    ensures
        changes_view(r@) == abandoned(cells@, targets@, cells@.len()),
{
    let set = key_set(targets);
    let mut out: Vec<(CellRef, LiteralValue)> = Vec::new();
    let mut i: usize = 0;
    assert(changes_view(out@) =~= abandoned(cells@, targets@, 0));
    while i < cells.len()
        invariant
            i <= cells@.len(),
            forall|c: CellRef| #[trigger]
                set@.contains(spec_cell_key(c)) == targets@.contains(c),
            changes_view(out@) == abandoned(cells@, targets@, i as nat),
        decreases cells@.len() - i,
    {
        let cell = cells[i];
        assert(set@.contains(spec_cell_key(cell)) == targets@.contains(cell));
        if !set_contains(&set, &cell_key(cell)) {
            let ghost before = out@;
            out.push((cell, LiteralValue::Empty));
            assert(changes_view(out@) =~= changes_view(before).push((cell, ValueView::Empty)));
        }
        i = i + 1;
    }
    out
}

fn value_at(rows: &Vec<Vec<LiteralValue>>, i: usize) -> (v: LiteralValue)
    ensures
        v@ == nth_value(rows_view(rows@), i as int),
{
    let ghost models = rows_view(rows@);
    if rows.len() == 0 || rows[0].len() == 0 {
        return LiteralValue::Empty;
    }
    assert(models[0].len() == rows@[0]@.len());
    let w = rows[0].len();
    let r = i / w;
    let c = i % w;
    if r < rows.len() {
        assert(models[r as int] == row_view(rows@[r as int]@));
        if c < rows[r].len() {
            return rows[r][c].duplicate();
        }
    }
    LiteralValue::Empty
}

fn list_filled(targets: &Vec<CellRef>, rows: &Vec<Vec<LiteralValue>>) -> (r: Vec<
    (CellRef, LiteralValue),
>)
    ensures
        changes_view(r@) == filled(targets@, rows_view(rows@)),
{
    let mut out: Vec<(CellRef, LiteralValue)> = Vec::new();
    let mut i: usize = 0;
    while i < targets.len()
        invariant
            i <= targets@.len(),
            out@.len() == i,
            forall|k: int|
                0 <= k < i ==> (#[trigger] out@[k]).0 == targets@[k] && out@[k].1@ == nth_value(
                    rows_view(rows@),
                    k,
                ),
        decreases targets@.len() - i,
    {
        out.push((targets[i], value_at(rows, i)));
        i = i + 1;
    }
    assert(changes_view(out@) =~= filled(targets@, rows_view(rows@)));
    out
}

proof fn lemma_changes_concat(a: Seq<(CellRef, LiteralValue)>, b: Seq<(CellRef, LiteralValue)>)
    ensures
        changes_view(a + b) == changes_view(a) + changes_view(b),
{
    assert(changes_view(a + b) =~= changes_view(a) + changes_view(b));
}

/// Commits a spill: collects what it changes, commits it, and shows the result. What was collected
/// stays collected where the commit is refused.
pub fn commit_spill_and_mirror(
    locks: &mut ShimSpillManager,
    grid: &mut Grid,
    delta: &mut DeltaCollector,
    v: VertexId,
    targets: &Vec<CellRef>,
    rows: &Vec<Vec<LiteralValue>>,
    plan: Result<(), ExcelError>,
    value_cache_enabled: bool,
) -> (r: (Result<(), ExcelError>, Option<u64>))
    requires
        old(grid).wf(),
        old(delta).wf(),
        old(grid)@.cells.contains_key(v),
        covers(rows_view(rows@), targets@.len()),
    ensures
        final(grid).wf(),
        final(delta).wf(),
        final(delta)@ == ({
            let changes = commit_changes(old(grid)@, v, targets@, rows_view(rows@));
            recorded(old(delta)@, old(grid)@, changes, changes.len())
        }),
        final(locks)@ == old(locks)@.remove(v),
        r.1 == (if old(locks)@.contains_key(v) {
            Some(old(locks)@[v])
        } else {
            None
        }),
        match commit_objection(
            old(grid)@,
            v,
            targets@,
            plan_view(plan),
            value_cache_enabled,
        ) {
            Some(e) => r.0 matches Err(x) && x@ == e && final(grid)@ == old(grid)@,
            None => r.0 is Ok && final(grid)@ == spilling(
                old(grid)@,
                v,
                targets@,
                rows_view(rows@),
            ),
        },
{
    let ghost before = grid@;
    let left = grid.spilled_cells(v);
    let mut changes = list_abandoned(&left, targets);
    let mut values = list_filled(targets, rows);
    let ghost a = changes@;
    let ghost b = values@;
    changes.append(&mut values);
    proof {
        lemma_changes_concat(a, b);
        assert(changes@ =~= a + b);
    }
    grid.record_changes(&changes, delta);
    let (outcome, released) = commit_array_with_value_probe(
        locks,
        grid,
        v,
        targets,
        plan,
        value_cache_enabled,
    );
    if let Err(e) = outcome {
        return (Err(e), released);
    }
    grid.tell_of(&left);
    grid.tell_of(targets);
    let mut shows = list_abandoned(&left, targets);
    let ghost a = shows@;
    let empty = rows.len() == 0 || rows[0].len() == 0;
    proof {
        if rows@.len() > 0 {
            assert(rows_view(rows@)[0].len() == rows@[0]@.len());
        }
    }
    if empty {
        assert(changes_view(shows@) =~= changes_view(a) + Seq::<(CellRef, ValueView)>::empty());
    } else {
        let mut values = list_filled(targets, rows);
        let ghost b = values@;
        shows.append(&mut values);
        proof {
            lemma_changes_concat(a, b);
            assert(shows@ =~= a + b);
        }
    }
    assert(changes_view(shows@) =~= commit_shows(before, v, targets@, rows_view(rows@)));
    grid.show_all(&shows);
    (Ok(()), released)
}

proof fn lemma_unnamed_cells_stay(
    g: GridView,
    changes: Seq<(CellRef, ValueView)>,
    n: nat,
    cell: CellRef,
)
    requires
        n <= changes.len(),
        g.under.contains_key(cell),
        forall|i: int| 0 <= i < n ==> (#[trigger] changes[i]).0 != cell,
    ensures
        g.showing(changes, n).under.contains_key(cell),
        g.showing(changes, n).under[cell] == g.under[cell],
        g.showing(changes, n).edits == g.edits,
    decreases n,
{
    if n > 0 {
        lemma_unnamed_cells_stay(g, changes, (n - 1) as nat, cell);
        assert(changes[n - 1].0 != cell);
    }
}

proof fn lemma_named_cell_shows(
    g: GridView,
    changes: Seq<(CellRef, ValueView)>,
    n: nat,
    i: int,
)
    requires
        0 <= i < n <= changes.len(),
        forall|k: int| i < k < n ==> (#[trigger] changes[k]).0 != changes[i].0,
    ensures
        g.showing(changes, n).under[changes[i].0] == shown(changes[i].1),
        g.showing(changes, n).edits == g.edits,
    decreases n,
{
    if i == n - 1 {
        lemma_showing_keeps(g, changes, (n - 1) as nat);
    } else {
        lemma_named_cell_shows(g, changes, (n - 1) as nat, i);
        assert(changes[n - 1].0 != changes[i].0);
    }
}

/// What is shown changes nothing but what cells show beneath edits, and the extents of sheets.
pub proof fn lemma_showing_keeps(g: GridView, changes: Seq<(CellRef, ValueView)>, n: nat)
    ensures
        g.showing(changes, n) == (GridView {
            under: g.showing(changes, n).under,
            extents: g.showing(changes, n).extents,
            ..g
        }),
    decreases n,
{
    if n > 0 {
        lemma_showing_keeps(g, changes, (n - 1) as nat);
    }
}

proof fn lemma_abandoned_are_no_targets(
    cells: Seq<CellRef>,
    targets: Seq<CellRef>,
    n: nat,
    i: int,
)
    requires
        n <= cells.len(),
        0 <= i < abandoned(cells, targets, n).len(),
    ensures
        !targets.contains(abandoned(cells, targets, n)[i].0),
        cells.contains(abandoned(cells, targets, n)[i].0),
    decreases n,
{
    if n > 0 {
        let before = abandoned(cells, targets, (n - 1) as nat);
        if i < before.len() {
            lemma_abandoned_are_no_targets(cells, targets, (n - 1) as nat, i);
        } else {
            assert(cells[n - 1] == abandoned(cells, targets, n)[i].0);
        }
    }
}

proof fn lemma_abandoned_is_complete(cells: Seq<CellRef>, targets: Seq<CellRef>, n: nat, j: int)
    requires
        0 <= j < n <= cells.len(),
        !targets.contains(cells[j]),
    ensures
        exists|i: int|
            0 <= i < abandoned(cells, targets, n).len() && #[trigger] abandoned(
                cells,
                targets,
                n,
            )[i] == (cells[j], ValueView::Empty),
    decreases n,
{
    let before = abandoned(cells, targets, (n - 1) as nat);
    let all = abandoned(cells, targets, n);
    if j < n - 1 {
        lemma_abandoned_is_complete(cells, targets, (n - 1) as nat, j);
        let i = choose|i: int|
            0 <= i < before.len() && #[trigger] before[i] == (cells[j], ValueView::Empty);
        assert(all[i] == (cells[j], ValueView::Empty));
    } else {
        assert(all[before.len() as int] == (cells[j], ValueView::Empty));
    }
}

/// A spilled array is read back: every target that the user has not edited shows its value of the
/// array, a cell that the anchor has left shows empty, and any other cell shows what it showed.
pub proof fn a_spilled_array_is_read_back(
    g: GridView,
    v: u32,
    targets: Seq<CellRef>,
    rows: Seq<Seq<ValueView>>,
    cell: CellRef,
)
    requires
        width(rows) > 0,
        targets.no_duplicates(),
        g.under.contains_key(cell),
        !g.edits.contains_key(cell),
    ensures
        forall|i: int|
            0 <= i < targets.len() && #[trigger] targets[i] == cell ==> spilling(
                g,
                v,
                targets,
                rows,
            ).reading(cell) == shown(nth_value(rows, i)),
        !targets.contains(cell) && g.spill_cells(v).contains(cell) ==> spilling(
            g,
            v,
            targets,
            rows,
        ).reading(cell) == ValueView::Empty,
        !targets.contains(cell) && !g.spill_cells(v).contains(cell) ==> spilling(
            g,
            v,
            targets,
            rows,
        ).reading(cell) == g.reading(cell),
{
    let left = g.spill_cells(v);
    let gone = abandoned(left, targets, left.len());
    let values = filled(targets, rows);
    let shows = commit_shows(g, v, targets, rows);
    let g1 = registered(g, v, targets).telling(left).telling(targets);
    assert(shows == gone + values);
    assert forall|i: int| 0 <= i < targets.len() && #[trigger] targets[i] == cell implies spilling(
        g,
        v,
        targets,
        rows,
    ).reading(cell) == shown(nth_value(rows, i)) by {
        let at = gone.len() + i;
        assert(shows[at] == values[i]);
        assert forall|k: int| at < k < shows.len() implies (#[trigger] shows[k]).0 != shows[at].0 by {
            assert(shows[k] == values[k - gone.len()]);
        }
        lemma_named_cell_shows(g1, shows, shows.len(), at as int);
    }
    if !targets.contains(cell) {
        assert forall|k: int| gone.len() <= k < shows.len() implies (#[trigger] shows[k]).0
            != cell by {
            assert(shows[k] == values[k - gone.len()]);
            assert(targets.contains(targets[k - gone.len()]));
        }
        if left.contains(cell) {
            let j = choose|j: int| 0 <= j < left.len() && left[j] == cell;
            lemma_abandoned_is_complete(left, targets, left.len(), j);
            let i = choose|i: int|
                0 <= i < gone.len() && #[trigger] gone[i] == (left[j], ValueView::Empty);
            let last = last_of(shows, cell, shows.len());
            assert(shows[i] == gone[i]);
            lemma_last_of(shows, cell, shows.len(), i);
            assert(last < gone.len());
            assert(shows[last] == gone[last]);
            lemma_abandoned_are_empty(left, targets, left.len(), last);
            lemma_named_cell_shows(g1, shows, shows.len(), last);
        } else {
            assert forall|k: int| 0 <= k < shows.len() implies (#[trigger] shows[k]).0 != cell by {
                if k < gone.len() {
                    assert(shows[k] == gone[k]);
                    lemma_abandoned_are_no_targets(left, targets, left.len(), k);
                }
            }
            lemma_unnamed_cells_stay(g1, shows, shows.len(), cell);
        }
    }
}

spec fn last_of(changes: Seq<(CellRef, ValueView)>, cell: CellRef, n: nat) -> int
    decreases n,
{
    if n == 0 || changes[n - 1].0 == cell {
        n - 1
    } else {
        last_of(changes, cell, (n - 1) as nat)
    }
}

proof fn lemma_last_of(changes: Seq<(CellRef, ValueView)>, cell: CellRef, n: nat, i: int)
    requires
        0 <= i < n <= changes.len(),
        changes[i].0 == cell,
    ensures
        i <= last_of(changes, cell, n) < n,
        changes[last_of(changes, cell, n)].0 == cell,
        forall|k: int| last_of(changes, cell, n) < k < n ==> (#[trigger] changes[k]).0 != cell,
    decreases n,
{
    if changes[n - 1].0 != cell {
        lemma_last_of(changes, cell, (n - 1) as nat, i);
    }
}

proof fn lemma_abandoned_are_empty(cells: Seq<CellRef>, targets: Seq<CellRef>, n: nat, i: int)
    requires
        n <= cells.len(),
        0 <= i < abandoned(cells, targets, n).len(),
    ensures
        abandoned(cells, targets, n)[i].1 == ValueView::Empty,
    decreases n,
{
    if n > 0 && i < abandoned(cells, targets, (n - 1) as nat).len() {
        lemma_abandoned_are_empty(cells, targets, (n - 1) as nat, i);
    }
}

proof fn lemma_owned(owners: Map<u128, u32>, cells: Seq<CellRef>, v: u32, n: nat, k: u128)
    requires
        n <= cells.len(),
    ensures
        (exists|i: int| 0 <= i < n && spec_cell_key(#[trigger] cells[i]) == k) ==> owned(
            owners,
            cells,
            v,
            n,
        ).contains_pair(k, v),
        !(exists|i: int| 0 <= i < n && spec_cell_key(#[trigger] cells[i]) == k) ==> {
            &&& owned(owners, cells, v, n).contains_key(k) == owners.contains_key(k)
            &&& owners.contains_key(k) ==> owned(owners, cells, v, n)[k] == owners[k]
        },
    decreases n,
{
    if n > 0 {
        lemma_owned(owners, cells, v, (n - 1) as nat, k);
        if spec_cell_key(cells[n - 1]) != k {
            if exists|i: int| 0 <= i < n && spec_cell_key(#[trigger] cells[i]) == k {
                let i = choose|i: int| 0 <= i < n && spec_cell_key(#[trigger] cells[i]) == k;
                assert(0 <= i < n - 1 && spec_cell_key(cells[i]) == k);
            }
        }
    }
}

/// Once an array is spilled, its targets belong to the anchor, and the cells that the anchor has
/// left belong to nobody.
pub proof fn a_spilled_array_owns_its_targets(
    g: GridView,
    v: u32,
    targets: Seq<CellRef>,
    rows: Seq<Seq<ValueView>>,
    cell: CellRef,
)
    ensures
        spilling(g, v, targets, rows).spill_cells(v) == targets,
        targets.contains(cell) ==> spilling(g, v, targets, rows).owners.contains_pair(
            spec_cell_key(cell),
            v,
        ),
        !targets.contains(cell) && g.spill_cells(v).contains(cell) ==> !spilling(
            g,
            v,
            targets,
            rows,
        ).owners.contains_key(spec_cell_key(cell)),
{
    let left = g.spill_cells(v);
    let shows = commit_shows(g, v, targets, rows);
    let g1 = registered(g, v, targets).telling(left).telling(targets);
    lemma_showing_keeps(g1, shows, shows.len());
    let base = g.owners.remove_keys(cell_keys(left));
    let k = spec_cell_key(cell);
    lemma_owned(base, targets, v, targets.len(), k);
    if targets.contains(cell) {
        let i = choose|i: int| 0 <= i < targets.len() && targets[i] == cell;
        assert(spec_cell_key(targets[i]) == k);
    } else if left.contains(cell) {
        assert(!(exists|i: int|
            0 <= i < targets.len() && spec_cell_key(#[trigger] targets[i]) == k)) by {
            if exists|i: int| 0 <= i < targets.len() && spec_cell_key(#[trigger] targets[i]) == k {
                let i = choose|i: int|
                    0 <= i < targets.len() && spec_cell_key(#[trigger] targets[i]) == k;
                keys_name_their_cells(cell);
                keys_name_their_cells(targets[i]);
            }
        }
        let j = choose|j: int| 0 <= j < left.len() && left[j] == cell;
        assert(spec_cell_key(left[j]) == k);
        assert(cell_keys(left).contains(k));
    }
}

/// What a cell in the way shows does not matter: a target that shows anything, be it a number, a text,
/// a truth value, a date or an error, and is neither the anchor nor part of a spilled array nor another
/// formula's cell, refuses the array where the graph does not know values. The error tells how many
/// rows and columns the targets span.
pub proof fn any_value_in_the_way_refuses_the_array(
    g: GridView,
    v: u32,
    targets: Seq<CellRef>,
    i: int,
)
    requires
        0 <= i < targets.len(),
        targets[i] != g.cells[v],
        !g.owners.contains_key(spec_cell_key(targets[i])),
        g.vertex_at.contains_key(spec_cell_key(targets[i])) ==> {
            let u = g.vertex_at[spec_cell_key(targets[i])];
            u == v || !g.kinds.contains_key(u) || (g.kinds[u] != crate::vertex::VertexKind::FormulaScalar
                && g.kinds[u] != crate::vertex::VertexKind::FormulaArray)
        },
        (if g.edits.contains_key(targets[i]) {
            g.edits[targets[i]]
        } else {
            g.under[targets[i]]
        }) != ValueView::Empty,
    ensures
        is_blocked(g, v, targets),
        commit_objection(g, v, targets, Ok(()), false) matches Some(e) && e.kind == ErrorKind::Spill
            && e.message == Some("BlockedByValue"@) && (e.extra matches ErrorExtra::Spill {
            expected_rows,
            expected_cols,
        } && forall|r0: u32, r1: u32, c0: u32, c1: u32| #[trigger]
            is_bounding(targets, r0, r1, c0, c1) && r1 - r0 < u32::MAX && c1 - c0 < u32::MAX
                ==> expected_rows == r1 - r0 + 1 && expected_cols == c1 - c0 + 1),
        commit_objection(g, v, targets, Ok(()), true) is None,
{
    assert(is_blocker(g, v, targets[i]));
    let b = choose|b: (u32, u32, u32, u32)| #[trigger] is_span(targets, b);
    assert forall|r0: u32, r1: u32, c0: u32, c1: u32| #[trigger]
        is_bounding(targets, r0, r1, c0, c1) && r1 - r0 < u32::MAX && c1 - c0
            < u32::MAX implies target_span(targets) == ((r1 - r0 + 1) as u32, (c1 - c0 + 1) as u32) by {
        assert(is_span(targets, (r0, r1, c0, c1)));
        lemma_bounds_are_unique(targets, (r0, r1, c0, c1), b);
    }
}

/// Nothing else is in the way: where no target shows a value but the anchor, cells of spilled arrays
/// and cells of other formulas, the array may spill as far as the graph has no objection. An objection
/// of the graph is handed on.
pub proof fn empty_targets_let_the_array_spill(
    g: GridView,
    v: u32,
    targets: Seq<CellRef>,
    e: ErrorView,
    value_cache_enabled: bool,
)
    requires
        forall|i: int|
            0 <= i < targets.len() ==> (#[trigger] targets[i]) == g.cells[v] || g.owners.contains_key(
                spec_cell_key(targets[i]),
            ) || (g.vertex_at.contains_key(spec_cell_key(targets[i])) && g.vertex_at[spec_cell_key(
                targets[i],
            )] != v && g.kinds.contains_key(g.vertex_at[spec_cell_key(targets[i])]) && (
            g.kinds[g.vertex_at[spec_cell_key(targets[i])]]
                == crate::vertex::VertexKind::FormulaScalar || g.kinds[g.vertex_at[spec_cell_key(
                targets[i],
            )]] == crate::vertex::VertexKind::FormulaArray)) || (if g.edits.contains_key(targets[i]) {
                g.edits[targets[i]]
            } else {
                g.under[targets[i]]
            }) == ValueView::Empty,
    ensures
        !is_blocked(g, v, targets),
        commit_objection(g, v, targets, Ok(()), value_cache_enabled) is None,
        commit_objection(g, v, targets, Err(e), value_cache_enabled) == Some(e),
{
    assert forall|i: int| 0 <= i < targets.len() implies !is_blocker(g, v, #[trigger] targets[i]) by {}
}

/// An array may spill exactly where it has no more cells than allowed and its last row and column lie
/// on the sheet.
pub proof fn arrays_spill_within_the_sheet(anchor: CellRef, rows: u32, cols: u32, max_cells: u32)
    requires
        rows > 0,
        cols > 0,
    ensures
        spill_objection(anchor, rows, cols, max_cells) is None <==> rows * cols <= max_cells
            && anchor.row + rows <= 1_048_576 && anchor.col + cols <= 16_384,
        rows * cols > max_cells ==> spill_objection(anchor, rows, cols, max_cells) == Some(
            "SpillTooLarge"@,
        ),
        rows * cols <= max_cells && (anchor.row + rows > 1_048_576 || anchor.col + cols > 16_384)
            ==> spill_objection(anchor, rows, cols, max_cells) == Some("Spill exceeds sheet bounds"@),
{
}

/// Values of an array go to its targets row by row: the value in row r and column c to the target that
/// is r rows of the array and c further.
pub proof fn values_go_to_their_targets_row_by_row(
    targets: Seq<CellRef>,
    rows: Seq<Seq<ValueView>>,
    r: int,
    c: int,
)
    requires
        rows.len() > 0,
        0 <= r < rows.len(),
        0 <= c < rows[0].len(),
        c < rows[r].len(),
        r * rows[0].len() + c < targets.len(),
    ensures
        filled(targets, rows)[r * rows[0].len() + c] == (
            targets[r * rows[0].len() + c],
            rows[r][c],
        ),
        filled(targets, rows).len() == targets.len(),
{
    let w = rows[0].len() as int;
    let i = r * w + c;
    assert(i / w == r && i % w == c && 0 <= i) by (nonlinear_arith)
        requires
            i == r * w + c,
            0 <= c < w,
            0 <= r,
    ;
}

/// Of the cells that an array had, those that it no longer has are emptied, and no others.
pub proof fn cells_that_are_left_are_emptied(cells: Seq<CellRef>, targets: Seq<CellRef>, n: nat, c: CellRef)
    requires
        n <= cells.len(),
    ensures
        abandoned(cells, targets, n).contains((c, ValueView::Empty)) <==> cells.take(n as int).contains(c)
            && !targets.contains(c),
        forall|k: int|
            0 <= k < abandoned(cells, targets, n).len() ==> (#[trigger] abandoned(cells, targets, n)[k]).1
                == ValueView::Empty,
    decreases n,
{
    if n > 0 {
        let m = (n - 1) as nat;
        cells_that_are_left_are_emptied(cells, targets, m, c);
        let before = abandoned(cells, targets, m);
        let (short, long) = (cells.take(m as int), cells.take(n as int));
        let last = cells[n - 1];
        let x = (c, ValueView::Empty);
        assert(long =~= short.push(last));
        let more = before.push((last, ValueView::Empty));
        assert(more[before.len() as int] == (last, ValueView::Empty));
        assert(long[m as int] == last);
        if before.contains(x) {
            let i = choose|i: int| 0 <= i < before.len() && before[i] == x;
            assert(more[i] == x);
        }
        if more.contains(x) && c != last {
            let i = choose|i: int| 0 <= i < more.len() && more[i] == x;
            assert(before[i] == x);
        }
        if short.contains(c) {
            let i = choose|i: int| 0 <= i < short.len() && short[i] == c;
            assert(long[i] == c);
        }
        if long.contains(c) && c != last {
            let i = choose|i: int| 0 <= i < long.len() && long[i] == c;
            assert(short[i] == c);
        }
    } else {
        assert(cells.take(0) =~= Seq::empty());
    }
}

/// A spill error has the kind of its own, the reason, and the size that was wanted.
pub proof fn spill_errors_say_what_was_wanted(message: Seq<char>, rows: u32, cols: u32)
    ensures
        spill_failure(message, rows, cols).kind == ErrorKind::Spill,
        spill_failure(message, rows, cols).message == Some(message),
        spill_failure(message, rows, cols).extra == (ErrorExtra::Spill {
            expected_rows: rows,
            expected_cols: cols,
        }),
{
}

} // verus!
