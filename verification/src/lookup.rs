//! Whether an index is built for a lookup.
use crate::coord::{CellRef, SheetId, cell_key, spec_cell_key};
use crate::fx::set_contains;
use rustc_hash::FxHashSet;
use vstd::prelude::*;

verus! {

/// The shortest row or column that gets an index.
pub const LOOKUP_INDEX_MIN_LEN: usize = 64;

/// What is looked up in: a column or a row of the view.
#[derive(Clone, Copy, Debug, PartialEq, Eq, Structural)]
pub enum LookupAxis {
    ColumnInView(usize),
    RowInView(usize),
}

/// A view: how many rows and columns it has, and where it lies on its sheet.
#[derive(Clone, Copy, Debug, PartialEq, Eq, Structural)]
pub struct LookupView {
    pub rows: usize,
    pub cols: usize,
    pub start_row: usize,
    pub start_col: usize,
    pub end_row: usize,
    pub end_col: usize,
}

/// What an index is found by.
#[derive(Clone, Copy, Debug, PartialEq, Eq, Structural)]
pub struct LookupIndexKey {
    pub sheet_id: SheetId,
    pub start_row: u32,
    pub start_col: u32,
    pub end_row: u32,
    pub end_col: u32,
    pub axis: LookupAxis,
    pub snapshot_id: u64,
}

/// What comes first for an index.
#[derive(Clone, Copy, Debug, PartialEq, Eq, Structural)]
pub enum LookupStart {
    /// The view is too small, or has no such row or column.
    TooSmall,
    /// The sheet is unknown, or the view lies beyond what a key can name.
    NoKey,
    /// The index is looked for under the key; it has so many entries.
    Find { key: LookupIndexKey, len: usize },
}

/// How many entries the index has, if the view has the row or column.
pub open spec fn axis_len(view: LookupView, axis: LookupAxis) -> Option<usize> {
    if view.rows == 0 || view.cols == 0 {
        None
    } else {
        match axis {
            LookupAxis::ColumnInView(col) => if col >= view.cols {
                None
            } else {
                Some(view.rows)
            },
            LookupAxis::RowInView(row) => if row >= view.rows {
                None
            } else {
                Some(view.cols)
            },
        }
    }
}

pub open spec fn fits_u32(view: LookupView) -> bool {
    view.start_row <= u32::MAX && view.start_col <= u32::MAX && view.end_row <= u32::MAX
        && view.end_col <= u32::MAX
}

/// Begins with an index for a lookup.
pub fn build_lookup_index(
    view: LookupView,
    axis: LookupAxis,
    sheet_id: Option<SheetId>,
    snapshot_id: u64,
) -> (r: LookupStart)
    ensures
        r == (match axis_len(view, axis) {
            Some(len) if len >= LOOKUP_INDEX_MIN_LEN => match sheet_id {
                Some(id) if fits_u32(view) => LookupStart::Find {
                    key: LookupIndexKey {
                        sheet_id: id,
                        start_row: view.start_row as u32,
                        start_col: view.start_col as u32,
                        end_row: view.end_row as u32,
                        end_col: view.end_col as u32,
                        axis,
                        snapshot_id,
                    },
                    len,
                },
                _ => LookupStart::NoKey,
            },
            _ => LookupStart::TooSmall,
        }),
        r is TooSmall <==> (axis_len(view, axis) matches Some(len) ==> len < 64),
{
    if view.rows == 0 || view.cols == 0 {
        return LookupStart::TooSmall;
    }
    let len = match axis {
        LookupAxis::ColumnInView(col) => {
            if col >= view.cols {
                return LookupStart::TooSmall;
            }
            view.rows
        },
        LookupAxis::RowInView(row) => {
            if row >= view.rows {
                return LookupStart::TooSmall;
            }
            view.cols
        },
    };
    if len < LOOKUP_INDEX_MIN_LEN {
        return LookupStart::TooSmall;
    }
    let limit: u64 = u32::MAX as u64;
    if view.start_row as u64 > limit || view.start_col as u64 > limit || view.end_row as u64 > limit
        || view.end_col as u64 > limit {
        return LookupStart::NoKey;
    }
    match sheet_id {
        Some(id) => LookupStart::Find {
            key: LookupIndexKey {
                sheet_id: id,
                start_row: view.start_row as u32,
                start_col: view.start_col as u32,
                end_row: view.end_row as u32,
                end_col: view.end_col as u32,
                axis,
                snapshot_id,
            },
            len,
        },
        None => LookupStart::NoKey,
    }
}

/// Whether a cell of the view is volatile. A view that lies beyond the last row or column counts as
/// volatile.
pub open spec fn contains_volatile(volatile: Set<u128>, sheet_id: SheetId, view: LookupView) -> bool {
    exists|row: int, col: int|
        view.start_row <= row <= view.end_row && view.start_col <= col <= view.end_col
            && #[trigger] is_volatile_at(volatile, sheet_id, row, col)
}

pub open spec fn is_volatile_at(volatile: Set<u128>, sheet_id: SheetId, row: int, col: int) -> bool {
    row > u32::MAX || col > u32::MAX || volatile.contains(
        spec_cell_key(CellRef { sheet_id, row: row as u32, col: col as u32 }),
    )
}

/// Looks for a volatile cell in the view. `volatile` holds the keys of the volatile cells. A view
/// with rows beyond the last one counts as volatile even without columns.
pub fn lookup_view_contains_volatile(
    volatile: &FxHashSet<u128>,
    sheet_id: SheetId,
    view: LookupView,
) -> (b: bool)
    ensures
        b == (view.start_row <= view.end_row && (view.end_row > u32::MAX || contains_volatile(
            volatile@,
            sheet_id,
            view,
        ))),
{
    if view.start_row > view.end_row {
        return false;
    }
    let limit: u64 = u32::MAX as u64;
    if view.end_row as u64 > limit {
        return true;
    }
    if view.start_col > view.end_col {
        return false;
    }
    if view.end_col as u64 > limit {
        assert(is_volatile_at(volatile@, sheet_id, view.start_row as int, view.end_col as int));
        return true;
    }
    let mut row: u64 = view.start_row as u64;
    while row <= view.end_row as u64
        invariant
            view.end_row <= u32::MAX,
            view.end_col <= u32::MAX,
            view.start_row <= view.end_row,
            view.start_col <= view.end_col,
            view.start_row <= row <= view.end_row + 1,
            forall|r: int, c: int|
                view.start_row <= r < row && view.start_col <= c <= view.end_col
                    ==> !#[trigger] is_volatile_at(volatile@, sheet_id, r, c),
        decreases view.end_row + 1 - row,
    {
        let mut col: u64 = view.start_col as u64;
        while col <= view.end_col as u64
            invariant
                view.end_row <= u32::MAX,
                view.end_col <= u32::MAX,
                view.start_row <= row <= view.end_row,
                view.start_col <= col <= view.end_col + 1,
                forall|c: int|
                    view.start_col <= c < col ==> !#[trigger] is_volatile_at(
                        volatile@,
                        sheet_id,
                        row as int,
                        c,
                    ),
            decreases view.end_col + 1 - col,
        {
            let k = cell_key(CellRef { sheet_id, row: row as u32, col: col as u32 });
            if set_contains(volatile, &k) {
                assert(is_volatile_at(volatile@, sheet_id, row as int, col as int));
                return true;
            }
            col = col + 1;
        }
        row = row + 1;
    }
    false
}

/// What the cache of indexes knows about a key.
#[derive(Clone, Copy, Debug, PartialEq, Eq, Structural)]
pub struct LookupFacts {
    /// An index is kept under the key.
    pub kept: bool,
    /// An index of that size would not fit.
    pub exceeds_cap: bool,
    /// The lookup was asked for often enough.
    pub should_build: bool,
    /// A cell of the view is known to be volatile.
    pub known_volatile: bool,
    /// A cell of the view is volatile.
    pub contains_volatile: bool,
}

/// What is done about an index.
#[derive(Clone, Copy, Debug, PartialEq, Eq, Structural)]
pub enum LookupDecision {
    /// The index that is kept is used.
    UseKept,
    /// None is built, because it would not fit.
    SkipCap,
    /// None is built yet.
    Wait,
    /// None is built, because a cell is volatile; the key is marked if it was not.
    SkipVolatile { mark: bool },
    /// It is built.
    Build,
}

/// Decides about an index.
pub fn decide_lookup(facts: LookupFacts) -> (d: LookupDecision)
    ensures
        d == lookup_decision(facts),
{
    if facts.kept {
        LookupDecision::UseKept
    } else if facts.exceeds_cap {
        LookupDecision::SkipCap
    } else if !facts.should_build {
        LookupDecision::Wait
    } else if facts.known_volatile {
        LookupDecision::SkipVolatile { mark: false }
    } else if facts.contains_volatile {
        LookupDecision::SkipVolatile { mark: true }
    } else {
        LookupDecision::Build
    }
}

/// An axis of a lookup lies in the view, and is as long as the view is in the other direction.
pub proof fn an_axis_runs_across_its_view(view: LookupView, col: usize, row: usize)
    ensures
        axis_len(view, LookupAxis::ColumnInView(col)) == (if col < view.cols && view.rows > 0 {
            Some(view.rows)
        } else {
            None
        }),
        axis_len(view, LookupAxis::RowInView(row)) == (if row < view.rows && view.cols > 0 {
            Some(view.cols)
        } else {
            None
        }),
{
}

/// A view holds a volatile cell where one of its cells is volatile, the last row and column included.
pub proof fn any_volatile_cell_is_found(volatile: Set<u128>, sheet_id: SheetId, view: LookupView, cell: CellRef)
    requires
        cell.sheet_id == sheet_id,
        view.start_row <= cell.row <= view.end_row,
        view.start_col <= cell.col <= view.end_col,
        volatile.contains(spec_cell_key(cell)),
    ensures
        contains_volatile(volatile, sheet_id, view),
{
    assert(is_volatile_at(volatile, sheet_id, cell.row as int, cell.col as int));
}

/// What becomes of a lookup, by what is known of it.
pub open spec fn lookup_decision(facts: LookupFacts) -> LookupDecision {
    if facts.kept {
        LookupDecision::UseKept
    } else if facts.exceeds_cap {
        LookupDecision::SkipCap
    } else if !facts.should_build {
        LookupDecision::Wait
    } else if facts.known_volatile {
        LookupDecision::SkipVolatile { mark: false }
    } else if facts.contains_volatile {
        LookupDecision::SkipVolatile { mark: true }
    } else {
        LookupDecision::Build
    }
}

/// An index is used where one is kept, and only then; one is built only where it is asked for often
/// enough, fits, and has no volatile cell, and such a cell is marked only where it was not known before.
pub proof fn indexes_are_built_only_over_settled_cells(facts: LookupFacts)
    ensures
        lookup_decision(facts) is UseKept <==> facts.kept,
        lookup_decision(facts) is Build <==> !facts.kept && !facts.exceeds_cap && facts.should_build
            && !facts.known_volatile && !facts.contains_volatile,
        lookup_decision(facts) is SkipCap <==> !facts.kept && facts.exceeds_cap,
        lookup_decision(facts) is Wait <==> !facts.kept && !facts.exceeds_cap && !facts.should_build,
        lookup_decision(facts) is SkipVolatile <==> !facts.kept && !facts.exceeds_cap && facts.should_build && (
        facts.known_volatile || facts.contains_volatile),
        lookup_decision(facts) matches LookupDecision::SkipVolatile { mark } ==> mark == !facts.known_volatile,
{
}

} // verus!
