//! Regions of cells: axis ranges, regions and the domains that formula spans are placed on.
use crate::coord::{CellRef, SheetId, rect_cells, rectangle};
use vstd::prelude::*;

verus! {

/// A set of indices on one axis. `From` is unbounded above, `To` starts at zero, both ends of a
/// `Span` and the end of a `To` belong to the range.
#[derive(Clone, Copy, Debug, PartialEq, Eq, Structural)]
pub enum AxisRange {
    Point(u32),
    Span(u32, u32),
    From(u32),
    To(u32),
    All,
}

impl AxisRange {
    /// The first index that the range may hold.
    pub open spec fn low(self) -> u32 {
        match self {
            AxisRange::Point(p) => p,
            AxisRange::Span(min, _) => min,
            AxisRange::From(min) => min,
            AxisRange::To(_) => 0,
            AxisRange::All => 0,
        }
    }

    /// The last index that the range may hold.
    pub open spec fn high(self) -> u32 {
        match self {
            AxisRange::Point(p) => p,
            AxisRange::Span(_, max) => max,
            AxisRange::From(_) => u32::MAX,
            AxisRange::To(max) => max,
            AxisRange::All => u32::MAX,
        }
    }

    /// Membership of an index.
    pub open spec fn has_index(self, i: u32) -> bool {
        self.low() <= i <= self.high()
    }

    pub fn lowest(self) -> (r: u32)
        ensures
            r == self.low(),
    {
        match self {
            AxisRange::Point(p) => p,
            AxisRange::Span(min, _) => min,
            AxisRange::From(min) => min,
            AxisRange::To(_) => 0,
            AxisRange::All => 0,
        }
    }

    pub fn highest(self) -> (r: u32)
        ensures
            r == self.high(),
    {
        match self {
            AxisRange::Point(p) => p,
            AxisRange::Span(_, max) => max,
            AxisRange::From(_) => u32::MAX,
            AxisRange::To(max) => max,
            AxisRange::All => u32::MAX,
        }
    }

    /// Whether some index lies in both ranges.
    pub fn intersects(self, other: AxisRange) -> (b: bool)
        ensures
            b == exists|i: u32| self.has_index(i) && #[trigger] other.has_index(i),
    {
        let a = self.lowest();
        let b = other.lowest();
        let low = if a < b { b } else { a };
        let c = self.highest();
        let d = other.highest();
        let high = if c < d { c } else { d };
        proof {
            if low <= high {
                assert(self.has_index(low) && other.has_index(low));
            }
        }
        low <= high
    }
}

/// A set of cells of one sheet: every cell whose row and column lie in the two ranges.
#[derive(Clone, Copy, Debug, PartialEq, Eq, Structural)]
pub struct Region {
    pub sheet_id: SheetId,
    pub rows: AxisRange,
    pub cols: AxisRange,
}

impl Region {
    /// Membership of a cell.
    pub open spec fn has_cell(self, cell: CellRef) -> bool {
        &&& cell.sheet_id == self.sheet_id
        &&& self.rows.has_index(cell.row)
        &&& self.cols.has_index(cell.col)
    }

    pub fn point(sheet_id: SheetId, row: u32, col: u32) -> (r: Region)
        ensures
            r == (Region { sheet_id, rows: AxisRange::Point(row), cols: AxisRange::Point(col) }),
    {
        Region { sheet_id, rows: AxisRange::Point(row), cols: AxisRange::Point(col) }
    }

    pub fn rect(sheet_id: SheetId, r0: u32, r1: u32, c0: u32, c1: u32) -> (r: Region)
        ensures
            r == rect_region(sheet_id, r0, r1, c0, c1),
    {
        Region { sheet_id, rows: AxisRange::Span(r0, r1), cols: AxisRange::Span(c0, c1) }
    }

    pub fn whole_row(sheet_id: SheetId, row: u32) -> (r: Region)
        ensures
            r == (Region { sheet_id, rows: AxisRange::Point(row), cols: AxisRange::All }),
    {
        Region { sheet_id, rows: AxisRange::Point(row), cols: AxisRange::All }
    }

    pub fn whole_col(sheet_id: SheetId, col: u32) -> (r: Region)
        ensures
            r == (Region { sheet_id, rows: AxisRange::All, cols: AxisRange::Point(col) }),
    {
        Region { sheet_id, rows: AxisRange::All, cols: AxisRange::Point(col) }
    }

    /// Every cell in or below the row: what inserting or deleting rows there touches.
    pub fn rows_from(sheet_id: SheetId, row: u32) -> (r: Region)
        ensures
            r == (Region { sheet_id, rows: AxisRange::From(row), cols: AxisRange::All }),
    {
        Region { sheet_id, rows: AxisRange::From(row), cols: AxisRange::All }
    }

    /// Every cell in or right of the column: what inserting or deleting columns there touches.
    pub fn cols_from(sheet_id: SheetId, col: u32) -> (r: Region)
        ensures
            r == (Region { sheet_id, rows: AxisRange::All, cols: AxisRange::From(col) }),
    {
        Region { sheet_id, rows: AxisRange::All, cols: AxisRange::From(col) }
    }

    /// Whether the cell belongs to the region.
    pub fn contains_key(&self, cell: CellRef) -> (b: bool)
        ensures
            b == self.has_cell(cell),
    {
        cell.sheet_id == self.sheet_id && self.rows.lowest() <= cell.row && cell.row
            <= self.rows.highest() && self.cols.lowest() <= cell.col && cell.col
            <= self.cols.highest()
    }

    /// Whether some cell lies in both regions.
    pub fn intersects(&self, other: &Region) -> (b: bool)
        ensures
            b == regions_meet(*self, *other),
    {
        let rows = self.rows.intersects(other.rows);
        let cols = self.cols.intersects(other.cols);
        proof {
            if self.sheet_id == other.sheet_id && rows && cols {
                let i = choose|i: u32| self.rows.has_index(i) && #[trigger] other.rows.has_index(i);
                let j = choose|j: u32| self.cols.has_index(j) && #[trigger] other.cols.has_index(j);
                let cell = CellRef { sheet_id: self.sheet_id, row: i, col: j };
                assert(self.has_cell(cell) && other.has_cell(cell));
            }
            if regions_meet(*self, *other) {
                let cell = choose|cell: CellRef| self.has_cell(cell) && #[trigger] other.has_cell(cell);
                assert(self.rows.has_index(cell.row) && other.rows.has_index(cell.row));
                assert(self.cols.has_index(cell.col) && other.cols.has_index(cell.col));
            }
        }
        self.sheet_id == other.sheet_id && rows && cols
    }
}

/// The rectangle with the given first and last rows and columns.
pub open spec fn rect_region(sheet_id: SheetId, r0: u32, r1: u32, c0: u32, c1: u32) -> Region {
    Region { sheet_id, rows: AxisRange::Span(r0, r1), cols: AxisRange::Span(c0, c1) }
}

/// Whether two regions have a cell in common.
pub open spec fn regions_meet(a: Region, b: Region) -> bool {
    exists|cell: CellRef| a.has_cell(cell) && #[trigger] b.has_cell(cell)
}

/// The cells that a formula span is placed on.
#[derive(Clone, Copy, Debug, PartialEq, Eq, Structural)]
pub enum PlacementDomain {
    RowRun { sheet_id: SheetId, row_start: u32, row_end: u32, col: u32 },
    ColRun { sheet_id: SheetId, row: u32, col_start: u32, col_end: u32 },
    Rect { sheet_id: SheetId, row_start: u32, row_end: u32, col_start: u32, col_end: u32 },
}

impl PlacementDomain {
    pub open spec fn spec_sheet(self) -> SheetId {
        match self {
            PlacementDomain::RowRun { sheet_id, .. } => sheet_id,
            PlacementDomain::ColRun { sheet_id, .. } => sheet_id,
            PlacementDomain::Rect { sheet_id, .. } => sheet_id,
        }
    }

    /// First row, last row, first column, last column.
    pub open spec fn bounds(self) -> (u32, u32, u32, u32) {
        match self {
            PlacementDomain::RowRun { row_start, row_end, col, .. } => (row_start, row_end, col, col),
            PlacementDomain::ColRun { row, col_start, col_end, .. } => (row, row, col_start, col_end),
            PlacementDomain::Rect { row_start, row_end, col_start, col_end, .. } => (
                row_start,
                row_end,
                col_start,
                col_end,
            ),
        }
    }

    /// Membership of a cell.
    pub open spec fn has_cell(self, cell: CellRef) -> bool {
        let (r0, r1, c0, c1) = self.bounds();
        cell.sheet_id == self.spec_sheet() && r0 <= cell.row <= r1 && c0 <= cell.col <= c1
    }

    /// A domain whose bounds are in order and whose cells have one-based addresses.
    pub open spec fn valid(self) -> bool {
        let (r0, r1, c0, c1) = self.bounds();
        r0 <= r1 < u32::MAX && c0 <= c1 < u32::MAX
    }

    /// The cells of the domain, row by row.
    pub open spec fn cells(self) -> Seq<CellRef> {
        let (r0, r1, c0, c1) = self.bounds();
        rect_cells(
            CellRef { sheet_id: self.spec_sheet(), row: r0, col: c0 },
            r1 - r0 + 1,
            c1 - c0 + 1,
        )
    }

    pub fn sheet(&self) -> (r: SheetId)
        ensures
            r == self.spec_sheet(),
    {
        match *self {
            PlacementDomain::RowRun { sheet_id, .. } => sheet_id,
            PlacementDomain::ColRun { sheet_id, .. } => sheet_id,
            PlacementDomain::Rect { sheet_id, .. } => sheet_id,
        }
    }

    pub fn corners(&self) -> (r: (u32, u32, u32, u32))
        ensures
            r == self.bounds(),
    {
        match *self {
            PlacementDomain::RowRun { row_start, row_end, col, .. } => (row_start, row_end, col, col),
            PlacementDomain::ColRun { row, col_start, col_end, .. } => (row, row, col_start, col_end),
            PlacementDomain::Rect { row_start, row_end, col_start, col_end, .. } => (
                row_start,
                row_end,
                col_start,
                col_end,
            ),
        }
    }

    pub fn contains(&self, cell: CellRef) -> (b: bool)
        ensures
            b == self.has_cell(cell),
    {
        let (r0, r1, c0, c1) = self.corners();
        cell.sheet_id == self.sheet() && r0 <= cell.row && cell.row <= r1 && c0 <= cell.col
            && cell.col <= c1
    }

    /// The cells of the domain, row by row.
    pub fn placements(&self) -> (cells: Vec<CellRef>)
        requires
            self.valid(),
        ensures
            cells@ == self.cells(),
    {
        let (r0, r1, c0, c1) = self.corners();
        rectangle(
            CellRef { sheet_id: self.sheet(), row: r0, col: c0 },
            r1 - r0 + 1,
            c1 - c0 + 1,
        )
    }

    /// The one-based address of the top left cell.
    pub fn origin_1_based(&self) -> (r: (u32, u32))
        requires
            self.bounds().0 < u32::MAX,
            self.bounds().2 < u32::MAX,
        ensures
            r == ((self.bounds().0 + 1) as u32, (self.bounds().2 + 1) as u32),
    {
        let (r0, _, c0, _) = self.corners();
        (r0 + 1, c0 + 1)
    }
}

/// The region that a domain covers.
pub open spec fn domain_region(d: PlacementDomain) -> Region {
    match d {
        PlacementDomain::RowRun { sheet_id, row_start, row_end, col } => Region {
            sheet_id,
            rows: AxisRange::Span(row_start, row_end),
            cols: AxisRange::Point(col),
        },
        PlacementDomain::ColRun { sheet_id, row, col_start, col_end } => Region {
            sheet_id,
            rows: AxisRange::Point(row),
            cols: AxisRange::Span(col_start, col_end),
        },
        PlacementDomain::Rect { sheet_id, row_start, row_end, col_start, col_end } => rect_region(
            sheet_id,
            row_start,
            row_end,
            col_start,
            col_end,
        ),
    }
}

impl Region {
    pub fn from_domain(d: &PlacementDomain) -> (r: Region)
        ensures
            r == domain_region(*d),
            forall|cell: CellRef| #[trigger] r.has_cell(cell) == d.has_cell(cell),
    {
        match *d {
            PlacementDomain::RowRun { sheet_id, row_start, row_end, col } => Region {
                sheet_id,
                rows: AxisRange::Span(row_start, row_end),
                cols: AxisRange::Point(col),
            },
            PlacementDomain::ColRun { sheet_id, row, col_start, col_end } => Region {
                sheet_id,
                rows: AxisRange::Point(row),
                cols: AxisRange::Span(col_start, col_end),
            },
            PlacementDomain::Rect { sheet_id, row_start, row_end, col_start, col_end } => {
                Region::rect(sheet_id, row_start, row_end, col_start, col_end)
            },
        }
    }
}

/// The smallest rectangle that holds all cells, where they lie on one sheet: the scope of a change
/// to them. No cells have no scope; cells of several sheets concern all sheets.
pub open spec fn is_scope_of_cells(cells: Seq<CellRef>, scope: Option<StructuralScope>) -> bool {
    if cells.len() == 0 {
        scope is None
    } else if exists|i: int| 0 <= i < cells.len() && #[trigger] cells[i].sheet_id != cells[0].sheet_id {
        scope == Some(StructuralScope::AllSheets)
    } else {
        exists|r0: u32, r1: u32, c0: u32, c1: u32|
            #![trigger rect_region(cells[0].sheet_id, r0, r1, c0, c1)]
            {
                &&& scope == Some(
                    StructuralScope::Region(rect_region(cells[0].sheet_id, r0, r1, c0, c1)),
                )
                &&& is_bounding(cells, r0, r1, c0, c1)
            }
    }
}

/// Whether the four bounds are attained by cells of the list and hold for all of them.
pub open spec fn is_bounding(cells: Seq<CellRef>, r0: u32, r1: u32, c0: u32, c1: u32) -> bool {
    &&& forall|i: int|
        0 <= i < cells.len() ==> r0 <= (#[trigger] cells[i]).row <= r1 && c0 <= cells[i].col <= c1
    &&& exists|i: int| 0 <= i < cells.len() && (#[trigger] cells[i]).row == r0
    &&& exists|i: int| 0 <= i < cells.len() && (#[trigger] cells[i]).row == r1
    &&& exists|i: int| 0 <= i < cells.len() && (#[trigger] cells[i]).col == c0
    &&& exists|i: int| 0 <= i < cells.len() && (#[trigger] cells[i]).col == c1
}

/// What a structural change concerns.
#[derive(Clone, Copy, Debug, PartialEq, Eq, Structural)]
pub enum StructuralScope {
    Cell(CellRef),
    Region(Region),
    Sheet(SheetId),
    RemovedSheet(SheetId),
    AllSheets,
}

/// The scope of a change to the given cells.
pub open spec fn scope_of_cells(cells: Seq<CellRef>) -> Option<StructuralScope> {
    choose|scope: Option<StructuralScope>| is_scope_of_cells(cells, scope)
}

proof fn lemma_scope_is_unique(
    cells: Seq<CellRef>,
    a: Option<StructuralScope>,
    b: Option<StructuralScope>,
)
    requires
        is_scope_of_cells(cells, a),
        is_scope_of_cells(cells, b),
    ensures
        a == b,
{
    if cells.len() > 0 && !(exists|i: int|
        0 <= i < cells.len() && #[trigger] cells[i].sheet_id != cells[0].sheet_id) {
        let sheet = cells[0].sheet_id;
        let (r0, r1, c0, c1) = choose|r0: u32, r1: u32, c0: u32, c1: u32|
            #![trigger rect_region(sheet, r0, r1, c0, c1)]
            a == Some(StructuralScope::Region(rect_region(sheet, r0, r1, c0, c1))) && is_bounding(
                cells,
                r0,
                r1,
                c0,
                c1,
            );
        let (s0, s1, d0, d1) = choose|r0: u32, r1: u32, c0: u32, c1: u32|
            #![trigger rect_region(sheet, r0, r1, c0, c1)]
            b == Some(StructuralScope::Region(rect_region(sheet, r0, r1, c0, c1))) && is_bounding(
                cells,
                r0,
                r1,
                c0,
                c1,
            );
        assert(r0 == s0 && r1 == s1 && c0 == d0 && c1 == d1);
    }
}

/// The scope of a change to the given cells.
pub fn formula_plane_region_from_cells(cells: &Vec<CellRef>) -> (scope: Option<StructuralScope>)
    ensures
        is_scope_of_cells(cells@, scope),
        scope == scope_of_cells(cells@),
{
    let scope = bounding_scope(cells);
    proof {
        lemma_scope_is_unique(cells@, scope, scope_of_cells(cells@));
    }
    scope
}

fn bounding_scope(cells: &Vec<CellRef>) -> (scope: Option<StructuralScope>)
    ensures
        is_scope_of_cells(cells@, scope),
{
    if cells.len() == 0 {
        return None;
    }
    let first = cells[0];
    let mut i: usize = 1;
    while i < cells.len()
        invariant
            1 <= i <= cells@.len(),
            first == cells@[0],
            forall|k: int| 0 <= k < i ==> (#[trigger] cells@[k]).sheet_id == first.sheet_id,
        decreases cells@.len() - i,
    {
        if cells[i].sheet_id != first.sheet_id {
            assert(cells@[i as int].sheet_id != cells@[0].sheet_id);
            return Some(StructuralScope::AllSheets);
        }
        i = i + 1;
    }
    let (r0, r1, c0, c1) = bounding(cells);
    let region = Region::rect(first.sheet_id, r0, r1, c0, c1);
    Some(StructuralScope::Region(region))
}

/// Two sets of bounds of the same cells are the same.
pub proof fn lemma_bounds_are_unique(
    cells: Seq<CellRef>,
    a: (u32, u32, u32, u32),
    b: (u32, u32, u32, u32),
)
    requires
        is_bounding(cells, a.0, a.1, a.2, a.3),
        is_bounding(cells, b.0, b.1, b.2, b.3),
    ensures
        a == b,
{
}

/// The first and last rows and columns of the cells.
pub fn bounding(cells: &Vec<CellRef>) -> (r: (u32, u32, u32, u32))
    requires
        cells@.len() > 0,
    ensures
        is_bounding(cells@, r.0, r.1, r.2, r.3),
{
    let first = cells[0];
    let mut r0: u32 = first.row;
    let mut r1: u32 = first.row;
    let mut c0: u32 = first.col;
    let mut c1: u32 = first.col;
    let mut i: usize = 1;
    assert(is_bounding(cells@.take(1), r0, r1, c0, c1)) by {
        assert(cells@.take(1)[0] == first);
    }
    while i < cells.len()
        invariant
            1 <= i <= cells@.len(),
            is_bounding(cells@.take(i as int), r0, r1, c0, c1),
        decreases cells@.len() - i,
    {
        let cell = cells[i];
        let ghost before = cells@.take(i as int);
        let ghost after = cells@.take(i + 1);
        let ghost old_bounds = (r0, r1, c0, c1);
        if cell.row < r0 {
            r0 = cell.row;
        }
        if cell.row > r1 {
            r1 = cell.row;
        }
        if cell.col < c0 {
            c0 = cell.col;
        }
        if cell.col > c1 {
            c1 = cell.col;
        }
        proof {
            assert(after[i as int] == cell);
            assert forall|k: int| 0 <= k < after.len() implies r0 <= (#[trigger] after[k]).row <= r1
                && c0 <= after[k].col <= c1 by {
                if k < i {
                    assert(after[k] == before[k]);
                }
            }
            let a = choose|k: int| 0 <= k < before.len() && (#[trigger] before[k]).row == old_bounds.0;
            let b = choose|k: int| 0 <= k < before.len() && (#[trigger] before[k]).row == old_bounds.1;
            let c = choose|k: int| 0 <= k < before.len() && (#[trigger] before[k]).col == old_bounds.2;
            let d = choose|k: int| 0 <= k < before.len() && (#[trigger] before[k]).col == old_bounds.3;
            assert(after[a] == before[a] && after[b] == before[b] && after[c] == before[c] && after[d]
                == before[d]);
            assert(is_bounding(after, r0, r1, c0, c1));
        }
        i = i + 1;
    }
    assert(cells@.take(i as int) =~= cells@);
    (r0, r1, c0, c1)
}

/// A region holds the cells of its sheet whose row and column lie in its ranges: a range is one index,
/// those between two, those from one on, those up to one, or all.
pub proof fn regions_hold_the_cells_between_their_bounds(r: Region, cell: CellRef)
    ensures
        r.has_cell(cell) <==> cell.sheet_id == r.sheet_id && (match r.rows {
            AxisRange::Point(p) => cell.row == p,
            AxisRange::Span(a, b) => a <= cell.row && cell.row <= b,
            AxisRange::From(a) => a <= cell.row,
            AxisRange::To(b) => cell.row <= b,
            AxisRange::All => true,
        }) && (match r.cols {
            AxisRange::Point(p) => cell.col == p,
            AxisRange::Span(a, b) => a <= cell.col && cell.col <= b,
            AxisRange::From(a) => a <= cell.col,
            AxisRange::To(b) => cell.col <= b,
            AxisRange::All => true,
        }),
{
}

/// The region of a domain holds exactly its cells.
pub proof fn a_domain_and_its_region_hold_the_same_cells(d: PlacementDomain, cell: CellRef)
    ensures
        domain_region(d).has_cell(cell) <==> (match d {
            PlacementDomain::RowRun { sheet_id, row_start, row_end, col } => cell.sheet_id == sheet_id
                && row_start <= cell.row <= row_end && cell.col == col,
            PlacementDomain::ColRun { sheet_id, row, col_start, col_end } => cell.sheet_id == sheet_id
                && cell.row == row && col_start <= cell.col <= col_end,
            PlacementDomain::Rect { sheet_id, row_start, row_end, col_start, col_end } => cell.sheet_id
                == sheet_id && row_start <= cell.row <= row_end && col_start <= cell.col <= col_end,
        }),
        domain_region(d).has_cell(cell) <==> d.has_cell(cell),
{
}

/// The scope of cells on one sheet holds each of them; cells on several sheets have all sheets as their
/// scope.
pub proof fn the_scope_of_cells_holds_them(cells: Seq<CellRef>, scope: Option<StructuralScope>, i: int)
    requires
        is_scope_of_cells(cells, scope),
        0 <= i < cells.len(),
    ensures
        scope matches Some(StructuralScope::Region(r)) ==> r.has_cell(cells[i]),
        scope is Some,
        (exists|j: int| 0 <= j < cells.len() && (#[trigger] cells[j]).sheet_id != cells[i].sheet_id)
            ==> scope == Some(StructuralScope::AllSheets),
{
    if exists|j: int| 0 <= j < cells.len() && (#[trigger] cells[j]).sheet_id != cells[i].sheet_id {
        let j = choose|j: int| 0 <= j < cells.len() && (#[trigger] cells[j]).sheet_id != cells[i].sheet_id;
        if cells[i].sheet_id == cells[0].sheet_id {
            assert(cells[j].sheet_id != cells[0].sheet_id);
        } else {
            assert(cells[i].sheet_id != cells[0].sheet_id);
        }
    }
    if let Some(StructuralScope::Region(r)) = scope {
        assert(cells[i].sheet_id == cells[0].sheet_id);
    }
}

} // verus!
