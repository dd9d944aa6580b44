//! Cell addresses, and rectangles of cells in row-major order.
use vstd::arithmetic::div_mod::{lemma_fundamental_div_mod, lemma_fundamental_div_mod_converse};
use vstd::prelude::*;

verus! {

/// The identifier of a sheet.
pub type SheetId = u16;

/// The identifier of a vertex of the dependency graph.
pub type VertexId = u32;

/// A cell by sheet and zero-based row and column.
#[derive(Clone, Copy, Debug, PartialEq, Eq, Structural)]
pub struct CellRef {
    pub sheet_id: SheetId,
    pub row: u32,
    pub col: u32,
}

/// The cell that lies `k` places into the rectangle of width `width` at `anchor`, row by row.
pub open spec fn nth_cell(anchor: CellRef, width: int, k: int) -> CellRef {
    CellRef {
        sheet_id: anchor.sheet_id,
        row: (anchor.row + k / width) as u32,
        col: (anchor.col + k % width) as u32,
    }
}

/// The cells of the rectangle of `height` rows and `width` columns at `anchor`, row by row.
pub open spec fn rect_cells(anchor: CellRef, height: int, width: int) -> Seq<CellRef> {
    Seq::new((height * width) as nat, |k: int| nth_cell(anchor, width, k))
}

pub proof fn lemma_index_split(i: int, j: int, width: int)
    requires
        0 <= j < width,
        0 <= i,
    ensures
        (i * width + j) / width == i,
        (i * width + j) % width == j,
        0 <= i * width + j,
{
    assert(i * width + j == width * i + j) by (nonlinear_arith);
    assert(0 <= i * width) by (nonlinear_arith)
        requires
            0 <= i,
            0 < width,
    ;
    lemma_fundamental_div_mod_converse(i * width + j, width, i, j);
}

pub proof fn lemma_index_bounds(k: int, height: int, width: int)
    requires
        0 <= k < height * width,
        0 < width,
    ensures
        0 <= k / width < height,
        0 <= k % width < width,
        k == (k / width) * width + k % width,
{
    lemma_fundamental_div_mod(k, width);
    let q = k / width;
    let r = k % width;
    assert(k == q * width + r) by (nonlinear_arith)
        requires
            k == width * q + r,
    ;
    assert(q < height) by (nonlinear_arith)
        requires
            q * width + r < height * width,
            0 <= r < width,
            0 < width,
    ;
    assert(0 <= q) by (nonlinear_arith)
        requires
            0 <= q * width + r,
            0 <= r < width,
            0 < width,
    ;
}

/// A cell lies in the list of a rectangle exactly if it lies in the rectangle.
pub proof fn rect_cells_are_the_rectangle(anchor: CellRef, height: int, width: int, cell: CellRef)
    requires
        0 <= height,
        0 <= width,
        anchor.row + height <= u32::MAX + 1,
        anchor.col + width <= u32::MAX + 1,
    ensures
        rect_cells(anchor, height, width).contains(cell) <==> {
            &&& cell.sheet_id == anchor.sheet_id
            &&& anchor.row <= cell.row < anchor.row + height
            &&& anchor.col <= cell.col < anchor.col + width
        },
{
    let cells = rect_cells(anchor, height, width);
    if cells.contains(cell) {
        let k = choose|k: int| 0 <= k < cells.len() && cells[k] == cell;
        if width == 0 {
            assert(height * width == 0) by (nonlinear_arith)
                requires
                    width == 0,
            ;
        } else {
            lemma_index_bounds(k, height, width);
        }
    }
    if cell.sheet_id == anchor.sheet_id && anchor.row <= cell.row < anchor.row + height
        && anchor.col <= cell.col < anchor.col + width {
        let i = cell.row - anchor.row;
        let j = cell.col - anchor.col;
        lemma_index_split(i, j, width);
        assert(i * width + j < height * width) by (nonlinear_arith)
            requires
                0 <= i < height,
                0 <= j < width,
        ;
        assert(cells[i * width + j] == cell);
    }
}

/// The cells of a rectangle, row by row.
pub fn rectangle(anchor: CellRef, height: u32, width: u32) -> (cells: Vec<CellRef>)
    requires
        height > 0 && width > 0 ==> anchor.row + height <= u32::MAX + 1 && anchor.col + width
            <= u32::MAX + 1,
    ensures
        cells@ == rect_cells(anchor, height as int, width as int),
{
    let mut cells: Vec<CellRef> = Vec::new();
    let mut i: u32 = 0;
    assert(0 * width as int == 0);
    while i < height
        invariant
            i <= height,
            height > 0 && width > 0 ==> anchor.row + height <= u32::MAX + 1 && anchor.col + width
                <= u32::MAX + 1,
            cells@.len() == i * width,
            forall|k: int|
                0 <= k < cells@.len() ==> #[trigger] cells@[k] == nth_cell(
                    anchor,
                    width as int,
                    k,
                ),
        decreases height - i,
    {
        let mut j: u32 = 0;
        while j < width
            invariant
                i < height,
                j <= width,
                height > 0 && width > 0 ==> anchor.row + height <= u32::MAX + 1 && anchor.col
                    + width <= u32::MAX + 1,
                cells@.len() == i * width + j,
                forall|k: int|
                    0 <= k < cells@.len() ==> #[trigger] cells@[k] == nth_cell(
                        anchor,
                        width as int,
                        k,
                    ),
            decreases width - j,
        {
            proof {
                lemma_index_split(i as int, j as int, width as int);
            }
            cells.push(
                CellRef { sheet_id: anchor.sheet_id, row: anchor.row + i, col: anchor.col + j },
            );
            j = j + 1;
        }
        proof {
            assert(i * width + width == (i + 1) * width) by (nonlinear_arith);
        }
        i = i + 1;
    }
    assert(cells@ =~= rect_cells(anchor, height as int, width as int));
    cells
}

/// A cell as one integer.
pub open spec fn spec_cell_key(cell: CellRef) -> u128 {
    (cell.sheet_id * 0x1_0000_0000_0000_0000 + cell.row * 0x1_0000_0000 + cell.col) as u128
}

/// Different cells have different keys.
pub proof fn cell_keys_are_distinct(a: CellRef, b: CellRef)
    ensures
        spec_cell_key(a) == spec_cell_key(b) ==> a == b,
{
}

pub fn cell_key(cell: CellRef) -> (k: u128)
    ensures
        k == spec_cell_key(cell),
{
    cell.sheet_id as u128 * 0x1_0000_0000_0000_0000 + cell.row as u128 * 0x1_0000_0000
        + cell.col as u128
}

/// The cell with the given key.
pub open spec fn spec_key_cell(k: u128) -> CellRef {
    CellRef {
        sheet_id: (k / 0x1_0000_0000_0000_0000) as u16,
        row: (k / 0x1_0000_0000 % 0x1_0000_0000) as u32,
        col: (k % 0x1_0000_0000) as u32,
    }
}

/// A cell is found again by its key.
pub proof fn keys_name_their_cells(cell: CellRef)
    ensures
        spec_key_cell(spec_cell_key(cell)) == cell,
{
    let k = spec_cell_key(cell);
    let rest: int = cell.row * 0x1_0000_0000 + cell.col;
    assert(k == cell.sheet_id * 0x1_0000_0000_0000_0000 + rest);
    assert(k / 0x1_0000_0000_0000_0000 == cell.sheet_id);
    assert(k / 0x1_0000_0000 == cell.sheet_id * 0x1_0000_0000 + cell.row);
}

pub fn key_cell(k: u128) -> (cell: CellRef)
    requires
        k < 0x1_0000_0000_0000_0000_0000,
    ensures
        cell == spec_key_cell(k),
{
    CellRef {
        sheet_id: (k / 0x1_0000_0000_0000_0000) as u16,
        row: (k / 0x1_0000_0000 % 0x1_0000_0000) as u32,
        col: (k % 0x1_0000_0000) as u32,
    }
}

/// Whether the key is that of a cell.
pub open spec fn is_cell_key(k: u128) -> bool {
    k < 0x1_0000_0000_0000_0000_0000
}

/// The key of a cell is found again by the cell.
pub proof fn cells_name_their_keys(k: u128)
    requires
        is_cell_key(k),
    ensures
        spec_cell_key(spec_key_cell(k)) == k,
{
    let q = k / 0x1_0000_0000;
    assert(k == q * 0x1_0000_0000 + k % 0x1_0000_0000);
    assert(q == (q / 0x1_0000_0000) * 0x1_0000_0000 + q % 0x1_0000_0000);
    assert(k / 0x1_0000_0000_0000_0000 == q / 0x1_0000_0000);
    assert(q / 0x1_0000_0000 < 0x1_0000);
}

/// The keys of a list of cells.
pub open spec fn cell_keys(cells: Seq<CellRef>) -> Set<u128> {
    Set::new(|k: u128| exists|i: int| 0 <= i < cells.len() && spec_cell_key(#[trigger] cells[i]) == k)
}

} // verus!
