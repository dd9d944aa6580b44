//! Hidden rows.
use crate::coord::{CellRef, SheetId, cell_key, cells_name_their_keys, is_cell_key, keys_name_their_cells, spec_cell_key, spec_key_cell};
use crate::fx::{map_get, map_insert};
use crate::overlay::{Axis, Lane, OverlayValue, after_delete, after_insert, is_deleted, is_deleted_from, is_inserted, keyed_by_cells, outside};
use crate::region::{AxisRange, Region, StructuralScope};
use crate::store::{has_room, lane_has_room};
use crate::value::{ErrorView, ExcelError};
use rustc_hash::FxHashMap;
use vstd::prelude::*;

verus! {

/// Why an edit is refused.
#[derive(Debug)]
pub enum EditorError {
    InvalidName { name: String, reason: String },
    OutOfBounds { row: u32, col: u32 },
    TransactionFailed { reason: String },
    TransactionUnsupported { reason: String },
    Excel(ExcelError),
}

/// The model of an [`EditorError`].
pub enum EditorErrorView {
    InvalidName { name: Seq<char>, reason: Seq<char> },
    OutOfBounds { row: u32, col: u32 },
    TransactionFailed { reason: Seq<char> },
    TransactionUnsupported { reason: Seq<char> },
    Excel(ErrorView),
}

impl EditorError {
    pub open spec fn view(&self) -> EditorErrorView {
        match *self {
            EditorError::InvalidName { name, reason } => EditorErrorView::InvalidName {
                name: name@,
                reason: reason@,
            },
            EditorError::OutOfBounds { row, col } => EditorErrorView::OutOfBounds { row, col },
            EditorError::TransactionFailed { reason } => EditorErrorView::TransactionFailed {
                reason: reason@,
            },
            EditorError::TransactionUnsupported { reason } =>
                EditorErrorView::TransactionUnsupported { reason: reason@ },
            EditorError::Excel(e) => EditorErrorView::Excel(e@),
        }
    }
}

/// The error of a sheet that is not known.
pub open spec fn unknown_sheet(name: Seq<char>) -> EditorErrorView {
    EditorErrorView::InvalidName { name, reason: "Unknown sheet"@ }
}

/// The sheet, if it is known.
pub fn ensure_known_sheet_id(found: Option<SheetId>, sheet: &str) -> (r: Result<SheetId, EditorError>)
    ensures
        match found {
            Some(id) => r == Ok::<SheetId, EditorError>(id),
            None => r matches Err(e) && e@ == unknown_sheet(sheet@),
        },
{
    match found {
        Some(id) => Ok(id),
        None => Err(
            EditorError::InvalidName {
                name: sheet.to_string(),
                reason: "Unknown sheet".to_string(),
            },
        ),
    }
}

/// The zero-based row of a one-based one; there is no row zero.
pub fn normalize_row_1based(row_1based: u32) -> (r: Result<u32, EditorError>)
    ensures
        row_1based == 0 ==> (r matches Err(e) && e@ == (EditorErrorView::OutOfBounds {
            row: 0,
            col: 0,
        })),
        row_1based > 0 ==> r == Ok::<u32, EditorError>((row_1based - 1) as u32),
{
    if row_1based == 0 {
        return Err(EditorError::OutOfBounds { row: 0, col: 0 });
    }
    Ok(row_1based - 1)
}

/// The zero-based rows of a one-based range, which has to be in order.
pub fn normalize_row_range_1based(start_row_1based: u32, end_row_1based: u32) -> (r: Result<
    (u32, u32),
    EditorError,
>)
    ensures
        start_row_1based == 0 || end_row_1based == 0 ==> (r matches Err(e) && e@ == (
        EditorErrorView::OutOfBounds { row: 0, col: 0 })),
        start_row_1based > end_row_1based && end_row_1based > 0 ==> (r matches Err(e) && e@ == (
        EditorErrorView::TransactionFailed { reason: "Row range start is greater than end"@ })),
        0 < start_row_1based <= end_row_1based ==> r == Ok::<(u32, u32), EditorError>(
            ((start_row_1based - 1) as u32, (end_row_1based - 1) as u32),
        ),
{
    if start_row_1based == 0 || end_row_1based == 0 {
        return Err(EditorError::OutOfBounds { row: 0, col: 0 });
    }
    if start_row_1based > end_row_1based {
        return Err(
            EditorError::TransactionFailed {
                reason: "Row range start is greater than end".to_string(),
            },
        );
    }
    Ok((start_row_1based - 1, end_row_1based - 1))
}

/// What hid a row.
#[derive(Clone, Copy, Debug, PartialEq, Eq, Structural)]
pub enum RowVisibilitySource {
    Manual,
    Filter,
}

/// The cell that stands for a row that a source has hidden.
pub open spec fn row_cell(sheet_id: SheetId, row: u32, source: RowVisibilitySource) -> CellRef {
    CellRef {
        sheet_id,
        row,
        col: match source {
            RowVisibilitySource::Manual => 0,
            RowVisibilitySource::Filter => 1,
        },
    }
}

/// The key of a row that a source has hidden.
pub open spec fn row_key(sheet_id: SheetId, row: u32, source: RowVisibilitySource) -> u128 {
    spec_cell_key(row_cell(sheet_id, row, source))
}

fn key_of_row(sheet_id: SheetId, row: u32, source: RowVisibilitySource) -> (k: u128)
    ensures
        k == row_key(sheet_id, row, source),
{
    let col = match source {
        RowVisibilitySource::Manual => 0,
        RowVisibilitySource::Filter => 1,
    };
    cell_key(CellRef { sheet_id, row, col })
}

/// Different rows, sheets or sources have different keys.
pub proof fn row_keys_are_distinct(
    a: (SheetId, u32, RowVisibilitySource),
    b: (SheetId, u32, RowVisibilitySource),
)
    ensures
        row_key(a.0, a.1, a.2) == row_key(b.0, b.1, b.2) <==> a == b,
{
    let x = CellRef {
        sheet_id: a.0,
        row: a.1,
        col: match a.2 {
            RowVisibilitySource::Manual => 0,
            RowVisibilitySource::Filter => 1,
        },
    };
    let y = CellRef {
        sheet_id: b.0,
        row: b.1,
        col: match b.2 {
            RowVisibilitySource::Manual => 0,
            RowVisibilitySource::Filter => 1,
        },
    };
    keys_name_their_cells(x);
    keys_name_their_cells(y);
}

/// The hidden rows of all sheets.
#[derive(Debug)]
pub struct RowVisibility {
    hidden: Lane,
    versions: FxHashMap<u16, u64>,
}

/// The model of [`RowVisibility`]: a mark under the key of every hidden row.
pub type HiddenRows = Map<u128, OverlayValue>;

/// Whether a source has hidden the row.
pub open spec fn is_hidden(h: HiddenRows, sheet_id: SheetId, row: u32, source: RowVisibilitySource) -> bool {
    h.contains_key(row_key(sheet_id, row, source))
}

/// The number of the hidden rows of a sheet as they are; at first it is zero.
pub open spec fn version_of(versions: Map<u16, u64>, sheet_id: SheetId) -> u64 {
    if versions.contains_key(sheet_id) {
        versions[sheet_id]
    } else {
        0
    }
}

/// The numbers with that of the sheet counted up; the largest one stays.
pub open spec fn counted_up(versions: Map<u16, u64>, sheet_id: SheetId) -> Map<u16, u64> {
    let n = version_of(versions, sheet_id);
    versions.insert(
        sheet_id,
        if n < u64::MAX {
            (n + 1) as u64
        } else {
            n
        },
    )
}

/// The numbers once the source hides or shows `n` rows from a row on: one more for every row that was
/// not so before.
pub open spec fn versions_with_rows(
    h: HiddenRows,
    versions: Map<u16, u64>,
    sheet_id: SheetId,
    start: u32,
    source: RowVisibilitySource,
    hidden: bool,
    n: nat,
) -> Map<u16, u64>
    decreases n,
{
    if n == 0 {
        versions
    } else {
        let before = versions_with_rows(
            h,
            versions,
            sheet_id,
            start,
            source,
            hidden,
            (n - 1) as nat,
        );
        if is_hidden(h, sheet_id, (start + n - 1) as u32, source) == hidden {
            before
        } else {
            counted_up(before, sheet_id)
        }
    }
}

/// Whether the same rows of the sheet are hidden.
pub open spec fn same_rows(a: HiddenRows, b: HiddenRows, sheet_id: SheetId) -> bool {
    forall|row: u32, source: RowVisibilitySource|
        is_hidden(a, sheet_id, row, source) == #[trigger] is_hidden(b, sheet_id, row, source)
}

/// Whether the number of every sheet went up whose hidden rows changed, and none went down. The
/// largest number stays.
pub open spec fn is_counted(
    a: HiddenRows,
    before: Map<u16, u64>,
    b: HiddenRows,
    after: Map<u16, u64>,
) -> bool {
    forall|sheet_id: SheetId|
        #![trigger version_of(after, sheet_id)]
        {
            &&& version_of(before, sheet_id) <= version_of(after, sheet_id)
            &&& !same_rows(a, b, sheet_id) && version_of(before, sheet_id) < u64::MAX
                ==> version_of(before, sheet_id) < version_of(after, sheet_id)
        }
}

/// Numbers that count two changes one after the other count both.
pub proof fn lemma_counted(
    a: HiddenRows,
    x: Map<u16, u64>,
    b: HiddenRows,
    y: Map<u16, u64>,
    c: HiddenRows,
    z: Map<u16, u64>,
)
    requires
        is_counted(a, x, b, y),
        is_counted(b, y, c, z),
    ensures
        is_counted(a, x, c, z),
{
    assert forall|sheet_id: SheetId|
        #![trigger version_of(z, sheet_id)]
        {
            &&& version_of(x, sheet_id) <= version_of(z, sheet_id)
            &&& !same_rows(a, c, sheet_id) && version_of(x, sheet_id) < u64::MAX ==> version_of(
                x,
                sheet_id,
            ) < version_of(z, sheet_id)
        } by {
        assert(version_of(x, sheet_id) <= version_of(y, sheet_id));
        assert(version_of(y, sheet_id) <= version_of(z, sheet_id));
        if same_rows(a, b, sheet_id) && same_rows(b, c, sheet_id) {
            assert forall|row: u32, source: RowVisibilitySource|
                is_hidden(a, sheet_id, row, source) == #[trigger] is_hidden(
                    c,
                    sheet_id,
                    row,
                    source,
                ) by {
                assert(is_hidden(a, sheet_id, row, source) == is_hidden(b, sheet_id, row, source));
            }
        }
    }
}

/// Counting up the number of a sheet counts a change of its rows.
proof fn lemma_counted_up(a: HiddenRows, versions: Map<u16, u64>, b: HiddenRows, sheet_id: SheetId)
    requires
        forall|other: SheetId| other != sheet_id ==> #[trigger] same_rows(a, b, other),
    ensures
        is_counted(a, versions, b, counted_up(versions, sheet_id)),
{
    let after = counted_up(versions, sheet_id);
    assert forall|s: SheetId|
        #![trigger version_of(after, s)]
        {
            &&& version_of(versions, s) <= version_of(after, s)
            &&& !same_rows(a, b, s) && version_of(versions, s) < u64::MAX ==> version_of(
                versions,
                s,
            ) < version_of(after, s)
        } by {
        if s != sheet_id {
            assert(same_rows(a, b, s));
        }
    }
}

/// The hidden rows once the source hides or shows the row.
pub open spec fn with_row(
    h: HiddenRows,
    sheet_id: SheetId,
    row: u32,
    source: RowVisibilitySource,
    hidden: bool,
) -> HiddenRows {
    let k = row_key(sheet_id, row, source);
    if hidden {
        h.insert(k, OverlayValue::Boolean(true))
    } else {
        h.remove(k)
    }
}

/// The hidden rows once the source hides or shows `n` rows from a row on.
pub open spec fn with_rows(
    h: HiddenRows,
    sheet_id: SheetId,
    start: u32,
    source: RowVisibilitySource,
    hidden: bool,
    n: nat,
) -> HiddenRows
    decreases n,
{
    if n == 0 {
        h
    } else {
        with_row(
            with_rows(h, sheet_id, start, source, hidden, (n - 1) as nat),
            sheet_id,
            (start + n - 1) as u32,
            source,
            hidden,
        )
    }
}

/// The hidden rows once `count` rows are inserted before a row: they move with their rows.
pub open spec fn with_new_rows(h: HiddenRows, sheet_id: SheetId, before: u32, count: u32) -> HiddenRows {
    HiddenRows::new(
        |k: u128|
            exists|c: CellRef|
                #[trigger] h.contains_key(spec_cell_key(c)) && k == spec_cell_key(
                    after_insert(c, sheet_id, Axis::Rows, before, count),
                ),
        |k: u128| OverlayValue::Boolean(true),
    )
}

/// The hidden rows once `count` rows from a row on are deleted: they move with their rows, and a
/// deleted row is not hidden any more.
pub open spec fn without_rows(h: HiddenRows, sheet_id: SheetId, start: u32, count: u32) -> HiddenRows {
    HiddenRows::new(
        |k: u128|
            exists|c: CellRef|
                #[trigger] h.contains_key(spec_cell_key(c)) && !is_deleted(
                    c,
                    sheet_id,
                    Axis::Rows,
                    start,
                    count,
                ) && k == spec_cell_key(after_delete(c, sheet_id, Axis::Rows, start, count)),
        |k: u128| OverlayValue::Boolean(true),
    )
}

/// Which hidden rows a reader leaves out.
#[derive(Clone, Copy, Debug, PartialEq, Eq, Structural)]
pub enum VisibilityMaskMode {
    IncludeAll,
    ExcludeManualHidden,
    ExcludeFilterHidden,
    ExcludeManualOrFilterHidden,
}

/// Whether a reader takes the row.
pub open spec fn is_included(h: HiddenRows, sheet_id: SheetId, row: u32, mode: VisibilityMaskMode) -> bool {
    let manual = is_hidden(h, sheet_id, row, RowVisibilitySource::Manual);
    let filter = is_hidden(h, sheet_id, row, RowVisibilitySource::Filter);
    match mode {
        VisibilityMaskMode::IncludeAll => true,
        VisibilityMaskMode::ExcludeManualHidden => !manual,
        VisibilityMaskMode::ExcludeFilterHidden => !filter,
        VisibilityMaskMode::ExcludeManualOrFilterHidden => !(manual || filter),
    }
}

/// The last row of a view that its sheet has.
pub open spec fn last_row(end_row: u32, sheet_rows: u32) -> u32 {
    if end_row < sheet_rows {
        end_row
    } else {
        (sheet_rows - 1) as u32
    }
}

/// The mask of a view: for every row that its sheet has, whether a reader takes it. A view that
/// begins behind the rows of its sheet has an empty mask.
pub open spec fn row_mask(
    h: HiddenRows,
    sheet_id: SheetId,
    sheet_rows: u32,
    start_row: u32,
    end_row: u32,
    mode: VisibilityMaskMode,
) -> Seq<bool> {
    if start_row >= sheet_rows || last_row(end_row, sheet_rows) < start_row {
        Seq::empty()
    } else {
        Seq::new(
            (last_row(end_row, sheet_rows) - start_row + 1) as nat,
            |i: int| is_included(h, sheet_id, (start_row + i) as u32, mode),
        )
    }
}

impl RowVisibility {
    pub closed spec fn view(&self) -> HiddenRows {
        self.hidden@
    }

    pub closed spec fn wf(&self) -> bool {
        &&& self.hidden.wf()
        &&& keyed_by_cells(self.hidden@)
        &&& forall|k: u128| #[trigger]
            self.hidden@.contains_key(k) ==> self.hidden@[k] == OverlayValue::Boolean(true)
    }

    /// The numbers of the hidden rows of the sheets as they are.
    pub closed spec fn versions(&self) -> Map<u16, u64> {
        self.versions@
    }

    fn count_up(&mut self, sheet_id: SheetId)
        requires
            old(self).wf(),
        ensures
            final(self).wf(),
            final(self)@ == old(self)@,
            final(self).versions() == counted_up(old(self).versions(), sheet_id),
    {
        let n = self.version(sheet_id);
        map_insert(&mut self.versions, sheet_id, n.saturating_add(1));
    }

    /// The number of the hidden rows of a sheet as they are.
    pub fn version(&self, sheet_id: SheetId) -> (n: u64)
        ensures
            n == version_of(self.versions(), sheet_id),
    {
        match map_get(&self.versions, &sheet_id) {
            Some(n) => *n,
            None => 0,
        }
    }

    /// Every hidden row has the same mark, under its key.
    pub proof fn rows_are_marked(&self)
        requires
            self.wf(),
        ensures
            is_marked(self@),
            keyed_by_cells(self@),
    {
    }

    pub fn new() -> (r: RowVisibility)
        ensures
            r.wf(),
            r@ == HiddenRows::empty(),
            r.versions() == Map::<u16, u64>::empty(),
    {
        RowVisibility { hidden: Lane::new(), versions: FxHashMap::default() }
    }

    /// Whether the source, or any one, has hidden the row.
    pub fn row_hidden(&self, sheet_id: SheetId, row: u32, source: Option<RowVisibilitySource>) -> (b: bool)
        requires
            self.wf(),
        ensures
            b == (match source {
                Some(s) => is_hidden(self@, sheet_id, row, s),
                None => is_hidden(self@, sheet_id, row, RowVisibilitySource::Manual) || is_hidden(
                    self@,
                    sheet_id,
                    row,
                    RowVisibilitySource::Filter,
                ),
            }),
    {
        match source {
            Some(s) => self.hidden.get(key_of_row(sheet_id, row, s)).is_some(),
            None => self.hidden.get(
                key_of_row(sheet_id, row, RowVisibilitySource::Manual),
            ).is_some() || self.hidden.get(
                key_of_row(sheet_id, row, RowVisibilitySource::Filter),
            ).is_some(),
        }
    }

    /// Whether the row with the one-based number is hidden; there is no row zero, and nothing is
    /// known of an unknown sheet.
    pub fn is_row_hidden(
        &self,
        sheet_id: Option<SheetId>,
        row_1based: u32,
        source: Option<RowVisibilitySource>,
    ) -> (r: Option<bool>)
        requires
            self.wf(),
        ensures
            match (sheet_id, r) {
                (Some(id), Some(b)) => row_1based > 0 && b == ({
                    let row = (row_1based - 1) as u32;
                    match source {
                        Some(s) => is_hidden(self@, id, row, s),
                        None => is_hidden(self@, id, row, RowVisibilitySource::Manual)
                            || is_hidden(self@, id, row, RowVisibilitySource::Filter),
                    }
                }),
                (Some(_), None) => row_1based == 0,
                (None, Some(_)) => false,
                (None, None) => true,
            },
    {
        match sheet_id {
            Some(id) => {
                if row_1based == 0 {
                    return None;
                }
                Some(self.row_hidden(id, row_1based - 1, source))
            },
            None => None,
        }
    }

    /// Hides or shows a row. The answer tells whether that changed anything.
    pub fn set_row_hidden_by_sheet_id(
        &mut self,
        sheet_id: SheetId,
        row: u32,
        hidden: bool,
        source: RowVisibilitySource,
    ) -> (changed: bool)
        requires
            old(self).wf(),
        ensures
            final(self).wf(),
            final(self)@ == with_row(old(self)@, sheet_id, row, source, hidden),
            changed == (is_hidden(old(self)@, sheet_id, row, source) != hidden),
            final(self).versions() == (if changed {
                counted_up(old(self).versions(), sheet_id)
            } else {
                old(self).versions()
            }),
            is_counted(old(self)@, old(self).versions(), final(self)@, final(self).versions()),
    {
        let k = key_of_row(sheet_id, row, source);
        let cell = CellRef {
            sheet_id,
            row,
            col: match source {
                RowVisibilitySource::Manual => 0,
                RowVisibilitySource::Filter => 1,
            },
        };
        proof {
            keys_name_their_cells(cell);
        }
        let changed = if hidden {
            self.hidden.set(k, OverlayValue::Boolean(true)).is_none()
        } else {
            self.hidden.remove(k).is_some()
        };
        if changed {
            self.count_up(sheet_id);
        }
        proof {
            let (a, b) = (old(self)@, self@);
            assert forall|s: SheetId, r: u32, x: RowVisibilitySource|
                (s, r, x) != (sheet_id, row, source) implies is_hidden(a, s, r, x)
                == #[trigger] is_hidden(b, s, r, x) by {
                row_keys_are_distinct((sheet_id, row, source), (s, r, x));
            }
            assert forall|other: SheetId| other != sheet_id implies #[trigger] same_rows(
                a,
                b,
                other,
            ) by {}
            if changed {
                lemma_counted_up(a, old(self).versions(), b, sheet_id);
            } else {
                assert(b =~= a);
            }
        }
        changed
    }

    /// Hides or shows the rows from one to another. The answer tells whether that changed anything.
    pub fn set_rows_hidden_by_sheet_id(
        &mut self,
        sheet_id: SheetId,
        start: u32,
        end: u32,
        hidden: bool,
        source: RowVisibilitySource,
    ) -> (changed: bool)
        requires
            old(self).wf(),
            start <= end,
        ensures
            final(self).wf(),
            final(self)@ == with_rows(
                old(self)@,
                sheet_id,
                start,
                source,
                hidden,
                (end - start + 1) as nat,
            ),
            changed == exists|row: u32|
                start <= row <= end && #[trigger] is_hidden(old(self)@, sheet_id, row, source)
                    != hidden,
            final(self).versions() == versions_with_rows(
                old(self)@,
                old(self).versions(),
                sheet_id,
                start,
                source,
                hidden,
                (end - start + 1) as nat,
            ),
            is_counted(old(self)@, old(self).versions(), final(self)@, final(self).versions()),
    {
        let ghost before = self@;
        let mut changed = false;
        let n: u64 = (end - start) as u64 + 1;
        let mut i: u64 = 0;
        while i < n
            invariant
                self.wf(),
                n == end - start + 1,
                i <= n,
                self@ == with_rows(before, sheet_id, start, source, hidden, i as nat),
                changed == exists|row: u32|
                    start <= row < start + i && #[trigger] is_hidden(before, sheet_id, row, source)
                        != hidden,
                self.versions() == versions_with_rows(
                    before,
                    old(self).versions(),
                    sheet_id,
                    start,
                    source,
                    hidden,
                    i as nat,
                ),
                before == old(self)@,
                is_counted(before, old(self).versions(), self@, self.versions()),
            decreases n - i,
        {
            let ghost prior = *self;
            let row = (start as u64 + i) as u32;
            proof {
                lemma_later_row(before, sheet_id, start, source, hidden, i as nat, row);
            }
            let c = self.set_row_hidden_by_sheet_id(sheet_id, row, hidden, source);
            assert(c == (is_hidden(before, sheet_id, row, source) != hidden));
            proof {
                lemma_counted(
                    before,
                    old(self).versions(),
                    prior@,
                    prior.versions(),
                    self@,
                    self.versions(),
                );
            }
            changed = changed || c;
            i = i + 1;
        }
        changed
    }

    /// Shows all rows of a sheet that is dropped.
    pub fn remove_sheet(&mut self, sheet_id: SheetId)
        requires
            old(self).wf(),
        ensures
            final(self).wf(),
            final(self)@ == outside(
                old(self)@,
                Region { sheet_id, rows: AxisRange::All, cols: AxisRange::All },
            ),
            final(self).versions() == counted_up(old(self).versions(), sheet_id),
            is_counted(old(self)@, old(self).versions(), final(self)@, final(self).versions()),
    {
        let region = Region { sheet_id, rows: AxisRange::All, cols: AxisRange::All };
        self.hidden.remove_region(&region);
        self.count_up(sheet_id);
        proof {
            let (a, b) = (old(self)@, self@);
            assert forall|other: SheetId| other != sheet_id implies #[trigger] same_rows(
                a,
                b,
                other,
            ) by {
                assert forall|row: u32, source: RowVisibilitySource|
                    is_hidden(a, other, row, source) == #[trigger] is_hidden(
                        b,
                        other,
                        row,
                        source,
                    ) by {
                    keys_name_their_cells(row_cell(other, row, source));
                }
            }
            lemma_counted_up(a, old(self).versions(), b, sheet_id);
        }
    }

    /// Whether no hidden row would be moved beyond the last row.
    pub fn has_room(&self, sheet_id: SheetId, before: u32, count: u32) -> (b: bool)
        requires
            self.wf(),
        ensures
            b == has_room(self@, sheet_id, Axis::Rows, before, count),
    {
        lane_has_room(&self.hidden, sheet_id, Axis::Rows, before, count)
    }

    /// The hidden rows move with rows that are inserted.
    pub fn shift_row_visibility_insert(&mut self, sheet_id: SheetId, before: u32, count: u32)
        requires
            old(self).wf(),
            has_room(old(self)@, sheet_id, Axis::Rows, before, count),
        ensures
            final(self).wf(),
            is_inserted(old(self)@, final(self)@, sheet_id, Axis::Rows, before, count),
            final(self)@ == with_new_rows(old(self)@, sheet_id, before, count),
            final(self).versions() == counted_up(old(self).versions(), sheet_id),
            is_counted(old(self)@, old(self).versions(), final(self)@, final(self).versions()),
    {
        let ghost from = self@;
        self.hidden.insert_lines(sheet_id, Axis::Rows, before, count);
        proof {
            reveal(is_inserted);
            let to = self.hidden@;
            assert forall|k: u128| #[trigger] to.contains_key(k) implies to[k]
                == OverlayValue::Boolean(true) by {
                let c = choose|c: CellRef|
                    #[trigger] from.contains_key(spec_cell_key(c)) && k == spec_cell_key(
                        after_insert(c, sheet_id, Axis::Rows, before, count),
                    );
                assert(from[spec_cell_key(c)] == OverlayValue::Boolean(true));
            }
            assert(to =~= with_new_rows(from, sheet_id, before, count));
            assert forall|other: SheetId| other != sheet_id implies #[trigger] same_rows(
                from,
                to,
                other,
            ) by {
                assert forall|row: u32, source: RowVisibilitySource|
                    is_hidden(from, other, row, source) == #[trigger] is_hidden(
                        to,
                        other,
                        row,
                        source,
                    ) by {
                    let cell = row_cell(other, row, source);
                    if from.contains_key(spec_cell_key(cell)) {
                        assert(after_insert(cell, sheet_id, Axis::Rows, before, count) == cell);
                    }
                    if to.contains_key(spec_cell_key(cell)) {
                        let c = choose|c: CellRef|
                            #[trigger] from.contains_key(spec_cell_key(c)) && spec_cell_key(cell)
                                == spec_cell_key(
                                after_insert(c, sheet_id, Axis::Rows, before, count),
                            );
                        keys_name_their_cells(cell);
                        keys_name_their_cells(after_insert(c, sheet_id, Axis::Rows, before, count));
                    }
                }
            }
            lemma_counted_up(from, old(self).versions(), to, sheet_id);
        }
        self.count_up(sheet_id);
    }

    /// The hidden rows move with rows that are deleted; a deleted row is not hidden any more.
    pub fn shift_row_visibility_delete(&mut self, sheet_id: SheetId, start: u32, count: u32)
        requires
            old(self).wf(),
        ensures
            final(self).wf(),
            is_deleted_from(old(self)@, final(self)@, sheet_id, Axis::Rows, start, count),
            final(self)@ == without_rows(old(self)@, sheet_id, start, count),
            final(self).versions() == counted_up(old(self).versions(), sheet_id),
            is_counted(old(self)@, old(self).versions(), final(self)@, final(self).versions()),
    {
        let ghost from = self@;
        self.hidden.delete_lines(sheet_id, Axis::Rows, start, count);
        proof {
            reveal(is_deleted_from);
            let to = self.hidden@;
            assert forall|k: u128| #[trigger] to.contains_key(k) implies to[k]
                == OverlayValue::Boolean(true) by {
                let c = choose|c: CellRef|
                    #[trigger] from.contains_key(spec_cell_key(c)) && !is_deleted(
                        c,
                        sheet_id,
                        Axis::Rows,
                        start,
                        count,
                    ) && k == spec_cell_key(
                        after_delete(c, sheet_id, Axis::Rows, start, count),
                    );
                assert(from[spec_cell_key(c)] == OverlayValue::Boolean(true));
            }
            assert(to =~= without_rows(from, sheet_id, start, count));
            assert forall|other: SheetId| other != sheet_id implies #[trigger] same_rows(
                from,
                to,
                other,
            ) by {
                assert forall|row: u32, source: RowVisibilitySource|
                    is_hidden(from, other, row, source) == #[trigger] is_hidden(
                        to,
                        other,
                        row,
                        source,
                    ) by {
                    let cell = row_cell(other, row, source);
                    if from.contains_key(spec_cell_key(cell)) {
                        assert(after_delete(cell, sheet_id, Axis::Rows, start, count) == cell);
                    }
                    if to.contains_key(spec_cell_key(cell)) {
                        let c = choose|c: CellRef|
                            #[trigger] from.contains_key(spec_cell_key(c)) && spec_cell_key(cell)
                                == spec_cell_key(
                                after_delete(c, sheet_id, Axis::Rows, start, count),
                            );
                        keys_name_their_cells(cell);
                        keys_name_their_cells(after_delete(c, sheet_id, Axis::Rows, start, count));
                    }
                }
            }
            lemma_counted_up(from, old(self).versions(), to, sheet_id);
        }
        self.count_up(sheet_id);
    }

    /// Which rows of a view a reader takes.
    pub fn build_row_visibility_mask_for_view(
        &self,
        sheet_id: SheetId,
        sheet_rows: u32,
        start_row: u32,
        end_row: u32,
        mode: VisibilityMaskMode,
    ) -> (mask: Vec<bool>)
        requires
            self.wf(),
        ensures
            mask@ == row_mask(self@, sheet_id, sheet_rows, start_row, end_row, mode),
    {
        let ghost goal = row_mask(self@, sheet_id, sheet_rows, start_row, end_row, mode);
        let mut mask: Vec<bool> = Vec::new();
        if start_row >= sheet_rows {
            assert(mask@ =~= goal);
            return mask;
        }
        let last = if end_row < sheet_rows {
            end_row
        } else {
            sheet_rows - 1
        };
        if last < start_row {
            assert(mask@ =~= goal);
            return mask;
        }
        let n: u64 = (last - start_row) as u64 + 1;
        let mut i: u64 = 0;
        while i < n
            invariant
                self.wf(),
                n == last - start_row + 1,
                last == last_row(end_row, sheet_rows),
                start_row <= last,
                start_row < sheet_rows,
                i <= n,
                mask@.len() == i,
                forall|k: int|
                    0 <= k < i ==> #[trigger] mask@[k] == is_included(
                        self@,
                        sheet_id,
                        (start_row + k) as u32,
                        mode,
                    ),
            decreases n - i,
        {
            let row = (start_row as u64 + i) as u32;
            let manual = self.row_hidden(sheet_id, row, Some(RowVisibilitySource::Manual));
            let filter = self.row_hidden(sheet_id, row, Some(RowVisibilitySource::Filter));
            let taken = match mode {
                VisibilityMaskMode::IncludeAll => true,
                VisibilityMaskMode::ExcludeManualHidden => !manual,
                VisibilityMaskMode::ExcludeFilterHidden => !filter,
                VisibilityMaskMode::ExcludeManualOrFilterHidden => !(manual || filter),
            };
            mask.push(taken);
            i = i + 1;
        }
        assert(mask@ =~= goal);
        mask
    }
}

proof fn lemma_later_row(
    h: HiddenRows,
    sheet_id: SheetId,
    start: u32,
    source: RowVisibilitySource,
    hidden: bool,
    n: nat,
    row: u32,
)
    requires
        start + n <= row,
    ensures
        is_hidden(with_rows(h, sheet_id, start, source, hidden, n), sheet_id, row, source)
            == is_hidden(h, sheet_id, row, source),
    decreases n,
{
    if n > 0 {
        lemma_later_row(h, sheet_id, start, source, hidden, (n - 1) as nat, row);
        row_keys_are_distinct(
            (sheet_id, (start + n - 1) as u32, source),
            (sheet_id, row, source),
        );
    }
}

/// What changes with the visibility of rows that formula spans have to hear of: nothing where
/// nothing changed, the row where it is one, and else the sheet.
pub fn visibility_change(changed: bool, sheet_id: SheetId, start: u32, end: u32) -> (r: Option<
    StructuralScope,
>)
    ensures
        r == (if !changed {
            None
        } else if start == end {
            Some(
                StructuralScope::Region(
                    Region { sheet_id, rows: AxisRange::Point(start), cols: AxisRange::All },
                ),
            )
        } else {
            Some(StructuralScope::Sheet(sheet_id))
        }),
{
    if !changed {
        None
    } else if start == end {
        Some(StructuralScope::Region(Region::whole_row(sheet_id, start)))
    } else {
        Some(StructuralScope::Sheet(sheet_id))
    }
}

/// An entry of the change log about the visibility of a row.
#[derive(Clone, Copy, Debug, PartialEq, Eq, Structural)]
pub struct SetRowVisibility {
    pub sheet_id: SheetId,
    pub row: u32,
    pub source: RowVisibilitySource,
    pub old_hidden: bool,
    pub new_hidden: bool,
}

/// The hidden rows once the first `n` events are done.
pub open spec fn replayed(h: HiddenRows, events: Seq<SetRowVisibility>, n: nat) -> HiddenRows
    decreases n,
{
    if n == 0 {
        h
    } else {
        let e = events[n - 1];
        with_row(
            replayed(h, events, (n - 1) as nat),
            e.sheet_id,
            e.row,
            e.source,
            e.new_hidden,
        )
    }
}

/// The hidden rows once the events from the last one down to number `n` are undone.
pub open spec fn reverted(h: HiddenRows, events: Seq<SetRowVisibility>, n: nat) -> HiddenRows
    decreases events.len() - n,
{
    if n >= events.len() {
        h
    } else {
        let e = events[n as int];
        with_row(reverted(h, events, n + 1), e.sheet_id, e.row, e.source, e.old_hidden)
    }
}

impl RowVisibility {
    /// Does events over again, from the first to the last.
    pub fn apply_forward_row_visibility_events(&mut self, events: &Vec<SetRowVisibility>)
        requires
            old(self).wf(),
        ensures
            final(self).wf(),
            final(self)@ == replayed(old(self)@, events@, events@.len()),
            is_counted(old(self)@, old(self).versions(), final(self)@, final(self).versions()),
    {
        let ghost before = self@;
        let mut i: usize = 0;
        while i < events.len()
            invariant
                self.wf(),
                i <= events@.len(),
                self@ == replayed(before, events@, i as nat),
                before == old(self)@,
                is_counted(before, old(self).versions(), self@, self.versions()),
            decreases events@.len() - i,
        {
            let e = events[i];
            let ghost prior = *self;
            self.set_row_hidden_by_sheet_id(e.sheet_id, e.row, e.new_hidden, e.source);
            proof {
                lemma_counted(
                    before,
                    old(self).versions(),
                    prior@,
                    prior.versions(),
                    self@,
                    self.versions(),
                );
            }
            i = i + 1;
        }
    }

    /// Undoes events, from the last to the first.
    pub fn apply_inverse_row_visibility_events(&mut self, events: &Vec<SetRowVisibility>)
        requires
            old(self).wf(),
        ensures
            final(self).wf(),
            final(self)@ == reverted(old(self)@, events@, 0),
            is_counted(old(self)@, old(self).versions(), final(self)@, final(self).versions()),
    {
        let ghost before = self@;
        let mut i: usize = events.len();
        while i > 0
            invariant
                self.wf(),
                i <= events@.len(),
                self@ == reverted(before, events@, i as nat),
                before == old(self)@,
                is_counted(before, old(self).versions(), self@, self.versions()),
            decreases i,
        {
            i = i - 1;
            let e = events[i];
            let ghost prior = *self;
            self.set_row_hidden_by_sheet_id(e.sheet_id, e.row, e.old_hidden, e.source);
            proof {
                lemma_counted(
                    before,
                    old(self).versions(),
                    prior@,
                    prior.versions(),
                    self@,
                    self.versions(),
                );
            }
        }
    }
}

/// Whether the events were taken down as they happened, from the given hidden rows on: each knows
/// how its row was before it.
pub open spec fn is_faithful(h: HiddenRows, events: Seq<SetRowVisibility>) -> bool {
    forall|i: int|
        0 <= i < events.len() ==> (#[trigger] events[i]).old_hidden == is_hidden(
            replayed(h, events, i as nat),
            events[i].sheet_id,
            events[i].row,
            events[i].source,
        )
}

/// Whether every mark is the same.
pub open spec fn is_marked(h: HiddenRows) -> bool {
    forall|k: u128| #[trigger] h.contains_key(k) ==> h[k] == OverlayValue::Boolean(true)
}

/// Undoing events that were taken down as they happened brings back the rows that were hidden
/// before them.
pub proof fn undoing_brings_back_hidden_rows(h: HiddenRows, events: Seq<SetRowVisibility>)
    requires
        is_marked(h),
        is_faithful(h, events),
    ensures
        reverted(replayed(h, events, events.len()), events, 0) == h,
{
    lemma_reverted(h, events, 0);
}

proof fn lemma_reverted(h: HiddenRows, events: Seq<SetRowVisibility>, n: nat)
    requires
        is_marked(h),
        is_faithful(h, events),
        n <= events.len(),
    ensures
        reverted(replayed(h, events, events.len()), events, n) == replayed(h, events, n),
    decreases events.len() - n,
{
    if n < events.len() {
        lemma_reverted(h, events, n + 1);
        let e = events[n as int];
        let before = replayed(h, events, n);
        let k = row_key(e.sheet_id, e.row, e.source);
        lemma_marked(h, events, n);
        assert(e.old_hidden == is_hidden(before, e.sheet_id, e.row, e.source));
        assert(with_row(
            with_row(before, e.sheet_id, e.row, e.source, e.new_hidden),
            e.sheet_id,
            e.row,
            e.source,
            e.old_hidden,
        ) =~= before);
    }
}

proof fn lemma_marked(h: HiddenRows, events: Seq<SetRowVisibility>, n: nat)
    requires
        is_marked(h),
        n <= events.len(),
    ensures
        is_marked(replayed(h, events, n)),
    decreases n,
{
    if n > 0 {
        lemma_marked(h, events, (n - 1) as nat);
    }
}

/// Deleting rows that were inserted brings the hidden rows back.
pub proof fn deleting_new_rows_brings_back_hidden_rows(
    h: HiddenRows,
    sheet_id: SheetId,
    before: u32,
    count: u32,
)
    requires
        is_marked(h),
        keyed_by_cells(h),
        has_room(h, sheet_id, Axis::Rows, before, count),
    ensures
        without_rows(with_new_rows(h, sheet_id, before, count), sheet_id, before, count) == h,
        is_marked(with_new_rows(h, sheet_id, before, count)),
        keyed_by_cells(with_new_rows(h, sheet_id, before, count)),
{
    let mid = with_new_rows(h, sheet_id, before, count);
    let back = without_rows(mid, sheet_id, before, count);
    assert forall|k: u128| #[trigger] h.contains_key(k) <==> back.contains_key(k) by {
        if h.contains_key(k) {
            let c = spec_key_cell(k);
            cells_name_their_keys(k);
            let to = after_insert(c, sheet_id, Axis::Rows, before, count);
            assert(h.contains_key(spec_cell_key(c)));
            assert(mid.contains_key(spec_cell_key(to)));
            assert(after_delete(to, sheet_id, Axis::Rows, before, count) == c);
        }
        if back.contains_key(k) {
            let d = choose|d: CellRef|
                #[trigger] mid.contains_key(spec_cell_key(d)) && !is_deleted(
                    d,
                    sheet_id,
                    Axis::Rows,
                    before,
                    count,
                ) && k == spec_cell_key(after_delete(d, sheet_id, Axis::Rows, before, count));
            let c = choose|c: CellRef|
                #[trigger] h.contains_key(spec_cell_key(c)) && spec_cell_key(d) == spec_cell_key(
                    after_insert(c, sheet_id, Axis::Rows, before, count),
                );
            keys_name_their_cells(d);
            keys_name_their_cells(after_insert(c, sheet_id, Axis::Rows, before, count));
        }
    }
    assert(back =~= h);
    assert forall|k: u128| #[trigger] mid.contains_key(k) implies is_cell_key(k) by {
        let c = choose|c: CellRef|
            #[trigger] h.contains_key(spec_cell_key(c)) && k == spec_cell_key(
                after_insert(c, sheet_id, Axis::Rows, before, count),
            );
        keys_name_their_cells(after_insert(c, sheet_id, Axis::Rows, before, count));
    }
}

/// A row that is hidden reads as hidden, one that is shown reads as shown, and no other row of any
/// sheet and source reads differently.
pub proof fn hidden_rows_are_read_back(
    h: HiddenRows,
    sheet_id: SheetId,
    row: u32,
    source: RowVisibilitySource,
    hidden: bool,
    other: (SheetId, u32, RowVisibilitySource),
)
    ensures
        is_hidden(with_row(h, sheet_id, row, source, hidden), sheet_id, row, source) == hidden,
        other != (sheet_id, row, source) ==> is_hidden(
            with_row(h, sheet_id, row, source, hidden),
            other.0,
            other.1,
            other.2,
        ) == is_hidden(h, other.0, other.1, other.2),
{
    row_keys_are_distinct((sheet_id, row, source), other);
}

/// Rows that are hidden or shown read so for the source, and no other row, sheet or source reads
/// differently.
pub proof fn hidden_ranges_are_read_back(
    h: HiddenRows,
    sheet_id: SheetId,
    start: u32,
    source: RowVisibilitySource,
    hidden: bool,
    n: nat,
    other: (SheetId, u32, RowVisibilitySource),
)
    requires
        start + n <= u32::MAX + 1,
    ensures
        is_hidden(with_rows(h, sheet_id, start, source, hidden, n), other.0, other.1, other.2) == (
        if other.0 == sheet_id && other.2 == source && start <= other.1 < start + n {
            hidden
        } else {
            is_hidden(h, other.0, other.1, other.2)
        }),
    decreases n,
{
    if n > 0 {
        hidden_ranges_are_read_back(h, sheet_id, start, source, hidden, (n - 1) as nat, other);
        row_keys_are_distinct((sheet_id, (start + n - 1) as u32, source), other);
    }
}

/// Hidden rows move with their rows when rows are inserted: a row at or behind the place is hidden
/// where it moves to, one in front stays as it was, and a new row is not hidden.
pub proof fn hidden_rows_are_pushed_on(
    h: HiddenRows,
    sheet_id: SheetId,
    before: u32,
    count: u32,
    row: u32,
    source: RowVisibilitySource,
)
    requires
        keyed_by_cells(h),
        has_room(h, sheet_id, Axis::Rows, before, count),
    ensures
        row < before ==> is_hidden(with_new_rows(h, sheet_id, before, count), sheet_id, row, source)
            == is_hidden(h, sheet_id, row, source),
        before <= row < before + count ==> !is_hidden(
            with_new_rows(h, sheet_id, before, count),
            sheet_id,
            row,
            source,
        ),
        row >= before && row + count <= u32::MAX ==> is_hidden(
            with_new_rows(h, sheet_id, before, count),
            sheet_id,
            (row + count) as u32,
            source,
        ) == is_hidden(h, sheet_id, row, source),
{
    let to = with_new_rows(h, sheet_id, before, count);
    let here = row_cell(sheet_id, row, source);
    keys_name_their_cells(here);
    if to.contains_key(spec_cell_key(here)) {
        let c = choose|c: CellRef|
            #[trigger] h.contains_key(spec_cell_key(c)) && spec_cell_key(here) == spec_cell_key(
                after_insert(c, sheet_id, Axis::Rows, before, count),
            );
        keys_name_their_cells(c);
        keys_name_their_cells(after_insert(c, sheet_id, Axis::Rows, before, count));
    }
    if h.contains_key(spec_cell_key(here)) {
        assert(to.contains_key(
            spec_cell_key(after_insert(here, sheet_id, Axis::Rows, before, count)),
        ));
    }
    if row >= before && row + count <= u32::MAX {
        let there = row_cell(sheet_id, (row + count) as u32, source);
        keys_name_their_cells(there);
        assert(there == after_insert(here, sheet_id, Axis::Rows, before, count));
        if to.contains_key(spec_cell_key(there)) {
            let c = choose|c: CellRef|
                #[trigger] h.contains_key(spec_cell_key(c)) && spec_cell_key(there) == spec_cell_key(
                    after_insert(c, sheet_id, Axis::Rows, before, count),
                );
            keys_name_their_cells(c);
            keys_name_their_cells(after_insert(c, sheet_id, Axis::Rows, before, count));
            assert(c == here);
        }
    }
}

/// A reader leaves out the rows that the sources have hidden that it asks about, and no others. The
/// mask has an entry for every row of the view that the sheet has.
pub proof fn masks_leave_out_hidden_rows(
    h: HiddenRows,
    sheet_id: SheetId,
    sheet_rows: u32,
    start_row: u32,
    end_row: u32,
    mode: VisibilityMaskMode,
    row: u32,
)
    requires
        start_row <= row <= end_row,
        row < sheet_rows,
    ensures
        ({
            let mask = row_mask(h, sheet_id, sheet_rows, start_row, end_row, mode);
            let manual = mode == VisibilityMaskMode::ExcludeManualHidden || mode
                == VisibilityMaskMode::ExcludeManualOrFilterHidden;
            let filter = mode == VisibilityMaskMode::ExcludeFilterHidden || mode
                == VisibilityMaskMode::ExcludeManualOrFilterHidden;
            &&& row - start_row < mask.len()
            &&& start_row + mask.len() <= sheet_rows
            &&& start_row + mask.len() <= end_row + 1
            &&& mask[row - start_row] == !((manual && is_hidden(
                h,
                sheet_id,
                row,
                RowVisibilitySource::Manual,
            )) || (filter && is_hidden(h, sheet_id, row, RowVisibilitySource::Filter)))
        }),
{
}

/// The number of a sheet's hidden rows goes up by at most one for every row that a source hides or shows:
/// by one for each where all of them change, and by none where none does. Other sheets keep theirs.
pub proof fn numbers_go_up_where_rows_change(
    h: HiddenRows,
    versions: Map<u16, u64>,
    sheet_id: SheetId,
    start: u32,
    source: RowVisibilitySource,
    hidden: bool,
    n: nat,
    other: SheetId,
)
    requires
        start + n <= u32::MAX + 1,
        version_of(versions, sheet_id) + n <= u64::MAX,
    ensures
        ({
            let after = versions_with_rows(h, versions, sheet_id, start, source, hidden, n);
            &&& version_of(versions, sheet_id) <= version_of(after, sheet_id) <= version_of(
                versions,
                sheet_id,
            ) + n
            &&& other != sheet_id ==> version_of(after, other) == version_of(versions, other)
            &&& (forall|row: u32|
                start <= row < start + n ==> #[trigger] is_hidden(h, sheet_id, row, source) == hidden)
                ==> version_of(after, sheet_id) == version_of(versions, sheet_id)
            &&& (forall|row: u32|
                start <= row < start + n ==> #[trigger] is_hidden(h, sheet_id, row, source) != hidden)
                ==> version_of(after, sheet_id) == version_of(versions, sheet_id) + n
        }),
    decreases n,
{
    if n > 0 {
        numbers_go_up_where_rows_change(
            h,
            versions,
            sheet_id,
            start,
            source,
            hidden,
            (n - 1) as nat,
            other,
        );
        let last = (start + n - 1) as u32;
        assert(is_hidden(h, sheet_id, last, source) == hidden || is_hidden(h, sheet_id, last, source)
            != hidden);
        hidden_ranges_are_read_back(
            h,
            sheet_id,
            start,
            source,
            hidden,
            (n - 1) as nat,
            (sheet_id, last, source),
        );
    }
}

/// Hidden rows move with their rows when rows are deleted: a row behind is hidden where it moves to, one
/// in front stays as it was.
pub proof fn hidden_rows_are_pulled_back(
    h: HiddenRows,
    sheet_id: SheetId,
    start: u32,
    count: u32,
    row: u32,
    source: RowVisibilitySource,
)
    ensures
        row < start ==> is_hidden(without_rows(h, sheet_id, start, count), sheet_id, row, source) == is_hidden(
            h,
            sheet_id,
            row,
            source,
        ),
        row >= start && row + count <= u32::MAX ==> is_hidden(
            without_rows(h, sheet_id, start, count),
            sheet_id,
            row,
            source,
        ) == is_hidden(h, sheet_id, (row + count) as u32, source),
{
    let to = without_rows(h, sheet_id, start, count);
    let here = row_cell(sheet_id, row, source);
    keys_name_their_cells(here);
    if to.contains_key(spec_cell_key(here)) {
        let c = choose|c: CellRef|
            #[trigger] h.contains_key(spec_cell_key(c)) && !is_deleted(
                c,
                sheet_id,
                Axis::Rows,
                start,
                count,
            ) && spec_cell_key(here) == spec_cell_key(
                after_delete(c, sheet_id, Axis::Rows, start, count),
            );
        keys_name_their_cells(c);
        keys_name_their_cells(after_delete(c, sheet_id, Axis::Rows, start, count));
    }
    if row < start && h.contains_key(spec_cell_key(here)) {
        assert(after_delete(here, sheet_id, Axis::Rows, start, count) == here);
        assert(to.contains_key(spec_cell_key(here)));
    }
    if row >= start && row + count <= u32::MAX {
        let there = row_cell(sheet_id, (row + count) as u32, source);
        keys_name_their_cells(there);
        if h.contains_key(spec_cell_key(there)) {
            assert(after_delete(there, sheet_id, Axis::Rows, start, count) == here);
            assert(to.contains_key(spec_cell_key(here)));
        }
    }
}

} // verus!
