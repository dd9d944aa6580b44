//! Formulas on their way into the workbook: which of them become part of a span, and which are
//! built one by one.
use crate::coord::{CellRef, SheetId, cell_key, spec_cell_key};
use crate::fx::{map_insert, map_remove};
use crate::sort::{are_groups, group_by_key, groups_view};
use crate::text::{col_to_letters, column_letters, decimal, formula_text, push_decimal, with_equals};
use crate::text_index::TextIndex;
use crate::value::{ErrorKind, ExcelError, LiteralValue, error_with};
use rustc_hash::FxHashMap;
use vstd::prelude::*;

verus! {

/// How formulas that are alike are gathered into spans.
#[derive(Clone, Copy, Debug, PartialEq, Eq, Structural)]
pub enum FormulaPlaneMode {
    /// Not at all.
    Off,
    /// On trial: counted, and built one by one all the same.
    Shadow,
    /// For good: what becomes part of a span is not built.
    AuthoritativeExperimental,
}

/// A formula that is to be built: its one-based row and column, its parsed form, and its text.
#[derive(Debug)]
pub struct FormulaIngestRecord {
    pub row: u32,
    pub col: u32,
    pub ast_id: u32,
    pub formula_text: Option<String>,
}

/// The formulas of one sheet.
#[derive(Debug)]
pub struct FormulaIngestBatch {
    pub sheet_name: String,
    pub formulas: Vec<FormulaIngestRecord>,
}

/// How often each reason kept formulas out of spans.
#[derive(Debug)]
pub struct ReasonCounts {
    entries: Vec<(String, u64)>,
}

/// The counts of a reason in the first `n` entries.
pub open spec fn reason_total(entries: Seq<(String, u64)>, reason: Seq<char>, n: nat) -> nat
    decreases n,
{
    if n == 0 {
        0
    } else {
        reason_total(entries, reason, (n - 1) as nat) + (if entries[n - 1].0@ == reason {
            entries[n - 1].1 as nat
        } else {
            0nat
        })
    }
}

proof fn lemma_reason_same(a: Seq<(String, u64)>, b: Seq<(String, u64)>, reason: Seq<char>, n: nat)
    requires
        n <= a.len(),
        n <= b.len(),
        forall|i: int| 0 <= i < n ==> #[trigger] a[i] == b[i],
    ensures
        reason_total(a, reason, n) == reason_total(b, reason, n),
    decreases n,
{
    if n > 0 {
        assert(a[n - 1] == b[n - 1]);
        lemma_reason_same(a, b, reason, (n - 1) as nat);
    }
}

proof fn lemma_reason_update(
    entries: Seq<(String, u64)>,
    i: int,
    e: (String, u64),
    reason: Seq<char>,
    n: nat,
)
    requires
        0 <= i < n <= entries.len(),
        e.0@ == entries[i].0@,
    ensures
        reason_total(entries.update(i, e), reason, n) == reason_total(entries, reason, n) + (
        if e.0@ == reason {
            e.1 - entries[i].1
        } else {
            0
        }),
    decreases n,
{
    let after = entries.update(i, e);
    if i == n - 1 {
        lemma_reason_same(after, entries, reason, (n - 1) as nat);
    } else {
        lemma_reason_update(entries, i, e, reason, (n - 1) as nat);
        assert(after[n - 1] == entries[n - 1]);
    }
}

proof fn lemma_reason_entry(entries: Seq<(String, u64)>, i: int, n: nat)
    requires
        0 <= i < n <= entries.len(),
    ensures
        reason_total(entries, entries[i].0@, n) >= entries[i].1,
    decreases n,
{
    if i < n - 1 {
        lemma_reason_entry(entries, i, (n - 1) as nat);
    }
}

impl ReasonCounts {
    /// How often the reason was counted.
    pub closed spec fn total(&self, reason: Seq<char>) -> nat {
        reason_total(self.entries@, reason, self.entries@.len())
    }

    pub fn new() -> (c: ReasonCounts)
        ensures
            forall|reason: Seq<char>| #[trigger] c.total(reason) == 0,
    {
        ReasonCounts { entries: Vec::new() }
    }

    /// Counts a reason.
    pub fn record_shadow_fallback_reason(&mut self, reason: &str, count: u64)
        requires
            old(self).total(reason@) + count <= u64::MAX,
        ensures
            forall|r: Seq<char>| #[trigger]
                final(self).total(r) == old(self).total(r) + (if r == reason@ {
                    count as nat
                } else {
                    0nat
                }),
    {
        let ghost before = self.entries@;
        let key = reason.to_string();
        let mut i: usize = 0;
        while i < self.entries.len()
            invariant
                self.entries@ == before,
                key@ == reason@,
                i <= before.len(),
                old(self).total(reason@) + count <= u64::MAX,
                old(self).entries@ == before,
            decreases before.len() - i,
        {
            if self.entries[i].0 == key {
                proof {
                    lemma_reason_entry(before, i as int, before.len());
                }
                let sum = self.entries[i].1 + count;
                self.entries.set(i, (key, sum));
                proof {
                    assert forall|r: Seq<char>| #[trigger] self.total(r) == old(self).total(r) + (
                    if r == reason@ {
                        count as nat
                    } else {
                        0nat
                    }) by {
                        lemma_reason_update(before, i as int, (key, sum), r, before.len());
                    }
                }
                return;
            }
            i = i + 1;
        }
        self.entries.push((key, count));
        proof {
            assert forall|r: Seq<char>| #[trigger] self.total(r) == old(self).total(r) + (if r
                == reason@ {
                count as nat
            } else {
                0nat
            }) by {
                lemma_reason_same(self.entries@, before, r, before.len());
            }
        }
    }

    /// How often the reason was counted.
    pub fn count(&self, reason: &str) -> (n: u64)
        requires
            self.total(reason@) <= u64::MAX,
        ensures
            n == self.total(reason@),
    {
        let key = reason.to_string();
        let mut n: u64 = 0;
        let mut i: usize = 0;
        while i < self.entries.len()
            invariant
                key@ == reason@,
                i <= self.entries@.len(),
                self.total(reason@) <= u64::MAX,
                n == reason_total(self.entries@, reason@, i as nat),
            decreases self.entries@.len() - i,
        {
            if self.entries[i].0 == key {
                proof {
                    lemma_reason_grows(self.entries@, reason@, i as nat + 1, self.entries@.len());
                }
                n = n + self.entries[i].1;
            }
            i = i + 1;
        }
        n
    }
}

proof fn lemma_reason_grows(entries: Seq<(String, u64)>, reason: Seq<char>, m: nat, n: nat)
    requires
        m <= n <= entries.len(),
    ensures
        reason_total(entries, reason, m) <= reason_total(entries, reason, n),
    decreases n,
{
    if m < n {
        lemma_reason_grows(entries, reason, m, (n - 1) as nat);
    }
}

/// The counters of an ingest.
#[derive(Clone, Copy, Debug, PartialEq, Eq, Structural)]
pub struct FormulaIngestReport {
    pub mode: FormulaPlaneMode,
    pub formula_cells_seen: u64,
    pub shadow_candidate_cells: u64,
    pub shadow_accepted_span_cells: u64,
    pub shadow_fallback_cells: u64,
    pub shadow_templates_interned: u64,
    pub shadow_spans_created: u64,
    pub graph_formula_vertices_avoided_shadow: u64,
    pub ast_roots_avoided_shadow: u64,
    pub edge_rows_avoided_shadow: u64,
    pub graph_formula_cells_materialized: u64,
    pub graph_vertices_created: u64,
    pub graph_edges_created: u64,
}

/// The counters before anything is counted.
pub open spec fn empty_report(mode: FormulaPlaneMode) -> FormulaIngestReport {
    FormulaIngestReport {
        mode,
        formula_cells_seen: 0,
        shadow_candidate_cells: 0,
        shadow_accepted_span_cells: 0,
        shadow_fallback_cells: 0,
        shadow_templates_interned: 0,
        shadow_spans_created: 0,
        graph_formula_vertices_avoided_shadow: 0,
        ast_roots_avoided_shadow: 0,
        edge_rows_avoided_shadow: 0,
        graph_formula_cells_materialized: 0,
        graph_vertices_created: 0,
        graph_edges_created: 0,
    }
}

impl FormulaIngestReport {
    pub fn with_mode(mode: FormulaPlaneMode) -> (r: FormulaIngestReport)
        ensures
            r == empty_report(mode),
    {
        FormulaIngestReport {
            mode,
            formula_cells_seen: 0,
            shadow_candidate_cells: 0,
            shadow_accepted_span_cells: 0,
            shadow_fallback_cells: 0,
            shadow_templates_interned: 0,
            shadow_spans_created: 0,
            graph_formula_vertices_avoided_shadow: 0,
            ast_roots_avoided_shadow: 0,
            edge_rows_avoided_shadow: 0,
            graph_formula_cells_materialized: 0,
            graph_vertices_created: 0,
            graph_edges_created: 0,
        }
    }
}

/// What the placement of one family counted.
#[derive(Clone, Copy, Debug, PartialEq, Eq, Structural)]
pub struct PlacementCounters {
    pub formula_cells_seen: u64,
    pub accepted_span_cells: u64,
    pub legacy_cells: u64,
    pub templates_interned: u64,
    pub spans_created: u64,
    pub formula_vertices_avoided: u64,
    pub ast_roots_avoided: u64,
    pub edge_rows_avoided: u64,
}

/// The sum, stopping at the largest number.
pub open spec fn plus(a: u64, b: u64) -> u64 {
    if a + b <= u64::MAX {
        (a + b) as u64
    } else {
        u64::MAX
    }
}

/// The counters with those of a placement.
pub open spec fn with_placement(r: FormulaIngestReport, c: PlacementCounters) -> FormulaIngestReport {
    FormulaIngestReport {
        shadow_candidate_cells: plus(r.shadow_candidate_cells, c.formula_cells_seen),
        shadow_accepted_span_cells: plus(r.shadow_accepted_span_cells, c.accepted_span_cells),
        shadow_fallback_cells: plus(r.shadow_fallback_cells, c.legacy_cells),
        shadow_templates_interned: plus(r.shadow_templates_interned, c.templates_interned),
        shadow_spans_created: plus(r.shadow_spans_created, c.spans_created),
        graph_formula_vertices_avoided_shadow: plus(
            r.graph_formula_vertices_avoided_shadow,
            c.formula_vertices_avoided,
        ),
        ast_roots_avoided_shadow: plus(r.ast_roots_avoided_shadow, c.ast_roots_avoided),
        edge_rows_avoided_shadow: plus(r.edge_rows_avoided_shadow, c.edge_rows_avoided),
        ..r
    }
}

/// The counters with one more formula that stays outside of spans.
pub open spec fn with_fallback(r: FormulaIngestReport) -> FormulaIngestReport {
    FormulaIngestReport {
        shadow_candidate_cells: plus(r.shadow_candidate_cells, 1),
        shadow_fallback_cells: plus(r.shadow_fallback_cells, 1),
        ..r
    }
}

/// The counters with so many more formulas that stay outside of spans.
pub open spec fn with_fallbacks(r: FormulaIngestReport, n: nat) -> FormulaIngestReport
    decreases n,
{
    if n == 0 {
        r
    } else {
        with_fallback(with_fallbacks(r, (n - 1) as nat))
    }
}

/// The running total of reports with one more: the counters add up, and the mode is that of the last
/// report.
pub open spec fn with_report(total: FormulaIngestReport, r: FormulaIngestReport) -> FormulaIngestReport {
    FormulaIngestReport {
        mode: r.mode,
        formula_cells_seen: plus(total.formula_cells_seen, r.formula_cells_seen),
        shadow_candidate_cells: plus(total.shadow_candidate_cells, r.shadow_candidate_cells),
        shadow_accepted_span_cells: plus(
            total.shadow_accepted_span_cells,
            r.shadow_accepted_span_cells,
        ),
        shadow_fallback_cells: plus(total.shadow_fallback_cells, r.shadow_fallback_cells),
        shadow_templates_interned: plus(
            total.shadow_templates_interned,
            r.shadow_templates_interned,
        ),
        shadow_spans_created: plus(total.shadow_spans_created, r.shadow_spans_created),
        graph_formula_vertices_avoided_shadow: plus(
            total.graph_formula_vertices_avoided_shadow,
            r.graph_formula_vertices_avoided_shadow,
        ),
        ast_roots_avoided_shadow: plus(total.ast_roots_avoided_shadow, r.ast_roots_avoided_shadow),
        edge_rows_avoided_shadow: plus(total.edge_rows_avoided_shadow, r.edge_rows_avoided_shadow),
        graph_formula_cells_materialized: plus(
            total.graph_formula_cells_materialized,
            r.graph_formula_cells_materialized,
        ),
        graph_vertices_created: plus(total.graph_vertices_created, r.graph_vertices_created),
        graph_edges_created: plus(total.graph_edges_created, r.graph_edges_created),
    }
}

/// The reports of all ingests: the last one, and their total.
#[derive(Debug)]
pub struct IngestReports {
    pub last: Option<FormulaIngestReport>,
    pub total: FormulaIngestReport,
}

impl IngestReports {
    /// No report yet.
    pub fn new(mode: FormulaPlaneMode) -> (r: IngestReports)
        ensures
            r.last is None,
            r.total == empty_report(mode),
    {
        IngestReports { last: None, total: FormulaIngestReport::with_mode(mode) }
    }

    /// Keeps a report and adds it to the total.
    pub fn record_formula_ingest_report(&mut self, report: FormulaIngestReport)
        ensures
            final(self).last == Some(report),
            final(self).total == with_report(old(self).total, report),
    {
        self.total.accumulate(&report);
        self.last = Some(report);
    }
}

impl FormulaIngestReport {
    /// Adds the counters of a report; the mode becomes that of the report.
    pub fn accumulate(&mut self, r: &FormulaIngestReport)
        ensures
            *final(self) == with_report(*old(self), *r),
    {
        self.mode = r.mode;
        self.formula_cells_seen = self.formula_cells_seen.saturating_add(r.formula_cells_seen);
        self.shadow_candidate_cells = self.shadow_candidate_cells.saturating_add(
            r.shadow_candidate_cells,
        );
        self.shadow_accepted_span_cells = self.shadow_accepted_span_cells.saturating_add(
            r.shadow_accepted_span_cells,
        );
        self.shadow_fallback_cells = self.shadow_fallback_cells.saturating_add(
            r.shadow_fallback_cells,
        );
        self.shadow_templates_interned = self.shadow_templates_interned.saturating_add(
            r.shadow_templates_interned,
        );
        self.shadow_spans_created = self.shadow_spans_created.saturating_add(
            r.shadow_spans_created,
        );
        self.graph_formula_vertices_avoided_shadow =
        self.graph_formula_vertices_avoided_shadow.saturating_add(
            r.graph_formula_vertices_avoided_shadow,
        );
        self.ast_roots_avoided_shadow = self.ast_roots_avoided_shadow.saturating_add(
            r.ast_roots_avoided_shadow,
        );
        self.edge_rows_avoided_shadow = self.edge_rows_avoided_shadow.saturating_add(
            r.edge_rows_avoided_shadow,
        );
        self.graph_formula_cells_materialized =
        self.graph_formula_cells_materialized.saturating_add(r.graph_formula_cells_materialized);
        self.graph_vertices_created = self.graph_vertices_created.saturating_add(
            r.graph_vertices_created,
        );
        self.graph_edges_created = self.graph_edges_created.saturating_add(r.graph_edges_created);
    }

    /// Adds what the placement of one family counted.
    pub fn accumulate_formula_plane_placement_report(&mut self, c: &PlacementCounters)
        ensures
            *final(self) == with_placement(*old(self), *c),
    {
        self.shadow_candidate_cells = self.shadow_candidate_cells.saturating_add(
            c.formula_cells_seen,
        );
        self.shadow_accepted_span_cells = self.shadow_accepted_span_cells.saturating_add(
            c.accepted_span_cells,
        );
        self.shadow_fallback_cells = self.shadow_fallback_cells.saturating_add(c.legacy_cells);
        self.shadow_templates_interned = self.shadow_templates_interned.saturating_add(
            c.templates_interned,
        );
        self.shadow_spans_created = self.shadow_spans_created.saturating_add(c.spans_created);
        self.graph_formula_vertices_avoided_shadow =
        self.graph_formula_vertices_avoided_shadow.saturating_add(c.formula_vertices_avoided);
        self.ast_roots_avoided_shadow = self.ast_roots_avoided_shadow.saturating_add(
            c.ast_roots_avoided,
        );
        self.edge_rows_avoided_shadow = self.edge_rows_avoided_shadow.saturating_add(
            c.edge_rows_avoided,
        );
    }

    fn count_fallback(&mut self)
        ensures
            *final(self) == with_fallback(*old(self)),
    {
        self.shadow_candidate_cells = self.shadow_candidate_cells.saturating_add(1);
        self.shadow_fallback_cells = self.shadow_fallback_cells.saturating_add(1);
    }
}

/// A formula that may become part of a span: where it comes from, and its zero-based cell.
#[derive(Clone, Copy, Debug, PartialEq, Eq, Structural)]
pub struct Candidate {
    pub batch: usize,
    pub record: usize,
    pub cell: CellRef,
}

/// The candidates among the first `n` records of a batch: those with a row and a column.
pub open spec fn batch_candidates(
    batch: usize,
    records: Seq<FormulaIngestRecord>,
    sheet_id: SheetId,
    n: nat,
) -> Seq<Candidate>
    decreases n,
{
    if n == 0 {
        Seq::empty()
    } else {
        let before = batch_candidates(batch, records, sheet_id, (n - 1) as nat);
        let r = records[n - 1];
        if r.row == 0 || r.col == 0 {
            before
        } else {
            before.push(
                Candidate {
                    batch,
                    record: (n - 1) as usize,
                    cell: CellRef { sheet_id, row: (r.row - 1) as u32, col: (r.col - 1) as u32 },
                },
            )
        }
    }
}

/// The candidates of the first `n` batches.
pub open spec fn candidates_of(
    batches: Seq<FormulaIngestBatch>,
    sheets: Seq<SheetId>,
    n: nat,
) -> Seq<Candidate>
    decreases n,
{
    if n == 0 {
        Seq::empty()
    } else {
        candidates_of(batches, sheets, (n - 1) as nat) + batch_candidates(
            (n - 1) as usize,
            batches[n - 1].formulas@,
            sheets[n - 1],
            batches[n - 1].formulas@.len(),
        )
    }
}

/// The records of the first `n` of a batch that are no candidates.
pub open spec fn batch_misfits(batch: usize, records: Seq<FormulaIngestRecord>, n: nat) -> Seq<
    (usize, usize),
>
    decreases n,
{
    if n == 0 {
        Seq::empty()
    } else {
        let before = batch_misfits(batch, records, (n - 1) as nat);
        let r = records[n - 1];
        if r.row == 0 || r.col == 0 {
            before.push((batch, (n - 1) as usize))
        } else {
            before
        }
    }
}

/// The records of the first `n` batches that are no candidates.
pub open spec fn misfits_of(batches: Seq<FormulaIngestBatch>, n: nat) -> Seq<(usize, usize)>
    decreases n,
{
    if n == 0 {
        Seq::empty()
    } else {
        misfits_of(batches, (n - 1) as nat) + batch_misfits(
            (n - 1) as usize,
            batches[n - 1].formulas@,
            batches[n - 1].formulas@.len(),
        )
    }
}

/// Whether the candidate stands for the record.
pub open spec fn stands_for(c: Candidate, batch: int, record: int) -> bool {
    c.batch == batch && c.record == record
}

/// Whether the record names no cell.
pub open spec fn names_no_cell(r: FormulaIngestRecord) -> bool {
    r.row == 0 || r.col == 0
}

proof fn lemma_batch_sorted(
    batch: usize,
    records: Seq<FormulaIngestRecord>,
    sheet_id: SheetId,
    n: nat,
    m: int,
)
    requires
        n <= records.len() <= usize::MAX,
    ensures
        0 <= m < n && !names_no_cell(records[m]) ==> exists|i: int|
            0 <= i < batch_candidates(batch, records, sheet_id, n).len() && stands_for(
                #[trigger] batch_candidates(batch, records, sheet_id, n)[i],
                batch as int,
                m,
            ),
        0 <= m < n && names_no_cell(records[m]) ==> batch_misfits(batch, records, n).contains(
            (batch, m as usize),
        ),
        forall|i: int|
            0 <= i < batch_candidates(batch, records, sheet_id, n).len() ==> {
                let c = #[trigger] batch_candidates(batch, records, sheet_id, n)[i];
                c.batch == batch && c.record < n && !names_no_cell(records[c.record as int])
            },
        forall|i: int|
            0 <= i < batch_misfits(batch, records, n).len() ==> {
                let x = #[trigger] batch_misfits(batch, records, n)[i];
                x.0 == batch && x.1 < n && names_no_cell(records[x.1 as int])
            },
        forall|i: int, j: int|
            0 <= i < j < batch_candidates(batch, records, sheet_id, n).len() ==> (
            #[trigger] batch_candidates(batch, records, sheet_id, n)[i]).record < (
            #[trigger] batch_candidates(batch, records, sheet_id, n)[j]).record,
    decreases n,
{
    if n > 0 {
        let p = (n - 1) as nat;
        lemma_batch_sorted(batch, records, sheet_id, p, m);
        let before = batch_candidates(batch, records, sheet_id, p);
        let after = batch_candidates(batch, records, sheet_id, n);
        let left = batch_misfits(batch, records, p);
        let now = batch_misfits(batch, records, n);
        if names_no_cell(records[n - 1]) {
            assert(now == left.push((batch, (n - 1) as usize)));
            if 0 <= m < n && names_no_cell(records[m]) {
                if m == n - 1 {
                    assert(now[left.len() as int] == (batch, m as usize));
                } else {
                    let k = choose|k: int| 0 <= k < left.len() && left[k] == (batch, m as usize);
                    assert(now[k] == left[k]);
                }
            }
        } else {
            assert(after.drop_last() =~= before);
            if 0 <= m < n {
                if m == n - 1 {
                    assert(stands_for(after[before.len() as int], batch as int, m));
                } else if !names_no_cell(records[m]) {
                    let k = choose|k: int|
                        0 <= k < before.len() && stands_for(#[trigger] before[k], batch as int, m);
                    assert(stands_for(after[k], batch as int, m));
                }
            }
        }
    }
}

proof fn lemma_batches_sorted(
    batches: Seq<FormulaIngestBatch>,
    sheets: Seq<SheetId>,
    n: nat,
    b: int,
    m: int,
)
    requires
        sheets.len() == batches.len(),
        n <= batches.len() <= usize::MAX,
    ensures
        0 <= b < n && 0 <= m < batches[b].formulas@.len() && !names_no_cell(
            batches[b].formulas@[m],
        ) ==> exists|i: int|
            0 <= i < candidates_of(batches, sheets, n).len() && stands_for(
                #[trigger] candidates_of(batches, sheets, n)[i],
                b,
                m,
            ),
        0 <= b < n && 0 <= m < batches[b].formulas@.len() && names_no_cell(
            batches[b].formulas@[m],
        ) ==> misfits_of(batches, n).contains((b as usize, m as usize)),
        forall|i: int|
            0 <= i < candidates_of(batches, sheets, n).len() ==> {
                let c = #[trigger] candidates_of(batches, sheets, n)[i];
                c.batch < n && c.record < batches[c.batch as int].formulas@.len()
                    && !names_no_cell(batches[c.batch as int].formulas@[c.record as int])
            },
        forall|i: int|
            0 <= i < misfits_of(batches, n).len() ==> {
                let x = #[trigger] misfits_of(batches, n)[i];
                x.0 < n && x.1 < batches[x.0 as int].formulas@.len() && names_no_cell(
                    batches[x.0 as int].formulas@[x.1 as int],
                )
            },
        forall|i: int, j: int|
            0 <= i < j < candidates_of(batches, sheets, n).len() ==> {
                let c = #[trigger] candidates_of(batches, sheets, n)[i];
                let d = #[trigger] candidates_of(batches, sheets, n)[j];
                c.batch < d.batch || (c.batch == d.batch && c.record < d.record)
            },
    decreases n,
{
    if n > 0 {
        let p = (n - 1) as nat;
        lemma_batches_sorted(batches, sheets, p, b, m);
        let records = batches[n - 1].formulas@;
        let before = candidates_of(batches, sheets, p);
        let own = batch_candidates((n - 1) as usize, records, sheets[n - 1], records.len());
        let all = candidates_of(batches, sheets, n);
        let left = misfits_of(batches, p);
        let mine = batch_misfits((n - 1) as usize, records, records.len());
        let now = misfits_of(batches, n);
        assert(records.len() == batches[n - 1].formulas.len());
        lemma_batch_sorted((n - 1) as usize, records, sheets[n - 1], records.len(), m);
        assert(all == before + own);
        assert(now == left + mine);
        if 0 <= b < n && 0 <= m < batches[b].formulas@.len() {
            if names_no_cell(batches[b].formulas@[m]) {
                if b == n - 1 {
                    let k = choose|k: int|
                        0 <= k < mine.len() && mine[k] == ((n - 1) as usize, m as usize);
                    assert(now[left.len() + k] == (b as usize, m as usize));
                } else {
                    let k = choose|k: int|
                        0 <= k < left.len() && left[k] == (b as usize, m as usize);
                    assert(now[k] == (b as usize, m as usize));
                }
            } else {
                if b == n - 1 {
                    let k = choose|k: int|
                        0 <= k < own.len() && stands_for(#[trigger] own[k], b, m);
                    assert(stands_for(all[before.len() + k], b, m));
                } else {
                    let k = choose|k: int|
                        0 <= k < before.len() && stands_for(#[trigger] before[k], b, m);
                    assert(stands_for(all[k], b, m));
                }
            }
        }
    }
}

/// No formula of an ingest is lost or counted twice: a record that names no cell is among the
/// misfits, any other has exactly one candidate, and each candidate belongs to a family, is rejected
/// or could not be analysed.
pub proof fn no_formula_is_lost(
    batches: Seq<FormulaIngestBatch>,
    sheets: Seq<SheetId>,
    outcomes: Seq<CandidateOutcome>,
    b: int,
    m: int,
)
    requires
        sheets.len() == batches.len() <= usize::MAX,
        0 <= b < batches.len(),
        0 <= m < batches[b].formulas@.len(),
        outcomes.len() == candidates_of(batches, sheets, batches.len()).len() <= usize::MAX,
    ensures
        ({
            let candidates = candidates_of(batches, sheets, batches.len());
            let misfits = misfits_of(batches, batches.len());
            let n = outcomes.len();
            if names_no_cell(batches[b].formulas@[m]) {
                &&& misfits.contains((b as usize, m as usize))
                &&& forall|i: int|
                    0 <= i < n ==> !stands_for(#[trigger] candidates[i], b, m)
            } else {
                &&& !misfits.contains((b as usize, m as usize))
                &&& exists|i: int|
                    {
                        &&& 0 <= i < n
                        &&& stands_for(#[trigger] candidates[i], b, m)
                        &&& forall|j: int|
                            0 <= j < n && stands_for(#[trigger] candidates[j], b, m) ==> j == i
                        &&& family_members(outcomes, n).contains(i as usize) || rejected_members(
                            outcomes,
                            n,
                        ).contains(i as usize) || unsupported_members(outcomes, n).contains(
                            i as usize,
                        )
                    }
            }
        }),
{
    let candidates = candidates_of(batches, sheets, batches.len());
    let misfits = misfits_of(batches, batches.len());
    let n = outcomes.len();
    lemma_batches_sorted(batches, sheets, batches.len(), b, m);
    if names_no_cell(batches[b].formulas@[m]) {
        assert forall|i: int| 0 <= i < n implies !stands_for(#[trigger] candidates[i], b, m) by {}
    } else {
        if misfits.contains((b as usize, m as usize)) {
            let k = choose|k: int| 0 <= k < misfits.len() && misfits[k] == (b as usize, m as usize);
            assert(names_no_cell(batches[misfits[k].0 as int].formulas@[misfits[k].1 as int]));
        }
        let i = choose|i: int| 0 <= i < n && stands_for(#[trigger] candidates[i], b, m);
        assert forall|j: int| 0 <= j < n && stands_for(#[trigger] candidates[j], b, m) implies j
            == i by {
            if j != i {
                assert(stands_for(candidates[i], b, m));
            }
        }
        lemma_outcome_listed(outcomes, n, i);
    }
}

proof fn lemma_outcome_listed(outcomes: Seq<CandidateOutcome>, n: nat, i: int)
    requires
        0 <= i < n <= outcomes.len() <= usize::MAX,
    ensures
        family_members(outcomes, n).contains(i as usize) || rejected_members(
            outcomes,
            n,
        ).contains(i as usize) || unsupported_members(outcomes, n).contains(i as usize),
    decreases n,
{
    let p = (n - 1) as nat;
    let (f, r, u) = (
        family_members(outcomes, n),
        rejected_members(outcomes, n),
        unsupported_members(outcomes, n),
    );
    if i == n - 1 {
        match outcomes[i] {
            CandidateOutcome::Family { .. } => {
                assert(f[f.len() - 1] == i as usize);
            },
            CandidateOutcome::Rejected { .. } => {
                assert(r[r.len() - 1] == i as usize);
            },
            CandidateOutcome::Unsupported => {
                assert(u[u.len() - 1] == i as usize);
            },
        }
    } else {
        lemma_outcome_listed(outcomes, p, i);
        let (f0, r0, u0) = (
            family_members(outcomes, p),
            rejected_members(outcomes, p),
            unsupported_members(outcomes, p),
        );
        if f0.contains(i as usize) {
            let k = choose|k: int| 0 <= k < f0.len() && f0[k] == i as usize;
            assert(f[k] == i as usize);
        } else if r0.contains(i as usize) {
            let k = choose|k: int| 0 <= k < r0.len() && r0[k] == i as usize;
            assert(r[k] == i as usize);
        } else {
            let k = choose|k: int| 0 <= k < u0.len() && u0[k] == i as usize;
            assert(u[k] == i as usize);
        }
    }
}

/// Sorts records into candidates and those that name no cell. `sheets` holds the sheet of each
/// batch.
pub fn screen_records(batches: &Vec<FormulaIngestBatch>, sheets: &Vec<SheetId>) -> (r: (
    Vec<Candidate>,
    Vec<(usize, usize)>,
))
    requires
        sheets@.len() == batches@.len(),
    ensures
        r.0@ == candidates_of(batches@, sheets@, batches@.len()),
        r.1@ == misfits_of(batches@, batches@.len()),
{
    let mut candidates: Vec<Candidate> = Vec::new();
    let mut misfits: Vec<(usize, usize)> = Vec::new();
    let mut b: usize = 0;
    while b < batches.len()
        invariant
            sheets@.len() == batches@.len(),
            b <= batches@.len(),
            candidates@ == candidates_of(batches@, sheets@, b as nat),
            misfits@ == misfits_of(batches@, b as nat),
        decreases batches@.len() - b,
    {
        let records = &batches[b].formulas;
        let sheet_id = sheets[b];
        let ghost c0 = candidates@;
        let ghost m0 = misfits@;
        let mut i: usize = 0;
        assert(candidates@ =~= c0 + batch_candidates(b, records@, sheet_id, 0));
        assert(misfits@ =~= m0 + batch_misfits(b, records@, 0));
        while i < records.len()
            invariant
                i <= records@.len(),
                candidates@ == c0 + batch_candidates(b, records@, sheet_id, i as nat),
                misfits@ == m0 + batch_misfits(b, records@, i as nat),
            decreases records@.len() - i,
        {
            let r = &records[i];
            if r.row == 0 || r.col == 0 {
                misfits.push((b, i));
            } else {
                candidates.push(
                    Candidate {
                        batch: b,
                        record: i,
                        cell: CellRef { sheet_id, row: r.row - 1, col: r.col - 1 },
                    },
                );
            }
            proof {
                assert(candidates@ =~= c0 + batch_candidates(b, records@, sheet_id, i as nat + 1));
                assert(misfits@ =~= m0 + batch_misfits(b, records@, i as nat + 1));
            }
            i = i + 1;
        }
        b = b + 1;
    }
    (candidates, misfits)
}

/// What the analysis of a candidate found.
#[derive(Debug)]
pub enum CandidateOutcome {
    /// It belongs to the family with this hash.
    Family { hash: u64 },
    /// It fits no span, for this reason.
    Rejected { reason: String },
    /// It could not be analysed.
    Unsupported,
}

/// The reason for formulas that name no cell.
pub open spec fn misfit_reason() -> Seq<char> {
    "UnsupportedShapeOrGaps"@
}

/// The reason for formulas that could not be analysed.
pub open spec fn unsupported_reason() -> Seq<char> {
    "UnsupportedCanonicalTemplate"@
}

/// How often the reason occurs among the first `n` outcomes.
pub open spec fn reason_count(outcomes: Seq<CandidateOutcome>, reason: Seq<char>, n: nat) -> nat
    decreases n,
{
    if n == 0 {
        0
    } else {
        reason_count(outcomes, reason, (n - 1) as nat) + (match outcomes[n - 1] {
            CandidateOutcome::Family { .. } => 0nat,
            CandidateOutcome::Rejected { reason: r } => if r@ == reason {
                1nat
            } else {
                0nat
            },
            CandidateOutcome::Unsupported => if reason == unsupported_reason() {
                1nat
            } else {
                0nat
            },
        })
    }
}

/// Those of the first `n` candidates that belong to a family.
pub open spec fn family_members(outcomes: Seq<CandidateOutcome>, n: nat) -> Seq<usize>
    decreases n,
{
    if n == 0 {
        Seq::empty()
    } else if outcomes[n - 1] is Family {
        family_members(outcomes, (n - 1) as nat).push((n - 1) as usize)
    } else {
        family_members(outcomes, (n - 1) as nat)
    }
}

/// Those of the first `n` candidates that are rejected: their dependencies are known.
pub open spec fn rejected_members(outcomes: Seq<CandidateOutcome>, n: nat) -> Seq<usize>
    decreases n,
{
    if n == 0 {
        Seq::empty()
    } else if outcomes[n - 1] is Rejected {
        rejected_members(outcomes, (n - 1) as nat).push((n - 1) as usize)
    } else {
        rejected_members(outcomes, (n - 1) as nat)
    }
}

/// Those of the first `n` candidates that could not be analysed.
pub open spec fn unsupported_members(outcomes: Seq<CandidateOutcome>, n: nat) -> Seq<usize>
    decreases n,
{
    if n == 0 {
        Seq::empty()
    } else if outcomes[n - 1] is Unsupported {
        unsupported_members(outcomes, (n - 1) as nat).push((n - 1) as usize)
    } else {
        unsupported_members(outcomes, (n - 1) as nat)
    }
}

/// The sort key of a family member: sheet, hash and column, in this order.
pub open spec fn family_key(c: Candidate, o: CandidateOutcome) -> (u64, u64) {
    match o {
        CandidateOutcome::Family { hash } => (
            (c.cell.sheet_id as int * 0x1_0000_0000_0000 + hash as int / 0x1_0000) as u64,
            (hash as int % 0x1_0000 * 0x1_0000_0000 + c.cell.col as int) as u64,
        ),
        _ => (0, 0),
    }
}

/// The key orders as sheet, hash and column do, and tells them apart.
pub proof fn family_keys_order_by_sheet_hash_and_column(
    a: Candidate,
    x: u64,
    b: Candidate,
    y: u64,
)
    ensures
        ({
            let p = family_key(a, CandidateOutcome::Family { hash: x });
            let q = family_key(b, CandidateOutcome::Family { hash: y });
            &&& p == q <==> a.cell.sheet_id == b.cell.sheet_id && x == y && a.cell.col == b.cell.col
            &&& crate::sort::pair_lt(p, q) <==> a.cell.sheet_id < b.cell.sheet_id || (
            a.cell.sheet_id == b.cell.sheet_id && (x < y || (x == y && a.cell.col < b.cell.col)))
        }),
{
}

/// The candidates sorted by what the analysis found.
#[derive(Debug)]
pub struct SortedCandidates {
    /// The members of families.
    pub families: Vec<usize>,
    /// The families: positions in the list of members.
    pub groups: Vec<Vec<usize>>,
    /// The rejected ones.
    pub rejected: Vec<usize>,
    /// Those that could not be analysed.
    pub unsupported: Vec<usize>,
}

/// The keys of the members.
pub open spec fn member_keys(
    candidates: Seq<Candidate>,
    outcomes: Seq<CandidateOutcome>,
    members: Seq<usize>,
) -> Seq<(u64, u64)> {
    Seq::new(
        members.len(),
        |i: int| family_key(candidates[members[i] as int], outcomes[members[i] as int]),
    )
}

/// Sorts candidates by what the analysis found, and counts those that stay outside of spans.
pub fn sort_candidates(
    candidates: &Vec<Candidate>,
    outcomes: &Vec<CandidateOutcome>,
    report: &mut FormulaIngestReport,
    reasons: &mut ReasonCounts,
) -> (s: SortedCandidates)
    requires
        candidates@.len() == outcomes@.len(),
        forall|r: Seq<char>| #[trigger]
            old(reasons).total(r) + reason_count(outcomes@, r, outcomes@.len()) <= u64::MAX,
    ensures
        s.families@ == family_members(outcomes@, outcomes@.len()),
        s.rejected@ == rejected_members(outcomes@, outcomes@.len()),
        s.unsupported@ == unsupported_members(outcomes@, outcomes@.len()),
        are_groups(
            member_keys(candidates@, outcomes@, s.families@),
            groups_view(s.groups@),
        ),
        *final(report) == with_fallbacks(
            *old(report),
            s.rejected@.len() + s.unsupported@.len(),
        ),
        forall|r: Seq<char>| #[trigger]
            final(reasons).total(r) == old(reasons).total(r) + reason_count(
                outcomes@,
                r,
                outcomes@.len(),
            ),
{
    let mut families: Vec<usize> = Vec::new();
    let mut keys: Vec<(u64, u64)> = Vec::new();
    let mut rejected: Vec<usize> = Vec::new();
    let mut unsupported: Vec<usize> = Vec::new();
    let n: usize = outcomes.len();
    let mut i: usize = 0;
    while i < n
        invariant
            n == outcomes@.len(),
            candidates@.len() == outcomes@.len(),
            i <= n,
            families@ == family_members(outcomes@, i as nat),
            rejected@ == rejected_members(outcomes@, i as nat),
            unsupported@ == unsupported_members(outcomes@, i as nat),
            rejected@.len() + unsupported@.len() <= i,
            forall|k: int| 0 <= k < families@.len() ==> (#[trigger] families@[k]) < i,
            keys@ == member_keys(candidates@, outcomes@, families@),
            *report == with_fallbacks(*old(report), rejected@.len() + unsupported@.len()),
            forall|r: Seq<char>| #[trigger]
                old(reasons).total(r) + reason_count(outcomes@, r, outcomes@.len()) <= u64::MAX,
            forall|r: Seq<char>| #[trigger]
                reasons.total(r) == old(reasons).total(r) + reason_count(
                    outcomes@,
                    r,
                    i as nat,
                ),
        decreases n - i,
    {
        match &outcomes[i] {
            CandidateOutcome::Family { hash } => {
                let c = candidates[i];
                let ghost prior = families@;
                let ghost prior_keys = keys@;
                families.push(i);
                let first: u64 = c.cell.sheet_id as u64 * 0x1_0000_0000_0000 + *hash / 0x1_0000;
                let second: u64 = *hash % 0x1_0000 * 0x1_0000_0000 + c.cell.col as u64;
                keys.push((first, second));
                proof {
                    assert(keys@ =~= member_keys(candidates@, outcomes@, families@)) by {
                        assert forall|k: int| 0 <= k < prior.len() implies keys@[k] == family_key(
                            candidates@[families@[k] as int],
                            outcomes@[families@[k] as int],
                        ) by {
                            assert(prior_keys[k] == member_keys(candidates@, outcomes@, prior)[k]);
                        }
                    }
                }
            },
            CandidateOutcome::Rejected { reason } => {
                proof {
                    let r = reason@;
                    lemma_count_grows(outcomes@, r, i as nat + 1, outcomes@.len());
                    assert(old(reasons).total(r) + reason_count(outcomes@, r, outcomes@.len())
                        <= u64::MAX);
                }
                reasons.record_shadow_fallback_reason(reason.as_str(), 1);
                report.count_fallback();
                rejected.push(i);
            },
            CandidateOutcome::Unsupported => {
                proof {
                    let r = unsupported_reason();
                    lemma_count_grows(outcomes@, r, i as nat + 1, outcomes@.len());
                    assert(old(reasons).total(r) + reason_count(outcomes@, r, outcomes@.len())
                        <= u64::MAX);
                }
                reasons.record_shadow_fallback_reason("UnsupportedCanonicalTemplate", 1);
                report.count_fallback();
                unsupported.push(i);
            },
        }
        i = i + 1;
    }
    let groups = group_by_key(&keys);
    SortedCandidates { families, groups, rejected, unsupported }
}

proof fn lemma_count_grows(outcomes: Seq<CandidateOutcome>, reason: Seq<char>, m: nat, n: nat)
    requires
        m <= n <= outcomes.len(),
    ensures
        reason_count(outcomes, reason, m) <= reason_count(outcomes, reason, n),
    decreases n,
{
    if m < n {
        lemma_count_grows(outcomes, reason, m, (n - 1) as nat);
    }
}

/// Counts the records that name no cell.
pub fn count_misfits(n: usize, report: &mut FormulaIngestReport, reasons: &mut ReasonCounts)
    requires
        old(reasons).total(misfit_reason()) + n <= u64::MAX,
    ensures
        *final(report) == with_fallbacks(*old(report), n as nat),
        forall|r: Seq<char>| #[trigger]
            final(reasons).total(r) == old(reasons).total(r) + (if r == misfit_reason() {
                n as nat
            } else {
                0nat
            }),
{
    let mut i: usize = 0;
    while i < n
        invariant
            i <= n,
            *report == with_fallbacks(*old(report), i as nat),
        decreases n - i,
    {
        report.count_fallback();
        i = i + 1;
    }
    reasons.record_shadow_fallback_reason("UnsupportedShapeOrGaps", n as u64);
}

/// Which analysis each member of each component gets. Where the components are one that holds the
/// whole family, the analyses are dealt out in the order of the family; else every member gets its
/// own.
pub open spec fn paired(lists: Seq<Seq<usize>>, n: nat) -> Seq<Seq<usize>> {
    if lists.len() == 1 && lists[0].len() == n {
        seq![Seq::new(n, |i: int| i as usize)]
    } else {
        lists
    }
}

pub fn pair_analyses(lists: &Vec<Vec<usize>>, n: usize) -> (r: Vec<Vec<usize>>)
    ensures
        groups_view(r@) == paired(groups_view(lists@), n as nat),
{
    let mut out: Vec<Vec<usize>> = Vec::new();
    if lists.len() == 1 && lists[0].len() == n {
        let mut all: Vec<usize> = Vec::new();
        let mut i: usize = 0;
        while i < n
            invariant
                i <= n,
                all@.len() == i,
                forall|k: int| 0 <= k < i ==> #[trigger] all@[k] == k,
            decreases n - i,
        {
            all.push(i);
            i = i + 1;
        }
        assert(all@ =~= Seq::new(n as nat, |i: int| i as usize));
        out.push(all);
        assert(groups_view(out@) =~= paired(groups_view(lists@), n as nat));
        return out;
    }
    let mut c: usize = 0;
    while c < lists.len()
        invariant
            c <= lists@.len(),
            out@.len() == c,
            forall|k: int| 0 <= k < c ==> (#[trigger] out@[k])@ == lists@[k]@,
        decreases lists@.len() - c,
    {
        let list = &lists[c];
        let mut copy: Vec<usize> = Vec::new();
        let mut i: usize = 0;
        while i < list.len()
            invariant
                i <= list@.len(),
                copy@ == list@.take(i as int),
            decreases list@.len() - i,
        {
            copy.push(list[i]);
            assert(copy@ =~= list@.take(i + 1));
            i = i + 1;
        }
        assert(list@.take(i as int) =~= list@);
        out.push(copy);
        c = c + 1;
    }
    assert(groups_view(out@) =~= groups_view(lists@));
    out
}

/// Whether two members stand in the same place.
pub open spec fn same_place(cells: Seq<CellRef>, a: usize, b: usize) -> bool {
    cells[a as int].row == cells[b as int].row && cells[a as int].col == cells[b as int].col
}

/// The first member of the run of members in the same place that `k` belongs to.
pub open spec fn run_start(cells: Seq<CellRef>, list: Seq<usize>, k: int) -> int
    decreases k,
{
    if k > 0 && same_place(cells, list[k - 1], list[k]) {
        run_start(cells, list, k - 1)
    } else {
        k
    }
}

/// The last member of the run of members in the same place that `k` belongs to.
pub open spec fn run_last(cells: Seq<CellRef>, list: Seq<usize>, k: int) -> int
    decreases list.len() - k,
{
    if 0 <= k && k + 1 < list.len() && same_place(cells, list[k], list[k + 1]) {
        run_last(cells, list, k + 1)
    } else {
        k
    }
}

/// Which analysis each member of a component gets on trial: members in the same place get theirs in
/// reverse order.
pub open spec fn trial_pairs(cells: Seq<CellRef>, list: Seq<usize>) -> Seq<usize> {
    Seq::new(
        list.len(),
        |k: int| list[run_start(cells, list, k) + run_last(cells, list, k) - k],
    )
}

proof fn lemma_run_bounds(cells: Seq<CellRef>, list: Seq<usize>, k: int)
    requires
        0 <= k < list.len(),
    ensures
        0 <= run_start(cells, list, k) <= k,
    decreases k,
{
    if k > 0 && same_place(cells, list[k - 1], list[k]) {
        lemma_run_bounds(cells, list, k - 1);
    }
}

proof fn lemma_run_last(cells: Seq<CellRef>, list: Seq<usize>, k: int)
    requires
        0 <= k < list.len(),
    ensures
        k <= run_last(cells, list, k) < list.len(),
    decreases list.len() - k,
{
    if k + 1 < list.len() && same_place(cells, list[k], list[k + 1]) {
        lemma_run_last(cells, list, k + 1);
    }
}

/// Pairs the members of a component with analyses, on trial.
pub fn split_candidate_components_with_analyses(cells: &Vec<CellRef>, list: &Vec<usize>) -> (r: Vec<
    usize,
>)
    requires
        forall|k: int| 0 <= k < list@.len() ==> (#[trigger] list@[k]) < cells@.len(),
    ensures
        r@ == trial_pairs(cells@, list@),
{
    let mut out: Vec<usize> = Vec::new();
    let n: usize = list.len();
    let mut k: usize = 0;
    while k < n
        invariant
            n == list@.len(),
            forall|k: int| 0 <= k < list@.len() ==> (#[trigger] list@[k]) < cells@.len(),
            k <= n,
            out@ =~= trial_pairs(cells@, list@).take(k as int),
        decreases n - k,
    {
        let mut s: usize = k;
        while s > 0 && in_same_place(cells, list[s - 1], list[s])
            invariant
                n == list@.len(),
                forall|k: int| 0 <= k < list@.len() ==> (#[trigger] list@[k]) < cells@.len(),
                s <= k < n,
                run_start(cells@, list@, k as int) == run_start(cells@, list@, s as int),
            decreases s,
        {
            s = s - 1;
        }
        let mut e: usize = k;
        while e + 1 < n && in_same_place(cells, list[e], list[e + 1])
            invariant
                n == list@.len(),
                forall|k: int| 0 <= k < list@.len() ==> (#[trigger] list@[k]) < cells@.len(),
                k <= e < n,
                run_last(cells@, list@, k as int) == run_last(cells@, list@, e as int),
            decreases n - e,
        {
            e = e + 1;
        }
        proof {
            lemma_run_bounds(cells@, list@, k as int);
            lemma_run_last(cells@, list@, k as int);
        }
        out.push(list[s + (e - k)]);
        k = k + 1;
    }
    assert(out@ =~= trial_pairs(cells@, list@));
    out
}

fn in_same_place(cells: &Vec<CellRef>, a: usize, b: usize) -> (r: bool)
    requires
        a < cells@.len(),
        b < cells@.len(),
    ensures
        r == same_place(cells@, a, b),
{
    cells[a].row == cells[b].row && cells[a].col == cells[b].col
}

/// The dependency plans of a family that are not used yet, by place.
#[derive(Debug)]
pub struct PlanStacks {
    stacks: FxHashMap<u128, Vec<usize>>,
}

/// The plans at a place, the last one on top.
pub open spec fn stack_at(stacks: Map<u128, Seq<usize>>, k: u128) -> Seq<usize> {
    if stacks.contains_key(k) {
        stacks[k]
    } else {
        Seq::empty()
    }
}

/// The key of a cell's place, whatever its sheet.
pub open spec fn place_key(cell: CellRef) -> u128 {
    spec_cell_key(CellRef { sheet_id: 0, row: cell.row, col: cell.col })
}

/// The plans of the first `n` cells, by place.
pub open spec fn stacked(cells: Seq<CellRef>, n: nat) -> Map<u128, Seq<usize>>
    decreases n,
{
    if n == 0 {
        Map::empty()
    } else {
        let before = stacked(cells, (n - 1) as nat);
        let k = place_key(cells[n - 1]);
        before.insert(k, stack_at(before, k).push((n - 1) as usize))
    }
}

impl PlanStacks {
    pub closed spec fn view(&self) -> Map<u128, Seq<usize>> {
        self.stacks@.map_values(|v: Vec<usize>| v@)
    }

    /// Stacks the plans of the cells of a family.
    pub fn new(cells: &Vec<CellRef>) -> (s: PlanStacks)
        ensures
            s@ == stacked(cells@, cells@.len()),
    {
        let mut s = PlanStacks { stacks: FxHashMap::default() };
        assert(s@ =~= stacked(cells@, 0));
        let mut i: usize = 0;
        while i < cells.len()
            invariant
                i <= cells@.len(),
                s@ == stacked(cells@, i as nat),
            decreases cells@.len() - i,
        {
            let cell = cells[i];
            let k = cell_key(CellRef { sheet_id: 0, row: cell.row, col: cell.col });
            let ghost before = s@;
            let ghost raw = s.stacks@;
            let mut list: Vec<usize> = match map_remove(&mut s.stacks, &k) {
                Some(l) => l,
                None => Vec::new(),
            };
            proof {
                assert(before.contains_key(k) == raw.contains_key(k));
                assert(list@ =~= stack_at(before, k));
            }
            list.push(i);
            let ghost longer = list@;
            map_insert(&mut s.stacks, k, list);
            assert(s@ =~= before.insert(k, longer));
            i = i + 1;
        }
        s
    }

    /// Takes the last plan at a place.
    pub fn pop(&mut self, cell: CellRef) -> (r: Option<usize>)
        ensures
            ({
                let k = place_key(cell);
                let stack = stack_at(old(self)@, k);
                if stack.len() == 0 {
                    &&& r is None
                    &&& forall|x: u128| #[trigger]
                        stack_at(final(self)@, x) == stack_at(old(self)@, x)
                } else {
                    &&& r == Some(stack.last())
                    &&& stack_at(final(self)@, k) == stack.drop_last()
                    &&& forall|x: u128|
                        x != k ==> #[trigger] stack_at(final(self)@, x) == stack_at(old(self)@, x)
                }
            }),
    {
        let k = cell_key(CellRef { sheet_id: 0, row: cell.row, col: cell.col });
        let ghost before = self@;
        let ghost raw = self.stacks@;
        match map_remove(&mut self.stacks, &k) {
            Some(mut list) => {
                let ghost stack = list@;
                proof {
                    assert(before.contains_key(k) && before[k] == stack);
                }
                let r = list.pop();
                let ghost rest = list@;
                map_insert(&mut self.stacks, k, list);
                proof {
                    assert(self@ =~= before.insert(k, rest));
                }
                r
            },
            None => {
                proof {
                    assert(self@ =~= before) by {
                        assert(self.stacks@ =~= raw);
                    }
                }
                None
            },
        }
    }
}

/// The position of the first cell of the component that stands at the place.
pub fn first_at(component: &Vec<CellRef>, placement: CellRef) -> (r: Option<usize>)
    ensures
        match r {
            Some(i) => i < component@.len() && component@[i as int] == placement && forall|k: int|
                0 <= k < i ==> #[trigger] component@[k] != placement,
            None => !component@.contains(placement),
        },
{
    let mut i: usize = 0;
    while i < component.len()
        invariant
            i <= component@.len(),
            forall|k: int| 0 <= k < i ==> #[trigger] component@[k] != placement,
        decreases component@.len() - i,
    {
        if component[i] == placement {
            return Some(i);
        }
        i = i + 1;
    }
    None
}

/// How a formula is built that a placement left outside of spans.
#[derive(Clone, Copy, Debug, PartialEq, Eq, Structural)]
pub enum Fallback {
    /// The cell is none of the component's.
    Unknown,
    /// With the dependencies that are already known.
    Planned { member: usize, plan: usize },
    /// From its text.
    Parsed { member: usize },
}

/// Decides how a formula is built that a placement left outside of spans.
pub fn fall_back(component: &Vec<CellRef>, plans: &mut PlanStacks, placement: CellRef) -> (r: Fallback)
    ensures
        !component@.contains(placement) ==> r is Unknown && final(plans)@ == old(plans)@,
        component@.contains(placement) ==> {
            let stack = stack_at(old(plans)@, place_key(placement));
            exists|i: usize|
                {
                    &&& i < component@.len()
                    &&& #[trigger] component@[i as int] == placement
                    &&& forall|k: int| 0 <= k < i ==> #[trigger] component@[k] != placement
                    &&& if stack.len() == 0 {
                        r == (Fallback::Parsed { member: i })
                    } else {
                        r == (Fallback::Planned { member: i, plan: stack.last() })
                    }
                }
        },
        component@.contains(placement) ==> stack_at(final(plans)@, place_key(placement)) == ({
            let stack = stack_at(old(plans)@, place_key(placement));
            if stack.len() == 0 {
                stack
            } else {
                stack.drop_last()
            }
        }),
        forall|x: u128|
            x != place_key(placement) ==> #[trigger] stack_at(final(plans)@, x) == stack_at(
                old(plans)@,
                x,
            ),
{
    match first_at(component, placement) {
        None => Fallback::Unknown,
        Some(i) => {
            assert(component@[i as int] == placement);
            match plans.pop(placement) {
                Some(plan) => Fallback::Planned { member: i, plan },
                None => Fallback::Parsed { member: i },
            }
        },
    }
}

/// How many formulas the first `n` batches hold, stopping at the largest number.
pub open spec fn formulas_seen(batches: Seq<FormulaIngestBatch>, n: nat) -> u64
    decreases n,
{
    if n == 0 {
        0
    } else {
        plus(
            formulas_seen(batches, (n - 1) as nat),
            batches[n - 1].formulas@.len() as u64,
        )
    }
}

/// Counts the formulas of all batches.
pub fn count_formulas(batches: &Vec<FormulaIngestBatch>) -> (n: u64)
    ensures
        n == formulas_seen(batches@, batches@.len()),
{
    let mut n: u64 = 0;
    let mut i: usize = 0;
    while i < batches.len()
        invariant
            i <= batches@.len(),
            n == formulas_seen(batches@, i as nat),
        decreases batches@.len() - i,
    {
        n = n.saturating_add(batches[i].formulas.len() as u64);
        i = i + 1;
    }
    n
}

/// The batches that are built: those that hold formulas.
pub open spec fn built_batches(batches: Seq<FormulaIngestBatch>, n: nat) -> Seq<usize>
    decreases n,
{
    if n == 0 {
        Seq::empty()
    } else if batches[n - 1].formulas@.len() > 0 {
        built_batches(batches, (n - 1) as nat).push((n - 1) as usize)
    } else {
        built_batches(batches, (n - 1) as nat)
    }
}

/// Which batches are built.
pub fn batches_to_build(batches: &Vec<FormulaIngestBatch>) -> (r: Vec<usize>)
    ensures
        r@ == built_batches(batches@, batches@.len()),
{
    let mut out: Vec<usize> = Vec::new();
    let mut i: usize = 0;
    while i < batches.len()
        invariant
            i <= batches@.len(),
            out@ == built_batches(batches@, i as nat),
        decreases batches@.len() - i,
    {
        if batches[i].formulas.len() > 0 {
            out.push(i);
        }
        i = i + 1;
    }
    out
}

/// What parsing gave for the formula texts so far.
#[derive(Debug)]
pub struct ParseCache {
    keys: TextIndex,
    results: Vec<Option<u32>>,
}

/// The model of a [`ParseCache`]: the texts, and what parsing gave for them.
pub type ParseView = Seq<(Seq<char>, Option<u32>)>;

/// Whether the text was parsed with the result.
pub open spec fn was_parsed(known: ParseView, key: Seq<char>, result: Option<u32>) -> bool {
    exists|i: int| 0 <= i < known.len() && #[trigger] known[i] == (key, result)
}

/// Whether the text was not parsed yet.
pub open spec fn is_new_text(known: ParseView, key: Seq<char>) -> bool {
    forall|i: int| 0 <= i < known.len() ==> (#[trigger] known[i]).0 != key
}

/// What becomes of a waiting formula.
#[derive(Debug)]
pub enum PreparedFormula {
    /// It is built.
    Record(FormulaIngestRecord),
    /// It is left out, because its text could not be parsed.
    Skipped,
    /// Its text has to be parsed first.
    Parse(String),
}

impl ParseCache {
    pub closed spec fn view(&self) -> ParseView {
        Seq::new(self.results@.len(), |i: int| (self.keys@[i], self.results@[i]))
    }

    pub closed spec fn wf(&self) -> bool {
        self.keys.wf() && self.keys@.len() == self.results@.len()
    }

    pub fn new() -> (c: ParseCache)
        ensures
            c.wf(),
            c@.len() == 0,
    {
        ParseCache { keys: TextIndex::new(), results: Vec::new() }
    }

    /// Prepares a waiting formula; its text counts with an equals sign in front.
    pub fn prepare(&self, row: u32, col: u32, text: &str) -> (r: PreparedFormula)
        requires
            self.wf(),
        ensures
            match r {
                PreparedFormula::Record(f) => {
                    &&& was_parsed(self@, with_equals(text@), Some(f.ast_id))
                    &&& f.row == row
                    &&& f.col == col
                    &&& f.formula_text matches Some(t) && t@ == with_equals(text@)
                },
                PreparedFormula::Skipped => was_parsed(self@, with_equals(text@), None),
                PreparedFormula::Parse(key) => key@ == with_equals(text@) && is_new_text(
                    self@,
                    with_equals(text@),
                ),
            },
    {
        let key = formula_text(text);
        match self.keys.find(key.as_str()) {
            Some(i) => {
                assert(self@[i as int] == (key@, self.results@[i as int]));
                match self.results[i] {
                    Some(ast_id) => PreparedFormula::Record(
                        FormulaIngestRecord { row, col, ast_id, formula_text: Some(key) },
                    ),
                    None => PreparedFormula::Skipped,
                }
            },
            None => {
                assert forall|i: int| 0 <= i < self@.len() implies (#[trigger] self@[i]).0 != key@ by {
                    if self.keys@[i] == key@ {
                        assert(self.keys@.contains(key@));
                    }
                }
                PreparedFormula::Parse(key)
            },
        }
    }

    /// Takes over what parsing gave for a text.
    pub fn parsed(&mut self, key: &str, result: Option<u32>)
        requires
            old(self).wf(),
            is_new_text(old(self)@, key@),
        ensures
            final(self).wf(),
            final(self)@ == old(self)@.push((key@, result)),
    {
        let ghost before = self@;
        let ghost keys = self.keys@;
        proof {
            if keys.contains(key@) {
                let i = choose|i: int| 0 <= i < keys.len() && keys[i] == key@;
                assert(before[i].0 == key@);
            }
        }
        self.keys.intern(key);
        self.results.push(result);
        assert(self@ =~= before.push((key@, result)));
    }
}

/// What is done about a formula that cannot be parsed.
#[derive(Clone, Copy, Debug, PartialEq, Eq, Structural)]
pub enum FormulaParsePolicy {
    /// The whole load fails.
    Strict,
    /// The cell becomes an error.
    CoerceToError,
    /// The cell keeps the value that it has.
    KeepCachedValue,
    /// The cell shows the text of the formula.
    AsText,
}

/// A formula that could not be parsed.
#[derive(Debug)]
pub struct FormulaParseDiagnostic {
    pub sheet: String,
    pub row: u32,
    pub col: u32,
    pub formula: String,
    pub message: String,
    pub policy: FormulaParsePolicy,
}

/// The model of a [`FormulaParseDiagnostic`].
pub struct DiagnosticView {
    pub sheet: Seq<char>,
    pub row: u32,
    pub col: u32,
    pub formula: Seq<char>,
    pub message: Seq<char>,
    pub policy: FormulaParsePolicy,
}

impl FormulaParseDiagnostic {
    pub open spec fn view(&self) -> DiagnosticView {
        DiagnosticView {
            sheet: self.sheet@,
            row: self.row,
            col: self.col,
            formula: self.formula@,
            message: self.message@,
            policy: self.policy,
        }
    }
}

/// The letters of a column, or a question mark for a column that has none.
pub open spec fn column_name(col: u32) -> Seq<char> {
    if col == 0 {
        "?"@
    } else {
        column_letters(col as nat)
    }
}

/// The message of a load that fails on a formula.
pub open spec fn parse_failure(sheet: Seq<char>, row: u32, col: u32, message: Seq<char>) -> Seq<char> {
    "Formula parse error at "@ + sheet + "!"@ + column_name(col) + decimal(row as nat) + ": "@
        + message
}

fn parse_failure_text(sheet: &str, row: u32, col: u32, message: &str) -> (r: String)
    ensures
        r@ == parse_failure(sheet@, row, col, message@),
{
    let mut out = "Formula parse error at ".to_string();
    out.append(sheet);
    out.append("!");
    if col == 0 {
        out.append("?");
    } else {
        let letters = col_to_letters(col);
        out.append(letters.as_str());
    }
    push_decimal(&mut out, row as u64);
    out.append(": ");
    out.append(message);
    out
}

/// Decides what becomes of a formula that cannot be parsed: the load fails, or it is noted and the
/// cell keeps its value, shows the text, or becomes an error. The answer is the value that the
/// cell gets instead of a formula.
pub fn handle_formula_parse_error(
    policy: FormulaParsePolicy,
    diagnostics: &mut Vec<FormulaParseDiagnostic>,
    sheet: &str,
    row: u32,
    col: u32,
    formula: &str,
    message: &str,
) -> (r: Result<Option<LiteralValue>, ExcelError>)
    ensures
        match policy {
            FormulaParsePolicy::Strict => {
                &&& r matches Err(e) && e@ == error_with(
                    ErrorKind::Value,
                    parse_failure(sheet@, row, col, message@),
                )
                &&& final(diagnostics)@ == old(diagnostics)@
            },
            _ => {
                &&& final(diagnostics)@.len() == old(diagnostics)@.len() + 1
                &&& final(diagnostics)@.take(old(diagnostics)@.len() as int) == old(diagnostics)@
                &&& final(diagnostics)@.last()@ == (DiagnosticView {
                    sheet: sheet@,
                    row,
                    col,
                    formula: formula@,
                    message: message@,
                    policy,
                })
                &&& match policy {
                    FormulaParsePolicy::KeepCachedValue => r matches Ok(None),
                    FormulaParsePolicy::AsText => r matches Ok(Some(v)) && v@
                        == crate::value::ValueView::Text(formula@),
                    _ => r matches Ok(Some(v)) && v@ == crate::value::ValueView::Error(
                        error_with(ErrorKind::Error, "Malformed formula: "@ + message@),
                    ),
                }
            },
        },
{
    if policy == FormulaParsePolicy::Strict {
        let text = parse_failure_text(sheet, row, col, message);
        return Err(ExcelError::new(ErrorKind::Value).with_message(text.as_str()));
    }
    diagnostics.push(
        FormulaParseDiagnostic {
            sheet: sheet.to_string(),
            row,
            col,
            formula: formula.to_string(),
            message: message.to_string(),
            policy,
        },
    );
    assert(diagnostics@.take(old(diagnostics)@.len() as int) =~= old(diagnostics)@);
    match policy {
        FormulaParsePolicy::KeepCachedValue => Ok(None),
        FormulaParsePolicy::AsText => Ok(Some(LiteralValue::Text(formula.to_string()))),
        _ => {
            let mut text = "Malformed formula: ".to_string();
            text.append(message);
            Ok(
                Some(
                    LiteralValue::Error(
                        ExcelError::new(ErrorKind::Error).with_message(text.as_str()),
                    ),
                ),
            )
        },
    }
}

/// Counts of a report add up, and stop at the largest number.
pub proof fn reports_add_up(a: FormulaIngestReport, b: FormulaIngestReport, c: PlacementCounters)
    ensures
        ({
            let sum = |x: u64, y: u64, z: u64|
                if x + y <= u64::MAX {
                    z == x + y
                } else {
                    z == u64::MAX
                };
            let t = with_report(a, b);
            let p = with_placement(a, c);
            let f = with_fallback(a);
            &&& sum(a.formula_cells_seen, b.formula_cells_seen, t.formula_cells_seen)
            &&& sum(a.shadow_candidate_cells, b.shadow_candidate_cells, t.shadow_candidate_cells)
            &&& sum(a.shadow_accepted_span_cells, b.shadow_accepted_span_cells, t.shadow_accepted_span_cells)
            &&& sum(a.shadow_fallback_cells, b.shadow_fallback_cells, t.shadow_fallback_cells)
            &&& sum(a.shadow_templates_interned, b.shadow_templates_interned, t.shadow_templates_interned)
            &&& sum(a.shadow_spans_created, b.shadow_spans_created, t.shadow_spans_created)
            &&& sum(
                a.graph_formula_vertices_avoided_shadow,
                b.graph_formula_vertices_avoided_shadow,
                t.graph_formula_vertices_avoided_shadow,
            )
            &&& sum(a.ast_roots_avoided_shadow, b.ast_roots_avoided_shadow, t.ast_roots_avoided_shadow)
            &&& sum(a.edge_rows_avoided_shadow, b.edge_rows_avoided_shadow, t.edge_rows_avoided_shadow)
            &&& sum(
                a.graph_formula_cells_materialized,
                b.graph_formula_cells_materialized,
                t.graph_formula_cells_materialized,
            )
            &&& sum(a.graph_vertices_created, b.graph_vertices_created, t.graph_vertices_created)
            &&& sum(a.graph_edges_created, b.graph_edges_created, t.graph_edges_created)
            &&& t.mode == b.mode
            &&& sum(a.shadow_candidate_cells, c.formula_cells_seen, p.shadow_candidate_cells)
            &&& sum(a.shadow_accepted_span_cells, c.accepted_span_cells, p.shadow_accepted_span_cells)
            &&& sum(a.shadow_fallback_cells, c.legacy_cells, p.shadow_fallback_cells)
            &&& sum(a.shadow_templates_interned, c.templates_interned, p.shadow_templates_interned)
            &&& sum(a.shadow_spans_created, c.spans_created, p.shadow_spans_created)
            &&& sum(
                a.graph_formula_vertices_avoided_shadow,
                c.formula_vertices_avoided,
                p.graph_formula_vertices_avoided_shadow,
            )
            &&& sum(a.ast_roots_avoided_shadow, c.ast_roots_avoided, p.ast_roots_avoided_shadow)
            &&& sum(a.edge_rows_avoided_shadow, c.edge_rows_avoided, p.edge_rows_avoided_shadow)
            &&& p.formula_cells_seen == a.formula_cells_seen && p.graph_formula_cells_materialized
                == a.graph_formula_cells_materialized && p.graph_vertices_created == a.graph_vertices_created
                && p.graph_edges_created == a.graph_edges_created && p.mode == a.mode
            &&& sum(a.shadow_candidate_cells, 1, f.shadow_candidate_cells)
            &&& sum(a.shadow_fallback_cells, 1, f.shadow_fallback_cells)
            &&& f.shadow_accepted_span_cells == a.shadow_accepted_span_cells && f.formula_cells_seen
                == a.formula_cells_seen && f.mode == a.mode
        }),
{
}

/// Each record with a row and a column becomes a candidate for its cell, counted from zero; any other
/// is set aside.
pub proof fn records_become_candidates_or_are_set_aside(
    batch: usize,
    records: Seq<FormulaIngestRecord>,
    sheet_id: SheetId,
    n: nat,
    i: int,
)
    requires
        n <= records.len() <= usize::MAX,
        0 <= i < n,
    ensures
        records[i].row >= 1 && records[i].col >= 1 ==> batch_candidates(batch, records, sheet_id, n).contains(
            Candidate {
                batch,
                record: i as usize,
                cell: CellRef {
                    sheet_id,
                    row: (records[i].row - 1) as u32,
                    col: (records[i].col - 1) as u32,
                },
            },
        ),
        records[i].row == 0 || records[i].col == 0 ==> batch_misfits(batch, records, n).contains(
            (batch, i as usize),
        ),
        batch_candidates(batch, records, sheet_id, n).len() + batch_misfits(batch, records, n).len() == n,
    decreases n,
{
    let m = (n - 1) as nat;
    let (good, bad) = (batch_candidates(batch, records, sheet_id, m), batch_misfits(batch, records, m));
    lemma_records_are_counted(batch, records, sheet_id, m);
    let r = records[i];
    let c = Candidate {
        batch,
        record: i as usize,
        cell: CellRef { sheet_id, row: (r.row - 1) as u32, col: (r.col - 1) as u32 },
    };
    if i < m {
        records_become_candidates_or_are_set_aside(batch, records, sheet_id, m, i);
        if r.row >= 1 && r.col >= 1 {
            let k = choose|k: int| 0 <= k < good.len() && good[k] == c;
            assert(batch_candidates(batch, records, sheet_id, n)[k] == c);
        } else {
            let k = choose|k: int| 0 <= k < bad.len() && bad[k] == (batch, i as usize);
            assert(batch_misfits(batch, records, n)[k] == (batch, i as usize));
        }
    } else if r.row >= 1 && r.col >= 1 {
        assert(batch_candidates(batch, records, sheet_id, n)[good.len() as int] == c);
    } else {
        assert(batch_misfits(batch, records, n)[bad.len() as int] == (batch, i as usize));
    }
}

proof fn lemma_records_are_counted(
    batch: usize,
    records: Seq<FormulaIngestRecord>,
    sheet_id: SheetId,
    n: nat,
)
    requires
        n <= records.len(),
    ensures
        batch_candidates(batch, records, sheet_id, n).len() + batch_misfits(batch, records, n).len() == n,
    decreases n,
{
    if n > 0 {
        lemma_records_are_counted(batch, records, sheet_id, (n - 1) as nat);
    }
}

/// The candidates of a family, the rejected and the unsupported ones are listed apart, each in its own
/// list, and none is left out.
pub proof fn outcomes_are_listed_apart(outcomes: Seq<CandidateOutcome>, n: nat, i: int)
    requires
        n <= outcomes.len() <= usize::MAX,
        0 <= i < n,
    ensures
        outcomes[i] is Family ==> family_members(outcomes, n).contains(i as usize),
        outcomes[i] is Rejected ==> rejected_members(outcomes, n).contains(i as usize),
        outcomes[i] is Unsupported ==> unsupported_members(outcomes, n).contains(i as usize),
        family_members(outcomes, n).len() + rejected_members(outcomes, n).len() + unsupported_members(
            outcomes,
            n,
        ).len() == n,
    decreases n,
{
    let m = (n - 1) as nat;
    let (a, b, c) = (
        family_members(outcomes, m),
        rejected_members(outcomes, m),
        unsupported_members(outcomes, m),
    );
    lemma_outcomes_are_counted(outcomes, m);
    if i < m {
        outcomes_are_listed_apart(outcomes, m, i);
        if outcomes[i] is Family {
            let k = choose|k: int| 0 <= k < a.len() && a[k] == i;
            assert(family_members(outcomes, n)[k] == i);
        } else if outcomes[i] is Rejected {
            let k = choose|k: int| 0 <= k < b.len() && b[k] == i;
            assert(rejected_members(outcomes, n)[k] == i);
        } else {
            let k = choose|k: int| 0 <= k < c.len() && c[k] == i;
            assert(unsupported_members(outcomes, n)[k] == i);
        }
    } else if outcomes[i] is Family {
        assert(family_members(outcomes, n)[a.len() as int] == i);
    } else if outcomes[i] is Rejected {
        assert(rejected_members(outcomes, n)[b.len() as int] == i);
    } else {
        assert(unsupported_members(outcomes, n)[c.len() as int] == i);
    }
}

proof fn lemma_outcomes_are_counted(outcomes: Seq<CandidateOutcome>, n: nat)
    requires
        n <= outcomes.len(),
    ensures
        family_members(outcomes, n).len() + rejected_members(outcomes, n).len() + unsupported_members(
            outcomes,
            n,
        ).len() == n,
    decreases n,
{
    if n > 0 {
        lemma_outcomes_are_counted(outcomes, (n - 1) as nat);
    }
}

/// Batches with formulas are built, and empty ones are not.
pub proof fn batches_with_formulas_are_built(batches: Seq<FormulaIngestBatch>, n: nat, i: int)
    requires
        n <= batches.len() <= usize::MAX,
        0 <= i < n,
    ensures
        built_batches(batches, n).contains(i as usize) <==> batches[i].formulas@.len() > 0,
    decreases n,
{
    let m = (n - 1) as nat;
    let before = built_batches(batches, m);
    lemma_built_are_below(batches, m);
    if i < m {
        batches_with_formulas_are_built(batches, m, i);
        if before.contains(i as usize) {
            let k = choose|k: int| 0 <= k < before.len() && before[k] == i;
            assert(built_batches(batches, n)[k] == i);
        }
        if built_batches(batches, n).contains(i as usize) {
            let all = built_batches(batches, n);
            let k = choose|k: int| 0 <= k < all.len() && all[k] == i;
            if k < before.len() {
                assert(before[k] == i);
            }
        }
    } else if batches[i].formulas@.len() > 0 {
        assert(built_batches(batches, n)[before.len() as int] == i);
    } else if before.contains(i as usize) {
        let k = choose|k: int| 0 <= k < before.len() && before[k] == i;
        assert(before[k] < m);
    }
}

proof fn lemma_built_are_below(batches: Seq<FormulaIngestBatch>, n: nat)
    requires
        n <= batches.len() <= usize::MAX,
    ensures
        forall|k: int|
            0 <= k < built_batches(batches, n).len() ==> (#[trigger] built_batches(batches, n)[k]) < n,
    decreases n,
{
    if n > 0 {
        let before = built_batches(batches, (n - 1) as nat);
        lemma_built_are_below(batches, (n - 1) as nat);
        assert forall|k: int| 0 <= k < built_batches(batches, n).len() implies (#[trigger] built_batches(
            batches,
            n,
        )[k]) < n by {
            if k < before.len() {
                assert(built_batches(batches, n)[k] == before[k]);
            }
        }
    }
}

/// Of a formula that cannot be parsed the sheet, the column's letters, the row and the reason are given.
pub proof fn parse_failures_name_the_cell(sheet: Seq<char>, row: u32, col: u32, message: Seq<char>)
    requires
        col > 0,
    ensures
        parse_failure(sheet, row, col, message) == "Formula parse error at "@ + sheet + "!"@ + column_letters(
            col as nat,
        ) + decimal(row as nat) + ": "@ + message,
{
}

/// Reasons are counted by their text; what no template fits counts as one of its own.
pub proof fn reasons_are_counted_by_their_text(outcomes: Seq<CandidateOutcome>, reason: Seq<char>, n: nat)
    requires
        n <= outcomes.len(),
    ensures
        reason_count(outcomes, reason, n) == outcomes.take(n as int).filter(
            |o: CandidateOutcome|
                match o {
                    CandidateOutcome::Family { .. } => false,
                    CandidateOutcome::Rejected { reason: r } => r@ == reason,
                    CandidateOutcome::Unsupported => reason == "UnsupportedCanonicalTemplate"@,
                },
        ).len(),
    decreases n,
{
    reveal(Seq::filter);
    if n > 0 {
        reasons_are_counted_by_their_text(outcomes, reason, (n - 1) as nat);
        let long = outcomes.take(n as int);
        assert(long.drop_last() =~= outcomes.take(n - 1));
        assert(long.last() == outcomes[n - 1]);
    }
}

/// All formulas of all batches are seen.
pub proof fn all_formulas_are_seen(batches: Seq<FormulaIngestBatch>, n: nat, i: int)
    requires
        n <= batches.len(),
        0 <= i < n,
        batches[i].formulas@.len() <= u64::MAX,
    ensures
        formulas_seen(batches, n) >= batches[i].formulas@.len(),
        n == 1 ==> formulas_seen(batches, n) == batches[0].formulas@.len(),
    decreases n,
{
    reveal_with_fuel(formulas_seen, 2);
    if i < n - 1 {
        all_formulas_are_seen(batches, (n - 1) as nat, i);
    }
}

/// The count of a reason is the sum of the counts of its entries.
pub proof fn counts_of_a_reason_add_up(entries: Seq<(String, u64)>, reason: Seq<char>, more: (String, u64))
    ensures
        reason_total(entries.push(more), reason, entries.len() + 1) == reason_total(
            entries,
            reason,
            entries.len(),
        ) + (if more.0@ == reason {
            more.1 as nat
        } else {
            0nat
        }),
        reason_total(Seq::empty(), reason, 0) == 0,
{
    lemma_total_of_front(entries.push(more), entries, reason, entries.len());
}

proof fn lemma_total_of_front(a: Seq<(String, u64)>, b: Seq<(String, u64)>, reason: Seq<char>, n: nat)
    requires
        n <= a.len(),
        n <= b.len(),
        forall|i: int| 0 <= i < n ==> a[i] == #[trigger] b[i],
    ensures
        reason_total(a, reason, n) == reason_total(b, reason, n),
    decreases n,
{
    if n > 0 {
        lemma_total_of_front(a, b, reason, (n - 1) as nat);
        assert(a[n - 1] == b[n - 1]);
    }
}

/// Two formulas of one cell are paired crosswise; a formula alone in its cell is paired with itself.
pub proof fn formulas_of_one_cell_are_paired_crosswise(cells: Seq<CellRef>, list: Seq<usize>, k: int)
    requires
        0 <= k < list.len(),
    ensures
        trial_pairs(cells, list).len() == list.len(),
        (k == 0 || !same_place(cells, list[k - 1], list[k])) && (k + 1 == list.len() || !same_place(
            cells,
            list[k],
            list[k + 1],
        )) ==> trial_pairs(cells, list)[k] == list[k],
        k + 1 < list.len() && same_place(cells, list[k], list[k + 1]) && (k == 0 || !same_place(
            cells,
            list[k - 1],
            list[k],
        )) && (k + 2 == list.len() || !same_place(cells, list[k + 1], list[k + 2])) ==> trial_pairs(
            cells,
            list,
        )[k] == list[k + 1] && trial_pairs(cells, list)[k + 1] == list[k],
{
    reveal_with_fuel(run_start, 3);
    reveal_with_fuel(run_last, 3);
}

/// Every formula is on the stack of its place.
pub proof fn formulas_of_one_place_are_stacked(cells: Seq<CellRef>, n: nat, i: int)
    requires
        n <= cells.len() <= usize::MAX,
        0 <= i < n,
    ensures
        stack_at(stacked(cells, n), place_key(cells[i])).contains(i as usize),
    decreases n,
{
    let before = stacked(cells, (n - 1) as nat);
    let k = place_key(cells[n - 1]);
    let list = stack_at(before, k);
    let all = list.push((n - 1) as usize);
    assert(all[list.len() as int] == n - 1);
    if i < n - 1 {
        formulas_of_one_place_are_stacked(cells, (n - 1) as nat, i);
        let mine = stack_at(before, place_key(cells[i]));
        let a = choose|a: int| 0 <= a < mine.len() && mine[a] == i;
        if place_key(cells[i]) == k {
            assert(all[a] == i);
        }
    }
}

/// Batches are built in their order, each once.
pub proof fn batches_are_built_in_order(batches: Seq<FormulaIngestBatch>, n: nat)
    requires
        n <= batches.len() <= usize::MAX,
    ensures
        forall|k: int, l: int|
            0 <= k < l < built_batches(batches, n).len() ==> (#[trigger] built_batches(batches, n)[k]) < (
            #[trigger] built_batches(batches, n)[l]),
    decreases n,
{
    if n > 0 {
        let before = built_batches(batches, (n - 1) as nat);
        batches_are_built_in_order(batches, (n - 1) as nat);
        lemma_built_are_below(batches, (n - 1) as nat);
        assert forall|k: int, l: int| 0 <= k < l < built_batches(batches, n).len() implies (
        #[trigger] built_batches(batches, n)[k]) < (#[trigger] built_batches(batches, n)[l]) by {
            assert(built_batches(batches, n)[k] == before[k]);
            if l < before.len() {
                assert(built_batches(batches, n)[l] == before[l]);
            }
        }
    }
}

} // verus!
