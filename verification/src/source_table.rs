//! Tables and values of outside sources.
use crate::reference_type::{SpecialItem, TableSpecifier};
use crate::text::{lowercase, lowered, trim_text, trimmed};
use crate::value::{ErrorKind, ErrorView, ExcelError, LiteralValue, ValueView, duplicate_row, error_with, row_view, rows_view};
use vstd::prelude::*;

verus! {

/// What is asked of a source's table.
#[derive(Debug)]
pub enum SourceTablePlan {
    /// The column of this name.
    Column(String),
    /// The columns from one position to another.
    Columns { first: usize, last: usize },
    Headers,
    Totals,
    Data,
    /// Headers, data and totals, as far as the table has them.
    All,
}

/// The model of a [`SourceTablePlan`].
pub enum SourceTableView {
    Column(Seq<char>),
    Columns { first: nat, last: nat },
    Headers,
    Totals,
    Data,
    All,
}

impl SourceTablePlan {
    pub open spec fn view(&self) -> SourceTableView {
        match *self {
            SourceTablePlan::Column(n) => SourceTableView::Column(n@),
            SourceTablePlan::Columns { first, last } => SourceTableView::Columns {
                first: first as nat,
                last: last as nat,
            },
            SourceTablePlan::Headers => SourceTableView::Headers,
            SourceTablePlan::Totals => SourceTableView::Totals,
            SourceTablePlan::Data => SourceTableView::Data,
            SourceTablePlan::All => SourceTableView::All,
        }
    }
}

/// Whether a column name is the start of a richer reference.
pub open spec fn is_complex(name: Seq<char>) -> bool {
    name == "@"@ || name.contains('[') || name.contains(']') || name.contains(',')
}

fn has_complex_mark(name: &String) -> (b: bool)
    ensures
        b == is_complex(name@),
{
    let at = "@".to_string();
    if *name == at {
        return true;
    }
    let n = name.as_str().unicode_len();
    let mut i: usize = 0;
    while i < n
        invariant
            n == name@.len(),
            i <= n,
            forall|k: int|
                0 <= k < i ==> name@[k] != '[' && name@[k] != ']' && #[trigger] name@[k] != ',',
        decreases n - i,
    {
        let c = name.as_str().get_char(i);
        if c == '[' || c == ']' || c == ',' {
            assert(name@[i as int] == c);
            assert(name@.contains(c));
            return true;
        }
        i = i + 1;
    }
    false
}

/// The position of the first column whose name, in lower case, is the key.
pub open spec fn is_position(columns: Seq<String>, key: Seq<char>, found: Option<usize>) -> bool {
    match found {
        Some(i) => {
            &&& i < columns.len()
            &&& lowercase(columns[i as int]@) == key
            &&& forall|k: int| 0 <= k < i ==> lowercase((#[trigger] columns[k])@) != key
        },
        None => forall|k: int|
            0 <= k < columns.len() ==> lowercase((#[trigger] columns[k])@) != key,
    }
}

/// The key of a column name: without blanks at its ends, in lower case.
pub open spec fn column_key(name: Seq<char>) -> Seq<char> {
    lowercase(trimmed(name))
}

fn position(columns: &Vec<String>, key: &String) -> (r: Option<usize>)
    ensures
        is_position(columns@, key@, r),
{
    let mut i: usize = 0;
    while i < columns.len()
        invariant
            i <= columns@.len(),
            forall|k: int| 0 <= k < i ==> lowercase((#[trigger] columns@[k])@) != key@,
        decreases columns@.len() - i,
    {
        let low = lowered(columns[i].as_str());
        if low == *key {
            return Some(i);
        }
        i = i + 1;
    }
    None
}

/// Whether the answer is what a structured reference asks of a source's table with the given
/// columns.
pub open spec fn is_source_plan(
    columns: Seq<String>,
    specifier: Option<TableSpecifier>,
    r: Result<SourceTableView, ErrorView>,
) -> bool {
    let complex = error_with(
        ErrorKind::NImpl,
        "Complex structured references not yet supported"@,
    );
    match specifier {
        None => r == Err::<SourceTableView, ErrorView>(
            error_with(ErrorKind::NImpl, "Table reference without specifier is unsupported"@),
        ),
        Some(TableSpecifier::Column(c)) => if is_complex(trimmed(c@)) {
            r == Err::<SourceTableView, ErrorView>(complex)
        } else {
            r == Ok::<SourceTableView, ErrorView>(SourceTableView::Column(trimmed(c@)))
        },
        Some(TableSpecifier::ColumnRange(a, b)) => exists|i: Option<usize>, k: Option<usize>|
            {
                &&& #[trigger] is_position(columns, column_key(a@), i)
                &&& #[trigger] is_position(columns, column_key(b@), k)
                &&& match (i, k) {
                    (Some(i), Some(k)) => r == Ok::<SourceTableView, ErrorView>(
                        SourceTableView::Columns {
                            first: if i <= k {
                                i as nat
                            } else {
                                k as nat
                            },
                            last: if i <= k {
                                k as nat
                            } else {
                                i as nat
                            },
                        },
                    ),
                    _ => r == Err::<SourceTableView, ErrorView>(
                        error_with(ErrorKind::Ref, "Column range refers to unknown column(s)"@),
                    ),
                }
            },
        Some(TableSpecifier::Headers)
        | Some(TableSpecifier::SpecialItem(SpecialItem::Headers)) => r == Ok::<
            SourceTableView,
            ErrorView,
        >(SourceTableView::Headers),
        Some(TableSpecifier::Totals)
        | Some(TableSpecifier::SpecialItem(SpecialItem::Totals)) => r == Ok::<
            SourceTableView,
            ErrorView,
        >(SourceTableView::Totals),
        Some(TableSpecifier::Data) | Some(TableSpecifier::SpecialItem(SpecialItem::Data)) => r
            == Ok::<SourceTableView, ErrorView>(SourceTableView::Data),
        Some(TableSpecifier::All) | Some(TableSpecifier::SpecialItem(SpecialItem::All)) => r
            == Ok::<SourceTableView, ErrorView>(SourceTableView::All),
        Some(TableSpecifier::SpecialItem(SpecialItem::ThisRow)) => r == Err::<
            SourceTableView,
            ErrorView,
        >(
            error_with(
                ErrorKind::NImpl,
                "@ (This Row) requires table-aware context; not yet supported"@,
            ),
        ),
        Some(TableSpecifier::Row) | Some(TableSpecifier::Combination) => r == Err::<
            SourceTableView,
            ErrorView,
        >(complex),
    }
}

pub open spec fn source_result(r: Result<SourceTablePlan, ExcelError>) -> Result<
    SourceTableView,
    ErrorView,
> {
    match r {
        Ok(p) => Ok(p@),
        Err(e) => Err(e@),
    }
}

/// Finds what a structured reference asks of a source's table. Columns are found by name without
/// regard to case.
pub fn source_table_to_range_view(columns: &Vec<String>, specifier: &Option<TableSpecifier>) -> (r: Result<
    SourceTablePlan,
    ExcelError,
>)
    ensures
        is_source_plan(columns@, *specifier, source_result(r)),
{
    match specifier {
        None => Err(
            ExcelError::new(ErrorKind::NImpl).with_message(
                "Table reference without specifier is unsupported",
            ),
        ),
        Some(TableSpecifier::Column(c)) => {
            let name = trim_text(c.as_str());
            if has_complex_mark(&name) {
                return Err(
                    ExcelError::new(ErrorKind::NImpl).with_message(
                        "Complex structured references not yet supported",
                    ),
                );
            }
            Ok(SourceTablePlan::Column(name))
        },
        Some(TableSpecifier::ColumnRange(a, b)) => {
            let start = trim_text(a.as_str());
            let end = trim_text(b.as_str());
            let start_key = lowered(start.as_str());
            let end_key = lowered(end.as_str());
            let i = position(columns, &start_key);
            let k = position(columns, &end_key);
            assert(is_position(columns@, column_key(a@), i));
            assert(is_position(columns@, column_key(b@), k));
            match (i, k) {
                (Some(i), Some(k)) => {
                    if i <= k {
                        Ok(SourceTablePlan::Columns { first: i, last: k })
                    } else {
                        Ok(SourceTablePlan::Columns { first: k, last: i })
                    }
                },
                _ => Err(
                    ExcelError::new(ErrorKind::Ref).with_message(
                        "Column range refers to unknown column(s)",
                    ),
                ),
            }
        },
        Some(TableSpecifier::Headers) => Ok(SourceTablePlan::Headers),
        Some(TableSpecifier::Totals) => Ok(SourceTablePlan::Totals),
        Some(TableSpecifier::Data) => Ok(SourceTablePlan::Data),
        Some(TableSpecifier::All) => Ok(SourceTablePlan::All),
        Some(TableSpecifier::SpecialItem(item)) => match item {
            SpecialItem::Headers => Ok(SourceTablePlan::Headers),
            SpecialItem::Totals => Ok(SourceTablePlan::Totals),
            SpecialItem::Data => Ok(SourceTablePlan::Data),
            SpecialItem::All => Ok(SourceTablePlan::All),
            SpecialItem::ThisRow => Err(
                ExcelError::new(ErrorKind::NImpl).with_message(
                    "@ (This Row) requires table-aware context; not yet supported",
                ),
            ),
        },
        Some(TableSpecifier::Row) | Some(TableSpecifier::Combination) => Err(
            ExcelError::new(ErrorKind::NImpl).with_message(
                "Complex structured references not yet supported",
            ),
        ),
    }
}

/// The columns side by side, as rows; a column that is too short is filled up with empty values.
pub open spec fn side_by_side(height: nat, columns: Seq<Seq<ValueView>>) -> Seq<Seq<ValueView>> {
    Seq::new(
        height,
        |r: int|
            Seq::new(
                columns.len(),
                |c: int|
                    if r < columns[c].len() {
                        columns[c][r]
                    } else {
                        ValueView::Empty
                    },
            ),
    )
}

/// Puts columns side by side.
pub fn join_columns(height: usize, columns: &Vec<Vec<LiteralValue>>) -> (rows: Vec<Vec<LiteralValue>>)
    ensures
        rows_view(rows@) == side_by_side(height as nat, rows_view(columns@)),
{
    let ghost models = rows_view(columns@);
    let ghost goal = side_by_side(height as nat, models);
    let mut rows: Vec<Vec<LiteralValue>> = Vec::new();
    let mut r: usize = 0;
    while r < height
        invariant
            r <= height,
            models == rows_view(columns@),
            goal == side_by_side(height as nat, models),
            rows@.len() == r,
            forall|k: int| 0 <= k < r ==> row_view((#[trigger] rows@[k])@) == goal[k],
        decreases height - r,
    {
        let mut row: Vec<LiteralValue> = Vec::new();
        let mut c: usize = 0;
        while c < columns.len()
            invariant
                r < height,
                c <= columns@.len(),
                models == rows_view(columns@),
                row@.len() == c,
                forall|k: int|
                    0 <= k < c ==> (#[trigger] row@[k])@ == (if r < models[k].len() {
                        models[k][r as int]
                    } else {
                        ValueView::Empty
                    }),
            decreases columns@.len() - c,
        {
            assert(models[c as int] == row_view(columns@[c as int]@));
            let value = if r < columns[c].len() {
                columns[c][r].duplicate()
            } else {
                LiteralValue::Empty
            };
            row.push(value);
            c = c + 1;
        }
        assert(row_view(row@) =~= goal[r as int]);
        rows.push(row);
        r = r + 1;
    }
    assert(rows_view(rows@) =~= goal);
    rows
}

/// The rows, or none where there is no such part.
pub open spec fn part_rows(part: Option<Vec<Vec<LiteralValue>>>) -> Seq<Seq<ValueView>> {
    match part {
        Some(rows) => rows_view(rows@),
        None => Seq::empty(),
    }
}

fn push_rows(out: &mut Vec<Vec<LiteralValue>>, part: &Option<Vec<Vec<LiteralValue>>>)
    ensures
        rows_view(final(out)@) == rows_view(old(out)@) + part_rows(*part),
{
    let ghost before = rows_view(out@);
    match part {
        Some(rows) => {
            let ghost models = rows_view(rows@);
            let mut i: usize = 0;
            assert(rows_view(out@) =~= before + models.take(0));
            while i < rows.len()
                invariant
                    i <= rows@.len(),
                    models == rows_view(rows@),
                    rows_view(out@) == before + models.take(i as int),
                decreases rows@.len() - i,
            {
                let ghost prior = out@;
                out.push(duplicate_row(&rows[i]));
                proof {
                    assert(rows_view(out@) =~= rows_view(prior).push(row_view(rows@[i as int]@)));
                    assert(models.take(i + 1) =~= models.take(i as int).push(models[i as int]));
                    assert(rows_view(out@) =~= before + models.take(i + 1));
                }
                i = i + 1;
            }
            assert(models.take(i as int) =~= models);
        },
        None => {
            assert(rows_view(out@) =~= before + Seq::<Seq<ValueView>>::empty());
        },
    }
}

/// A whole table: its headers, its data and its totals, as far as it has them.
pub fn whole_table(
    headers: &Option<Vec<Vec<LiteralValue>>>,
    body: &Option<Vec<Vec<LiteralValue>>>,
    totals: &Option<Vec<Vec<LiteralValue>>>,
) -> (rows: Vec<Vec<LiteralValue>>)
    ensures
        rows_view(rows@) == part_rows(*headers) + part_rows(*body) + part_rows(*totals),
{
    let mut out: Vec<Vec<LiteralValue>> = Vec::new();
    assert(rows_view(out@) =~= Seq::<Seq<ValueView>>::empty());
    push_rows(&mut out, headers);
    push_rows(&mut out, body);
    push_rows(&mut out, totals);
    assert(rows_view(out@) =~= part_rows(*headers) + part_rows(*body) + part_rows(*totals));
    out
}

/// What an error of a source is reported as: an unknown name is an unresolved source.
pub open spec fn source_failure(what: Seq<char>, name: Seq<char>, e: ErrorView) -> ErrorView {
    if e.kind == ErrorKind::Name || e.kind == ErrorKind::NImpl {
        error_with(ErrorKind::Ref, what + name)
    } else {
        e
    }
}

fn source_error(what: &str, name: &str, e: ExcelError) -> (r: ExcelError)
    ensures
        r@ == source_failure(what@, name@, e@),
{
    if e.kind == ErrorKind::Name || e.kind == ErrorKind::NImpl {
        let mut message = what.to_string();
        message.append(name);
        ExcelError::new(ErrorKind::Ref).with_message(message.as_str())
    } else {
        e
    }
}

/// The error of a value that a source could not give.
pub fn source_scalar_error(name: &str, e: ExcelError) -> (r: ExcelError)
    ensures
        r@ == source_failure("Unresolved source scalar: "@, name@, e@),
{
    source_error("Unresolved source scalar: ", name, e)
}

/// The error of a table that a source could not give.
pub fn source_table_error(name: &str, e: ExcelError) -> (r: ExcelError)
    ensures
        r@ == source_failure("Unresolved source table: "@, name@, e@),
{
    source_error("Unresolved source table: ", name, e)
}

/// A value that a source gave, with the name and the version that it was asked for.
#[derive(Debug)]
pub struct CachedScalar {
    pub name: String,
    pub version: Option<u64>,
    pub value: LiteralValue,
}

/// A table that a source gave, with the name and the version that it was asked for, and the number
/// under which its holder finds it.
#[derive(Debug)]
pub struct CachedTable {
    pub name: String,
    pub version: Option<u64>,
    pub handle: usize,
}

/// What sources gave in this session.
#[derive(Debug)]
pub struct SourceCache {
    scalars: Vec<CachedScalar>,
    tables: Vec<CachedTable>,
}

/// The number of the table that was kept for the name and the version, counting from the first `n`.
pub open spec fn cached_table(tables: Seq<CachedTable>, name: Seq<char>, version: Option<u64>, n: nat) -> Option<
    usize,
>
    decreases n,
{
    if n == 0 {
        None
    } else if tables[n - 1].name@ == name && tables[n - 1].version == version {
        Some(tables[n - 1].handle)
    } else {
        cached_table(tables, name, version, (n - 1) as nat)
    }
}

/// The value that was kept for the name and the version, counting from the first `n`.
pub open spec fn cached(scalars: Seq<CachedScalar>, name: Seq<char>, version: Option<u64>, n: nat) -> Option<
    ValueView,
>
    decreases n,
{
    if n == 0 {
        None
    } else if scalars[n - 1].name@ == name && scalars[n - 1].version == version {
        Some(scalars[n - 1].value@)
    } else {
        cached(scalars, name, version, (n - 1) as nat)
    }
}

impl SourceCache {
    /// The number of the table that is kept for a name and a version.
    pub closed spec fn kept_table(&self, name: Seq<char>, version: Option<u64>) -> Option<usize> {
        cached_table(self.tables@, name, version, self.tables@.len())
    }

    /// The value that is kept for a name and a version.
    pub closed spec fn kept(&self, name: Seq<char>, version: Option<u64>) -> Option<ValueView> {
        cached(self.scalars@, name, version, self.scalars@.len())
    }

    pub fn new() -> (c: SourceCache)
        ensures
            forall|name: Seq<char>, version: Option<u64>| #[trigger]
                c.kept(name, version) is None,
            forall|name: Seq<char>, version: Option<u64>| #[trigger]
                c.kept_table(name, version) is None,
    {
        SourceCache { scalars: Vec::new(), tables: Vec::new() }
    }

    /// Forgets everything.
    pub fn clear_source_cache(&mut self)
        ensures
            forall|name: Seq<char>, version: Option<u64>| #[trigger]
                final(self).kept(name, version) is None,
            forall|name: Seq<char>, version: Option<u64>| #[trigger]
                final(self).kept_table(name, version) is None,
    {
        self.scalars = Vec::new();
        self.tables = Vec::new();
    }

    /// The value that a source gave for the name and version before.
    pub fn lookup(&self, name: &String, version: Option<u64>) -> (r: Option<LiteralValue>)
        ensures
            match (r, self.kept(name@, version)) {
                (Some(v), Some(k)) => v@ == k,
                (None, None) => true,
                _ => false,
            },
    {
        let mut i: usize = self.scalars.len();
        while i > 0
            invariant
                i <= self.scalars@.len(),
                cached(self.scalars@, name@, version, self.scalars@.len()) == cached(
                    self.scalars@,
                    name@,
                    version,
                    i as nat,
                ),
            decreases i,
        {
            let e = &self.scalars[i - 1];
            if e.name == *name && e.version == version {
                return Some(e.value.duplicate());
            }
            i = i - 1;
        }
        None
    }

    /// The number of the table that a source gave for the name and version before.
    pub fn lookup_table(&self, name: &String, version: Option<u64>) -> (r: Option<usize>)
        ensures
            r == self.kept_table(name@, version),
    {
        let mut i: usize = self.tables.len();
        while i > 0
            invariant
                i <= self.tables@.len(),
                self.kept_table(name@, version) == cached_table(
                    self.tables@,
                    name@,
                    version,
                    i as nat,
                ),
            decreases i,
        {
            let e = &self.tables[i - 1];
            if e.name == *name && e.version == version {
                return Some(e.handle);
            }
            i = i - 1;
        }
        None
    }

    /// Takes over what a source answered when it was asked for a table: its number is kept for the
    /// rest of the session, an error is reported and not kept.
    pub fn answered_table(
        &mut self,
        name: &String,
        version: Option<u64>,
        answer: Result<usize, ExcelError>,
    ) -> (r: Result<usize, ExcelError>)
        ensures
            forall|n: Seq<char>, k: Option<u64>| #[trigger]
                final(self).kept(n, k) == old(self).kept(n, k),
            match answer {
                Ok(handle) => {
                    &&& r == Ok::<usize, ExcelError>(handle)
                    &&& final(self).kept_table(name@, version) == Some(handle)
                    &&& forall|n: Seq<char>, k: Option<u64>|
                        (n, k) != (name@, version) ==> #[trigger] final(self).kept_table(n, k)
                            == old(self).kept_table(n, k)
                },
                Err(e) => {
                    &&& r matches Err(x) && x@ == source_failure(
                        "Unresolved source table: "@,
                        name@,
                        e@,
                    )
                    &&& forall|n: Seq<char>, k: Option<u64>| #[trigger]
                        final(self).kept_table(n, k) == old(self).kept_table(n, k)
                },
            },
    {
        match answer {
            Ok(handle) => {
                let ghost before = self.tables@;
                self.tables.push(CachedTable { name: name.clone(), version, handle });
                proof {
                    assert forall|n: Seq<char>, k: Option<u64>|
                        (n, k) != (name@, version) implies #[trigger] self.kept_table(n, k) == old(
                        self,
                    ).kept_table(n, k) by {
                        lemma_cached_table_prefix(before, self.tables@, n, k, before.len());
                    }
                }
                Ok(handle)
            },
            Err(e) => Err(source_table_error(name.as_str(), e)),
        }
    }

    /// Takes over what a source answered: a value is kept for the rest of the session, an error is
    /// reported and not kept.
    pub fn answered(
        &mut self,
        name: &String,
        version: Option<u64>,
        answer: Result<LiteralValue, ExcelError>,
    ) -> (r: Result<LiteralValue, ExcelError>)
        ensures
            forall|n: Seq<char>, k: Option<u64>| #[trigger]
                final(self).kept_table(n, k) == old(self).kept_table(n, k),
            match answer {
                Ok(v) => {
                    &&& r matches Ok(x) && x@ == v@
                    &&& final(self).kept(name@, version) == Some(v@)
                    &&& forall|n: Seq<char>, k: Option<u64>|
                        (n, k) != (name@, version) ==> #[trigger] final(self).kept(n, k) == old(
                            self,
                        ).kept(n, k)
                },
                Err(e) => {
                    &&& r matches Err(x) && x@ == source_failure(
                        "Unresolved source scalar: "@,
                        name@,
                        e@,
                    )
                    &&& forall|n: Seq<char>, k: Option<u64>| #[trigger]
                        final(self).kept(n, k) == old(self).kept(n, k)
                },
            },
    {
        match answer {
            Ok(v) => {
                let ghost before = self.scalars@;
                let copy = v.duplicate();
                self.scalars.push(CachedScalar { name: name.clone(), version, value: v });
                proof {
                    assert forall|n: Seq<char>, k: Option<u64>|
                        (n, k) != (name@, version) implies #[trigger] self.kept(n, k) == old(
                        self,
                    ).kept(n, k) by {
                        lemma_cached_prefix(before, self.scalars@, n, k, before.len());
                    }
                }
                Ok(copy)
            },
            Err(e) => Err(source_scalar_error(name.as_str(), e)),
        }
    }
}

proof fn lemma_cached_prefix(
    a: Seq<CachedScalar>,
    b: Seq<CachedScalar>,
    name: Seq<char>,
    version: Option<u64>,
    n: nat,
)
    requires
        n <= a.len() <= b.len(),
        forall|i: int| 0 <= i < a.len() ==> a[i] == b[i],
    ensures
        cached(a, name, version, n) == cached(b, name, version, n),
    decreases n,
{
    if n > 0 {
        lemma_cached_prefix(a, b, name, version, (n - 1) as nat);
    }
}

proof fn lemma_cached_table_prefix(
    a: Seq<CachedTable>,
    b: Seq<CachedTable>,
    name: Seq<char>,
    version: Option<u64>,
    n: nat,
)
    requires
        n <= a.len() <= b.len(),
        forall|i: int| 0 <= i < a.len() ==> a[i] == b[i],
    ensures
        cached_table(a, name, version, n) == cached_table(b, name, version, n),
    decreases n,
{
    if n > 0 {
        lemma_cached_table_prefix(a, b, name, version, (n - 1) as nat);
    }
}

/// The column of an outside table is asked for under its name without the white space around, unless
/// the name is that of the row at hand or of several parts.
pub proof fn columns_are_asked_for_by_their_names(
    columns: Seq<String>,
    c: String,
    r: Result<SourceTableView, ErrorView>,
)
    requires
        is_source_plan(columns, Some(TableSpecifier::Column(c)), r),
    ensures
        ({
            let name = trimmed(c@);
            let several = exists|i: int|
                0 <= i < name.len() && (#[trigger] name[i] == '[' || name[i] == ']' || name[i] == ',');
            if name == "@"@ || several {
                r matches Err(e) && e.kind == ErrorKind::NImpl
            } else {
                r matches Ok(SourceTableView::Column(n)) && n == name
            }
        }),
{
}

/// A range of columns runs from the first to the last column named, in whichever order they are given,
/// and the names are found whatever their case and the white space around them.
pub proof fn column_ranges_run_between_the_columns_named(
    columns: Seq<String>,
    a: String,
    b: String,
    r: Result<SourceTableView, ErrorView>,
    i: int,
    k: int,
)
    requires
        is_source_plan(columns, Some(TableSpecifier::ColumnRange(a, b)), r),
        0 <= i < columns.len() <= usize::MAX,
        0 <= k < columns.len(),
        lowercase(columns[i]@) == lowercase(trimmed(a@)),
        lowercase(columns[k]@) == lowercase(trimmed(b@)),
        forall|j: int| 0 <= j < i ==> lowercase((#[trigger] columns[j])@) != lowercase(trimmed(a@)),
        forall|j: int| 0 <= j < k ==> lowercase((#[trigger] columns[j])@) != lowercase(trimmed(b@)),
    ensures
        r matches Ok(SourceTableView::Columns { first, last }) && first <= last && ((first == i && last == k)
            || (first == k && last == i)),
{
    let (x, y) = choose|x: Option<usize>, y: Option<usize>|
        #[trigger] is_position(columns, column_key(a@), x) && #[trigger] is_position(
            columns,
            column_key(b@),
            y,
        ) && match (x, y) {
            (Some(x), Some(y)) => r == Ok::<SourceTableView, ErrorView>(
                SourceTableView::Columns {
                    first: if x <= y {
                        x as nat
                    } else {
                        y as nat
                    },
                    last: if x <= y {
                        y as nat
                    } else {
                        x as nat
                    },
                },
            ),
            _ => r == Err::<SourceTableView, ErrorView>(
                error_with(ErrorKind::Ref, "Column range refers to unknown column(s)"@),
            ),
        };
    assert(x matches Some(x) ==> x == i) by {
        if let Some(x) = x {
            if x < i {
                assert(lowercase(columns[x as int]@) != lowercase(trimmed(a@)));
            }
        }
    }
    assert(y matches Some(y) ==> y == k) by {
        if let Some(y) = y {
            if y < k {
                assert(lowercase(columns[y as int]@) != lowercase(trimmed(b@)));
            }
        }
    }
}

/// An unknown column makes a range of columns an error.
pub proof fn ranges_of_unknown_columns_are_refused(
    columns: Seq<String>,
    a: String,
    b: String,
    r: Result<SourceTableView, ErrorView>,
)
    requires
        is_source_plan(columns, Some(TableSpecifier::ColumnRange(a, b)), r),
        (forall|j: int| 0 <= j < columns.len() ==> lowercase((#[trigger] columns[j])@) != lowercase(
            trimmed(a@),
        )) || (forall|j: int|
            0 <= j < columns.len() ==> lowercase((#[trigger] columns[j])@) != lowercase(trimmed(b@))),
    ensures
        r matches Err(e) && e.kind == ErrorKind::Ref && e.message == Some(
            "Column range refers to unknown column(s)"@,
        ),
{
}

/// The other parts of an outside table are those that are named, whether by themselves or as a special
/// item; a row, a combination and a missing part are not supported.
pub proof fn the_parts_of_an_outside_table(
    columns: Seq<String>,
    specifier: Option<TableSpecifier>,
    r: Result<SourceTableView, ErrorView>,
)
    requires
        is_source_plan(columns, specifier, r),
    ensures
        specifier is None ==> (r matches Err(e) && e.kind == ErrorKind::NImpl),
        specifier matches Some(p) ==> {
            &&& p is Headers || p == TableSpecifier::SpecialItem(SpecialItem::Headers) ==> r == Ok::<
                SourceTableView,
                ErrorView,
            >(SourceTableView::Headers)
            &&& p is Totals || p == TableSpecifier::SpecialItem(SpecialItem::Totals) ==> r == Ok::<
                SourceTableView,
                ErrorView,
            >(SourceTableView::Totals)
            &&& p is Data || p == TableSpecifier::SpecialItem(SpecialItem::Data) ==> r == Ok::<
                SourceTableView,
                ErrorView,
            >(SourceTableView::Data)
            &&& p is All || p == TableSpecifier::SpecialItem(SpecialItem::All) ==> r == Ok::<
                SourceTableView,
                ErrorView,
            >(SourceTableView::All)
            &&& p is Row || p is Combination || p == TableSpecifier::SpecialItem(SpecialItem::ThisRow)
                ==> (r matches Err(e) && e.kind == ErrorKind::NImpl)
        },
{
}

/// Columns stand side by side: each row has a value of each column, the empty one where the column is
/// shorter.
pub proof fn columns_stand_side_by_side(height: nat, columns: Seq<Seq<ValueView>>, row: int, c: int)
    requires
        0 <= row < height,
        0 <= c < columns.len(),
    ensures
        side_by_side(height, columns).len() == height,
        side_by_side(height, columns)[row].len() == columns.len(),
        row < columns[c].len() ==> side_by_side(height, columns)[row][c] == columns[c][row],
        row >= columns[c].len() ==> side_by_side(height, columns)[row][c] == ValueView::Empty,
{
}

/// Where a source does not know a name, or cannot look, the reference is at fault; any other failure is
/// handed on as it is.
pub proof fn unknown_sources_are_reference_errors(what: Seq<char>, name: Seq<char>, e: ErrorView)
    ensures
        e.kind == ErrorKind::Name || e.kind == ErrorKind::NImpl ==> source_failure(what, name, e).kind
            == ErrorKind::Ref && source_failure(what, name, e).message == Some(what + name),
        e.kind != ErrorKind::Name && e.kind != ErrorKind::NImpl ==> source_failure(what, name, e) == e,
{
}

/// The latest value kept for a name and version is found, and nothing is where none is kept.
pub proof fn the_latest_kept_value_is_found(
    scalars: Seq<CachedScalar>,
    tables: Seq<CachedTable>,
    name: Seq<char>,
    version: Option<u64>,
    n: nat,
    i: int,
)
    requires
        n <= scalars.len(),
        n <= tables.len(),
        0 <= i < n,
    ensures
        scalars[i].name@ == name && scalars[i].version == version && (forall|k: int|
            i < k < n ==> (#[trigger] scalars[k]).name@ != name || scalars[k].version != version) ==> cached(
            scalars,
            name,
            version,
            n,
        ) == Some(scalars[i].value@),
        tables[i].name@ == name && tables[i].version == version && (forall|k: int|
            i < k < n ==> (#[trigger] tables[k]).name@ != name || tables[k].version != version)
            ==> cached_table(tables, name, version, n) == Some(tables[i].handle),
        (forall|k: int|
            0 <= k < n ==> (#[trigger] scalars[k]).name@ != name || scalars[k].version != version) ==> cached(
            scalars,
            name,
            version,
            n,
        ) is None,
        (forall|k: int|
            0 <= k < n ==> (#[trigger] tables[k]).name@ != name || tables[k].version != version)
            ==> cached_table(tables, name, version, n) is None,
    decreases n,
{
    reveal_with_fuel(cached, 2);
    reveal_with_fuel(cached_table, 2);
    if n > 1 {
        let m = (n - 1) as nat;
        the_latest_kept_value_is_found(
            scalars,
            tables,
            name,
            version,
            m,
            if i < m {
                i
            } else {
                0
            },
        );
    }
}

} // verus!
