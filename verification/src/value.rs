//! Cell values, spreadsheet errors and their mathematical models.
use vstd::prelude::*;
use crate::number::{double_eq, same_double};

verus! {

/// The class of a spreadsheet error.
#[derive(Clone, Copy, Debug, PartialEq, Eq, Structural)]
pub enum ErrorKind {
    Null,
    Ref,
    Name,
    Value,
    Div,
    Na,
    Num,
    Error,
    NImpl,
    Spill,
    Calc,
    Circ,
    Cancelled,
}

/// What an error carries besides its kind and message.
#[derive(Clone, Copy, Debug, PartialEq, Eq, Structural)]
pub enum ErrorExtra {
    Plain,
    Spill { expected_rows: u32, expected_cols: u32 },
}

/// A spreadsheet error: kind, optional message, optional extra data.
#[derive(Debug)]
pub struct ExcelError {
    pub kind: ErrorKind,
    pub message: Option<String>,
    pub extra: ErrorExtra,
}

/// The model of an [`ExcelError`].
#[verifier::ext_equal]
pub struct ErrorView {
    pub kind: ErrorKind,
    pub message: Option<Seq<char>>,
    pub extra: ErrorExtra,
}

/// The error of kind `kind` with the message `message` and nothing else.
pub open spec fn error_with(kind: ErrorKind, message: Seq<char>) -> ErrorView {
    ErrorView { kind, message: Some(message), extra: ErrorExtra::Plain }
}

/// The error of kind `kind` without message.
pub open spec fn bare_error(kind: ErrorKind) -> ErrorView {
    ErrorView { kind, message: None, extra: ErrorExtra::Plain }
}

/// The characters of an optional text.
pub open spec fn text_view(t: Option<String>) -> Option<Seq<char>> {
    match t {
        Some(s) => Some(s@),
        None => None,
    }
}

impl View for ExcelError {
    type V = ErrorView;

    open spec fn view(&self) -> ErrorView {
        ErrorView { kind: self.kind, message: text_view(self.message), extra: self.extra }
    }
}

impl ExcelError {
    pub fn new(kind: ErrorKind) -> (e: ExcelError)
        ensures
            e@ == bare_error(kind),
    {
        ExcelError { kind, message: None, extra: ErrorExtra::Plain }
    }

    pub fn with_message(self, message: &str) -> (e: ExcelError)
        ensures
            e@ == (ErrorView { kind: self@.kind, message: Some(message@), extra: self@.extra }),
    {
        ExcelError { kind: self.kind, message: Some(message.to_string()), extra: self.extra }
    }

    pub fn with_extra(self, extra: ErrorExtra) -> (e: ExcelError)
        ensures
            e@ == (ErrorView { kind: self@.kind, message: self@.message, extra }),
    {
        ExcelError { kind: self.kind, message: self.message, extra }
    }

    pub fn duplicate(&self) -> (e: ExcelError)
        ensures
            e@ == self@,
    {
        let message = match &self.message {
            Some(m) => Some(m.clone()),
            None => None,
        };
        ExcelError { kind: self.kind, message, extra: self.extra }
    }

    /// Whether two errors agree in every part.
    pub fn same(&self, other: &ExcelError) -> (b: bool)
        ensures
            b == (self@ == other@),
    {
        let same_message = match (&self.message, &other.message) {
            (Some(a), Some(b)) => *a == *b,
            (None, None) => true,
            _ => false,
        };
        proof {
            if same_message && self.kind == other.kind && self.extra == other.extra {
                assert(self@ =~= other@);
            }
        }
        same_message && self.kind == other.kind && self.extra == other.extra
    }
}

/// A cell value. Numbers and date serials are doubles, held by their bits.
#[derive(Debug)]
pub enum LiteralValue {
    Empty,
    Int(i64),
    Number(u64),
    Boolean(bool),
    Text(String),
    Error(ExcelError),
    Date(u64),
    DateTime(u64),
    Time(u64),
    Duration(u64),
    Pending,
    Array(Vec<Vec<LiteralValue>>),
}

/// The model of a [`LiteralValue`].
pub enum ValueView {
    Empty,
    Int(i64),
    Number(u64),
    Boolean(bool),
    Text(Seq<char>),
    Error(ErrorView),
    Date(u64),
    DateTime(u64),
    Time(u64),
    Duration(u64),
    Pending,
    Array(Seq<Seq<ValueView>>),
}

impl LiteralValue {
    pub open spec fn view(&self) -> ValueView
        decreases self,
    {
        match self {
            LiteralValue::Empty => ValueView::Empty,
            LiteralValue::Int(i) => ValueView::Int(*i),
            LiteralValue::Number(n) => ValueView::Number(*n),
            LiteralValue::Boolean(b) => ValueView::Boolean(*b),
            LiteralValue::Text(t) => ValueView::Text(t@),
            LiteralValue::Error(e) => ValueView::Error(e@),
            LiteralValue::Date(n) => ValueView::Date(*n),
            LiteralValue::DateTime(n) => ValueView::DateTime(*n),
            LiteralValue::Time(n) => ValueView::Time(*n),
            LiteralValue::Duration(n) => ValueView::Duration(*n),
            LiteralValue::Pending => ValueView::Pending,
            LiteralValue::Array(rows) => ValueView::Array(
                Seq::new(
                    rows@.len(),
                    |i: int|
                        if 0 <= i < rows@.len() {
                            let row = rows@[i];
                            Seq::new(
                                row@.len(),
                                |j: int|
                                    if 0 <= j < row@.len() {
                                        row@[j].view()
                                    } else {
                                        ValueView::Empty
                                    },
                            )
                        } else {
                            Seq::empty()
                        },
                ),
            ),
        }
    }
}

/// The model of one row of values.
pub open spec fn row_view(row: Seq<LiteralValue>) -> Seq<ValueView> {
    Seq::new(row.len(), |j: int| row[j].view())
}

/// The model of a table of values, row by row.
pub open spec fn rows_view(rows: Seq<Vec<LiteralValue>>) -> Seq<Seq<ValueView>> {
    Seq::new(rows.len(), |i: int| row_view(rows[i]@))
}

pub proof fn lemma_array_view(rows: Vec<Vec<LiteralValue>>)
    ensures
        LiteralValue::Array(rows)@ == ValueView::Array(rows_view(rows@)),
{
    let v = LiteralValue::Array(rows)@;
    assert(v is Array);
    assert(v->Array_0 =~= rows_view(rows@)) by {
        assert forall|i: int| 0 <= i < rows@.len() implies #[trigger] v->Array_0[i] == rows_view(
            rows@,
        )[i] by {
            assert(v->Array_0[i] =~= row_view(rows@[i]@));
        }
    }
}

impl LiteralValue {
    pub fn duplicate(&self) -> (r: LiteralValue)
        ensures
            r@ == self@,
        decreases self,
    {
        match self {
            LiteralValue::Empty => LiteralValue::Empty,
            LiteralValue::Int(i) => LiteralValue::Int(*i),
            LiteralValue::Number(n) => LiteralValue::Number(*n),
            LiteralValue::Boolean(b) => LiteralValue::Boolean(*b),
            LiteralValue::Text(t) => LiteralValue::Text(t.clone()),
            LiteralValue::Error(e) => LiteralValue::Error(e.duplicate()),
            LiteralValue::Date(n) => LiteralValue::Date(*n),
            LiteralValue::DateTime(n) => LiteralValue::DateTime(*n),
            LiteralValue::Time(n) => LiteralValue::Time(*n),
            LiteralValue::Duration(n) => LiteralValue::Duration(*n),
            LiteralValue::Pending => LiteralValue::Pending,
            LiteralValue::Array(rows) => {
                let mut out: Vec<Vec<LiteralValue>> = Vec::new();
                let mut i: usize = 0;
                while i < rows.len()
                    invariant
                        i <= rows@.len(),
                        out@.len() == i,
                        self == LiteralValue::Array(*rows),
                        forall|k: int| 0 <= k < i ==> row_view(#[trigger] out@[k]@) == row_view(rows@[k]@),
                    decreases rows@.len() - i,
                {
                    let row = &rows[i];
                    let mut copy: Vec<LiteralValue> = Vec::new();
                    let mut j: usize = 0;
                    while j < row.len()
                        invariant
                            i < rows@.len(),
                            row == rows@[i as int],
                            self == LiteralValue::Array(*rows),
                            j <= row@.len(),
                            copy@.len() == j,
                            forall|k: int| 0 <= k < j ==> (#[trigger] copy@[k])@ == row@[k]@,
                        decreases row@.len() - j,
                    {
                        proof {
                            assert(*rows == self->Array_0);
                            assert(decreases_to!(*self => self->Array_0));
                            assert(decreases_to!(*rows => rows@[i as int]));
                            assert(decreases_to!(rows@[i as int] => row@[j as int]));
                        }
                        copy.push(row[j].duplicate());
                        j = j + 1;
                    }
                    proof {
                        assert(row_view(copy@) =~= row_view(row@));
                    }
                    out.push(copy);
                    i = i + 1;
                }
                proof {
                    lemma_array_view(*rows);
                    lemma_array_view(out);
                    assert(rows_view(out@) =~= rows_view(rows@));
                }
                LiteralValue::Array(out)
            },
        }
    }
}

/// Whether two values are equal as cell contents: numbers and serials compare as doubles, so a
/// NaN equals nothing and the two zeros are equal; an array equals one of the same shape whose
/// elements are equal.
pub open spec fn value_eq(a: ValueView, b: ValueView) -> bool
    decreases a,
{
    match (a, b) {
        (ValueView::Empty, ValueView::Empty) => true,
        (ValueView::Int(x), ValueView::Int(y)) => x == y,
        (ValueView::Number(x), ValueView::Number(y)) => double_eq(x, y),
        (ValueView::Boolean(x), ValueView::Boolean(y)) => x == y,
        (ValueView::Text(x), ValueView::Text(y)) => x == y,
        (ValueView::Error(x), ValueView::Error(y)) => x == y,
        (ValueView::Date(x), ValueView::Date(y)) => double_eq(x, y),
        (ValueView::DateTime(x), ValueView::DateTime(y)) => double_eq(x, y),
        (ValueView::Time(x), ValueView::Time(y)) => double_eq(x, y),
        (ValueView::Duration(x), ValueView::Duration(y)) => double_eq(x, y),
        (ValueView::Pending, ValueView::Pending) => true,
        (ValueView::Array(x), ValueView::Array(y)) => {
            &&& x.len() == y.len()
            &&& forall|i: int|
                0 <= i < x.len() ==> {
                    &&& (#[trigger] x[i]).len() == y[i].len()
                    &&& forall|j: int| 0 <= j < x[i].len() ==> value_eq(#[trigger] x[i][j], y[i][j])
                }
        },
        _ => false,
    }
}

/// Whether two rows of values are equal.
pub open spec fn row_eq(x: Seq<ValueView>, y: Seq<ValueView>) -> bool {
    &&& x.len() == y.len()
    &&& forall|j: int| 0 <= j < x.len() ==> value_eq(#[trigger] x[j], y[j])
}

impl LiteralValue {
    /// Equality of cell contents.
    pub fn same(&self, other: &LiteralValue) -> (b: bool)
        ensures
            b == value_eq(self@, other@),
        decreases self,
    {
        match (self, other) {
            (LiteralValue::Empty, LiteralValue::Empty) => true,
            (LiteralValue::Int(x), LiteralValue::Int(y)) => *x == *y,
            (LiteralValue::Number(x), LiteralValue::Number(y)) => same_double(*x, *y),
            (LiteralValue::Boolean(x), LiteralValue::Boolean(y)) => *x == *y,
            (LiteralValue::Text(x), LiteralValue::Text(y)) => *x == *y,
            (LiteralValue::Error(x), LiteralValue::Error(y)) => x.same(y),
            (LiteralValue::Date(x), LiteralValue::Date(y)) => same_double(*x, *y),
            (LiteralValue::DateTime(x), LiteralValue::DateTime(y)) => same_double(*x, *y),
            (LiteralValue::Time(x), LiteralValue::Time(y)) => same_double(*x, *y),
            (LiteralValue::Duration(x), LiteralValue::Duration(y)) => same_double(*x, *y),
            (LiteralValue::Pending, LiteralValue::Pending) => true,
            (LiteralValue::Array(x), LiteralValue::Array(y)) => {
                proof {
                    lemma_array_view(*x);
                    lemma_array_view(*y);
                }
                let ghost xs = rows_view(x@);
                let ghost ys = rows_view(y@);
                if x.len() != y.len() {
                    return false;
                }
                let mut i: usize = 0;
                while i < x.len()
                    invariant
                        i <= x@.len(),
                        x@.len() == y@.len(),
                        self is Array,
                        *x == self->Array_0,
                        xs == rows_view(x@),
                        ys == rows_view(y@),
                        self@ == ValueView::Array(xs),
                        other@ == ValueView::Array(ys),
                        forall|k: int| 0 <= k < i ==> row_eq(#[trigger] xs[k], ys[k]),
                    decreases x@.len() - i,
                {
                    let p = &x[i];
                    let q = &y[i];
                    assert(xs[i as int].len() == p@.len());
                    assert(ys[i as int].len() == q@.len());
                    if p.len() != q.len() {
                        return false;
                    }
                    let mut j: usize = 0;
                    while j < p.len()
                        invariant
                            i < x@.len(),
                            x@.len() == y@.len(),
                            p == x@[i as int],
                            q == y@[i as int],
                            p@.len() == q@.len(),
                            j <= p@.len(),
                            self is Array,
                            *x == self->Array_0,
                            xs == rows_view(x@),
                            ys == rows_view(y@),
                            self@ == ValueView::Array(xs),
                            other@ == ValueView::Array(ys),
                            forall|k: int| 0 <= k < j ==> value_eq(#[trigger] xs[i as int][k], ys[i as int][k]),
                        decreases p@.len() - j,
                    {
                        proof {
                            assert(decreases_to!(*self => self->Array_0));
                            assert(decreases_to!(*x => x@[i as int]));
                            assert(decreases_to!(x@[i as int] => p@[j as int]));
                            assert(xs[i as int][j as int] == p@[j as int]@);
                            assert(ys[i as int][j as int] == q@[j as int]@);
                        }
                        if !p[j].same(&q[j]) {
                            return false;
                        }
                        j = j + 1;
                    }
                    assert(row_eq(xs[i as int], ys[i as int]));
                    i = i + 1;
                }
                true
            },
            _ => false,
        }
    }

    /// Whether the value is the empty value.
    pub fn is_empty(&self) -> (b: bool)
        ensures
            b == (self@ == ValueView::Empty),
    {
        matches!(self, LiteralValue::Empty)
    }
}

/// A copy of a row of values.
pub fn duplicate_row(row: &Vec<LiteralValue>) -> (r: Vec<LiteralValue>)
    ensures
        row_view(r@) == row_view(row@),
{
    let mut out: Vec<LiteralValue> = Vec::new();
    let mut i: usize = 0;
    while i < row.len()
        invariant
            i <= row@.len(),
            out@.len() == i,
            forall|k: int| 0 <= k < i ==> (#[trigger] out@[k])@ == row@[k]@,
        decreases row@.len() - i,
    {
        out.push(row[i].duplicate());
        i = i + 1;
    }
    assert(row_view(out@) =~= row_view(row@));
    out
}

/// Values of different kinds differ; of the same kind they are equal exactly where they hold the same,
/// but that the two zeros are equal and what is no number equals nothing.
pub proof fn values_are_equal_where_they_hold_the_same(a: ValueView, b: ValueView)
    ensures
        value_eq(a, b) ==> {
            &&& a is Empty == b is Empty
            &&& a is Int == b is Int
            &&& a is Number == b is Number
            &&& a is Boolean == b is Boolean
            &&& a is Text == b is Text
            &&& a is Error == b is Error
            &&& a is Date == b is Date
            &&& a is DateTime == b is DateTime
            &&& a is Time == b is Time
            &&& a is Duration == b is Duration
            &&& a is Pending == b is Pending
            &&& a is Array == b is Array
        },
        !(a is Number) && !(a is Date) && !(a is DateTime) && !(a is Time) && !(a is Duration) && !(
        a is Array) ==> value_eq(a, b) == (a == b),
        a is Number && b is Number ==> value_eq(a, b) == ({
            let (x, y) = (a->Number_0, b->Number_0);
            let nan = |n: u64| n as int % 0x8000_0000_0000_0000 > 0x7ff0_0000_0000_0000;
            !nan(x) && !nan(y) && (x == y || ((x == 0 || x == 0x8000_0000_0000_0000) && (y == 0 || y
                == 0x8000_0000_0000_0000)))
        }),
        (a is Time && b is Time) ==> value_eq(a, b) == value_eq(
            ValueView::Number(a->Time_0),
            ValueView::Number(b->Time_0),
        ),
        (a is Duration && b is Duration) ==> value_eq(a, b) == value_eq(
            ValueView::Number(a->Duration_0),
            ValueView::Number(b->Duration_0),
        ),
        (a is DateTime && b is DateTime) ==> value_eq(a, b) == value_eq(
            ValueView::Number(a->DateTime_0),
            ValueView::Number(b->DateTime_0),
        ),
        (a is Date && b is Date) ==> value_eq(a, b) == value_eq(
            ValueView::Number(a->Date_0),
            ValueView::Number(b->Date_0),
        ),
{
}

/// Arrays are equal exactly where they have as many rows, the rows as many values, and these are equal.
pub proof fn arrays_are_equal_value_by_value(x: Seq<Seq<ValueView>>, y: Seq<Seq<ValueView>>)
    ensures
        value_eq(ValueView::Array(x), ValueView::Array(y)) <==> x.len() == y.len() && (forall|i: int|
            0 <= i < x.len() ==> (#[trigger] x[i]).len() == y[i].len()) && (forall|i: int, j: int|
            0 <= i < x.len() && 0 <= j < x[i].len() ==> value_eq(#[trigger] x[i][j], y[i][j])),
{
    if x.len() == y.len() && (forall|i: int|
        0 <= i < x.len() ==> (#[trigger] x[i]).len() == y[i].len()) && (forall|i: int, j: int|
        0 <= i < x.len() && 0 <= j < x[i].len() ==> value_eq(#[trigger] x[i][j], y[i][j])) {
        assert forall|i: int| 0 <= i < x.len() implies {
            &&& (#[trigger] x[i]).len() == y[i].len()
            &&& forall|j: int| 0 <= j < x[i].len() ==> value_eq(#[trigger] x[i][j], y[i][j])
        } by {}
    }
}

} // verus!
