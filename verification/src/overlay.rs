//! Overlay values and the lanes of the storage that hold them.
use crate::fx::{map_get, map_insert, map_remove};
use crate::number::{double_eq, int_bits, int_to_double, same_double};
use crate::value::{ErrorKind, ExcelError, LiteralValue, ValueView, bare_error};
use crate::coord::{CellRef, SheetId, cell_key, cells_name_their_keys, is_cell_key, key_cell, keys_name_their_cells, spec_cell_key, spec_key_cell};
use crate::region::Region;
use rustc_hash::FxHashMap;
use vstd::prelude::*;
use vstd::utf8::encode_utf8;

verus! {

/// A value as the storage holds it. Numbers and serials are doubles, held by their bits.
#[derive(Debug)]
pub enum OverlayValue {
    Empty,
    Number(u64),
    DateTime(u64),
    Duration(u64),
    Boolean(bool),
    Text(String),
    Error(ErrorKind),
    Pending,
}

/// Whether two stored values are equal; numbers compare as doubles.
pub open spec fn overlay_eq(a: OverlayValue, b: OverlayValue) -> bool {
    match (a, b) {
        (OverlayValue::Empty, OverlayValue::Empty) => true,
        (OverlayValue::Number(x), OverlayValue::Number(y)) => double_eq(x, y),
        (OverlayValue::DateTime(x), OverlayValue::DateTime(y)) => double_eq(x, y),
        (OverlayValue::Duration(x), OverlayValue::Duration(y)) => double_eq(x, y),
        (OverlayValue::Boolean(x), OverlayValue::Boolean(y)) => x == y,
        (OverlayValue::Text(x), OverlayValue::Text(y)) => x@ == y@,
        (OverlayValue::Error(x), OverlayValue::Error(y)) => x == y,
        (OverlayValue::Pending, OverlayValue::Pending) => true,
        _ => false,
    }
}

/// What a stored value takes besides its entry: the bytes of a text.
pub open spec fn payload_bytes(v: OverlayValue) -> usize {
    match v {
        OverlayValue::Text(s) => encode_utf8(s@).len() as usize,
        _ => 0,
    }
}

/// What one entry of an overlay takes at least.
pub const ENTRY_BASE_BYTES: usize = 32;

/// `a + b`, stopping at the largest number.
pub open spec fn sum_stopping(a: usize, b: usize) -> usize {
    if a + b <= usize::MAX {
        (a + b) as usize
    } else {
        usize::MAX
    }
}

/// What an entry with the value takes.
pub open spec fn entry_bytes(v: OverlayValue) -> usize {
    sum_stopping(ENTRY_BASE_BYTES, payload_bytes(v))
}

impl OverlayValue {
    pub fn duplicate(&self) -> (r: OverlayValue)
        ensures
            r == *self,
    {
        match self {
            OverlayValue::Empty => OverlayValue::Empty,
            OverlayValue::Number(n) => OverlayValue::Number(*n),
            OverlayValue::DateTime(n) => OverlayValue::DateTime(*n),
            OverlayValue::Duration(n) => OverlayValue::Duration(*n),
            OverlayValue::Boolean(b) => OverlayValue::Boolean(*b),
            OverlayValue::Text(s) => OverlayValue::Text(s.clone()),
            OverlayValue::Error(k) => OverlayValue::Error(*k),
            OverlayValue::Pending => OverlayValue::Pending,
        }
    }

    pub fn same(&self, other: &OverlayValue) -> (b: bool)
        ensures
            b == overlay_eq(*self, *other),
    {
        match (self, other) {
            (OverlayValue::Empty, OverlayValue::Empty) => true,
            (OverlayValue::Number(x), OverlayValue::Number(y)) => same_double(*x, *y),
            (OverlayValue::DateTime(x), OverlayValue::DateTime(y)) => same_double(*x, *y),
            (OverlayValue::Duration(x), OverlayValue::Duration(y)) => same_double(*x, *y),
            (OverlayValue::Boolean(x), OverlayValue::Boolean(y)) => *x == *y,
            (OverlayValue::Text(x), OverlayValue::Text(y)) => *x == *y,
            (OverlayValue::Error(x), OverlayValue::Error(y)) => *x == *y,
            (OverlayValue::Pending, OverlayValue::Pending) => true,
            _ => false,
        }
    }

    pub fn is_empty(&self) -> (b: bool)
        ensures
            b == (*self == OverlayValue::Empty),
    {
        matches!(self, OverlayValue::Empty)
    }

    pub fn estimated_payload_bytes(&self) -> (n: usize)
        ensures
            n == payload_bytes(*self),
    {
        match self {
            OverlayValue::Text(s) => s.as_str().len(),
            _ => 0,
        }
    }

    /// The value that a reader of the cell gets.
    pub fn to_literal(&self) -> (v: LiteralValue)
        ensures
            v@ == literal_of(*self),
    {
        match self {
            OverlayValue::Empty => LiteralValue::Empty,
            OverlayValue::Number(n) => LiteralValue::Number(*n),
            OverlayValue::DateTime(n) => LiteralValue::DateTime(*n),
            OverlayValue::Duration(n) => LiteralValue::Duration(*n),
            OverlayValue::Boolean(b) => LiteralValue::Boolean(*b),
            OverlayValue::Text(s) => LiteralValue::Text(s.clone()),
            OverlayValue::Error(k) => LiteralValue::Error(ExcelError::new(*k)),
            OverlayValue::Pending => LiteralValue::Pending,
        }
    }
}

/// The value that a reader of a stored value gets.
pub open spec fn literal_of(v: OverlayValue) -> ValueView {
    match v {
        OverlayValue::Empty => ValueView::Empty,
        OverlayValue::Number(n) => ValueView::Number(n),
        OverlayValue::DateTime(n) => ValueView::DateTime(n),
        OverlayValue::Duration(n) => ValueView::Duration(n),
        OverlayValue::Boolean(b) => ValueView::Boolean(b),
        OverlayValue::Text(s) => ValueView::Text(s@),
        OverlayValue::Error(k) => ValueView::Error(bare_error(k)),
        OverlayValue::Pending => ValueView::Pending,
    }
}

/// Whether `stored` is how the storage holds the value: integers as the nearest double, dates and
/// times as date serials, errors by their kind alone, and an array as a value error.
pub open spec fn stores(value: ValueView, stored: OverlayValue) -> bool {
    match value {
        ValueView::Empty => stored == OverlayValue::Empty,
        ValueView::Int(i) => stored == OverlayValue::Number(int_bits(i)),
        ValueView::Number(n) => stored == OverlayValue::Number(n),
        ValueView::Boolean(b) => stored == OverlayValue::Boolean(b),
        ValueView::Text(t) => stored matches OverlayValue::Text(s) && s@ == t,
        ValueView::Error(e) => stored == OverlayValue::Error(e.kind),
        ValueView::Date(n) => stored == OverlayValue::DateTime(n),
        ValueView::DateTime(n) => stored == OverlayValue::DateTime(n),
        ValueView::Time(n) => stored == OverlayValue::DateTime(n),
        ValueView::Duration(n) => stored == OverlayValue::Duration(n),
        ValueView::Pending => stored == OverlayValue::Pending,
        ValueView::Array(_) => stored == OverlayValue::Error(ErrorKind::Value),
    }
}

/// How the storage holds a value.
pub fn literal_to_overlay_value(value: &LiteralValue) -> (r: OverlayValue)
    ensures
        stores(value@, r),
{
    match value {
        LiteralValue::Empty => OverlayValue::Empty,
        LiteralValue::Int(i) => OverlayValue::Number(int_to_double(*i)),
        LiteralValue::Number(n) => OverlayValue::Number(*n),
        LiteralValue::Boolean(b) => OverlayValue::Boolean(*b),
        LiteralValue::Text(s) => OverlayValue::Text(s.clone()),
        LiteralValue::Error(e) => OverlayValue::Error(e.kind),
        LiteralValue::Date(n) => OverlayValue::DateTime(*n),
        LiteralValue::DateTime(n) => OverlayValue::DateTime(*n),
        LiteralValue::Time(n) => OverlayValue::DateTime(*n),
        LiteralValue::Duration(n) => OverlayValue::Duration(*n),
        LiteralValue::Pending => OverlayValue::Pending,
        LiteralValue::Array(_) => OverlayValue::Error(ErrorKind::Value),
    }
}

/// What is read of a value that was stored: numbers, booleans, texts, date-times, durations and the
/// empty and pending values as they were; integers as numbers; errors without their message.
pub proof fn reading_gives_back_what_was_stored(value: ValueView, stored: OverlayValue)
    requires
        stores(value, stored),
    ensures
        literal_of(stored) == (match value {
            ValueView::Int(i) => ValueView::Number(int_bits(i)),
            ValueView::Error(e) => ValueView::Error(bare_error(e.kind)),
            ValueView::Date(n) => ValueView::DateTime(n),
            ValueView::Time(n) => ValueView::DateTime(n),
            ValueView::Array(_) => ValueView::Error(bare_error(ErrorKind::Value)),
            other => other,
        }),
{
}

/// What a public read of a cell answers: nothing for an empty cell, and numbers for integers.
pub fn normalize_public_cell_read(value: LiteralValue) -> (r: Option<LiteralValue>)
    ensures
        match r {
            None => value@ == ValueView::Empty,
            Some(v) => {
                &&& value@ != ValueView::Empty
                &&& v@ == (match value@ {
                    ValueView::Int(i) => ValueView::Number(int_bits(i)),
                    other => other,
                })
            },
        },
{
    match value {
        LiteralValue::Empty => None,
        LiteralValue::Int(i) => Some(LiteralValue::Number(int_to_double(i))),
        other => Some(other),
    }
}

/// One lane of the storage: the values at some cells, by cell key.
#[derive(Debug)]
pub struct Lane {
    entries: Vec<(u128, OverlayValue)>,
    index: FxHashMap<u128, usize>,
    bytes: u128,
}

/// The values of the first entries, by key.
pub open spec fn entry_map(entries: Seq<(u128, OverlayValue)>) -> Map<u128, OverlayValue>
    decreases entries.len(),
{
    if entries.len() == 0 {
        Map::empty()
    } else {
        entry_map(entries.drop_last()).insert(entries.last().0, entries.last().1)
    }
}

proof fn lemma_entry_map(entries: Seq<(u128, OverlayValue)>, k: u128)
    requires
        distinct_keys(entries),
    ensures
        forall|i: int|
            0 <= i < entries.len() && (#[trigger] entries[i]).0 == k ==> entry_map(
                entries,
            ).contains_key(k) && entry_map(entries)[k] == entries[i].1,
        (forall|i: int| 0 <= i < entries.len() ==> (#[trigger] entries[i]).0 != k) ==> !entry_map(
            entries,
        ).contains_key(k),
    decreases entries.len(),
{
    if entries.len() > 0 {
        let front = entries.drop_last();
        assert forall|i: int, j: int| 0 <= i < j < front.len() implies (#[trigger] front[i]).0 != (
        #[trigger] front[j]).0 by {
            assert(entries[i].0 != entries[j].0);
        }
        lemma_entry_map(front, k);
        assert forall|i: int|
            0 <= i < entries.len() && (#[trigger] entries[i]).0 == k implies entry_map(
            entries,
        ).contains_key(k) && entry_map(entries)[k] == entries[i].1 by {
            if i < front.len() {
                assert(front[i] == entries[i]);
                assert(entries[i].0 != entries[entries.len() - 1].0);
            }
        }
        if forall|i: int| 0 <= i < entries.len() ==> (#[trigger] entries[i]).0 != k {
            assert(entries[entries.len() - 1].0 != k);
            assert forall|i: int| 0 <= i < front.len() implies (#[trigger] front[i]).0 != k by {
                assert(entries[i].0 != k);
            }
        }
    }
}

pub open spec fn distinct_keys(entries: Seq<(u128, OverlayValue)>) -> bool {
    forall|i: int, j: int|
        0 <= i < j < entries.len() ==> (#[trigger] entries[i]).0 != (#[trigger] entries[j]).0
}

/// The bytes of all entries.
pub open spec fn seq_bytes(entries: Seq<(u128, OverlayValue)>) -> nat
    decreases entries.len(),
{
    if entries.len() == 0 {
        0
    } else {
        seq_bytes(entries.drop_last()) + entry_bytes(entries.last().1) as nat
    }
}

/// The bytes of all values of the map, each in an entry.
pub open spec fn map_bytes(m: Map<u128, OverlayValue>) -> nat {
    seq_bytes(choose|entries: Seq<(u128, OverlayValue)>| #[trigger] lists(entries, m))
}

/// Whether the entries are those of the map, each once.
pub open spec fn lists(entries: Seq<(u128, OverlayValue)>, m: Map<u128, OverlayValue>) -> bool {
    distinct_keys(entries) && entry_map(entries) == m
}

proof fn lemma_remove_entry(entries: Seq<(u128, OverlayValue)>, j: int)
    requires
        0 <= j < entries.len(),
    ensures
        seq_bytes(entries) == seq_bytes(entries.remove(j)) + entry_bytes(entries[j].1),
        distinct_keys(entries) ==> lists(
            entries.remove(j),
            entry_map(entries).remove(entries[j].0),
        ),
    decreases entries.len(),
{
    let rest = entries.remove(j);
    if j == entries.len() - 1 {
        assert(rest =~= entries.drop_last());
    } else {
        lemma_remove_entry(entries.drop_last(), j);
        assert(rest.drop_last() =~= entries.drop_last().remove(j));
        assert(rest.last() == entries.last());
    }
    if distinct_keys(entries) {
        assert forall|a: int, b: int| 0 <= a < b < rest.len() implies (#[trigger] rest[a]).0 != (
        #[trigger] rest[b]).0 by {
            let a0 = if a < j { a } else { a + 1 };
            let b0 = if b < j { b } else { b + 1 };
            assert(rest[a] == entries[a0] && rest[b] == entries[b0]);
        }
        let goal = entry_map(entries).remove(entries[j].0);
        assert forall|m: u128|
            #![trigger goal.dom().contains(m)]
            #![trigger goal[m]]
            entry_map(rest).contains_key(m) == goal.contains_key(m) && (goal.contains_key(m)
                ==> entry_map(rest)[m] == goal[m]) by {
            lemma_entry_map(rest, m);
            lemma_entry_map(entries, m);
            if m != entries[j].0 && (exists|i: int|
                0 <= i < entries.len() && (#[trigger] entries[i]).0 == m) {
                let i = choose|i: int| 0 <= i < entries.len() && (#[trigger] entries[i]).0 == m;
                let i1 = if i < j { i } else { i - 1 };
                assert(rest[i1] == entries[i]);
            } else {
                assert forall|i: int| 0 <= i < rest.len() implies (#[trigger] rest[i]).0 != m by {
                    let i0 = if i < j { i } else { i + 1 };
                    assert(rest[i] == entries[i0]);
                    if i0 < j {
                        assert(entries[i0].0 != entries[j].0);
                    } else {
                        assert(entries[j].0 != entries[i0].0);
                    }
                }
            }
        }
        assert(entry_map(rest) =~= goal);
    }
}

/// However the entries of a map are listed, they take the same bytes.
proof fn lemma_same_bytes(a: Seq<(u128, OverlayValue)>, b: Seq<(u128, OverlayValue)>)
    requires
        distinct_keys(a),
        distinct_keys(b),
        entry_map(a) == entry_map(b),
    ensures
        seq_bytes(a) == seq_bytes(b),
    decreases a.len(),
{
    if a.len() == 0 {
        if b.len() > 0 {
            lemma_entry_map(b, b[0].0);
            assert(entry_map(b).contains_key(b[0].0));
        }
    } else {
        let k = a.last().0;
        let j0 = a.len() - 1;
        lemma_entry_map(a, k);
        lemma_entry_map(b, k);
        assert(a[j0].0 == k);
        assert(exists|j: int| 0 <= j < b.len() && (#[trigger] b[j]).0 == k);
        let j = choose|j: int| 0 <= j < b.len() && (#[trigger] b[j]).0 == k;
        lemma_remove_entry(a, j0);
        lemma_remove_entry(b, j);
        assert(a.remove(j0) =~= a.drop_last());
        lemma_same_bytes(a.remove(j0), b.remove(j));
    }
}

proof fn lemma_map_bytes(entries: Seq<(u128, OverlayValue)>)
    requires
        distinct_keys(entries),
    ensures
        map_bytes(entry_map(entries)) == seq_bytes(entries),
{
    let m = entry_map(entries);
    assert(lists(entries, m));
    let listed = choose|listed: Seq<(u128, OverlayValue)>| #[trigger] lists(listed, m);
    lemma_same_bytes(listed, entries);
}

/// A map without values takes no bytes.
pub proof fn lemma_no_bytes()
    ensures
        map_bytes(Map::empty()) == 0,
{
    let none = Seq::<(u128, OverlayValue)>::empty();
    assert(entry_map(none) =~= Map::empty());
    assert(lists(none, Map::empty()));
    lemma_map_bytes(none);
}

proof fn lemma_bytes_bounded(entries: Seq<(u128, OverlayValue)>)
    ensures
        seq_bytes(entries) <= entries.len() * usize::MAX,
    decreases entries.len(),
{
    if entries.len() > 0 {
        lemma_bytes_bounded(entries.drop_last());
        assert(entries.len() * usize::MAX == (entries.len() - 1) * usize::MAX + usize::MAX)
            by (nonlinear_arith)
            requires
                entries.len() >= 1,
        ;
    }
}

fn bytes_of_entry(v: &OverlayValue) -> (n: usize)
    ensures
        n == entry_bytes(*v),
{
    ENTRY_BASE_BYTES.saturating_add(v.estimated_payload_bytes())
}

impl Lane {
    /// The bytes of all entries.
    pub fn bytes(&self) -> (n: u128)
        requires
            self.wf(),
        ensures
            n == map_bytes(self@),
    {
        proof {
            lemma_map_bytes(self.entries@);
        }
        self.bytes
    }

    pub closed spec fn view(&self) -> Map<u128, OverlayValue> {
        entry_map(self.entries@)
    }

    /// Every entry is found by its key, and the size is that of all entries.
    pub closed spec fn wf(&self) -> bool {
        &&& distinct_keys(self.entries@)
        &&& self.bytes == seq_bytes(self.entries@)
        &&& forall|k: u128| #[trigger]
            self.index@.contains_key(k) ==> self.index@[k] < self.entries@.len()
                && self.entries@[self.index@[k] as int].0 == k
        &&& forall|i: int|
            0 <= i < self.entries@.len() ==> self.index@.contains_key(
                (#[trigger] self.entries@[i]).0,
            ) && self.index@[self.entries@[i].0] == i
    }

    pub fn new() -> (l: Lane)
        ensures
            l.wf(),
            l@ == Map::<u128, OverlayValue>::empty(),
    {
        Lane { entries: Vec::new(), index: FxHashMap::default(), bytes: 0 }
    }

    /// How many cells have a value.
    pub fn len(&self) -> (n: usize)
        requires
            self.wf(),
        ensures
            n == self.spec_entries().len(),
    {
        self.entries.len()
    }

    /// The entries in the order in which they are kept.
    pub closed spec fn spec_entries(&self) -> Seq<(u128, OverlayValue)> {
        self.entries@
    }

    /// The entries list the values of the lane, each once.
    pub proof fn lemma_entries(&self)
        requires
            self.wf(),
        ensures
            forall|k: u128| #[trigger]
                self@.contains_key(k) <==> exists|i: int|
                    0 <= i < self.spec_entries().len() && (#[trigger] self.spec_entries()[i]).0 == k,
            forall|i: int|
                0 <= i < self.spec_entries().len() ==> self@.contains_pair(
                    (#[trigger] self.spec_entries()[i]).0,
                    self.spec_entries()[i].1,
                ),
    {
        assert forall|i: int| 0 <= i < self.spec_entries().len() implies self@.contains_pair(
            (#[trigger] self.spec_entries()[i]).0,
            self.spec_entries()[i].1,
        ) by {
            lemma_entry_map(self.entries@, self.entries@[i].0);
        }
        assert forall|k: u128| #[trigger] self@.contains_key(k) <==> exists|i: int|
            0 <= i < self.spec_entries().len() && (#[trigger] self.spec_entries()[i]).0 == k by {
            lemma_entry_map(self.entries@, k);
            if !(exists|i: int|
                0 <= i < self.spec_entries().len() && (#[trigger] self.spec_entries()[i]).0 == k) {
                assert forall|i: int| 0 <= i < self.entries@.len() implies (
                #[trigger] self.entries@[i]).0 != k by {
                    assert(self.spec_entries()[i].0 != k);
                }
            }
        }
    }

    /// The entry number `i`.
    pub fn entry(&self, i: usize) -> (r: (u128, &OverlayValue))
        requires
            self.wf(),
            i < self.spec_entries().len(),
        ensures
            r.0 == self.spec_entries()[i as int].0,
            *r.1 == self.spec_entries()[i as int].1,
            self@.contains_key(r.0),
            self@[r.0] == *r.1,
    {
        proof {
            lemma_entry_map(self.entries@, self.entries@[i as int].0);
        }
        (self.entries[i].0, &self.entries[i].1)
    }

    pub fn get(&self, k: u128) -> (r: Option<&OverlayValue>)
        requires
            self.wf(),
        ensures
            match r {
                Some(v) => self@.contains_key(k) && *v == self@[k],
                None => !self@.contains_key(k),
            },
    {
        proof {
            lemma_entry_map(self.entries@, k);
        }
        match map_get(&self.index, &k) {
            Some(i) => {
                assert(self.entries@[*i as int].0 == k);
                Some(&self.entries[*i].1)
            },
            None => {
                assert forall|i: int| 0 <= i < self.entries@.len() implies (
                #[trigger] self.entries@[i]).0 != k by {}
                None
            },
        }
    }

    /// Puts a value at a cell and returns the one before.
    pub fn set(&mut self, k: u128, v: OverlayValue) -> (r: Option<OverlayValue>)
        requires
            old(self).wf(),
        ensures
            final(self).wf(),
            final(self)@ == old(self)@.insert(k, v),
            r == (if old(self)@.contains_key(k) {
                Some(old(self)@[k])
            } else {
                None
            }),
    {
        let ghost before = self.entries@;
        let place = match map_get(&self.index, &k) {
            Some(i) => Some(*i),
            None => None,
        };
        match place {
            Some(i) => {
                let mut slot = (k, v);
                proof {
                    lemma_entry_map(before, k);
                    assert(before[i as int].0 == k);
                }
                let ghost item = slot;
                let added = bytes_of_entry(&slot.1) as u128;
                std::mem::swap(&mut self.entries[i], &mut slot);
                let freed = bytes_of_entry(&slot.1) as u128;
                let size: usize = self.entries.len();
                proof {
                    assert(self.entries@ =~= before.update(i as int, item));
                    lemma_remove_entry(before, i as int);
                    lemma_remove_entry(self.entries@, i as int);
                    assert(self.entries@.remove(i as int) =~= before.remove(i as int));
                    lemma_bytes_bounded(self.entries@);
                    assert(self.entries@.len() * usize::MAX <= u128::MAX) by (nonlinear_arith)
                        requires
                            self.entries@.len() <= usize::MAX,
                    ;
                }
                self.bytes = self.bytes - freed + added;
                proof {
                    let goal = entry_map(before).insert(k, item.1);
                    assert forall|m: u128|
                        #![trigger goal.dom().contains(m)]
                        #![trigger goal[m]]
                        entry_map(self.entries@).contains_key(m) == goal.contains_key(m) && (
                        goal.contains_key(m) ==> entry_map(self.entries@)[m] == goal[m]) by {
                        lemma_entry_map(self.entries@, m);
                        lemma_entry_map(before, m);
                        if m == k {
                            assert(self.entries@[i as int].0 == k);
                        } else {
                            if exists|j: int| 0 <= j < before.len() && (#[trigger] before[j]).0 == m {
                                let j = choose|j: int|
                                    0 <= j < before.len() && (#[trigger] before[j]).0 == m;
                                assert(self.entries@[j] == before[j]);
                            } else {
                                assert forall|j: int| 0 <= j < self.entries@.len() implies (
                                #[trigger] self.entries@[j]).0 != m by {
                                    assert(before[j].0 != m);
                                }
                            }
                        }
                    }
                    assert(entry_map(self.entries@) =~= goal);
                    assert forall|j: int| 0 <= j < self.entries@.len() implies self.index@.contains_key(
                        (#[trigger] self.entries@[j]).0,
                    ) && self.index@[self.entries@[j].0] == j by {
                        assert(before[j].0 == self.entries@[j].0);
                    }
                }
                Some(slot.1)
            },
            None => {
                let n = self.entries.len();
                proof {
                    lemma_entry_map(before, k);
                    assert forall|i: int| 0 <= i < before.len() implies (#[trigger] before[i]).0
                        != k by {}
                }
                let added = bytes_of_entry(&v) as u128;
                self.entries.push((k, v));
                map_insert(&mut self.index, k, n);
                let size: usize = self.entries.len();
                proof {
                    assert(self.entries@.drop_last() =~= before);
                    lemma_bytes_bounded(self.entries@);
                    assert(self.entries@.len() * usize::MAX <= u128::MAX) by (nonlinear_arith)
                        requires
                            self.entries@.len() <= usize::MAX,
                    ;
                }
                self.bytes = self.bytes + added;
                None
            },
        }
    }

    /// Takes away the value at a cell, and returns it.
    pub fn remove(&mut self, k: u128) -> (r: Option<OverlayValue>)
        requires
            old(self).wf(),
        ensures
            final(self).wf(),
            final(self)@ == old(self)@.remove(k),
            r == (if old(self)@.contains_key(k) {
                Some(old(self)@[k])
            } else {
                None
            }),
    {
        let ghost before = self.entries@;
        proof {
            lemma_entry_map(before, k);
        }
        let place = match map_get(&self.index, &k) {
            Some(i) => Some(*i),
            None => None,
        };
        match place {
            Some(i) => {
                assert(before[i as int].0 == k);
                let v = self.remove_at(i);
                Some(v)
            },
            None => {
                proof {
                    assert forall|i: int| 0 <= i < before.len() implies (#[trigger] before[i]).0
                        != k by {}
                    assert(entry_map(before).remove(k) =~= entry_map(before));
                }
                None
            },
        }
    }

    /// Takes away all values.
    pub fn clear(&mut self)
        ensures
            final(self).wf(),
            final(self)@ == Map::<u128, OverlayValue>::empty(),
    {
        self.entries = Vec::new();
        self.index = FxHashMap::default();
        self.bytes = 0;
    }
}

/// Whether all keys are those of cells.
pub open spec fn keyed_by_cells(m: Map<u128, OverlayValue>) -> bool {
    forall|k: u128| #[trigger] m.contains_key(k) ==> is_cell_key(k)
}

/// The part of the map at cells outside the region.
pub open spec fn outside(m: Map<u128, OverlayValue>, region: Region) -> Map<u128, OverlayValue> {
    m.restrict(Set::new(|k: u128| !region.has_cell(spec_key_cell(k))))
}

/// An axis of a sheet.
#[derive(Clone, Copy, Debug, PartialEq, Eq, Structural)]
pub enum Axis {
    Rows,
    Columns,
}

/// The index of the cell on the axis.
pub open spec fn index_on(cell: CellRef, axis: Axis) -> u32 {
    match axis {
        Axis::Rows => cell.row,
        Axis::Columns => cell.col,
    }
}

/// The cell with another index on the axis.
pub open spec fn moved_to(cell: CellRef, axis: Axis, index: u32) -> CellRef {
    match axis {
        Axis::Rows => CellRef { row: index, ..cell },
        Axis::Columns => CellRef { col: index, ..cell },
    }
}

/// Where the cell goes when `count` lines are inserted before the line `before` of the sheet.
pub open spec fn after_insert(cell: CellRef, sheet_id: SheetId, axis: Axis, before: u32, count: u32) -> CellRef {
    if cell.sheet_id != sheet_id || index_on(cell, axis) < before {
        cell
    } else {
        moved_to(cell, axis, (index_on(cell, axis) + count) as u32)
    }
}

/// Whether the cell goes when `count` lines from `start` on are deleted.
pub open spec fn is_deleted(cell: CellRef, sheet_id: SheetId, axis: Axis, start: u32, count: u32) -> bool {
    cell.sheet_id == sheet_id && start <= index_on(cell, axis) < start + count
}

/// Where the cell goes when `count` lines from `start` on are deleted, if it stays.
pub open spec fn after_delete(cell: CellRef, sheet_id: SheetId, axis: Axis, start: u32, count: u32) -> CellRef {
    if cell.sheet_id != sheet_id || index_on(cell, axis) < start {
        cell
    } else {
        moved_to(cell, axis, (index_on(cell, axis) - count) as u32)
    }
}

/// Whether `to` holds exactly the values of `from`, each at the cell where it goes by the
/// insertion.
#[verifier::opaque]
pub open spec fn is_inserted(
    from: Map<u128, OverlayValue>,
    to: Map<u128, OverlayValue>,
    sheet_id: SheetId,
    axis: Axis,
    before: u32,
    count: u32,
) -> bool {
    &&& forall|c: CellRef|
        #[trigger] from.contains_key(spec_cell_key(c)) ==> {
            let k = spec_cell_key(after_insert(c, sheet_id, axis, before, count));
            to.contains_key(k) && to[k] == from[spec_cell_key(c)]
        }
    &&& forall|k: u128| #[trigger]
        to.contains_key(k) ==> is_cell_key(k) && exists|c: CellRef|
            #[trigger] from.contains_key(spec_cell_key(c)) && k == spec_cell_key(
                after_insert(c, sheet_id, axis, before, count),
            )
}

/// Whether `to` holds exactly the values of `from` at the cells that stay, each at the cell where
/// it goes by the deletion.
#[verifier::opaque]
pub open spec fn is_deleted_from(
    from: Map<u128, OverlayValue>,
    to: Map<u128, OverlayValue>,
    sheet_id: SheetId,
    axis: Axis,
    start: u32,
    count: u32,
) -> bool {
    &&& forall|c: CellRef|
        #[trigger] from.contains_key(spec_cell_key(c)) && !is_deleted(
            c,
            sheet_id,
            axis,
            start,
            count,
        ) ==> {
            let k = spec_cell_key(after_delete(c, sheet_id, axis, start, count));
            to.contains_key(k) && to[k] == from[spec_cell_key(c)]
        }
    &&& forall|k: u128| #[trigger]
        to.contains_key(k) ==> is_cell_key(k) && exists|c: CellRef|
            #[trigger] from.contains_key(spec_cell_key(c)) && !is_deleted(
                c,
                sheet_id,
                axis,
                start,
                count,
            ) && k == spec_cell_key(after_delete(c, sheet_id, axis, start, count))
}

fn axis_index(cell: CellRef, axis: Axis) -> (i: u32)
    ensures
        i == index_on(cell, axis),
{
    match axis {
        Axis::Rows => cell.row,
        Axis::Columns => cell.col,
    }
}

fn move_to(cell: CellRef, axis: Axis, index: u32) -> (r: CellRef)
    ensures
        r == moved_to(cell, axis, index),
{
    match axis {
        Axis::Rows => CellRef { sheet_id: cell.sheet_id, row: index, col: cell.col },
        Axis::Columns => CellRef { sheet_id: cell.sheet_id, row: cell.row, col: index },
    }
}

impl Lane {
    /// Takes away the values at the cells of the region.
    pub fn remove_region(&mut self, region: &Region)
        requires
            old(self).wf(),
            keyed_by_cells(old(self)@),
        ensures
            final(self).wf(),
            final(self)@ == outside(old(self)@, *region),
    {
        let ghost before = self@;
        let mut i: usize = 0;
        while i < self.entries.len()
            invariant
                self.wf(),
                i <= self.entries@.len(),
                keyed_by_cells(before),
                self@.submap_of(before),
                forall|k: u128| #[trigger]
                    before.contains_key(k) && !region.has_cell(spec_key_cell(k))
                        ==> self@.contains_key(k),
                forall|j: int|
                    0 <= j < i ==> !region.has_cell(spec_key_cell((#[trigger] self.entries@[j]).0)),
            decreases self.entries@.len() - i,
        {
            let k = self.entries[i].0;
            let ghost entries = self.entries@;
            proof {
                lemma_entry_map(entries, k);
                assert(entries[i as int].0 == k);
                assert(self@.contains_key(k));
                assert(before.contains_key(k));
            }
            if region.contains_key(key_cell(k)) {
                self.remove_at(i);
                proof {
                    assert forall|j: int| 0 <= j < i implies !region.has_cell(
                        spec_key_cell((#[trigger] self.entries@[j]).0),
                    ) by {
                        assert(self.entries@[j] == entries[j]);
                    }
                }
            } else {
                i = i + 1;
            }
        }
        proof {
            let goal = outside(before, *region);
            assert forall|k: u128|
                #![trigger goal.dom().contains(k)]
                #![trigger goal[k]]
                self@.contains_key(k) == goal.contains_key(k) && (goal.contains_key(k)
                    ==> self@[k] == goal[k]) by {
                lemma_entry_map(self.entries@, k);
                if self@.contains_key(k) {
                    assert(before.contains_key(k));
                    if forall|j: int|
                        0 <= j < self.entries@.len() ==> (#[trigger] self.entries@[j]).0 != k {
                    } else {
                        let j = choose|j: int|
                            0 <= j < self.entries@.len() && (#[trigger] self.entries@[j]).0 == k;
                        assert(!region.has_cell(spec_key_cell(self.entries@[j].0)));
                    }
                }
            }
            assert(self@ =~= goal);
        }
    }

    /// Takes away the entry number `i`; the last entry takes its place.
    fn remove_at(&mut self, i: usize) -> (v: OverlayValue)
        requires
            old(self).wf(),
            i < old(self).entries@.len(),
        ensures
            final(self).wf(),
            final(self)@ == old(self)@.remove(old(self).entries@[i as int].0),
            final(self).entries@ == old(self).entries@.update(
                i as int,
                old(self).entries@.last(),
            ).drop_last(),
            v == old(self).entries@[i as int].1,
    {
        let k = self.entries[i].0;
        let ghost before = self.entries@;
        let ghost old_index = self.index@;
        let last = self.entries.len() - 1;
        let moved = self.entries[last].0;
        let (_, v) = self.entries.swap_remove(i);
        let freed = bytes_of_entry(&v) as u128;
        proof {
            let swapped = before.update(i as int, before.last());
            assert(self.entries@ =~= swapped.drop_last());
            lemma_remove_entry(before, i as int);
            if i < last {
                let rest = before.remove(i as int);
                lemma_remove_entry(rest, last - 1);
                lemma_remove_entry(self.entries@, i as int);
                assert(rest.remove(last - 1) =~= self.entries@.remove(i as int));
            } else {
                assert(before.remove(i as int) =~= self.entries@);
            }
        }
        self.bytes = self.bytes - freed;
        map_remove(&mut self.index, &k);
        if i != last {
            map_insert(&mut self.index, moved, i);
        }
        proof {
            let after = self.entries@;
            assert(after =~= before.update(i as int, before.last()).drop_last());
            assert forall|a: int, b: int| 0 <= a < b < after.len() implies (
            #[trigger] after[a]).0 != (#[trigger] after[b]).0 by {
                let a0 = if a == i { last as int } else { a };
                let b0 = if b == i { last as int } else { b };
                assert(after[a] == before[a0] && after[b] == before[b0]);
                if a0 < b0 {
                    assert(before[a0].0 != before[b0].0);
                } else {
                    assert(before[b0].0 != before[a0].0);
                }
            }
            assert forall|j: int| 0 <= j < after.len() implies self.index@.contains_key(
                (#[trigger] after[j]).0,
            ) && self.index@[after[j].0] == j by {
                if j == i {
                    assert(after[j] == before[last as int]);
                } else {
                    assert(after[j] == before[j]);
                    assert(before[j].0 != k) by {
                        if j < i {
                            assert(before[j].0 != before[i as int].0);
                        } else {
                            assert(before[i as int].0 != before[j].0);
                        }
                    }
                    assert(before[j].0 != before[last as int].0);
                }
            }
            assert forall|m: u128| #[trigger]
                self.index@.contains_key(m) implies self.index@[m] < after.len()
                && after[self.index@[m] as int].0 == m by {
                if i != last && m == moved {
                } else {
                    let p = old_index[m] as int;
                    assert(before[p].0 == m);
                    assert(p != i);
                    if p == last as int {
                        assert(moved == m);
                    }
                }
            }
            let goal = entry_map(before).remove(k);
            assert forall|m: u128|
                #![trigger goal.dom().contains(m)]
                #![trigger goal[m]]
                entry_map(after).contains_key(m) == goal.contains_key(m) && (
                goal.contains_key(m) ==> entry_map(after)[m] == goal[m]) by {
                lemma_entry_map(after, m);
                lemma_entry_map(before, m);
                if m != k && (exists|j: int|
                    0 <= j < before.len() && (#[trigger] before[j]).0 == m) {
                    let j = choose|j: int|
                        0 <= j < before.len() && (#[trigger] before[j]).0 == m;
                    let j1 = if j == last as int { i as int } else { j };
                    assert(after[j1] == before[j]);
                } else {
                    assert forall|j: int| 0 <= j < after.len() implies (
                    #[trigger] after[j]).0 != m by {
                        let j0 = if j == i { last as int } else { j };
                        assert(after[j] == before[j0]);
                        if j0 < i {
                            assert(before[j0].0 != before[i as int].0);
                        } else if j0 > i {
                            assert(before[i as int].0 != before[j0].0);
                        }
                    }
                }
            }
            assert(entry_map(after) =~= goal);
        }
        v
    }

    /// Moves the values behind an insertion.
    pub fn insert_lines(&mut self, sheet_id: SheetId, axis: Axis, before: u32, count: u32)
        requires
            old(self).wf(),
            keyed_by_cells(old(self)@),
            forall|c: CellRef|
                #[trigger] old(self)@.contains_key(spec_cell_key(c)) && c.sheet_id == sheet_id
                    && index_on(c, axis) >= before ==> index_on(c, axis) + count <= u32::MAX,
        ensures
            final(self).wf(),
            is_inserted(old(self)@, final(self)@, sheet_id, axis, before, count),
    {
        let ghost from = self@;
        let mut out = Lane::new();
        let mut i: usize = 0;
        while i < self.entries.len()
            invariant
                self.wf(),
                self@ == from,
                out.wf(),
                i <= self.entries@.len(),
                keyed_by_cells(from),
                forall|c: CellRef|
                    #[trigger] from.contains_key(spec_cell_key(c)) && c.sheet_id == sheet_id
                        && index_on(c, axis) >= before ==> index_on(c, axis) + count <= u32::MAX,
                forall|j: int|
                    0 <= j < i ==> {
                        let k = spec_cell_key(
                            after_insert(
                                spec_key_cell((#[trigger] self.entries@[j]).0),
                                sheet_id,
                                axis,
                                before,
                                count,
                            ),
                        );
                        out@.contains_key(k) && out@[k] == self.entries@[j].1
                    },
                forall|k: u128| #[trigger]
                    out@.contains_key(k) ==> is_cell_key(k) && exists|c: CellRef|
                        #[trigger] from.contains_key(spec_cell_key(c)) && k == spec_cell_key(
                            after_insert(c, sheet_id, axis, before, count),
                        ),
            decreases self.entries@.len() - i,
        {
            let k = self.entries[i].0;
            let ghost prior = out@;
            proof {
                lemma_entry_map(self.entries@, k);
                assert(self.entries@[i as int].0 == k);
                assert(from.contains_key(k));
                cells_name_their_keys(k);
            }
            let cell = key_cell(k);
            let target = if cell.sheet_id != sheet_id || axis_index(cell, axis) < before {
                cell
            } else {
                move_to(cell, axis, axis_index(cell, axis) + count)
            };
            let v = self.entries[i].1.duplicate();
            let t = cell_key(target);
            assert(target == after_insert(cell, sheet_id, axis, before, count));
            out.set(t, v);
            proof {
                assert forall|j: int| 0 <= j < i + 1 implies ({
                    let k = spec_cell_key(
                        after_insert(
                            spec_key_cell((#[trigger] self.entries@[j]).0),
                            sheet_id,
                            axis,
                            before,
                            count,
                        ),
                    );
                    out@.contains_key(k) && out@[k] == self.entries@[j].1
                }) by {
                    if j < i {
                        let c = spec_key_cell(self.entries@[j].0);
                        lemma_entry_map(self.entries@, self.entries@[j].0);
                        assert(from.contains_key(self.entries@[j].0));
                        cells_name_their_keys(self.entries@[j].0);
                        assert(self.entries@[j].0 != k);
                        assert(c != cell);
                        let d = after_insert(c, sheet_id, axis, before, count);
                        assert(d != target);
                        keys_name_their_cells(d);
                        keys_name_their_cells(target);
                    }
                }
                assert forall|m: u128| #[trigger] out@.contains_key(m) implies is_cell_key(m)
                    && exists|c: CellRef|
                    #[trigger] from.contains_key(spec_cell_key(c)) && m == spec_cell_key(
                        after_insert(c, sheet_id, axis, before, count),
                    ) by {
                    if m == t {
                        assert(from.contains_key(spec_cell_key(cell)));
                    } else {
                        assert(prior.contains_key(m));
                    }
                }
            }
            i = i + 1;
        }
        proof {
            assert forall|c: CellRef| #[trigger] from.contains_key(spec_cell_key(c)) implies ({
                let k = spec_cell_key(after_insert(c, sheet_id, axis, before, count));
                out@.contains_key(k) && out@[k] == from[spec_cell_key(c)]
            }) by {
                let k = spec_cell_key(c);
                lemma_entry_map(self.entries@, k);
                keys_name_their_cells(c);
                let j = choose|j: int|
                    0 <= j < self.entries@.len() && (#[trigger] self.entries@[j]).0 == k;
                assert(self.entries@[j].0 == k);
            }
        }
        proof {
            reveal(is_inserted);
        }
        *self = out;
    }

    /// Takes away the values of deleted lines and moves those behind them.
    pub fn delete_lines(&mut self, sheet_id: SheetId, axis: Axis, start: u32, count: u32)
        requires
            old(self).wf(),
            keyed_by_cells(old(self)@),
        ensures
            final(self).wf(),
            is_deleted_from(old(self)@, final(self)@, sheet_id, axis, start, count),
    {
        let ghost from = self@;
        let mut out = Lane::new();
        let mut i: usize = 0;
        while i < self.entries.len()
            invariant
                self.wf(),
                self@ == from,
                out.wf(),
                i <= self.entries@.len(),
                keyed_by_cells(from),
                forall|j: int|
                    0 <= j < i && !is_deleted(
                        spec_key_cell((#[trigger] self.entries@[j]).0),
                        sheet_id,
                        axis,
                        start,
                        count,
                    ) ==> {
                        let k = spec_cell_key(
                            after_delete(
                                spec_key_cell(self.entries@[j].0),
                                sheet_id,
                                axis,
                                start,
                                count,
                            ),
                        );
                        out@.contains_key(k) && out@[k] == self.entries@[j].1
                    },
                forall|k: u128| #[trigger]
                    out@.contains_key(k) ==> is_cell_key(k) && exists|c: CellRef|
                        #[trigger] from.contains_key(spec_cell_key(c)) && !is_deleted(
                            c,
                            sheet_id,
                            axis,
                            start,
                            count,
                        ) && k == spec_cell_key(after_delete(c, sheet_id, axis, start, count)),
            decreases self.entries@.len() - i,
        {
            let k = self.entries[i].0;
            let ghost prior = out@;
            proof {
                lemma_entry_map(self.entries@, k);
                assert(self.entries@[i as int].0 == k);
                assert(from.contains_key(k));
                cells_name_their_keys(k);
            }
            let cell = key_cell(k);
            let at = axis_index(cell, axis);
            let gone = cell.sheet_id == sheet_id && start <= at && (at as u64) < start as u64
                + count as u64;
            if !gone {
                let target = if cell.sheet_id != sheet_id || at < start {
                    cell
                } else {
                    move_to(cell, axis, at - count)
                };
                let v = self.entries[i].1.duplicate();
                let t = cell_key(target);
                assert(target == after_delete(cell, sheet_id, axis, start, count));
                out.set(t, v);
                proof {
                    assert forall|j: int|
                        0 <= j < i + 1 && !is_deleted(
                            spec_key_cell((#[trigger] self.entries@[j]).0),
                            sheet_id,
                            axis,
                            start,
                            count,
                        ) implies ({
                        let k = spec_cell_key(
                            after_delete(
                                spec_key_cell(self.entries@[j].0),
                                sheet_id,
                                axis,
                                start,
                                count,
                            ),
                        );
                        out@.contains_key(k) && out@[k] == self.entries@[j].1
                    }) by {
                        if j < i {
                            let c = spec_key_cell(self.entries@[j].0);
                            lemma_entry_map(self.entries@, self.entries@[j].0);
                            assert(from.contains_key(self.entries@[j].0));
                            cells_name_their_keys(self.entries@[j].0);
                            assert(self.entries@[j].0 != k);
                            assert(c != cell);
                            let d = after_delete(c, sheet_id, axis, start, count);
                            assert(d != target);
                            keys_name_their_cells(d);
                            keys_name_their_cells(target);
                        }
                    }
                    assert forall|m: u128| #[trigger] out@.contains_key(m) implies is_cell_key(m)
                        && exists|c: CellRef|
                        #[trigger] from.contains_key(spec_cell_key(c)) && !is_deleted(
                            c,
                            sheet_id,
                            axis,
                            start,
                            count,
                        ) && m == spec_cell_key(after_delete(c, sheet_id, axis, start, count)) by {
                        if m == t {
                            assert(from.contains_key(spec_cell_key(cell)));
                        } else {
                            assert(prior.contains_key(m));
                        }
                    }
                }
            }
            i = i + 1;
        }
        proof {
            assert forall|c: CellRef|
                #[trigger] from.contains_key(spec_cell_key(c)) && !is_deleted(
                    c,
                    sheet_id,
                    axis,
                    start,
                    count,
                ) implies ({
                let k = spec_cell_key(after_delete(c, sheet_id, axis, start, count));
                out@.contains_key(k) && out@[k] == from[spec_cell_key(c)]
            }) by {
                let k = spec_cell_key(c);
                lemma_entry_map(self.entries@, k);
                keys_name_their_cells(c);
                let j = choose|j: int|
                    0 <= j < self.entries@.len() && (#[trigger] self.entries@[j]).0 == k;
                assert(self.entries@[j].0 == k);
            }
        }
        proof {
            reveal(is_deleted_from);
        }
        *self = out;
    }
}

pub proof fn lemma_inserted(
    from: Map<u128, OverlayValue>,
    to: Map<u128, OverlayValue>,
    sheet_id: SheetId,
    axis: Axis,
    before: u32,
    count: u32,
    c: CellRef,
)
    requires
        is_inserted(from, to, sheet_id, axis, before, count),
        from.contains_key(spec_cell_key(c)),
    ensures
        to.contains_key(spec_cell_key(after_insert(c, sheet_id, axis, before, count))),
        to[spec_cell_key(after_insert(c, sheet_id, axis, before, count))] == from[spec_cell_key(c)],
{
    reveal(is_inserted);
}

pub proof fn lemma_insert_source(
    from: Map<u128, OverlayValue>,
    to: Map<u128, OverlayValue>,
    sheet_id: SheetId,
    axis: Axis,
    before: u32,
    count: u32,
    k: u128,
) -> (c: CellRef)
    requires
        is_inserted(from, to, sheet_id, axis, before, count),
        to.contains_key(k),
    ensures
        from.contains_key(spec_cell_key(c)),
        k == spec_cell_key(after_insert(c, sheet_id, axis, before, count)),
{
    reveal(is_inserted);
    choose|c: CellRef|
        #[trigger] from.contains_key(spec_cell_key(c)) && k == spec_cell_key(
            after_insert(c, sheet_id, axis, before, count),
        )
}

pub proof fn lemma_deleted(
    from: Map<u128, OverlayValue>,
    to: Map<u128, OverlayValue>,
    sheet_id: SheetId,
    axis: Axis,
    start: u32,
    count: u32,
    c: CellRef,
)
    requires
        is_deleted_from(from, to, sheet_id, axis, start, count),
        from.contains_key(spec_cell_key(c)),
        !is_deleted(c, sheet_id, axis, start, count),
    ensures
        to.contains_key(spec_cell_key(after_delete(c, sheet_id, axis, start, count))),
        to[spec_cell_key(after_delete(c, sheet_id, axis, start, count))] == from[spec_cell_key(c)],
{
    reveal(is_deleted_from);
}

pub proof fn lemma_delete_source(
    from: Map<u128, OverlayValue>,
    to: Map<u128, OverlayValue>,
    sheet_id: SheetId,
    axis: Axis,
    start: u32,
    count: u32,
    k: u128,
) -> (c: CellRef)
    requires
        is_deleted_from(from, to, sheet_id, axis, start, count),
        to.contains_key(k),
    ensures
        from.contains_key(spec_cell_key(c)),
        !is_deleted(c, sheet_id, axis, start, count),
        k == spec_cell_key(after_delete(c, sheet_id, axis, start, count)),
{
    reveal(is_deleted_from);
    choose|c: CellRef|
        #[trigger] from.contains_key(spec_cell_key(c)) && !is_deleted(
            c,
            sheet_id,
            axis,
            start,
            count,
        ) && k == spec_cell_key(after_delete(c, sheet_id, axis, start, count))
}

/// Deleting the lines that were just inserted gives back what was there before.
pub proof fn deletion_undoes_insertion(
    from: Map<u128, OverlayValue>,
    between: Map<u128, OverlayValue>,
    to: Map<u128, OverlayValue>,
    sheet_id: SheetId,
    axis: Axis,
    before: u32,
    count: u32,
)
    requires
        keyed_by_cells(from),
        forall|c: CellRef|
            #[trigger] from.contains_key(spec_cell_key(c)) && c.sheet_id == sheet_id && index_on(
                c,
                axis,
            ) >= before ==> index_on(c, axis) + count <= u32::MAX,
        is_inserted(from, between, sheet_id, axis, before, count),
        is_deleted_from(between, to, sheet_id, axis, before, count),
    ensures
        to == from,
{
    assert forall|k: u128|
        #![trigger from.dom().contains(k)]
        #![trigger from[k]]
        from.contains_key(k) implies to.contains_key(k) && to[k] == from[k] by {
        cells_name_their_keys(k);
        let c = spec_key_cell(k);
        let d = after_insert(c, sheet_id, axis, before, count);
        lemma_inserted(from, between, sheet_id, axis, before, count, c);
        lemma_deleted(between, to, sheet_id, axis, before, count, d);
    }
    assert forall|k: u128| #[trigger] to.contains_key(k) implies from.contains_key(k) by {
        let d = lemma_delete_source(between, to, sheet_id, axis, before, count, k);
        let c = lemma_insert_source(
            from,
            between,
            sheet_id,
            axis,
            before,
            count,
            spec_cell_key(d),
        );
        keys_name_their_cells(d);
        keys_name_their_cells(after_insert(c, sheet_id, axis, before, count));
    }
    assert(to =~= from);
}

/// The same place on another sheet.
pub open spec fn on_sheet(c: CellRef, sheet_id: SheetId) -> CellRef {
    CellRef { sheet_id, row: c.row, col: c.col }
}

/// Whether `to` holds what `from` holds, and for the second sheet also what `from` holds for the
/// first one.
pub open spec fn is_copied(
    from: Map<u128, OverlayValue>,
    to: Map<u128, OverlayValue>,
    source: SheetId,
    target: SheetId,
) -> bool {
    forall|c: CellRef| #[trigger]
        to.contains_key(spec_cell_key(c)) == copied_from(from, c, source, target).is_some() && (
        to.contains_key(spec_cell_key(c)) ==> copied_from(from, c, source, target) == Some(
            to[spec_cell_key(c)],
        ))
}

/// What a cell holds once the first sheet is copied to the second one.
pub open spec fn copied_from(
    from: Map<u128, OverlayValue>,
    c: CellRef,
    source: SheetId,
    target: SheetId,
) -> Option<OverlayValue> {
    let k = spec_cell_key(
        if c.sheet_id == target {
            on_sheet(c, source)
        } else {
            c
        },
    );
    if from.contains_key(k) {
        Some(from[k])
    } else {
        None
    }
}

/// Whether the list has an entry with the key.
spec fn holds_key(list: Seq<(u128, OverlayValue)>, k: u128) -> bool {
    exists|x: int| 0 <= x < list.len() && (#[trigger] list[x]).0 == k
}

impl Lane {
    /// Copies what the lane holds for a sheet to a sheet that it holds nothing for.
    pub fn copy_sheet(&mut self, source: SheetId, target: SheetId)
        requires
            old(self).wf(),
            keyed_by_cells(old(self)@),
            source != target,
            forall|c: CellRef| #[trigger]
                old(self)@.contains_key(spec_cell_key(c)) ==> c.sheet_id != target,
        ensures
            final(self).wf(),
            keyed_by_cells(final(self)@),
            is_copied(old(self)@, final(self)@, source, target),
    {
        let ghost from = self@;
        let ghost entries = self.entries@;
        let mut copies: Vec<(u128, OverlayValue)> = Vec::new();
        let mut i: usize = 0;
        while i < self.entries.len()
            invariant
                self.wf(),
                self@ == from,
                self.entries@ == entries,
                keyed_by_cells(from),
                i <= entries.len(),
                forall|j: int|
                    0 <= j < copies@.len() ==> {
                        let c = spec_key_cell((#[trigger] copies@[j]).0);
                        let k = spec_cell_key(on_sheet(c, source));
                        &&& is_cell_key(copies@[j].0)
                        &&& c.sheet_id == target
                        &&& from.contains_key(k)
                        &&& copies@[j].1 == from[k]
                    },
                forall|j: int|
                    0 <= j < i && spec_key_cell((#[trigger] entries[j]).0).sheet_id == source
                        ==> holds_key(
                        copies@,
                        spec_cell_key(on_sheet(spec_key_cell(entries[j].0), target)),
                    ),
            decreases entries.len() - i,
        {
            let k = self.entries[i].0;
            proof {
                lemma_entry_map(entries, k);
                assert(from.contains_key(k) && from[k] == entries[i as int].1);
                cells_name_their_keys(k);
            }
            let cell = key_cell(k);
            if cell.sheet_id == source {
                let copy = CellRef { sheet_id: target, row: cell.row, col: cell.col };
                let ghost before = copies@;
                copies.push((cell_key(copy), self.entries[i].1.duplicate()));
                proof {
                    keys_name_their_cells(copy);
                    assert(on_sheet(copy, source) == cell);
                    assert forall|j: int|
                        0 <= j < i + 1 && spec_key_cell((#[trigger] entries[j]).0).sheet_id
                            == source implies holds_key(
                        copies@,
                        spec_cell_key(on_sheet(spec_key_cell(entries[j].0), target)),
                    ) by {
                        let key = spec_cell_key(on_sheet(spec_key_cell(entries[j].0), target));
                        if j < i {
                            assert(holds_key(before, key));
                            let x = choose|x: int|
                                0 <= x < before.len() && (#[trigger] before[x]).0 == key;
                            assert(copies@[x].0 == key);
                        } else {
                            assert(copies@[before.len() as int].0 == key);
                        }
                    }
                }
            }
            i = i + 1;
        }
        let mut n: usize = 0;
        while n < copies.len()
            invariant
                self.wf(),
                keyed_by_cells(self@),
                n <= copies@.len(),
                source != target,
                forall|j: int|
                    0 <= j < copies@.len() ==> {
                        let c = spec_key_cell((#[trigger] copies@[j]).0);
                        let k = spec_cell_key(on_sheet(c, source));
                        &&& is_cell_key(copies@[j].0)
                        &&& c.sheet_id == target
                        &&& from.contains_key(k)
                        &&& copies@[j].1 == from[k]
                    },
                forall|c: CellRef|
                    c.sheet_id != target ==> #[trigger] self@.contains_key(spec_cell_key(c))
                        == from.contains_key(spec_cell_key(c)) && (from.contains_key(
                        spec_cell_key(c),
                    ) ==> self@[spec_cell_key(c)] == from[spec_cell_key(c)]),
                forall|c: CellRef|
                    c.sheet_id == target && #[trigger] self@.contains_key(spec_cell_key(c)) ==> {
                        let k = spec_cell_key(on_sheet(c, source));
                        from.contains_key(k) && self@[spec_cell_key(c)] == from[k]
                    },
                forall|j: int|
                    0 <= j < n ==> self@.contains_key((#[trigger] copies@[j]).0),
            decreases copies@.len() - n,
        {
            let ghost before = self@;
            let kc = copies[n].0;
            let ghost held = copies@[n as int].1;
            let v = copies[n].1.duplicate();
            self.set(kc, v);
            proof {
                assert(copies@[n as int].0 == kc);
                cells_name_their_keys(kc);
                let copy = spec_key_cell(kc);
                assert(self@ == before.insert(kc, held));
                assert forall|c: CellRef|
                    c.sheet_id != target implies #[trigger] self@.contains_key(spec_cell_key(c))
                    == from.contains_key(spec_cell_key(c)) && (from.contains_key(spec_cell_key(c))
                    ==> self@[spec_cell_key(c)] == from[spec_cell_key(c)]) by {
                    keys_name_their_cells(c);
                    assert(before.contains_key(spec_cell_key(c)) == from.contains_key(
                        spec_cell_key(c),
                    ));
                }
                assert forall|c: CellRef|
                    c.sheet_id == target && #[trigger] self@.contains_key(
                        spec_cell_key(c),
                    ) implies ({
                    let k = spec_cell_key(on_sheet(c, source));
                    from.contains_key(k) && self@[spec_cell_key(c)] == from[k]
                }) by {
                    keys_name_their_cells(c);
                    if c != copy {
                        assert(before.contains_key(spec_cell_key(c)));
                    }
                }
            }
            n = n + 1;
        }
        proof {
            let to = self@;
            assert forall|c: CellRef| #[trigger] to.contains_key(spec_cell_key(c)) == copied_from(
                from,
                c,
                source,
                target,
            ).is_some() && (to.contains_key(spec_cell_key(c)) ==> copied_from(
                from,
                c,
                source,
                target,
            ) == Some(to[spec_cell_key(c)])) by {
                if c.sheet_id == target {
                    let o = on_sheet(c, source);
                    if from.contains_key(spec_cell_key(o)) {
                        lemma_entry_map(entries, spec_cell_key(o));
                        keys_name_their_cells(o);
                        let j = choose|j: int|
                            0 <= j < entries.len() && (#[trigger] entries[j]).0 == spec_cell_key(o);
                        assert(on_sheet(spec_key_cell(entries[j].0), target) == c);
                        assert(holds_key(copies@, spec_cell_key(c)));
                        let x = choose|x: int|
                            0 <= x < copies@.len() && (#[trigger] copies@[x]).0 == spec_cell_key(c);
                        assert(to.contains_key(copies@[x].0));
                    }
                }
            }
        }
    }
}

/// What a cell reads as once a value was stored there: the value, but that a whole number is read as
/// the double that it is, dates and times as date-times, an error as its kind alone, and an array as
/// an error.
pub proof fn stored_values_are_read_as_they_are(value: ValueView, v: OverlayValue)
    requires
        stores(value, v),
    ensures
        match value {
            ValueView::Empty => literal_of(v) == ValueView::Empty,
            ValueView::Int(i) => literal_of(v) == ValueView::Number(int_bits(i)),
            ValueView::Number(n) => literal_of(v) == ValueView::Number(n),
            ValueView::Boolean(b) => literal_of(v) == ValueView::Boolean(b),
            ValueView::Text(t) => literal_of(v) == ValueView::Text(t),
            ValueView::Error(e) => literal_of(v) matches ValueView::Error(x) && x.kind == e.kind
                && x.message is None,
            ValueView::Date(n) => literal_of(v) == ValueView::DateTime(n),
            ValueView::DateTime(n) => literal_of(v) == ValueView::DateTime(n),
            ValueView::Time(n) => literal_of(v) == ValueView::DateTime(n),
            ValueView::Duration(n) => literal_of(v) == ValueView::Duration(n),
            ValueView::Pending => literal_of(v) == ValueView::Pending,
            ValueView::Array(_) => literal_of(v) matches ValueView::Error(x) && x.kind
                == ErrorKind::Value,
        },
        value != ValueView::Empty ==> literal_of(v) != ValueView::Empty,
{
}

/// Inserting lines moves what lies on them and behind them by as many lines, leaves what lies in front
/// and on other sheets, and leaves the new lines without values.
#[verifier::spinoff_prover]
#[verifier::rlimit(60)]
pub proof fn inserted_lines_push_the_others_on(
    from: Map<u128, OverlayValue>,
    to: Map<u128, OverlayValue>,
    sheet_id: SheetId,
    axis: Axis,
    before: u32,
    count: u32,
    c: CellRef,
)
    requires
        is_inserted(from, to, sheet_id, axis, before, count),
        forall|d: CellRef|
            #[trigger] from.contains_key(spec_cell_key(d)) && d.sheet_id == sheet_id && (
            if axis == Axis::Rows {
                d.row
            } else {
                d.col
            }) >= before ==> (if axis == Axis::Rows {
                d.row
            } else {
                d.col
            }) + count <= u32::MAX,
    ensures
        ({
            let at = if axis == Axis::Rows {
                c.row
            } else {
                c.col
            };
            let moved = if axis == Axis::Rows {
                CellRef { row: (c.row + count) as u32, ..c }
            } else {
                CellRef { col: (c.col + count) as u32, ..c }
            };
            let k = spec_cell_key(c);
            &&& c.sheet_id != sheet_id || at < before ==> (to.contains_key(k) <==> from.contains_key(k))
                && (from.contains_key(k) ==> to[k] == from[k])
            &&& c.sheet_id == sheet_id && at >= before && at + count <= u32::MAX ==> (to.contains_key(
                spec_cell_key(moved),
            ) <==> from.contains_key(k)) && (from.contains_key(k) ==> to[spec_cell_key(moved)]
                == from[k])
            &&& c.sheet_id == sheet_id && before <= at < before + count ==> !to.contains_key(k)
        }),
{
    reveal(is_inserted);
    keys_name_their_cells(c);
    let moved = after_insert(c, sheet_id, axis, before, count);
    keys_name_their_cells(moved);
    if to.contains_key(spec_cell_key(c)) {
        let d = lemma_insert_source(from, to, sheet_id, axis, before, count, spec_cell_key(c));
        keys_name_their_cells(d);
        keys_name_their_cells(after_insert(d, sheet_id, axis, before, count));
    }
    if to.contains_key(spec_cell_key(moved)) {
        let d = lemma_insert_source(from, to, sheet_id, axis, before, count, spec_cell_key(moved));
        keys_name_their_cells(d);
        keys_name_their_cells(after_insert(d, sheet_id, axis, before, count));
    }
}

/// Deleting lines takes what lies on them away, moves what lies behind them back by as many lines, and
/// leaves what lies in front and on other sheets.
#[verifier::spinoff_prover]
#[verifier::rlimit(60)]
pub proof fn deleted_lines_pull_the_others_back(
    from: Map<u128, OverlayValue>,
    to: Map<u128, OverlayValue>,
    sheet_id: SheetId,
    axis: Axis,
    start: u32,
    count: u32,
    c: CellRef,
)
    requires
        is_deleted_from(from, to, sheet_id, axis, start, count),
    ensures
        ({
            let at = if axis == Axis::Rows {
                c.row
            } else {
                c.col
            };
            let source = if axis == Axis::Rows {
                CellRef { row: (c.row + count) as u32, ..c }
            } else {
                CellRef { col: (c.col + count) as u32, ..c }
            };
            let k = spec_cell_key(c);
            &&& c.sheet_id != sheet_id || at < start ==> (to.contains_key(k) <==> from.contains_key(k))
                && (from.contains_key(k) ==> to[k] == from[k])
            &&& c.sheet_id == sheet_id && at >= start && at + count <= u32::MAX ==> (to.contains_key(k)
                <==> from.contains_key(spec_cell_key(source))) && (to.contains_key(k) ==> to[k]
                == from[spec_cell_key(source)])
            &&& c.sheet_id == sheet_id && at >= start && at + count > u32::MAX ==> !to.contains_key(k)
        }),
{
    reveal(is_deleted_from);
    keys_name_their_cells(c);
    let source = if axis == Axis::Rows {
        CellRef { row: (c.row + count) as u32, ..c }
    } else {
        CellRef { col: (c.col + count) as u32, ..c }
    };
    keys_name_their_cells(source);
    if to.contains_key(spec_cell_key(c)) {
        let d = lemma_delete_source(from, to, sheet_id, axis, start, count, spec_cell_key(c));
        keys_name_their_cells(d);
        keys_name_their_cells(after_delete(d, sheet_id, axis, start, count));
        assert(after_delete(d, sheet_id, axis, start, count) == c);
        lemma_deleted(from, to, sheet_id, axis, start, count, d);
    }
    if from.contains_key(spec_cell_key(c)) && !is_deleted(c, sheet_id, axis, start, count) {
        lemma_deleted(from, to, sheet_id, axis, start, count, c);
    }
    if from.contains_key(spec_cell_key(source)) && !is_deleted(source, sheet_id, axis, start, count) {
        lemma_deleted(from, to, sheet_id, axis, start, count, source);
    }
}

/// Stored values are equal where they are of one kind and hold the same, as doubles do.
pub proof fn stored_values_are_equal_by_their_kind(a: OverlayValue, b: OverlayValue)
    ensures
        overlay_eq(a, b) ==> {
            &&& a is Empty == b is Empty && a is Number == b is Number && a is Boolean == b is Boolean
            &&& a is Text == b is Text && a is Error == b is Error && a is DateTime == b is DateTime
            &&& a is Duration == b is Duration && a is Pending == b is Pending
        },
        a is Empty && b is Empty ==> overlay_eq(a, b),
        a is Pending && b is Pending ==> overlay_eq(a, b),
        a is Boolean && b is Boolean ==> overlay_eq(a, b) == (a->Boolean_0 == b->Boolean_0),
        a is Text && b is Text ==> overlay_eq(a, b) == (a->Text_0@ == b->Text_0@),
        a is Error && b is Error ==> overlay_eq(a, b) == (a->Error_0 == b->Error_0),
        a is Number && b is Number ==> overlay_eq(a, b) == double_eq(a->Number_0, b->Number_0),
        a is DateTime && b is DateTime ==> overlay_eq(a, b) == double_eq(a->DateTime_0, b->DateTime_0),
        a is Duration && b is Duration ==> overlay_eq(a, b) == double_eq(a->Duration_0, b->Duration_0),
{
}

/// An entry takes thirty-two bytes, and with a text the bytes of the text besides.
pub proof fn entries_take_their_base_and_their_text(v: OverlayValue)
    ensures
        !(v is Text) ==> entry_bytes(v) == 32,
        v is Text && encode_utf8(v->Text_0@).len() + 32 <= usize::MAX ==> entry_bytes(v) == 32 + encode_utf8(
            v->Text_0@,
        ).len(),
{
}

} // verus!
