//! Formulas that wait to be built into the graph.
use crate::coord::{CellRef, cell_key, keys_name_their_cells, spec_cell_key};
use crate::fx::{map_get, map_insert, map_remove};
use crate::store::stopped;
use crate::text_index::TextIndex;
use rustc_hash::FxHashMap;
use vstd::prelude::*;

verus! {

/// A waiting formula: its one-based row and column, and its text.
pub type StagedFormulaEntry = (u32, u32, String);

/// The waiting formulas of one sheet, in the order in which their cells were first staged.
#[derive(Debug)]
pub struct StagedSheet {
    entries: Vec<StagedFormulaEntry>,
    index: FxHashMap<u128, usize>,
}

/// The model of an entry.
pub type EntryView = (u32, u32, Seq<char>);

pub open spec fn entries_view(entries: Seq<StagedFormulaEntry>) -> Seq<EntryView> {
    Seq::new(entries.len(), |i: int| (entries[i].0, entries[i].1, entries[i].2@))
}

spec fn place_key(row: u32, col: u32) -> u128 {
    spec_cell_key(CellRef { sheet_id: 0, row, col })
}

fn key_of(row: u32, col: u32) -> (k: u128)
    ensures
        k == place_key(row, col),
{
    cell_key(CellRef { sheet_id: 0, row, col })
}

proof fn lemma_place_keys(a: (u32, u32), b: (u32, u32))
    ensures
        place_key(a.0, a.1) == place_key(b.0, b.1) <==> a == b,
{
    keys_name_their_cells(CellRef { sheet_id: 0, row: a.0, col: a.1 });
    keys_name_their_cells(CellRef { sheet_id: 0, row: b.0, col: b.1 });
}

/// Whether the entry at the position is the one of the cell.
pub open spec fn stands_at(entries: Seq<EntryView>, i: int, row: u32, col: u32) -> bool {
    0 <= i < entries.len() && entries[i].0 == row && entries[i].1 == col
}

/// Whether the cell has an entry.
pub open spec fn has_cell(entries: Seq<EntryView>, row: u32, col: u32) -> bool {
    exists|i: int| #[trigger] stands_at(entries, i, row, col)
}

/// The position of the entry of a cell.
pub open spec fn place_of(entries: Seq<EntryView>, row: u32, col: u32) -> int {
    choose|i: int| #[trigger] stands_at(entries, i, row, col)
}

/// The entries once the text is staged for the cell: an entry that the cell has gets the new text
/// and keeps its place, and else a new one comes last.
pub open spec fn staged(entries: Seq<EntryView>, row: u32, col: u32, text: Seq<char>) -> Seq<EntryView> {
    if has_cell(entries, row, col) {
        entries.update(place_of(entries, row, col), (row, col, text))
    } else {
        entries.push((row, col, text))
    }
}

/// No cell has two entries.
pub open spec fn distinct_cells(entries: Seq<EntryView>) -> bool {
    forall|i: int, j: int|
        0 <= i < j < entries.len() ==> (#[trigger] entries[i]).0 != (#[trigger] entries[j]).0
            || entries[i].1 != entries[j].1
}

impl StagedSheet {
    pub closed spec fn view(&self) -> Seq<EntryView> {
        entries_view(self.entries@)
    }

    pub closed spec fn wf(&self) -> bool {
        &&& forall|i: int|
            0 <= i < self.entries@.len() ==> self.index@.contains_key(
                place_key((#[trigger] self.entries@[i]).0, self.entries@[i].1),
            ) && self.index@[place_key(self.entries@[i].0, self.entries@[i].1)] == i
        &&& forall|k: u128| #[trigger]
            self.index@.contains_key(k) ==> self.index@[k] < self.entries@.len() && place_key(
                self.entries@[self.index@[k] as int].0,
                self.entries@[self.index@[k] as int].1,
            ) == k
    }

    /// No cell has two waiting formulas.
    pub proof fn cells_are_distinct(&self)
        requires
            self.wf(),
        ensures
            distinct_cells(self@),
    {
        assert forall|i: int, j: int| 0 <= i < j < self@.len() implies (#[trigger] self@[i]).0 != (
        #[trigger] self@[j]).0 || self@[i].1 != self@[j].1 by {
            assert(self.index@[place_key(self.entries@[i].0, self.entries@[i].1)] == i);
            assert(self.index@[place_key(self.entries@[j].0, self.entries@[j].1)] == j);
        }
    }

    pub fn new() -> (s: StagedSheet)
        ensures
            s.wf(),
            s@ == Seq::<EntryView>::empty(),
    {
        let s = StagedSheet { entries: Vec::new(), index: FxHashMap::default() };
        assert(s@ =~= Seq::<EntryView>::empty());
        s
    }

    fn find(&self, row: u32, col: u32) -> (r: Option<usize>)
        requires
            self.wf(),
        ensures
            match r {
                Some(i) => has_cell(self@, row, col) && i == place_of(self@, row, col) && i
                    < self.entries@.len(),
                None => !has_cell(self@, row, col),
            },
            r == (if self.index@.contains_key(place_key(row, col)) {
                Some(self.index@[place_key(row, col)])
            } else {
                None
            }),
    {
        proof {
            self.cells_are_distinct();
        }
        match map_get(&self.index, &key_of(row, col)) {
            Some(i) => {
                let i = *i;
                proof {
                    let e = self.entries@[i as int];
                    lemma_place_keys((e.0, e.1), (row, col));
                    assert(stands_at(self@, i as int, row, col));
                    let p = place_of(self@, row, col);
                    if p < i {
                        assert(self@[p].0 != self@[i as int].0 || self@[p].1 != self@[i as int].1);
                    } else if i < p {
                        assert(self@[i as int].0 != self@[p].0 || self@[i as int].1 != self@[p].1);
                    }
                }
                Some(i)
            },
            None => {
                proof {
                    if has_cell(self@, row, col) {
                        let i = place_of(self@, row, col);
                        let e = self.entries@[i];
                        assert(self.index@.contains_key(place_key(e.0, e.1)));
                    }
                }
                None
            },
        }
    }

    /// Stages a text for a cell.
    pub fn stage(&mut self, row: u32, col: u32, text: String)
        requires
            old(self).wf(),
        ensures
            final(self).wf(),
            final(self)@ == staged(old(self)@, row, col, text@),
    {
        let ghost model = self@;
        let ghost before = self.entries@;
        match self.find(row, col) {
            Some(i) => {
                self.entries.set(i, (row, col, text));
                proof {
                    let p = place_of(model, row, col);
                    assert(stands_at(model, p, row, col));
                    assert(self@ =~= staged(model, row, col, text@));
                    assert(before[i as int].0 == row && before[i as int].1 == col);
                }
            },
            None => {
                let n: usize = self.entries.len();
                let k = key_of(row, col);
                map_insert(&mut self.index, k, n);
                self.entries.push((row, col, text));
                proof {
                    assert(self@ =~= model.push((row, col, text@)));
                    assert forall|i: int| 0 <= i < self.entries@.len() implies self.index@.contains_key(
                        place_key((#[trigger] self.entries@[i]).0, self.entries@[i].1),
                    ) && self.index@[place_key(self.entries@[i].0, self.entries@[i].1)] == i by {
                        if i < n {
                            let e = before[i];
                            assert(self.entries@[i] == e);
                            lemma_place_keys((e.0, e.1), (row, col));
                            assert(model[i] == (e.0, e.1, e.2@));
                            if e.0 == row && e.1 == col {
                                assert(stands_at(model, i, row, col));
                            }
                        }
                    }
                    assert forall|key: u128| #[trigger] self.index@.contains_key(
                        key,
                    ) implies self.index@[key] < self.entries@.len() && place_key(
                        self.entries@[self.index@[key] as int].0,
                        self.entries@[self.index@[key] as int].1,
                    ) == key by {
                        if key != k {
                            let at = self.index@[key] as int;
                            assert(self.entries@[at] == before[at]);
                        }
                    }
                }
            },
        }
    }

    /// Takes the text of a cell back.
    pub fn remove(&mut self, row: u32, col: u32) -> (r: Option<String>)
        requires
            old(self).wf(),
        ensures
            final(self).wf(),
            match r {
                Some(text) => {
                    let p = place_of(old(self)@, row, col);
                    &&& has_cell(old(self)@, row, col)
                    &&& text@ == old(self)@[p].2
                    &&& final(self)@ == old(self)@.remove(p)
                },
                None => !has_cell(old(self)@, row, col) && final(self)@ == old(self)@,
            },
    {
        let ghost model = self@;
        let ghost before = self.entries@;
        let idx = match self.find(row, col) {
            Some(i) => i,
            None => {
                return None;
            },
        };
        proof {
            self.cells_are_distinct();
            assert(stands_at(model, place_of(model, row, col), row, col));
        }
        let k = key_of(row, col);
        map_remove(&mut self.index, &k);
        let (_, _, text) = self.entries.remove(idx);
        let ghost rest = self.entries@;
        proof {
            assert(rest =~= before.remove(idx as int));
            assert(self@ =~= model.remove(idx as int));
        }
        let mut i: usize = idx;
        proof {
            assert forall|key: u128| #[trigger] self.index@.contains_key(key) implies key != k
                && exists|j: int|
                0 <= j < rest.len() && place_key((#[trigger] rest[j]).0, rest[j].1) == key by {
                let at = old(self).index@[key] as int;
                assert(old(self).index@.contains_key(key));
                assert(place_key(before[at].0, before[at].1) == key);
                let j = if at < idx {
                    at
                } else {
                    at - 1
                };
                if at == idx {
                    assert(key == k);
                }
                assert(rest[j] == before[at]);
            }
        }
        while i < self.entries.len()
            invariant
                idx <= i <= self.entries@.len(),
                self.entries@ == rest,
                rest == before.remove(idx as int),
                before.len() == rest.len() + 1,
                idx < before.len(),
                k == place_key(row, col),
                before[idx as int].0 == row,
                before[idx as int].1 == col,
                distinct_cells(entries_view(before)),
                forall|j: int|
                    0 <= j < i ==> self.index@.contains_key(
                        place_key((#[trigger] rest[j]).0, rest[j].1),
                    ) && self.index@[place_key(rest[j].0, rest[j].1)] == j,
                forall|j: int|
                    i <= j < rest.len() ==> self.index@.contains_key(
                        place_key((#[trigger] rest[j]).0, rest[j].1),
                    ) && self.index@[place_key(rest[j].0, rest[j].1)] == j + 1,
                forall|key: u128| #[trigger]
                    self.index@.contains_key(key) ==> key != k && exists|j: int|
                        0 <= j < rest.len() && place_key((#[trigger] rest[j]).0, rest[j].1) == key,
            decreases self.entries@.len() - i,
        {
            let ghost prior = self.index@;
            let ki = key_of(self.entries[i].0, self.entries[i].1);
            map_insert(&mut self.index, ki, i);
            proof {
                assert(rest[i as int] == before[i + 1]);
                assert forall|j: int| 0 <= j < rest.len() && j != i implies place_key(
                    (#[trigger] rest[j]).0,
                    rest[j].1,
                ) != ki by {
                    lemma_place_keys((rest[j].0, rest[j].1), (rest[i as int].0, rest[i as int].1));
                    let bj = if j < idx {
                        j
                    } else {
                        j + 1
                    };
                    assert(rest[j] == before[bj]);
                    let m = entries_view(before);
                    if bj < i + 1 {
                        assert(m[bj].0 != m[i + 1].0 || m[bj].1 != m[i + 1].1);
                    } else {
                        assert(m[i + 1].0 != m[bj].0 || m[i + 1].1 != m[bj].1);
                    }
                }
                assert(prior.contains_key(ki));
            }
            i = i + 1;
        }
        proof {
            assert forall|key: u128| #[trigger] self.index@.contains_key(
                key,
            ) implies self.index@[key] < self.entries@.len() && place_key(
                self.entries@[self.index@[key] as int].0,
                self.entries@[self.index@[key] as int].1,
            ) == key by {
                let j = choose|j: int|
                    0 <= j < rest.len() && place_key((#[trigger] rest[j]).0, rest[j].1) == key;
                assert(self.index@[place_key(rest[j].0, rest[j].1)] == j);
            }
        }
        Some(text)
    }

    /// The text of a cell.
    pub fn get(&self, row: u32, col: u32) -> (r: Option<&String>)
        requires
            self.wf(),
        ensures
            match r {
                Some(text) => has_cell(self@, row, col) && text@ == self@[place_of(
                    self@,
                    row,
                    col,
                )].2,
                None => !has_cell(self@, row, col),
            },
    {
        match self.find(row, col) {
            Some(i) => Some(&self.entries[i].2),
            None => None,
        }
    }

    pub fn len(&self) -> (n: usize)
        ensures
            n == self@.len(),
    {
        self.entries.len()
    }

    pub fn is_empty(&self) -> (b: bool)
        ensures
            b == (self@.len() == 0),
    {
        self.entries.len() == 0
    }

    /// The entries in the order in which they are built.
    pub fn into_entries(self) -> (r: Vec<StagedFormulaEntry>)
        ensures
            entries_view(r@) == self@,
    {
        self.entries
    }
}

/// A staged text is read back at its cell, and every other cell keeps its text.
pub proof fn staged_texts_are_read_back(
    entries: Seq<EntryView>,
    row: u32,
    col: u32,
    text: Seq<char>,
    other: (u32, u32),
)
    requires
        distinct_cells(entries),
    ensures
        ({
            let after = staged(entries, row, col, text);
            &&& distinct_cells(after)
            &&& has_cell(after, row, col) && after[place_of(after, row, col)].2 == text
            &&& other != (row, col) ==> has_cell(after, other.0, other.1) == has_cell(
                entries,
                other.0,
                other.1,
            )
            &&& other != (row, col) && has_cell(entries, other.0, other.1) ==> after[place_of(
                after,
                other.0,
                other.1,
            )].2 == entries[place_of(entries, other.0, other.1)].2
        }),
{
    let after = staged(entries, row, col, text);
    let p = place_of(entries, row, col);
    if has_cell(entries, row, col) {
        assert(stands_at(entries, p, row, col));
    }
    assert(distinct_cells(after)) by {
        assert forall|i: int, j: int| 0 <= i < j < after.len() implies (#[trigger] after[i]).0 != (
        #[trigger] after[j]).0 || after[i].1 != after[j].1 by {
            if has_cell(entries, row, col) {
                assert(entries[i].0 != entries[j].0 || entries[i].1 != entries[j].1);
            } else if j < entries.len() {
                assert(entries[i].0 != entries[j].0 || entries[i].1 != entries[j].1);
            } else {
                if entries[i].0 == row && entries[i].1 == col {
                    assert(stands_at(entries, i, row, col));
                }
            }
        }
    }
    let q = if has_cell(entries, row, col) {
        p
    } else {
        entries.len() as int
    };
    assert(stands_at(after, q, row, col));
    lemma_place_is(after, q, row, col);
    if other != (row, col) {
        if has_cell(entries, other.0, other.1) {
            let o = place_of(entries, other.0, other.1);
            assert(stands_at(entries, o, other.0, other.1));
            assert(after[o] == entries[o]);
            assert(stands_at(after, o, other.0, other.1));
            lemma_place_is(after, o, other.0, other.1);
        }
        if has_cell(after, other.0, other.1) {
            let o = place_of(after, other.0, other.1);
            assert(stands_at(after, o, other.0, other.1));
            assert(o != q);
            assert(after[o] == entries[o]);
            assert(stands_at(entries, o, other.0, other.1));
        }
    }
}

proof fn lemma_place_is(entries: Seq<EntryView>, i: int, row: u32, col: u32)
    requires
        distinct_cells(entries),
        stands_at(entries, i, row, col),
    ensures
        place_of(entries, row, col) == i,
{
    let p = place_of(entries, row, col);
    assert(stands_at(entries, p, row, col));
    if p < i {
        assert(entries[p].0 != entries[i].0 || entries[p].1 != entries[i].1);
    } else if i < p {
        assert(entries[i].0 != entries[p].0 || entries[i].1 != entries[p].1);
    }
}

/// The waiting formulas of all sheets.
#[derive(Debug)]
pub struct StagedFormulas {
    names: TextIndex,
    sheets: Vec<StagedSheet>,
}

/// The model of a [`StagedFormulas`]: the sheets that ever had a waiting formula, with their
/// entries.
pub type SheetsView = Seq<(Seq<char>, Seq<EntryView>)>;

/// The entries of a sheet; a sheet that is not listed has none.
pub open spec fn entries_of(sheets: SheetsView, name: Seq<char>, n: nat) -> Seq<EntryView>
    decreases n,
{
    if n == 0 {
        Seq::empty()
    } else if sheets[n - 1].0 == name {
        sheets[n - 1].1
    } else {
        entries_of(sheets, name, (n - 1) as nat)
    }
}

/// How many formulas the first `n` sheets have.
pub open spec fn entry_count(sheets: SheetsView, n: nat) -> nat
    decreases n,
{
    if n == 0 {
        0
    } else {
        entry_count(sheets, (n - 1) as nat) + sheets[n - 1].1.len()
    }
}

/// The entries with the first `n` of the list staged over them.
pub open spec fn restaged(entries: Seq<EntryView>, list: Seq<EntryView>, n: nat) -> Seq<EntryView>
    decreases n,
{
    if n == 0 {
        entries
    } else {
        let e = list[n - 1];
        staged(restaged(entries, list, (n - 1) as nat), e.0, e.1, e.2)
    }
}

/// The entries without that of the cell, if it has one.
pub open spec fn unstaged(entries: Seq<EntryView>, row: u32, col: u32) -> Seq<EntryView> {
    if has_cell(entries, row, col) {
        entries.remove(place_of(entries, row, col))
    } else {
        entries
    }
}

proof fn lemma_entries_at(sheets: SheetsView, i: int, n: nat)
    requires
        0 <= i < n <= sheets.len(),
        forall|a: int, b: int|
            0 <= a < b < sheets.len() ==> (#[trigger] sheets[a]).0 != (#[trigger] sheets[b]).0,
    ensures
        entries_of(sheets, sheets[i].0, n) == sheets[i].1,
    decreases n,
{
    if i < n - 1 {
        assert(sheets[i].0 != sheets[n - 1].0);
        lemma_entries_at(sheets, i, (n - 1) as nat);
    }
}

proof fn lemma_entries_absent(sheets: SheetsView, name: Seq<char>, n: nat)
    requires
        n <= sheets.len(),
        forall|a: int| 0 <= a < n ==> (#[trigger] sheets[a]).0 != name,
    ensures
        entries_of(sheets, name, n) == Seq::<EntryView>::empty(),
    decreases n,
{
    if n > 0 {
        assert(sheets[n - 1].0 != name);
        lemma_entries_absent(sheets, name, (n - 1) as nat);
    }
}

proof fn lemma_entries_same(a: SheetsView, b: SheetsView, name: Seq<char>, n: nat)
    requires
        n <= a.len(),
        n <= b.len(),
        forall|i: int|
            0 <= i < n ==> (#[trigger] a[i]).0 == b[i].0 && (a[i].0 == name ==> a[i].1 == b[i].1),
    ensures
        entries_of(a, name, n) == entries_of(b, name, n),
    decreases n,
{
    if n > 0 {
        assert(a[n - 1].0 == b[n - 1].0);
        lemma_entries_same(a, b, name, (n - 1) as nat);
    }
}

impl StagedFormulas {
    pub closed spec fn view(&self) -> SheetsView {
        Seq::new(self.sheets@.len(), |i: int| (self.names@[i], self.sheets@[i]@))
    }

    pub closed spec fn wf(&self) -> bool {
        &&& self.names.wf()
        &&& self.names@.len() == self.sheets@.len()
        &&& forall|i: int| 0 <= i < self.sheets@.len() ==> (#[trigger] self.sheets@[i]).wf()
        &&& forall|i: int, j: int|
            0 <= i < j < self.names@.len() ==> #[trigger] self.names@[i] != #[trigger] self.names@[j]
    }

    /// The waiting formulas of a sheet.
    pub open spec fn of(&self, name: Seq<char>) -> Seq<EntryView> {
        entries_of(self@, name, self@.len())
    }

    pub fn new() -> (s: StagedFormulas)
        ensures
            s.wf(),
            s@.len() == 0,
    {
        StagedFormulas { names: TextIndex::new(), sheets: Vec::new() }
    }

    proof fn lemma_of(&self, i: int)
        requires
            self.wf(),
            0 <= i < self.sheets@.len(),
        ensures
            self.of(self.names@[i]) == self.sheets@[i]@,
    {
        let v = self@;
        assert forall|a: int, b: int| 0 <= a < b < v.len() implies (#[trigger] v[a]).0 != (
        #[trigger] v[b]).0 by {
            assert(self.names@[a] != self.names@[b]);
        }
        lemma_entries_at(v, i, v.len());
    }

    proof fn lemma_of_absent(&self, name: Seq<char>)
        requires
            self.wf(),
            !self.names@.contains(name),
        ensures
            self.of(name) == Seq::<EntryView>::empty(),
    {
        let v = self@;
        assert forall|a: int| 0 <= a < v.len() implies (#[trigger] v[a]).0 != name by {
            if self.names@[a] == name {
                assert(self.names@.contains(name));
            }
        }
        lemma_entries_absent(v, name, v.len());
    }

    /// Whether any formula waits.
    pub fn has_staged_formulas(&self) -> (b: bool)
        requires
            self.wf(),
        ensures
            b == exists|i: int| 0 <= i < self@.len() && (#[trigger] self@[i]).1.len() > 0,
    {
        let mut i: usize = 0;
        while i < self.sheets.len()
            invariant
                self.wf(),
                i <= self.sheets@.len(),
                forall|k: int| 0 <= k < i ==> (#[trigger] self@[k]).1.len() == 0,
            decreases self.sheets@.len() - i,
        {
            if !self.sheets[i].is_empty() {
                assert(self@[i as int].1.len() > 0);
                return true;
            }
            i = i + 1;
        }
        false
    }

    /// The sheets on which formulas wait, each once.
    pub fn waiting_sheets(&self) -> (r: Vec<String>)
        requires
            self.wf(),
        ensures
            forall|name: Seq<char>| #[trigger]
                self.of(name).len() > 0 ==> exists|i: int|
                    0 <= i < r@.len() && (#[trigger] r@[i])@ == name,
            forall|i: int| 0 <= i < r@.len() ==> self.of((#[trigger] r@[i])@).len() > 0,
            forall|i: int, j: int|
                0 <= i < j < r@.len() ==> (#[trigger] r@[i])@ != (#[trigger] r@[j])@,
    {
        let mut out: Vec<String> = Vec::new();
        let ghost mut places: Seq<int> = Seq::empty();
        let mut i: usize = 0;
        while i < self.sheets.len()
            invariant
                self.wf(),
                i <= self.sheets@.len(),
                places.len() == out@.len(),
                forall|k: int|
                    0 <= k < out@.len() ==> 0 <= #[trigger] places[k] < i && out@[k]@
                        == self.names@[places[k]] && self.sheets@[places[k]]@.len() > 0,
                forall|a: int, b: int|
                    0 <= a < b < places.len() ==> #[trigger] places[a] < #[trigger] places[b],
                forall|m: int|
                    0 <= m < i && (#[trigger] self.sheets@[m])@.len() > 0 ==> places.contains(m),
            decreases self.sheets@.len() - i,
        {
            if !self.sheets[i].is_empty() {
                out.push(self.names.text(i).clone());
                proof {
                    let before = places;
                    places = places.push(i as int);
                    assert forall|m: int|
                        0 <= m < i + 1 && (#[trigger] self.sheets@[m])@.len()
                            > 0 implies places.contains(m) by {
                        if m < i {
                            let k = choose|k: int| 0 <= k < before.len() && before[k] == m;
                            assert(places[k] == m);
                        } else {
                            assert(places[before.len() as int] == m);
                        }
                    }
                }
            }
            i = i + 1;
        }
        proof {
            assert forall|name: Seq<char>| #[trigger] self.of(name).len() > 0 implies exists|i: int|
                0 <= i < out@.len() && (#[trigger] out@[i])@ == name by {
                if !self.names@.contains(name) {
                    self.lemma_of_absent(name);
                }
                let m = choose|m: int| 0 <= m < self.names@.len() && self.names@[m] == name;
                self.lemma_of(m);
                assert(self.sheets@[m]@.len() > 0);
                let k = choose|k: int| 0 <= k < places.len() && places[k] == m;
                assert(out@[k]@ == name);
            }
            assert forall|i: int| 0 <= i < out@.len() implies self.of((#[trigger] out@[i])@).len()
                > 0 by {
                self.lemma_of(places[i]);
            }
            assert forall|i: int, j: int| 0 <= i < j < out@.len() implies (#[trigger] out@[i])@ != (
            #[trigger] out@[j])@ by {
                assert(places[i] < places[j]);
                assert(self.names@[places[i]] != self.names@[places[j]]);
            }
        }
        out
    }

    /// How many formulas wait; the count stops at the largest machine integer.
    pub fn staged_formula_count(&self) -> (n: usize)
        requires
            self.wf(),
        ensures
            n == stopped(entry_count(self@, self@.len())),
    {
        let mut n: usize = 0;
        let mut i: usize = 0;
        while i < self.sheets.len()
            invariant
                self.wf(),
                i <= self.sheets@.len(),
                n == stopped(entry_count(self@, i as nat)),
            decreases self.sheets@.len() - i,
        {
            n = n.saturating_add(self.sheets[i].len());
            i = i + 1;
        }
        n
    }

    /// The text that waits for a cell.
    pub fn get_staged_formula_text(&self, sheet: &str, row: u32, col: u32) -> (r: Option<String>)
        requires
            self.wf(),
        ensures
            match r {
                Some(text) => has_cell(self.of(sheet@), row, col) && text@ == self.of(
                    sheet@,
                )[place_of(self.of(sheet@), row, col)].2,
                None => !has_cell(self.of(sheet@), row, col),
            },
    {
        match self.names.find(sheet) {
            Some(i) => {
                proof {
                    self.lemma_of(i as int);
                }
                match self.sheets[i].get(row, col) {
                    Some(t) => Some(t.clone()),
                    None => None,
                }
            },
            None => {
                proof {
                    self.lemma_of_absent(sheet@);
                }
                None
            },
        }
    }

    /// Puts a sheet's entries in the place of those that it had. The sheet must be known.
    fn put(&mut self, i: usize, s: StagedSheet)
        requires
            old(self).wf(),
            i < old(self).sheets@.len(),
            s.wf(),
        ensures
            final(self).wf(),
            final(self).names == old(self).names,
            final(self).sheets@ == old(self).sheets@.update(i as int, s),
            final(self).of(old(self).names@[i as int]) == s@,
            forall|name: Seq<char>|
                name != old(self).names@[i as int] ==> #[trigger] final(self).of(name) == old(
                    self,
                ).of(name),
    {
        let ghost before = *self;
        self.sheets.set(i, s);
        proof {
            self.lemma_of(i as int);
            assert forall|name: Seq<char>|
                name != before.names@[i as int] implies #[trigger] self.of(name) == before.of(
                name,
            ) by {
                let a = self@;
                let b = before@;
                assert forall|k: int| 0 <= k < a.len() implies (#[trigger] a[k]).0 == b[k].0 && (
                a[k].0 == name ==> a[k].1 == b[k].1) by {
                }
                lemma_entries_same(a, b, name, a.len());
            }
        }
    }

    /// The place of a sheet, which it gets if it has none.
    fn place(&mut self, sheet: &str) -> (i: usize)
        requires
            old(self).wf(),
        ensures
            final(self).wf(),
            i < final(self).sheets@.len(),
            final(self).names@[i as int] == sheet@,
            forall|name: Seq<char>| #[trigger] final(self).of(name) == old(self).of(name),
    {
        let ghost before = *self;
        let n: usize = self.names.len();
        match self.names.find(sheet) {
            Some(i) => i,
            None => {
                let i = self.names.intern(sheet);
                self.sheets.push(StagedSheet::new());
                proof {
                    assert forall|a: int, b: int| 0 <= a < b < self.names@.len() implies
                        #[trigger] self.names@[a] != #[trigger] self.names@[b] by {
                        if b == n {
                            if before.names@[a] == sheet@ {
                                assert(before.names@.contains(sheet@));
                            }
                        } else {
                            assert(before.names@[a] != before.names@[b]);
                        }
                    }
                    assert forall|name: Seq<char>| #[trigger] self.of(name) == before.of(name) by {
                        let a = self@;
                        let b = before@;
                        assert forall|k: int| 0 <= k < b.len() implies (#[trigger] a[k]).0 == b[k].0
                            && (a[k].0 == name ==> a[k].1 == b[k].1) by {
                            assert(self.names@[k] == before.names@[k]);
                            assert(self.sheets@[k] == before.sheets@[k]);
                        }
                        lemma_entries_same(a, b, name, b.len());
                        assert(a[n as int] == (sheet@, Seq::<EntryView>::empty()));
                        if name == sheet@ {
                            before.lemma_of_absent(name);
                        }
                    }
                }
                i
            },
        }
    }

    /// Stages a text for a cell of a sheet.
    pub fn stage_formula_text(&mut self, sheet: &str, row: u32, col: u32, text: String)
        requires
            old(self).wf(),
        ensures
            final(self).wf(),
            final(self).of(sheet@) == staged(old(self).of(sheet@), row, col, text@),
            forall|name: Seq<char>|
                name != sheet@ ==> #[trigger] final(self).of(name) == old(self).of(name),
    {
        let i = self.place(sheet);
        proof {
            self.lemma_of(i as int);
        }
        let mut s = StagedSheet::new();
        self.swap_out(i, &mut s);
        s.stage(row, col, text);
        self.put(i, s);
    }

    /// Exchanges a sheet's entries with others.
    fn swap_out(&mut self, i: usize, s: &mut StagedSheet)
        requires
            old(self).wf(),
            i < old(self).sheets@.len(),
            old(s).wf(),
        ensures
            final(self).wf(),
            final(self).names == old(self).names,
            final(self).sheets@ == old(self).sheets@.update(i as int, *old(s)),
            *final(s) == old(self).sheets@[i as int],
            final(s).wf(),
            final(self).of(old(self).names@[i as int]) == old(s)@,
            forall|name: Seq<char>|
                name != old(self).names@[i as int] ==> #[trigger] final(self).of(name) == old(
                    self,
                ).of(name),
    {
        let ghost before = *self;
        let ghost other = *s;
        self.sheets.push(StagedSheet::new());
        let mut taken = self.sheets.swap_remove(i);
        proof {
            assert(taken == before.sheets@[i as int]);
        }
        std::mem::swap(&mut taken, s);
        let n: usize = self.sheets.len();
        proof {
            assert(n == before.sheets@.len());
        }
        self.sheets.set(i, taken);
        proof {
            assert(self.sheets@ =~= before.sheets@.update(i as int, other));
            self.lemma_of(i as int);
            assert forall|name: Seq<char>|
                name != before.names@[i as int] implies #[trigger] self.of(name) == before.of(
                name,
            ) by {
                let a = self@;
                let b = before@;
                assert forall|k: int| 0 <= k < a.len() implies (#[trigger] a[k]).0 == b[k].0 && (
                a[k].0 == name ==> a[k].1 == b[k].1) by {
                }
                lemma_entries_same(a, b, name, a.len());
            }
        }
    }

    /// Takes the text of a cell back.
    pub fn clear_staged_formula_text(&mut self, sheet: &str, row: u32, col: u32) -> (r: Option<String>)
        requires
            old(self).wf(),
        ensures
            final(self).wf(),
            match r {
                Some(text) => has_cell(old(self).of(sheet@), row, col) && text@ == old(self).of(
                    sheet@,
                )[place_of(old(self).of(sheet@), row, col)].2,
                None => !has_cell(old(self).of(sheet@), row, col),
            },
            final(self).of(sheet@) == unstaged(old(self).of(sheet@), row, col),
            forall|name: Seq<char>|
                name != sheet@ ==> #[trigger] final(self).of(name) == old(self).of(name),
    {
        match self.names.find(sheet) {
            Some(i) => {
                proof {
                    self.lemma_of(i as int);
                }
                let mut s = StagedSheet::new();
                self.swap_out(i, &mut s);
                let r = s.remove(row, col);
                self.put(i, s);
                r
            },
            None => {
                proof {
                    self.lemma_of_absent(sheet@);
                }
                None
            },
        }
    }

    /// Takes all texts of a sheet.
    pub fn take_sheet(&mut self, sheet: &str) -> (r: Vec<StagedFormulaEntry>)
        requires
            old(self).wf(),
        ensures
            final(self).wf(),
            entries_view(r@) == old(self).of(sheet@),
            final(self).of(sheet@) == Seq::<EntryView>::empty(),
            forall|name: Seq<char>|
                name != sheet@ ==> #[trigger] final(self).of(name) == old(self).of(name),
    {
        match self.names.find(sheet) {
            Some(i) => {
                proof {
                    self.lemma_of(i as int);
                }
                let mut s = StagedSheet::new();
                self.swap_out(i, &mut s);
                s.into_entries()
            },
            None => {
                proof {
                    self.lemma_of_absent(sheet@);
                }
                let r: Vec<StagedFormulaEntry> = Vec::new();
                assert(entries_view(r@) =~= Seq::<EntryView>::empty());
                r
            },
        }
    }

    /// Drops all texts of a sheet.
    pub fn clear_staged_formulas_for_sheet(&mut self, sheet: &str)
        requires
            old(self).wf(),
        ensures
            final(self).wf(),
            final(self).of(sheet@) == Seq::<EntryView>::empty(),
            forall|name: Seq<char>|
                name != sheet@ ==> #[trigger] final(self).of(name) == old(self).of(name),
    {
        self.take_sheet(sheet);
    }

    /// Moves all texts of a sheet to another one, over what waits there.
    pub fn rename_staged_formula_sheet(&mut self, from: &str, to: &str)
        requires
            old(self).wf(),
        ensures
            final(self).wf(),
            from@ != to@ ==> final(self).of(from@) == Seq::<EntryView>::empty(),
            from@ != to@ ==> final(self).of(to@) == restaged(
                old(self).of(to@),
                old(self).of(from@),
                old(self).of(from@).len(),
            ),
            from@ == to@ ==> final(self).of(to@) == restaged(
                Seq::empty(),
                old(self).of(from@),
                old(self).of(from@).len(),
            ),
            forall|name: Seq<char>|
                name != from@ && name != to@ ==> #[trigger] final(self).of(name) == old(self).of(
                    name,
                ),
    {
        let ghost before = *self;
        let entries = self.take_sheet(from);
        let ghost list = before.of(from@);
        let ghost start = self.of(to@);
        let mut i: usize = 0;
        while i < entries.len()
            invariant
                self.wf(),
                i <= entries@.len(),
                entries_view(entries@) == list,
                self.of(to@) == restaged(start, list, i as nat),
                from@ != to@ ==> self.of(from@) == Seq::<EntryView>::empty(),
                forall|name: Seq<char>|
                    name != from@ && name != to@ ==> #[trigger] self.of(name) == before.of(name),
            decreases entries@.len() - i,
        {
            assert(list[i as int] == (
                entries@[i as int].0,
                entries@[i as int].1,
                entries@[i as int].2@,
            ));
            self.stage_formula_text(to, entries[i].0, entries[i].1, entries[i].2.clone());
            i = i + 1;
        }
    }
}

/// Taking a staged text away leaves its cell without one, and every other cell keeps its text.
pub proof fn unstaged_texts_are_gone(entries: Seq<EntryView>, row: u32, col: u32, other: (u32, u32))
    requires
        distinct_cells(entries),
    ensures
        ({
            let after = unstaged(entries, row, col);
            &&& !has_cell(after, row, col)
            &&& distinct_cells(after)
            &&& other != (row, col) ==> has_cell(after, other.0, other.1) == has_cell(
                entries,
                other.0,
                other.1,
            )
            &&& other != (row, col) && has_cell(entries, other.0, other.1) ==> after[place_of(
                after,
                other.0,
                other.1,
            )].2 == entries[place_of(entries, other.0, other.1)].2
        }),
{
    let after = unstaged(entries, row, col);
    if has_cell(entries, row, col) {
        let p = place_of(entries, row, col);
        assert(stands_at(entries, p, row, col));
        assert forall|i: int| 0 <= i < after.len() implies #[trigger] after[i] == entries[if i < p {
            i
        } else {
            i + 1
        }] by {}
        assert(distinct_cells(after));
        assert(!has_cell(after, row, col)) by {
            if has_cell(after, row, col) {
                let i = choose|i: int| #[trigger] stands_at(after, i, row, col);
                let j = if i < p {
                    i
                } else {
                    i + 1
                };
                assert(after[i] == entries[j]);
                assert(entries[j].0 == entries[p].0 && entries[j].1 == entries[p].1);
            }
        }
        if other != (row, col) {
            if has_cell(entries, other.0, other.1) {
                let o = place_of(entries, other.0, other.1);
                assert(stands_at(entries, o, other.0, other.1));
                let q = if o < p {
                    o
                } else {
                    o - 1
                };
                assert(after[q] == entries[o]);
                assert(stands_at(after, q, other.0, other.1));
                lemma_place_is(after, q, other.0, other.1);
            }
            if has_cell(after, other.0, other.1) {
                let i = choose|i: int| #[trigger] stands_at(after, i, other.0, other.1);
                let j = if i < p {
                    i
                } else {
                    i + 1
                };
                assert(after[i] == entries[j]);
                assert(stands_at(entries, j, other.0, other.1));
            }
        }
    }
}

/// Renaming a sheet brings its staged texts to the new name: each is read back there, and lies over
/// what was staged for the cell before.
pub proof fn moved_texts_are_read_back(
    entries: Seq<EntryView>,
    list: Seq<EntryView>,
    n: nat,
    cell: (u32, u32),
)
    requires
        n <= list.len(),
        distinct_cells(entries),
        distinct_cells(list),
    ensures
        ({
            let after = restaged(entries, list, n);
            &&& distinct_cells(after)
            &&& has_cell(list.take(n as int), cell.0, cell.1) ==> has_cell(after, cell.0, cell.1)
                && after[place_of(after, cell.0, cell.1)].2 == list[place_of(
                list.take(n as int),
                cell.0,
                cell.1,
            )].2
            &&& !has_cell(list.take(n as int), cell.0, cell.1) ==> has_cell(after, cell.0, cell.1)
                == has_cell(entries, cell.0, cell.1) && (has_cell(entries, cell.0, cell.1)
                ==> after[place_of(after, cell.0, cell.1)].2 == entries[place_of(
                entries,
                cell.0,
                cell.1,
            )].2)
        }),
    decreases n,
{
    if n > 0 {
        let m = (n - 1) as nat;
        moved_texts_are_read_back(entries, list, m, cell);
        let e = list[n - 1];
        staged_texts_are_read_back(restaged(entries, list, m), e.0, e.1, e.2, cell);
        let (long, short) = (list.take(n as int), list.take(m as int));
        assert(long =~= short.push(e));
        if cell == (e.0, e.1) {
            assert(stands_at(long, n - 1, cell.0, cell.1));
            lemma_place_is(long, n - 1, cell.0, cell.1);
        } else {
            if has_cell(short, cell.0, cell.1) {
                let i = place_of(short, cell.0, cell.1);
                assert(stands_at(short, i, cell.0, cell.1));
                assert(stands_at(long, i, cell.0, cell.1));
                lemma_place_is(long, i, cell.0, cell.1);
            }
            if has_cell(long, cell.0, cell.1) {
                let i = place_of(long, cell.0, cell.1);
                assert(stands_at(long, i, cell.0, cell.1));
                assert(stands_at(short, i, cell.0, cell.1));
            }
        }
    }
}

/// The staged texts of all sheets are counted.
pub proof fn staged_texts_are_counted_sheet_by_sheet(sheets: SheetsView, n: nat, i: int)
    requires
        n <= sheets.len(),
        0 <= i < n,
    ensures
        entry_count(sheets, n) >= sheets[i].1.len(),
        (forall|k: int| 0 <= k < n && k != i ==> (#[trigger] sheets[k]).1.len() == 0) ==> entry_count(
            sheets,
            n,
        ) == sheets[i].1.len(),
    decreases n,
{
    if i < n - 1 {
        staged_texts_are_counted_sheet_by_sheet(sheets, (n - 1) as nat, i);
        if forall|k: int| 0 <= k < n && k != i ==> (#[trigger] sheets[k]).1.len() == 0 {
            assert(sheets[n - 1].1.len() == 0);
        }
    } else {
        lemma_no_texts(sheets, (n - 1) as nat);
    }
}

proof fn lemma_no_texts(sheets: SheetsView, n: nat)
    requires
        n <= sheets.len(),
    ensures
        (forall|k: int| 0 <= k < n ==> (#[trigger] sheets[k]).1.len() == 0) ==> entry_count(sheets, n) == 0,
    decreases n,
{
    if n > 0 {
        lemma_no_texts(sheets, (n - 1) as nat);
    }
}

} // verus!
