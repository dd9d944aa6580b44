//! Texts by number: every text that is put in gets a number, the same text the same one.
use crate::fx::{map_get, map_insert, map_remove};
use rustc_hash::FxHashMap;
use vstd::prelude::*;

verus! {

/// A number computed from the first `n` characters of a text.
pub open spec fn text_hash(s: Seq<char>, n: nat) -> u64
    decreases n,
{
    if n == 0 {
        7
    } else {
        mix(text_hash(s, (n - 1) as nat), s[n - 1])
    }
}

/// The number `31 * h + c`, cut off.
pub open spec fn mix(h: u64, c: char) -> u64 {
    ((h as int * 31 + c as int) % 0x1_0000_0000_0000_0000) as u64
}

fn hash_text(s: &str) -> (h: u64)
    ensures
        h == text_hash(s@, s@.len()),
{
    let n: usize = s.unicode_len();
    let mut h: u64 = 7;
    let mut i: usize = 0;
    while i < n
        invariant
            n == s@.len(),
            i <= n,
            h == text_hash(s@, i as nat),
        decreases n - i,
    {
        let c = s.get_char(i);
        let wide: u128 = h as u128 * 31 + c as u128;
        h = (wide % 0x1_0000_0000_0000_0000) as u64;
        i = i + 1;
    }
    h
}

/// Texts with their numbers.
#[derive(Debug)]
pub struct TextIndex {
    texts: Vec<String>,
    buckets: FxHashMap<u64, Vec<usize>>,
}

/// Whether the position is in the bucket of the text.
spec fn in_bucket(buckets: Map<u64, Vec<usize>>, t: Seq<char>, i: usize) -> bool {
    let h = text_hash(t, t.len());
    buckets.contains_key(h) && buckets[h]@.contains(i)
}

impl TextIndex {
    /// The texts in the order of their numbers.
    pub closed spec fn view(&self) -> Seq<Seq<char>> {
        Seq::new(self.texts@.len(), |i: int| self.texts@[i]@)
    }

    /// No text has two numbers, and every text is found by its hash.
    pub closed spec fn wf(&self) -> bool {
        &&& forall|i: int, j: int|
            0 <= i < j < self.texts@.len() ==> (#[trigger] self.texts@[i])@ != (
            #[trigger] self.texts@[j])@
        &&& forall|i: usize|
            i < self.texts@.len() ==> in_bucket(
                self.buckets@,
                (#[trigger] self.texts@[i as int])@,
                i,
            )
        &&& forall|h: u64, a: int|
            #![trigger self.buckets@[h]@[a]]
            self.buckets@.contains_key(h) && 0 <= a < self.buckets@[h]@.len()
                ==> self.buckets@[h]@[a] < self.texts@.len()
    }

    pub fn new() -> (t: TextIndex)
        ensures
            t.wf(),
            t@ == Seq::<Seq<char>>::empty(),
    {
        let t = TextIndex { texts: Vec::new(), buckets: FxHashMap::default() };
        assert(t@ =~= Seq::<Seq<char>>::empty());
        t
    }

    pub fn len(&self) -> (n: usize)
        ensures
            n == self@.len(),
    {
        self.texts.len()
    }

    /// The number of a text.
    pub fn find(&self, t: &str) -> (r: Option<usize>)
        requires
            self.wf(),
        ensures
            match r {
                Some(i) => i < self@.len() && self@[i as int] == t@,
                None => !self@.contains(t@),
            },
    {
        let size: usize = self.texts.len();
        let h = hash_text(t);
        let key = t.to_string();
        if let Some(bucket) = map_get(&self.buckets, &h) {
            let mut a: usize = 0;
            while a < bucket.len()
                invariant
                    self.wf(),
                    size == self.texts@.len(),
                    key@ == t@,
                    self.buckets@.contains_key(h),
                    *bucket == self.buckets@[h],
                    a <= bucket@.len(),
                    forall|b: int|
                        0 <= b < a ==> self.texts@[(#[trigger] bucket@[b]) as int]@ != t@,
                decreases bucket@.len() - a,
            {
                assert(self.buckets@[h]@[a as int] == bucket@[a as int]);
                let i = bucket[a];
                if self.texts[i] == key {
                    return Some(i);
                }
                a = a + 1;
            }
            proof {
                if self@.contains(t@) {
                    let i = choose|i: int| 0 <= i < self@.len() && self@[i] == t@;
                    let n = i as usize;
                    assert(self.texts@[n as int]@ == t@);
                    assert(in_bucket(self.buckets@, self.texts@[n as int]@, n));
                    let b = choose|b: int| 0 <= b < bucket@.len() && bucket@[b] == n;
                    assert(self.texts@[bucket@[b] as int]@ != t@);
                }
            }
        } else {
            proof {
                if self@.contains(t@) {
                    let i = choose|i: int| 0 <= i < self@.len() && self@[i] == t@;
                    let n = i as usize;
                    assert(self.texts@[n as int]@ == t@);
                    assert(in_bucket(self.buckets@, self.texts@[n as int]@, n));
                }
            }
        }
        None
    }

    /// The text with the number.
    pub fn text(&self, i: usize) -> (t: &String)
        requires
            i < self@.len(),
        ensures
            t@ == self@[i as int],
    {
        &self.texts[i]
    }

    /// The number of a text, which it gets if it has none.
    pub fn intern(&mut self, t: &str) -> (i: usize)
        requires
            old(self).wf(),
        ensures
            final(self).wf(),
            i < final(self)@.len(),
            final(self)@[i as int] == t@,
            old(self)@.contains(t@) ==> final(self)@ == old(self)@,
            !old(self)@.contains(t@) ==> final(self)@ == old(self)@.push(t@) && i
                == old(self)@.len(),
    {
        if let Some(i) = self.find(t) {
            assert(self@.contains(t@));
            return i;
        }
        let ghost before = self.buckets@;
        let ghost texts0 = self.texts@;
        let ghost model = self@;
        let n: usize = self.texts.len();
        let h = hash_text(t);
        let mut bucket: Vec<usize> = match map_remove(&mut self.buckets, &h) {
            Some(b) => b,
            None => Vec::new(),
        };
        let ghost prior = bucket@;
        bucket.push(n);
        let ghost longer = bucket@;
        map_insert(&mut self.buckets, h, bucket);
        self.texts.push(t.to_string());
        proof {
            assert(self@ =~= model.push(t@));
            assert(longer[prior.len() as int] == n);
            assert forall|i: int, j: int| 0 <= i < j < self.texts@.len() implies (
            #[trigger] self.texts@[i])@ != (#[trigger] self.texts@[j])@ by {
                if j == n {
                    assert(model[i] == texts0[i]@);
                    if texts0[i]@ == t@ {
                        assert(model.contains(t@));
                    }
                } else {
                    assert(texts0[i]@ != texts0[j]@);
                }
            }
            assert forall|i: usize| i < self.texts@.len() implies in_bucket(
                self.buckets@,
                (#[trigger] self.texts@[i as int])@,
                i,
            ) by {
                if i < n {
                    assert(self.texts@[i as int] == texts0[i as int]);
                    assert(in_bucket(before, texts0[i as int]@, i));
                    let hi = text_hash(texts0[i as int]@, texts0[i as int]@.len());
                    if hi == h {
                        let a = choose|a: int| 0 <= a < before[hi]@.len() && before[hi]@[a] == i;
                        assert(longer[a] == i);
                    }
                }
            }
            assert forall|k: u64, a: int|
                #![trigger self.buckets@[k]@[a]]
                self.buckets@.contains_key(k) && 0 <= a
                    < self.buckets@[k]@.len() implies self.buckets@[k]@[a] < self.texts@.len() by {
                if k == h {
                    if a < prior.len() {
                        assert(before[h]@[a] == longer[a]);
                    }
                } else {
                    assert(before[k]@[a] == self.buckets@[k]@[a]);
                }
            }
        }
        n
    }
}

} // verus!
