//! The hash maps and hash sets of `rustc_hash`, as mathematical maps and sets.
//!
//! `FxHashMap` and `FxHashSet` are the collections of `std` with the hasher `FxBuildHasher`. That
//! hasher has no state of its own: every hasher it builds starts from the same value, so equal
//! keys always hash alike, and the collections are exact for keys whose equality and hash are
//! those of their mathematical value. The functions below claim that and nothing else.
use std::hash::Hash;
use rustc_hash::{FxHashMap, FxHashSet};
use vstd::prelude::*;
use vstd::std_specs::hash::obeys_key_model;

verus! {

/// The hasher of `rustc_hash`, opaque here.
#[verifier::external_type_specification]
#[verifier::external_body]
pub struct ExFxBuildHasher(rustc_hash::FxBuildHasher);

/// `HashMap::get` on an `FxHashMap`: the value under the key, if there is one.
#[verifier::external_body]
pub(crate) fn map_get<'a, K: Eq + Hash, V>(m: &'a FxHashMap<K, V>, k: &K) -> (r: Option<&'a V>)
    requires
        obeys_key_model::<K>(),
    ensures
        match r {
            Some(v) => m@.contains_key(*k) && *v == m@[*k],
            None => !m@.contains_key(*k),
        },
{
    m.get(k)
}

/// `HashMap::insert` on an `FxHashMap`: the map with the key bound to the value, and the value
/// that the key had before.
#[verifier::external_body]
pub(crate) fn map_insert<K: Eq + Hash, V>(m: &mut FxHashMap<K, V>, k: K, v: V) -> (r: Option<V>)
    requires
        obeys_key_model::<K>(),
    ensures
        final(m)@ == old(m)@.insert(k, v),
        r == (if old(m)@.contains_key(k) { Some(old(m)@[k]) } else { None }),
{
    m.insert(k, v)
}

/// `HashMap::remove` on an `FxHashMap`: the map without the key, and the value that it had.
#[verifier::external_body]
pub(crate) fn map_remove<K: Eq + Hash, V>(m: &mut FxHashMap<K, V>, k: &K) -> (r: Option<V>)
    requires
        obeys_key_model::<K>(),
    ensures
        final(m)@ == old(m)@.remove(*k),
        r == (if old(m)@.contains_key(*k) { Some(old(m)@[*k]) } else { None }),
{
    m.remove(k)
}

/// `HashSet::insert` on an `FxHashSet`: the set with the key, and whether the key is new.
#[verifier::external_body]
pub(crate) fn set_insert<K: Eq + Hash>(s: &mut FxHashSet<K>, k: K) -> (fresh: bool)
    requires
        obeys_key_model::<K>(),
    ensures
        final(s)@ == old(s)@.insert(k),
        fresh == !old(s)@.contains(k),
{
    s.insert(k)
}

/// `HashSet::contains` on an `FxHashSet`: membership.
#[verifier::external_body]
pub(crate) fn set_contains<K: Eq + Hash>(s: &FxHashSet<K>, k: &K) -> (b: bool)
    requires
        obeys_key_model::<K>(),
    ensures
        b == s@.contains(*k),
{
    s.contains(k)
}

} // verus!
