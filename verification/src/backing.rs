//! The pluggable primary key-to-value store: one interface over an ordered
//! tree and two hash-table flavors, chosen at construction time.

use vstd::prelude::*;

verus! {

use std::collections::BTreeMap;
use std::collections::HashMap;
use rustc_hash::FxHashMap;
use crate::entry::ExpirableEntry;
use vstd::std_specs::iter::IteratorSpec;

/// Relies on `rustc_hash::FxBuildHasher`: an opaque, deterministic hasher
/// state for `std::collections::HashMap`.
#[verifier::external_type_specification]
#[verifier::external_body]
pub struct ExFxBuildHasher(rustc_hash::FxBuildHasher);

/// Selects the inner map implementation for the container.
pub enum MapKind {
    BTreeMap,
    HashMap,
    FxHashMap,
}

/// Wraps the supported map implementations behind a single interface.
///
/// Whatever the flavor, the abstract content is a finite map from key to
/// entry, and every operation is specified against that map alone: the
/// flavor affects cost, never semantics.
pub(crate) enum GenericMap<V> {
    BTreeMap(BTreeMap<u64, ExpirableEntry<V>>),
    HashMap(HashMap<u64, ExpirableEntry<V>>),
    FxHashMap(FxHashMap<u64, ExpirableEntry<V>>),
}

impl<V> View for GenericMap<V> {
    type V = Map<u64, ExpirableEntry<V>>;

    closed spec fn view(&self) -> Map<u64, ExpirableEntry<V>> {
        match self {
            GenericMap::BTreeMap(m) => m@,
            GenericMap::HashMap(m) => m@,
            GenericMap::FxHashMap(m) => m@,
        }
    }
}

/// Relies on `HashMap::get` with rustc-hash's `FxBuildHasher`, a
/// deterministic hasher consistent with `u64` equality: the entry stored
/// under `k`, if any.
#[verifier::external_body]
fn fx_get<'a, V>(m: &'a FxHashMap<u64, ExpirableEntry<V>>, k: &u64) -> (result: Option<
    &'a ExpirableEntry<V>,
>)
    ensures
        match result {
            Some(e) => m@.contains_key(*k) && *e == m@[*k],
            None => !m@.contains_key(*k),
        },
{
    m.get(k)
}

/// Relies on `HashMap::insert` with rustc-hash's `FxBuildHasher`: stores the
/// entry under `k` and returns the entry previously stored there, if any.
#[verifier::external_body]
fn fx_insert<V>(m: &mut FxHashMap<u64, ExpirableEntry<V>>, k: u64, v: ExpirableEntry<V>) -> (result:
    Option<ExpirableEntry<V>>)
    ensures
        final(m)@ == old(m)@.insert(k, v),
        match result {
            Some(e) => old(m)@.contains_key(k) && e == old(m)@[k],
            None => !old(m)@.contains_key(k),
        },
{
    m.insert(k, v)
}

/// Relies on `HashMap::remove` with rustc-hash's `FxBuildHasher`: removes
/// and returns the entry stored under `k`, if any.
#[verifier::external_body]
fn fx_remove<V>(m: &mut FxHashMap<u64, ExpirableEntry<V>>, k: &u64) -> (result: Option<
    ExpirableEntry<V>,
>)
    ensures
        final(m)@ == old(m)@.remove(*k),
        match result {
            Some(e) => old(m)@.contains_key(*k) && e == old(m)@[*k],
            None => !old(m)@.contains_key(*k),
        },
{
    m.remove(k)
}

/// Relies on `HashMap::len` with rustc-hash's `FxBuildHasher`: the number of
/// entries stored.
#[verifier::external_body]
fn fx_len<V>(m: &FxHashMap<u64, ExpirableEntry<V>>) -> (n: usize)
    ensures
        n == m@.dom().len(),
{
    m.len()
}

/// Relies on `HashMap::keys` with rustc-hash's `FxBuildHasher`: each stored
/// key exactly once, in unspecified order.
#[verifier::external_body]
fn fx_keys<V>(m: &FxHashMap<u64, ExpirableEntry<V>>) -> (keys: Vec<u64>)
    ensures
        keys@.no_duplicates(),
        keys@.to_set() == m@.dom(),
{
    m.keys().copied().collect()
}

/// Relies on `HashMap::get_mut` with rustc-hash's `FxBuildHasher`: a mutable
/// borrow of the entry stored under `k`, if any.
#[verifier::external_body]
fn fx_get_mut<'a, V>(m: &'a mut FxHashMap<u64, ExpirableEntry<V>>, k: &u64) -> (result: Option<
    &'a mut ExpirableEntry<V>,
>)
    ensures
        !old(m)@.contains_key(*k) ==> result.is_none() && final(m)@ == old(m)@,
        old(m)@.contains_key(*k) ==> result.is_some() && *result.unwrap() == old(m)@[*k]
            && final(m)@ == old(m)@.insert(*k, *final(result.unwrap())),
{
    m.get_mut(k)
}

/// Relies on `BTreeMap::get_mut` (no vstd specification): a mutable borrow
/// of the entry stored under `k`, if any.
#[verifier::external_body]
fn btree_get_mut<'a, V>(m: &'a mut BTreeMap<u64, ExpirableEntry<V>>, k: &u64) -> (result: Option<
    &'a mut ExpirableEntry<V>,
>)
    ensures
        !old(m)@.contains_key(*k) ==> result.is_none() && final(m)@ == old(m)@,
        old(m)@.contains_key(*k) ==> result.is_some() && *result.unwrap() == old(m)@[*k]
            && final(m)@ == old(m)@.insert(*k, *final(result.unwrap())),
{
    m.get_mut(k)
}

/// Relies on `HashMap::get_mut` (no vstd specification): a mutable borrow of
/// the entry stored under `k`, if any.
#[verifier::external_body]
fn hash_get_mut<'a, V>(m: &'a mut HashMap<u64, ExpirableEntry<V>>, k: &u64) -> (result: Option<
    &'a mut ExpirableEntry<V>,
>)
    ensures
        !old(m)@.contains_key(*k) ==> result.is_none() && final(m)@ == old(m)@,
        old(m)@.contains_key(*k) ==> result.is_some() && *result.unwrap() == old(m)@[*k]
            && final(m)@ == old(m)@.insert(*k, *final(result.unwrap())),
{
    m.get_mut(k)
}

impl<V> GenericMap<V> {
    /// Creates an empty map of the chosen flavor.
    pub(crate) fn new(kind: MapKind) -> (map: Self)
        ensures
            map@ == Map::<u64, ExpirableEntry<V>>::empty(),
            map@.dom().finite(),
    {
        let map = match kind {
            MapKind::BTreeMap => GenericMap::BTreeMap(BTreeMap::new()),
            MapKind::HashMap => GenericMap::HashMap(HashMap::new()),
            MapKind::FxHashMap => GenericMap::FxHashMap(FxHashMap::default()),
        };
        proof {
            assert(Map::<u64, ExpirableEntry<V>>::empty().dom() =~= Set::<u64>::empty());
        }
        map
    }

    pub(crate) fn get(&self, k: &u64) -> (result: Option<&ExpirableEntry<V>>)
        ensures
            match result {
                Some(e) => self@.contains_key(*k) && *e == self@[*k],
                None => !self@.contains_key(*k),
            },
    {
        match self {
            GenericMap::BTreeMap(m) => m.get(k),
            GenericMap::HashMap(m) => m.get(k),
            GenericMap::FxHashMap(m) => fx_get(m, k),
        }
    }

    pub(crate) fn get_mut(&mut self, k: &u64) -> (result: Option<&mut ExpirableEntry<V>>)
        ensures
            !old(self)@.contains_key(*k) ==> result.is_none() && final(self)@ == old(self)@,
            old(self)@.contains_key(*k) ==> result.is_some() && *result.unwrap() == old(self)@[*k]
                && final(self)@ == old(self)@.insert(*k, *final(result.unwrap())),
    {
        match self {
            GenericMap::BTreeMap(m) => btree_get_mut(m, k),
            GenericMap::HashMap(m) => hash_get_mut(m, k),
            GenericMap::FxHashMap(m) => fx_get_mut(m, k),
        }
    }

    pub(crate) fn insert(&mut self, k: u64, v: ExpirableEntry<V>) -> (result: Option<
        ExpirableEntry<V>,
    >)
        ensures
            final(self)@ == old(self)@.insert(k, v),
            match result {
                Some(e) => old(self)@.contains_key(k) && e == old(self)@[k],
                None => !old(self)@.contains_key(k),
            },
    {
        match self {
            GenericMap::BTreeMap(m) => m.insert(k, v),
            GenericMap::HashMap(m) => m.insert(k, v),
            GenericMap::FxHashMap(m) => fx_insert(m, k, v),
        }
    }

    pub(crate) fn remove(&mut self, k: &u64) -> (result: Option<ExpirableEntry<V>>)
        ensures
            final(self)@ == old(self)@.remove(*k),
            match result {
                Some(e) => old(self)@.contains_key(*k) && e == old(self)@[*k],
                None => !old(self)@.contains_key(*k),
            },
    {
        match self {
            GenericMap::BTreeMap(m) => m.remove(k),
            GenericMap::HashMap(m) => m.remove(k),
            GenericMap::FxHashMap(m) => fx_remove(m, k),
        }
    }

    pub(crate) fn len(&self) -> (n: usize)
        ensures
            n == self@.dom().len(),
    {
        match self {
            GenericMap::BTreeMap(m) => m.len(),
            GenericMap::HashMap(m) => m.len(),
            GenericMap::FxHashMap(m) => fx_len(m),
        }
    }

    pub(crate) fn is_empty(&self) -> (empty: bool)
        ensures
            empty == self@.is_empty(),
    {
        match self {
            GenericMap::BTreeMap(m) => m.is_empty(),
            GenericMap::HashMap(m) => m.is_empty(),
            GenericMap::FxHashMap(m) => m.is_empty(),
        }
    }


    /// Every stored key, each exactly once, in unspecified order.
    pub(crate) fn keys(&self) -> (keys: Vec<u64>)
        ensures
            keys@.no_duplicates(),
            keys@.to_set() == self@.dom(),
    {
        match self {
            GenericMap::BTreeMap(m) => {
                let ghost r = vstd::std_specs::btree::spec_keys_iter(m).remaining();
                let mut ks: Vec<u64> = Vec::new();
                for k in it: m.keys()
                    invariant
                        it.seq() == r,
                        ks@.len() == it.index(),
                        forall|p: int| 0 <= p < ks@.len() ==> ks@[p] == *r[p],
                {
                    ks.push(*k);
                }
                proof {
                    assert(ks@.len() == r.len());
                    assert(ks@ =~= r.unref());
                    assert(r.unref().to_set() == m@.dom());
                    assert forall|p: int, q: int|
                        0 <= p < ks@.len() && 0 <= q < ks@.len() && p != q implies ks@[p]
                        != ks@[q] by {
                        assert(r[p] != r[q]);
                    }
                }
                ks
            },
            GenericMap::HashMap(m) => {
                let ghost r = vstd::std_specs::hash::spec_keys_iter(m).remaining();
                let mut ks: Vec<u64> = Vec::new();
                for k in it: m.keys()
                    invariant
                        it.seq() == r,
                        ks@.len() == it.index(),
                        forall|p: int| 0 <= p < ks@.len() ==> ks@[p] == *r[p],
                {
                    ks.push(*k);
                }
                proof {
                    assert(ks@.len() == r.len());
                    assert(ks@ =~= r.unref());
                    assert(r.unref().to_set() == m@.dom());
                    assert forall|p: int, q: int|
                        0 <= p < ks@.len() && 0 <= q < ks@.len() && p != q implies ks@[p]
                        != ks@[q] by {
                        assert(r[p] != r[q]);
                    }
                }
                ks
            },
            GenericMap::FxHashMap(m) => fx_keys(m),
        }
    }

    pub(crate) fn clear(&mut self)
        ensures
            final(self)@ == Map::<u64, ExpirableEntry<V>>::empty(),
    {
        match self {
            GenericMap::BTreeMap(m) => m.clear(),
            GenericMap::HashMap(m) => m.clear(),
            GenericMap::FxHashMap(m) => m.clear(),
        }
    }
}

} // verus!
