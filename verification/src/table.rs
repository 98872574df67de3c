//! The store that keeps each item's payload and box under its key: a hash
//! map that hashes with the FNV function of the `fnv` crate.
//!
//! Verus does not look inside the map. What this file states of it is
//! believed, not proved: that a hash map whose hasher is a fixed function of
//! the bytes written to it behaves as a map from keys to values.
use vstd::prelude::*;
use std::collections::HashMap;
use std::hash::BuildHasherDefault;
use fnv::FnvHasher;

verus! {

/// `fnv::FnvHasher`, the hasher state. Nothing is said of what it holds.
#[verifier::external_type_specification]
#[verifier::external_body]
pub struct ExFnvHasher(FnvHasher);

/// `std::hash::BuildHasherDefault`, which makes a hasher by `Default`.
/// Nothing is said of what it holds.
#[verifier::external_type_specification]
#[verifier::external_body]
#[verifier::reject_recursive_types(H)]
pub struct ExBuildHasherDefault<H>(BuildHasherDefault<H>);

/// A hash map from keys to values of type `V`, hashed with FNV.
pub type Table<V> = HashMap<u32, V, BuildHasherDefault<FnvHasher>>;

/// `HashMap::with_hasher` with the default FNV hasher: the map it returns
/// is empty.
#[verifier::external_body]
pub(crate) fn table_new<V>() -> (table: Table<V>)
    ensures
        table@ =~= Map::empty(),
{
    HashMap::with_hasher(BuildHasherDefault::<FnvHasher>::default())
}

/// `HashMap::insert` on an FNV map: the key is bound to the value, and the
/// value that it was bound to before comes back.
#[verifier::external_body]
pub(crate) fn table_insert<V>(table: &mut Table<V>, key: u32, value: V) -> (prev: Option<V>)
    ensures
        final(table)@ == old(table)@.insert(key, value),
        prev == (if old(table)@.contains_key(key) {
            Some(old(table)@[key])
        } else {
            None
        }),
{
    table.insert(key, value)
}

/// `HashMap::get` on an FNV map: the value that the key is bound to, if any.
#[verifier::external_body]
pub(crate) fn table_get<V>(table: &Table<V>, key: u32) -> (value: Option<&V>)
    ensures
        value == (if table@.contains_key(key) {
            Some(&table@[key])
        } else {
            None
        }),
{
    table.get(&key)
}

/// `HashMap::remove` on an FNV map: the key is no longer bound, and the
/// value that it was bound to comes back.
#[verifier::external_body]
pub(crate) fn table_remove<V>(table: &mut Table<V>, key: u32) -> (value: Option<V>)
    ensures
        final(table)@ == old(table)@.remove(key),
        value == (if old(table)@.contains_key(key) {
            Some(old(table)@[key])
        } else {
            None
        }),
{
    table.remove(&key)
}

/// `HashMap::len` on an FNV map: the number of keys that are bound.
#[verifier::external_body]
pub(crate) fn table_len<V>(table: &Table<V>) -> (n: usize)
    ensures
        n == table@.len(),
{
    table.len()
}

/// `HashMap::iter` on an FNV map, walked to its end: each bound key comes
/// once, with the value it is bound to. The order is that of the map's
/// buckets, of which nothing is said.
#[verifier::external_body]
pub(crate) fn table_entries<V>(table: &Table<V>) -> (all: Vec<(u32, &V)>)
    ensures
        all@.len() == table@.len(),
        forall|i: int|
            0 <= i < all@.len() ==> table@.contains_key((#[trigger] all@[i]).0) && *all@[i].1
                == table@[all@[i].0],
        forall|i: int, j: int| 0 <= i < j < all@.len() ==> all@[i].0 != all@[j].0,
        forall|k: u32| table@.contains_key(k) ==> exists|i: int| 0 <= i < all@.len() && (#[trigger] all@[i]).0 == k,
{
    table.iter().map(|(k, v)| (*k, v)).collect()
}

/// The first step of `HashMap::iter` on an FNV map: a key that is bound, or
/// nothing if no key is. Which key it is depends on the map's buckets.
#[verifier::external_body]
pub(crate) fn table_first<V>(table: &Table<V>) -> (key: Option<u32>)
    ensures
        match key {
            Some(k) => table@.contains_key(k),
            None => table@.dom() =~= Set::empty(),
        },
{
    table.iter().next().map(|(k, _)| *k)
}

} // verus!
