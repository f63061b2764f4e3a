//! The hash table that holds one `Stat` per key. It is `ahash::AHashMap`;
//! the functions here call it, and their contracts are taken on trust.

use vstd::prelude::*;
use ahash::AHashMap;
use crate::stat::Stat;

verus! {

/// `ahash::AHashMap`, of which nothing is known but what the functions below
/// state.
#[verifier::external_type_specification]
#[verifier::external_body]
#[verifier::reject_recursive_types(K)]
#[verifier::reject_recursive_types(V)]
#[verifier::reject_recursive_types(S)]
pub struct ExAHashMap<K, V, S>(ahash::AHashMap<K, V, S>);

/// `ahash::RandomState`, the hasher that an `AHashMap` is made with.
#[verifier::external_type_specification]
#[verifier::external_body]
pub struct ExRandomState(ahash::RandomState);

/// The contents of a table as a mathematical map.
pub type Entries = Map<Seq<u8>, Stat>;

/// The keys that an `AHashMap` from keys to statistics holds, each with its
/// value.
pub uninterp spec fn table_entries(table: AHashMap<Vec<u8>, Stat>) -> Map<Seq<u8>, Stat>;

/// One key of a table with its value.
#[derive(Debug)]
pub struct Entry {
    pub key: Vec<u8>,
    pub stat: Stat,
}

/// Whether `listed` holds each key of `entries` exactly once, with its value,
/// and nothing else. The order is left open.
pub open spec fn lists(listed: Seq<Entry>, entries: Map<Seq<u8>, Stat>) -> bool {
    &&& forall|i: int|
        0 <= i < listed.len() ==> entries.contains_key((#[trigger] listed[i]).key@)
            && entries[listed[i].key@] == listed[i].stat
    &&& forall|i: int, j: int|
        0 <= i < j < listed.len() ==> (#[trigger] listed[i]).key@ != (#[trigger] listed[j]).key@
    &&& forall|k: Seq<u8>| #[trigger]
        entries.contains_key(k) ==> exists|i: int|
            0 <= i < listed.len() && (#[trigger] listed[i]).key@ == k
}

/// `AHashMap::new`: a table without keys.
#[verifier::external_body]
pub(crate) fn table_new() -> (table: AHashMap<Vec<u8>, Stat>)
    ensures
        table_entries(table) == Entries::empty(),
{
    AHashMap::new()
}

/// `AHashMap::get`: the value stored under `key`, if the table holds the key.
#[verifier::external_body]
pub(crate) fn table_get(table: &AHashMap<Vec<u8>, Stat>, key: &[u8]) -> (found: Option<Stat>)
    ensures
        found == (if table_entries(*table).contains_key(key@) {
            Some(table_entries(*table)[key@])
        } else {
            None
        }),
{
    table.get(key).copied()
}

/// `AHashMap::insert`: afterwards `key` maps to `stat`, whether or not the
/// table held the key before; all other keys are as they were.
#[verifier::external_body]
pub(crate) fn table_insert(table: &mut AHashMap<Vec<u8>, Stat>, key: Vec<u8>, stat: Stat)
    ensures
        table_entries(*final(table)) == table_entries(*old(table)).insert(key@, stat),
{
    table.insert(key, stat);
}

/// `AHashMap::get_mut`, and a store through the reference it returns: the
/// value under a key that the table holds is replaced by `stat`.
#[verifier::external_body]
pub(crate) fn table_set(table: &mut AHashMap<Vec<u8>, Stat>, key: &[u8], stat: Stat)
    requires
        table_entries(*old(table)).contains_key(key@),
    ensures
        table_entries(*final(table)) == table_entries(*old(table)).insert(key@, stat),
{
    *table.get_mut(key).unwrap() = stat;
}

/// `AHashMap::into_iter`, collected: every key of the table once, with its
/// value, in the order in which the table happens to be walked.
#[verifier::external_body]
pub(crate) fn table_into_entries(table: AHashMap<Vec<u8>, Stat>) -> (listed: Vec<Entry>)
    ensures
        lists(listed@, table_entries(table)),
{
    table.into_iter().map(|(key, stat)| Entry { key, stat }).collect()
}

} // verus!
