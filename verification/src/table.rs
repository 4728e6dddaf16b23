//! The hash table of `rustc_hash` that holds the statistics of each
//! station, seen through the few methods that the statistics use.
//!
//! Every item here is trusted: Verus believes its contract without proof.

use rustc_hash::{FxBuildHasher, FxHashMap};
use vstd::prelude::*;
use crate::stats::StationStats;

verus! {

/// `rustc_hash::FxBuildHasher`, the hasher of an `FxHashMap`, known to
/// Verus only by name.
#[verifier::external_type_specification]
#[verifier::external_body]
pub struct ExFxBuildHasher(FxBuildHasher);

/// The hash table from station names to their statistics.
pub type StationTable = FxHashMap<Vec<u8>, StationStats>;

/// What an `FxHashMap` from station names to statistics holds: each key by
/// its bytes, with the statistics stored under it.
pub uninterp spec fn table_contents(m: StationTable) -> Map<Seq<u8>, StationStats>;

/// `FxHashMap::with_capacity_and_hasher` with the default `FxBuildHasher`:
/// claims that the new table is empty.
#[verifier::external_body]
pub(crate) fn table_with_capacity(capacity: usize) -> (res: StationTable)
    ensures
        table_contents(res).dom() == Set::<Seq<u8>>::empty(),
{
    FxHashMap::with_capacity_and_hasher(capacity, Default::default())
}

/// `HashMap::get`: claims that the result is the statistics stored under
/// `key`, and `None` exactly when nothing is.
#[verifier::external_body]
pub(crate) fn table_get<'a>(m: &'a StationTable, key: &[u8]) -> (res: Option<&'a StationStats>)
    ensures
        match res {
            Some(s) => table_contents(*m).contains_key(key@) && table_contents(*m)[key@] == *s,
            None => !table_contents(*m).contains_key(key@),
        },
{
    m.get(key)
}

/// `HashMap::get_mut`: claims that the result refers to the statistics
/// stored under `key`, that what is written through it is what the table
/// then holds under `key` with every other entry unchanged, and that the
/// result is `None` exactly when nothing is stored under `key`, the table
/// then being unchanged.
#[verifier::external_body]
pub(crate) fn table_get_mut<'a>(m: &'a mut StationTable, key: &[u8]) -> (res: Option<&'a mut StationStats>)
    ensures
        res is Some ==> {
            &&& table_contents(*old(m)).contains_key(key@)
            &&& *res.unwrap() == table_contents(*old(m))[key@]
            &&& table_contents(*final(m)) == table_contents(*old(m)).insert(key@, *final(res.unwrap()))
        },
        res is None ==> {
            &&& !table_contents(*old(m)).contains_key(key@)
            &&& table_contents(*final(m)) == table_contents(*old(m))
        },
{
    m.get_mut(key)
}

/// `HashMap::insert`: claims that the table then holds `v` under `key`
/// and is otherwise unchanged.
#[verifier::external_body]
pub(crate) fn table_insert(m: &mut StationTable, key: Vec<u8>, v: StationStats)
    ensures
        table_contents(*final(m)) == table_contents(*old(m)).insert(key@, v),
{
    m.insert(key, v);
}

/// `HashMap::iter`, collected: claims that the entries are those of the
/// table, each key once, in an order that is left open.
#[verifier::external_body]
pub(crate) fn table_entries<'a>(m: &'a StationTable) -> (v: Vec<(&'a Vec<u8>, &'a StationStats)>)
    ensures
        forall|i: int| 0 <= i < v.len() ==> table_contents(*m).contains_key(#[trigger] v[i].0@)
            && table_contents(*m)[v[i].0@] == *v[i].1,
        forall|i: int, j: int| 0 <= i < j < v.len() ==> v[i].0@ != v[j].0@,
        forall|k: Seq<u8>| #[trigger] table_contents(*m).contains_key(k) ==> exists|i: int| 0 <= i < v.len() && v[i].0@ == k,
{
    m.iter().collect()
}

/// `HashMap::into_iter`, collected: claims that the entries are those of
/// the table, each key once, in an order that is left open.
#[verifier::external_body]
pub(crate) fn table_into_entries(m: StationTable) -> (v: Vec<(Vec<u8>, StationStats)>)
    ensures
        forall|i: int| 0 <= i < v.len() ==> table_contents(m).contains_key(#[trigger] v[i].0@)
            && table_contents(m)[v[i].0@] == v[i].1,
        forall|i: int, j: int| 0 <= i < j < v.len() ==> v[i].0@ != v[j].0@,
        forall|k: Seq<u8>| #[trigger] table_contents(m).contains_key(k) ==> exists|i: int| 0 <= i < v.len() && v[i].0@ == k,
{
    m.into_iter().collect()
}

} // verus!
