//! The index from the hashes of fingerprints to the submissions that hold them.

use fnv::{FnvHashMap, FnvHasher};
use std::hash::BuildHasherDefault;
use vstd::prelude::*;

verus! {

/// The hasher of the `fnv` crate: opaque here.
#[verifier::external_type_specification]
#[verifier::external_body]
pub struct ExFnvHasher(FnvHasher);

/// `BuildHasherDefault` of std, which makes the hashers of a map: opaque here.
#[verifier::external_type_specification]
#[verifier::external_body]
#[verifier::reject_recursive_types(H)]
pub struct ExBuildHasherDefault<H>(BuildHasherDefault<H>);

/// An index without entries.
pub fn new_index() -> (index: FnvHashMap<i64, Vec<usize>>)
    ensures
        index@ == Map::<i64, Vec<usize>>::empty(),
{
    FnvHashMap::default()
}

/// `HashMap::remove` of std, on a map that hashes with `fnv`: takes the entry of `hash` out of
/// the map and gives back what the map held for it, if it held anything.
#[verifier::external_body]
fn index_remove(index: &mut FnvHashMap<i64, Vec<usize>>, hash: i64) -> (held: Option<Vec<usize>>)
    ensures
        final(index)@ == old(index)@.remove(hash),
        held == (if old(index)@.contains_key(hash) {
            Some(old(index)@[hash])
        } else {
            None
        }),
{
    index.remove(&hash)
}

/// `HashMap::insert` of std, on a map that hashes with `fnv`: after it the map holds `subs`
/// for `hash`, and for every other hash what it held before.
#[verifier::external_body]
fn index_insert(index: &mut FnvHashMap<i64, Vec<usize>>, hash: i64, subs: Vec<usize>)
    ensures
        final(index)@ == old(index)@.insert(hash, subs),
{
    index.insert(hash, subs);
}

/// Records that submission `sub` holds `hash`.
pub fn index_add(index: &mut FnvHashMap<i64, Vec<usize>>, hash: i64, sub: usize)
    ensures
        final(index)@.dom() == old(index)@.dom().insert(hash),
        final(index)@[hash]@ == (if old(index)@.contains_key(hash) {
            old(index)@[hash]@.push(sub)
        } else {
            seq![sub]
        }),
        forall|h: i64| h != hash && old(index)@.contains_key(h) ==> final(index)@[h] == old(index)@[h],
{
    let mut subs: Vec<usize> = match index_remove(index, hash) {
        Some(held) => held,
        None => Vec::new(),
    };
    subs.push(sub);
    index_insert(index, hash, subs);
    assert(index@.dom() =~= old(index)@.dom().insert(hash));
}

/// `HashMap::get` of std, on a map that hashes with `fnv`: what the map holds for `hash`, if it
/// holds anything.
#[verifier::external_body]
pub(crate) fn index_get(index: &FnvHashMap<i64, Vec<usize>>, hash: i64) -> (held: Option<&Vec<usize>>)
    ensures
        held == (if index@.contains_key(hash) {
            Some(&index@[hash])
        } else {
            None
        }),
{
    index.get(&hash)
}

/// `HashMap::keys` of std, on a map that hashes with `fnv`: every hash that the map holds
/// something for, once. The order is that in which the map is walked, of which nothing is
/// said.
#[verifier::external_body]
pub(crate) fn index_keys(index: &FnvHashMap<i64, Vec<usize>>) -> (keys: Vec<i64>)
    ensures
        keys@.no_duplicates(),
        forall|hash: i64| keys@.contains(hash) <==> index@.contains_key(hash),
{
    index.keys().copied().collect()
}

} // verus!
