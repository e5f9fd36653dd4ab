//! The visited maps the solvers keep, built on `rustc_hash::FxHashMap`.
//!
//! `FxHashMap<K, V>` is `std::collections::HashMap<K, V, FxBuildHasher>`,
//! and `FxBuildHasher` builds hashers with a fixed seed, so equal keys always
//! hash alike: the maps behave as maps from key contents to values.
use rustc_hash::{FxBuildHasher, FxHashMap};
use vstd::prelude::*;

verus! {

/// The hasher builder of `FxHashMap`, as an opaque type.
#[verifier::external_type_specification]
#[verifier::external_body]
pub struct ExFxBuildHasher(FxBuildHasher);

/// The map that holds nothing.
pub open spec fn no_cells() -> Map<Seq<u8>, Seq<u8>> {
    Map::empty()
}

/// Visited map keyed by cell bytes: child cells to parent cells.
///
/// The map stays hidden from the verifier: its contents are known only
/// through `bytes_map_contents` and the operations below.
#[verifier::external_body]
pub struct BytesKeyMap {
    map: FxHashMap<Vec<u8>, Vec<u8>>,
}

/// What a `BytesKeyMap` holds, keys and values taken by their bytes.
pub uninterp spec fn bytes_map_contents(m: BytesKeyMap) -> Map<Seq<u8>, Seq<u8>>;

/// `FxHashMap::default`: an empty map.
#[verifier::external_body]
pub(crate) fn bytes_map_new() -> (r: BytesKeyMap)
    ensures
        bytes_map_contents(r) == no_cells(),
{
    BytesKeyMap { map: FxHashMap::default() }
}

/// `HashMap::contains_key`: whether a key with the bytes of `k` is present.
#[verifier::external_body]
pub(crate) fn bytes_map_contains(m: &BytesKeyMap, k: &Vec<u8>) -> (r: bool)
    ensures
        r == bytes_map_contents(*m).contains_key(k@),
{
    m.map.contains_key(k)
}

/// `HashMap`'s indexing: the value stored under the bytes of `k`.
#[verifier::external_body]
pub(crate) fn bytes_map_get<'a>(m: &'a BytesKeyMap, k: &Vec<u8>) -> (r: &'a Vec<u8>)
    requires
        bytes_map_contents(*m).contains_key(k@),
    ensures
        r@ == bytes_map_contents(*m)[k@],
{
    &m.map[k]
}

/// `HashMap::insert`: stores `v` under the bytes of `k`, replacing any earlier value.
#[verifier::external_body]
pub(crate) fn bytes_map_insert(m: &mut BytesKeyMap, k: Vec<u8>, v: Vec<u8>)
    ensures
        bytes_map_contents(*final(m)) == bytes_map_contents(*old(m)).insert(k@, v@),
{
    m.map.insert(k, v);
}

/// `HashMap::contains_key` on a map keyed by integers.
#[verifier::external_body]
pub(crate) fn u64_map_contains(m: &FxHashMap<u64, u64>, k: u64) -> (r: bool)
    ensures
        r == m@.contains_key(k),
{
    m.contains_key(&k)
}

/// `HashMap`'s indexing on a map keyed by integers.
#[verifier::external_body]
pub(crate) fn u64_map_get(m: &FxHashMap<u64, u64>, k: u64) -> (r: u64)
    requires
        m@.contains_key(k),
    ensures
        r == m@[k],
{
    m[&k]
}

/// `HashMap::insert` on a map keyed by integers.
#[verifier::external_body]
pub(crate) fn u64_map_insert(m: &mut FxHashMap<u64, u64>, k: u64, v: u64)
    ensures
        final(m)@ == old(m)@.insert(k, v),
{
    m.insert(k, v);
}

/// An empty map keyed by integers.
pub(crate) fn u64_map_new() -> (m: FxHashMap<u64, u64>)
    ensures
        m@ == Map::<u64, u64>::empty(),
{
    FxHashMap::default()
}

} // verus!
