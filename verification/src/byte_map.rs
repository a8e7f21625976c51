//! The ordered byte map of the underlying crate, as far as this library uses
//! it: what it holds, as a mathematical map, and one wrapper for each of its
//! operations. Verus takes the wrappers' contracts on trust.
//!
//! Every contract here supposes that the map's region is bound to this map
//! alone, which [`crate::memory::MemoryRegistry`] sees to. The underlying crate
//! aborts when a region cannot grow any further; the contracts say nothing of
//! that.

use ic_stable_structures::btreemap::Iter;
use ic_stable_structures::memory_manager::VirtualMemory;
use ic_stable_structures::{BTreeMap, DefaultMemoryImpl};
use vstd::prelude::*;
use crate::memory::RegionMemory;
use crate::order::{lex_le, lex_lt};

verus! {

/// The underlying crate's map from byte strings to byte strings, in one region.
/// Verus does not look inside: [`entries`] names what it holds.
#[verifier::external_body]
pub struct ByteMap {
    inner: BTreeMap<Vec<u8>, Vec<u8>, VirtualMemory<DefaultMemoryImpl>>,
}

/// The underlying crate's iterator over a [`ByteMap`]. Verus does not look
/// inside: [`pending`] names what it has yet to give.
#[verifier::external_body]
pub struct ByteIter<'a> {
    inner: Iter<'a, Vec<u8>, Vec<u8>, VirtualMemory<DefaultMemoryImpl>>,
}

/// What the map holds.
pub uninterp spec fn entries(map: ByteMap) -> Map<Seq<u8>, Seq<u8>>;

/// What the iterator has yet to give, in the order in which it gives it.
pub uninterp spec fn pending(iter: ByteIter<'_>) -> Seq<(Seq<u8>, Seq<u8>)>;

/// The keys from `lower` to `upper`, both included.
pub open spec fn keys_between(lower: Seq<u8>, upper: Seq<u8>) -> Set<Seq<u8>> {
    Set::new(|key: Seq<u8>| lex_le(lower, key) && lex_le(key, upper))
}

/// `listing` holds every entry of `map` once, in ascending order of the keys.
pub open spec fn lists(listing: Seq<(Seq<u8>, Seq<u8>)>, map: Map<Seq<u8>, Seq<u8>>) -> bool {
    &&& forall|i: int, j: int|
        0 <= i < j < listing.len() ==> lex_lt(#[trigger] listing[i].0, #[trigger] listing[j].0)
    &&& forall|i: int|
        0 <= i < listing.len() ==> map.contains_pair(
            (#[trigger] listing[i]).0,
            listing[i].1,
        )
    &&& forall|key: Seq<u8>| #[trigger]
        map.contains_key(key) ==> exists|i: int|
            0 <= i < listing.len() && (#[trigger] listing[i]).0 == key
}

/// `BTreeMap::init`: the map that the region holds, or an empty one if the
/// region holds none. Which entries it has depends on the region, so nothing
/// is claimed of the result. The underlying crate aborts here if the region
/// holds a map of a layout that it does not know.
#[verifier::external_body]
pub(crate) fn map_init(memory: RegionMemory) -> ByteMap {
    ByteMap { inner: BTreeMap::init(memory.inner) }
}

/// `BTreeMap::insert`: the map then holds `value` under `key`, and everything
/// else as before; the result is what it held under `key` before. The
/// underlying crate writes both lengths as `u32`.
#[verifier::external_body]
pub(crate) fn map_insert(map: &mut ByteMap, key: Vec<u8>, value: Vec<u8>) -> (previous: Option<
    Vec<u8>,
>)
    requires
        key@.len() <= u32::MAX,
        value@.len() <= u32::MAX,
    ensures
        entries(*final(map)) == entries(*old(map)).insert(key@, value@),
        previous matches Some(v) ==> entries(*old(map)).contains_pair(key@, v@),
        previous is None ==> !entries(*old(map)).contains_key(key@),
{
    map.inner.insert(key, value)
}

/// `BTreeMap::get`: what the map holds under `key`.
#[verifier::external_body]
pub(crate) fn map_get(map: &ByteMap, key: &Vec<u8>) -> (value: Option<Vec<u8>>)
    ensures
        value matches Some(v) ==> entries(*map).contains_pair(key@, v@),
        value is None ==> !entries(*map).contains_key(key@),
{
    map.inner.get(key)
}

/// `BTreeMap::remove`: the map then holds nothing under `key`, and everything
/// else as before; the result is what it held under `key` before.
#[verifier::external_body]
pub(crate) fn map_remove(map: &mut ByteMap, key: &Vec<u8>) -> (previous: Option<Vec<u8>>)
    ensures
        entries(*final(map)) == entries(*old(map)).remove(key@),
        previous matches Some(v) ==> entries(*old(map)).contains_pair(key@, v@),
        previous is None ==> !entries(*old(map)).contains_key(key@),
{
    map.inner.remove(key)
}

/// `BTreeMap::len`: the number of entries.
#[verifier::external_body]
pub(crate) fn map_len(map: &ByteMap) -> (length: u64)
    ensures
        length == entries(*map).len(),
{
    map.inner.len()
}

/// `BTreeMap::iter`: an iterator that gives every entry, in ascending order
/// of the keys, which for `Vec<u8>` is the order of [`lex_lt`].
#[verifier::external_body]
pub(crate) fn map_iter<'a>(map: &'a ByteMap) -> (iter: ByteIter<'a>)
    ensures
        lists(pending(iter), entries(*map)),
{
    ByteIter { inner: map.inner.iter() }
}

/// `BTreeMap::range` from `lower` to `upper`, both included: an iterator that
/// gives the entries whose keys lie between them, in ascending order of the
/// keys.
#[verifier::external_body]
pub(crate) fn map_range<'a>(map: &'a ByteMap, lower: Vec<u8>, upper: Vec<u8>) -> (iter: ByteIter<
    'a,
>)
    ensures
        lists(pending(iter), entries(*map).restrict(keys_between(lower@, upper@))),
{
    ByteIter { inner: map.inner.range(lower..=upper) }
}

/// `Iter::next`: the first of what the iterator had yet to give, which it
/// then has no longer; nothing, once nothing is left.
#[verifier::external_body]
pub(crate) fn iter_next(iter: &mut ByteIter<'_>) -> (entry: Option<(Vec<u8>, Vec<u8>)>)
    ensures
        entry matches Some((key, value)) ==> {
            &&& pending(*old(iter)).len() > 0
            &&& pending(*old(iter))[0] == (key@, value@)
            &&& pending(*final(iter)) == pending(*old(iter)).skip(1)
        },
        entry is None ==> pending(*old(iter)).len() == 0 && pending(*final(iter)).len() == 0,
{
    iter.inner.next()
}

} // verus!
