//! The multimap: a value under each pair of keys, all values of one first
//! key within reach of one scan.

use vstd::prelude::*;
use crate::byte_map::{
    entries, iter_next, keys_between, lists, map_get, map_init, map_insert, map_iter, map_len,
    map_range, map_remove, pending, ByteIter, ByteMap,
};
use crate::encoding::{is_pair_key, max_key_len};
use crate::error::Error;
use crate::key_pair::KeyPair;
use crate::memory::Region;
use crate::model::{
    holds_pairs, lemma_insert_pair, lemma_listed_is_finite, lemma_listing_lists_pairs,
    lemma_pairs_len, lemma_remove_first, lemma_remove_pair, lemma_scan_lists_seconds,
    lists_pairs, pairs_listing, pairs_of, seconds_listing, seconds_of, with_first, Pair,
};
use crate::value::Value;

verus! {

/// Stores a value under each pair of a first key of at most `K1` bytes and a
/// second key of at most `K2` bytes; a value has at most `V` bytes. The
/// entries live in one memory region, in an ordered byte map under packed
/// keys (see [`KeyPair`]).
pub struct StableMultimap<const K1: u32, const K2: u32, const V: u32> {
    inner: ByteMap,
}

impl<const K1: u32, const K2: u32, const V: u32> StableMultimap<K1, K2, V> {
    /// What the ordered byte map holds: packed keys and values.
    pub closed spec fn stored(&self) -> Map<Seq<u8>, Seq<u8>> {
        entries(self.inner)
    }

    /// The multimap as a map from pairs to values.
    pub open spec fn view(&self) -> Map<Pair, Seq<u8>> {
        pairs_of(K1, K2, self.stored())
    }

    /// The largest packed key can be held in memory and its length written as
    /// a `u32`.
    pub open spec fn bounds_fit() -> bool {
        max_key_len(K1, K2) <= u32::MAX
    }

    /// The region holds what a multimap of these limits writes, and nothing
    /// else.
    pub open spec fn wf(&self) -> bool {
        Self::bounds_fit() && holds_pairs(K1, K2, V, self.stored())
    }

    /// Binds a multimap to `region`. If the region holds a multimap already,
    /// that one is taken up again, after a look at every entry; else the
    /// multimap is empty.
    pub fn new(region: Region) -> (made: Result<Self, Error>)
        requires
            Self::bounds_fit(),
        ensures
            made matches Ok(multimap) ==> multimap.wf(),
            made matches Err(error) ==> error == Error::MalformedData,
    {
        Self::adopt(map_init(region.into_memory()))
    }

    /// Takes an ordered byte map as a multimap, if every key of it is the
    /// packed key of a pair within the limits and every value within its
    /// limit.
    pub fn adopt(map: ByteMap) -> (made: Result<Self, Error>)
        requires
            Self::bounds_fit(),
        ensures
            made is Ok <==> holds_pairs(K1, K2, V, entries(map)),
            made matches Ok(multimap) ==> multimap.wf() && multimap.stored() == entries(map),
            made matches Err(error) ==> error == Error::MalformedData,
    {
        let mut iter = map_iter(&map);
        let ghost listing = pending(iter);
        let ghost mut seen: int = 0;
        proof {
            lemma_listed_is_finite(listing, entries(map));
            assert(listing.skip(0) =~= listing);
        }
        loop
            invariant
                Self::bounds_fit(),
                lists(listing, entries(map)),
                entries(map).dom().finite(),
                0 <= seen <= listing.len(),
                pending(iter) == listing.skip(seen),
                forall|i: int|
                    0 <= i < seen ==> is_pair_key(K1, K2, (#[trigger] listing[i]).0)
                        && listing[i].1.len() <= V,
            decreases listing.len() - seen,
        {
            match iter_next(&mut iter) {
                None => {
                    proof {
                        assert forall|key: Seq<u8>| #[trigger]
                            entries(map).contains_key(key) implies is_pair_key(K1, K2, key)
                            && entries(map)[key].len() <= V by {
                            let i = choose|i: int|
                                0 <= i < listing.len() && (#[trigger] listing[i]).0 == key;
                            assert(entries(map).contains_pair(listing[i].0, listing[i].1));
                        }
                    }
                    return Ok(StableMultimap { inner: map });
                },
                Some((key, value)) => {
                    assert(listing.skip(seen)[0] == listing[seen]);
                    assert(entries(map).contains_pair(listing[seen].0, listing[seen].1));
                    let fits = match KeyPair::<K1, K2>::from_bytes(key) {
                        Some(pair) => pair.holds_pair() && value.len() <= V as usize,
                        None => false,
                    };
                    if !fits {
                        assert(entries(map).contains_key(listing[seen].0));
                        return Err(Error::MalformedData);
                    }
                    proof {
                        assert(listing.skip(seen).skip(1) =~= listing.skip(seen + 1));
                        seen = seen + 1;
                    }
                },
            }
        }
    }

    /// Gives up the multimap for the ordered byte map under it.
    pub fn into_inner(self) -> (map: ByteMap)
        ensures
            entries(map) == self.stored(),
    {
        self.inner
    }

    /// Stores `value` under the pair. The result is the value that the pair
    /// had before, if it had one.
    pub fn insert(&mut self, first_key: &[u8], second_key: &[u8], value: &[u8]) -> (previous:
        Option<Vec<u8>>)
        requires
            old(self).wf(),
            first_key@.len() <= K1,
            second_key@.len() <= K2,
            value@.len() <= V,
        ensures
            final(self).wf(),
            final(self)@ == old(self)@.insert((first_key@, second_key@), value@),
            previous matches Some(v) ==> old(self)@.contains_pair((first_key@, second_key@), v@),
            previous is None ==> !old(self)@.contains_key((first_key@, second_key@)),
    {
        let key = KeyPair::<K1, K2>::new(first_key, second_key);
        let value = Value::<V>::new(value);
        proof {
            lemma_insert_pair(K1, K2, self.stored(), first_key@, second_key@, value@);
        }
        map_insert(&mut self.inner, key.into_bytes(), value.into_inner())
    }

    /// The value of the pair, if it has one.
    pub fn get(&self, first_key: &[u8], second_key: &[u8]) -> (value: Option<Vec<u8>>)
        requires
            self.wf(),
            first_key@.len() <= K1,
            second_key@.len() <= K2,
        ensures
            value matches Some(v) ==> self@.contains_pair((first_key@, second_key@), v@),
            value is None ==> !self@.contains_key((first_key@, second_key@)),
    {
        let key = KeyPair::<K1, K2>::new(first_key, second_key);
        map_get(&self.inner, key.to_bytes())
    }

    /// Removes the pair. The result is the value that it had, if it had one.
    pub fn remove(&mut self, first_key: &[u8], second_key: &[u8]) -> (previous: Option<Vec<u8>>)
        requires
            old(self).wf(),
            first_key@.len() <= K1,
            second_key@.len() <= K2,
        ensures
            final(self).wf(),
            final(self)@ == old(self)@.remove((first_key@, second_key@)),
            previous matches Some(v) ==> old(self)@.contains_pair((first_key@, second_key@), v@),
            previous is None ==> !old(self)@.contains_key((first_key@, second_key@)),
    {
        let key = KeyPair::<K1, K2>::new(first_key, second_key);
        proof {
            lemma_remove_pair(K1, K2, self.stored(), first_key@, second_key@);
        }
        map_remove(&mut self.inner, key.to_bytes())
    }

    /// The number of pairs.
    pub fn len(&self) -> (count: u64)
        requires
            self.wf(),
        ensures
            self@.dom().finite(),
            count == self@.len(),
    {
        proof {
            lemma_pairs_len(K1, K2, V, self.stored());
        }
        map_len(&self.inner)
    }

    /// Whether there is no pair.
    pub fn is_empty(&self) -> (empty: bool)
        requires
            self.wf(),
        ensures
            empty <==> self@ == Map::<Pair, Seq<u8>>::empty(),
    {
        proof {
            lemma_pairs_len(K1, K2, V, self.stored());
            if self@.len() == 0 {
                assert(self@.dom() =~= Set::<Pair>::empty());
                assert(self@ =~= Map::<Pair, Seq<u8>>::empty());
            }
        }
        self.len() == 0
    }

    /// Removes every pair with the first key `first_key`, by a scan between
    /// the lowest and the highest packed key that such a pair can have.
    pub fn remove_partial(&mut self, first_key: &[u8])
        requires
            old(self).wf(),
            first_key@.len() <= K1,
        ensures
            final(self).wf(),
            final(self)@ == old(self)@.remove_keys(with_first(first_key@)),
    {
        let min_key = KeyPair::<K1, K2>::min_key(first_key);
        let max_key = KeyPair::<K1, K2>::max_key(first_key);
        let ghost scanned = keys_between(min_key@, max_key@);
        let ghost before = self.stored();
        let iter = map_range(&self.inner, min_key.into_bytes(), max_key.into_bytes());
        let ghost listing = pending(iter);
        let keys = collect_keys(iter);
        remove_keys(&mut self.inner, &keys);
        proof {
            assert(self.stored() =~= before.remove_keys(scanned)) by {
                assert forall|key: Seq<u8>| before.contains_key(key) implies (scanned.contains(key)
                    <==> listed_keys(keys@, keys@.len() as int).contains(key)) by {
                    if scanned.contains(key) {
                        assert(before.restrict(scanned).contains_key(key));
                        let i = choose|i: int|
                            0 <= i < listing.len() && (#[trigger] listing[i]).0 == key;
                        assert(keys@[i]@ == key);
                    }
                    if listed_keys(keys@, keys@.len() as int).contains(key) {
                        let i = choose|i: int|
                            0 <= i < keys@.len() && (#[trigger] keys@[i])@ == key;
                        assert(before.restrict(scanned).contains_pair(
                            listing[i].0,
                            listing[i].1,
                        ));
                    }
                }
            }
            assert(self.stored().dom() =~= before.dom().difference(scanned));
            lemma_remove_first(K1, K2, before, first_key@);
        }
    }

    /// The second keys that `first_key` has, with their values, in ascending
    /// order of the second keys, one at a time.
    pub fn range(&self, first_key: &[u8]) -> (iter: RangeIter<'_, K1, K2, V>)
        requires
            self.wf(),
            first_key@.len() <= K1,
        ensures
            iter.wf(),
            lists(iter@, seconds_of(self@, first_key@)),
    {
        let min_key = KeyPair::<K1, K2>::min_key(first_key);
        let max_key = KeyPair::<K1, K2>::max_key(first_key);
        let inner = map_range(&self.inner, min_key.into_bytes(), max_key.into_bytes());
        proof {
            lemma_scan_lists_seconds(K1, K2, V, self.stored(), first_key@, pending(inner));
        }
        RangeIter { inner }
    }

    /// Every pair with its value, in ascending order of the packed keys, one
    /// at a time.
    pub fn iter(&self) -> (iter: Iter<'_, K1, K2, V>)
        requires
            self.wf(),
        ensures
            iter.wf(),
            lists_pairs(K1, iter@, self@),
    {
        let inner = map_iter(&self.inner);
        proof {
            lemma_listing_lists_pairs(K1, K2, V, self.stored(), pending(inner));
        }
        Iter { inner }
    }

    /// Removes every pair, one at a time.
    pub fn clear(&mut self)
        requires
            old(self).wf(),
        ensures
            final(self).wf(),
            final(self)@ == Map::<Pair, Seq<u8>>::empty(),
    {
        let ghost before = self.stored();
        let iter = map_iter(&self.inner);
        let ghost listing = pending(iter);
        let keys = collect_keys(iter);
        remove_keys(&mut self.inner, &keys);
        proof {
            assert(self.stored() =~= Map::<Seq<u8>, Seq<u8>>::empty()) by {
                assert forall|key: Seq<u8>| before.contains_key(key) implies listed_keys(
                    keys@,
                    keys@.len() as int,
                ).contains(key) by {
                    let i = choose|i: int|
                        0 <= i < listing.len() && (#[trigger] listing[i]).0 == key;
                    assert(keys@[i]@ == key);
                }
            }
            assert(self@ =~= Map::<Pair, Seq<u8>>::empty());
        }
    }
}

/// The keys that `keys` holds before the position `upto`.
pub open spec fn listed_keys(keys: Seq<Vec<u8>>, upto: int) -> Set<Seq<u8>> {
    Set::new(|key: Seq<u8>| exists|i: int| 0 <= i < upto && (#[trigger] keys[i])@ == key)
}

/// Takes everything that the iterator has yet to give, and keeps the keys.
fn collect_keys(source: ByteIter<'_>) -> (keys: Vec<Vec<u8>>)
    ensures
        keys@.len() == pending(source).len(),
        forall|i: int| 0 <= i < keys@.len() ==> (#[trigger] keys@[i])@ == pending(source)[i].0,
{
    let ghost listing = pending(source);
    let mut iter = source;
    let mut keys: Vec<Vec<u8>> = Vec::new();
    assert(listing.skip(0) =~= listing);
    loop
        invariant
            listing == pending(source),
            keys@.len() <= listing.len(),
            pending(iter) == listing.skip(keys@.len() as int),
            forall|i: int| 0 <= i < keys@.len() ==> (#[trigger] keys@[i])@ == listing[i].0,
        decreases listing.len() - keys@.len(),
    {
        match iter_next(&mut iter) {
            None => {
                return keys;
            },
            Some((key, _)) => {
                assert(listing.skip(keys@.len() as int)[0] == listing[keys@.len() as int]);
                assert(listing.skip(keys@.len() as int).skip(1) =~= listing.skip(
                    keys@.len() as int + 1,
                ));
                keys.push(key);
            },
        }
    }
}

/// Removes each of `keys` from `map`.
fn remove_keys(map: &mut ByteMap, keys: &Vec<Vec<u8>>)
    ensures
        entries(*final(map)) == entries(*old(map)).remove_keys(
            listed_keys(keys@, keys@.len() as int),
        ),
{
    let ghost before = entries(*map);
    let mut i: usize = 0;
    assert(before.remove_keys(listed_keys(keys@, 0)) =~= before);
    while i < keys.len()
        invariant
            i <= keys@.len(),
            entries(*map) == before.remove_keys(listed_keys(keys@, i as int)),
        decreases keys@.len() - i,
    {
        let _ = map_remove(map, &keys[i]);
        proof {
            let done = listed_keys(keys@, i as int);
            let more = listed_keys(keys@, i + 1);
            assert(more =~= done.insert(keys@[i as int]@)) by {
                assert forall|key: Seq<u8>| more.contains(key) implies done.insert(
                    keys@[i as int]@,
                ).contains(key) by {
                    let j = choose|j: int| 0 <= j < i + 1 && (#[trigger] keys@[j])@ == key;
                    if j < i {
                        assert(done.contains(key));
                    }
                }
                assert forall|key: Seq<u8>| done.insert(keys@[i as int]@).contains(
                    key,
                ) implies more.contains(key) by {
                    if key == keys@[i as int]@ {
                    } else {
                        let j = choose|j: int| 0 <= j < i && (#[trigger] keys@[j])@ == key;
                        assert(0 <= j < i + 1);
                    }
                }
            }
            assert(before.remove_keys(more) =~= before.remove_keys(done).remove(keys@[i as int]@));
        }
        i = i + 1;
    }
}

/// The second keys of one first key with their values, one at a time: what
/// [`StableMultimap::range`] returns. It reads the multimap as it goes, and
/// the multimap cannot change while it is there.
pub struct RangeIter<'a, const K1: u32, const K2: u32, const V: u32> {
    inner: ByteIter<'a>,
}

impl<'a, const K1: u32, const K2: u32, const V: u32> RangeIter<'a, K1, K2, V> {
    /// The packed keys and values that are yet to come.
    pub closed spec fn remaining(&self) -> Seq<(Seq<u8>, Seq<u8>)> {
        pending(self.inner)
    }

    /// The second keys and values that are yet to come, in their order.
    pub open spec fn view(&self) -> Seq<(Seq<u8>, Seq<u8>)> {
        seconds_listing(K1, self.remaining())
    }

    /// Every key that is yet to come is the packed key of a pair.
    pub open spec fn wf(&self) -> bool {
        forall|i: int|
            0 <= i < self.remaining().len() ==> is_pair_key(
                K1,
                K2,
                (#[trigger] self.remaining()[i]).0,
            )
    }

    /// The next second key and its value, if any is left.
    pub fn next(&mut self) -> (item: Option<(Vec<u8>, Vec<u8>)>)
        requires
            old(self).wf(),
        ensures
            final(self).wf(),
            item matches Some((second, value)) ==> {
                &&& old(self)@.len() > 0
                &&& old(self)@[0] == (second@, value@)
                &&& final(self)@ == old(self)@.skip(1)
            },
            item is None ==> old(self)@.len() == 0 && final(self)@.len() == 0,
    {
        let ghost before = self.remaining();
        match iter_next(&mut self.inner) {
            None => None,
            Some((key, value)) => {
                proof {
                    assert(is_pair_key(K1, K2, before[0].0));
                    assert(self@ =~= seconds_listing(K1, before).skip(1));
                    assert forall|i: int| 0 <= i < self.remaining().len() implies is_pair_key(
                        K1,
                        K2,
                        (#[trigger] self.remaining()[i]).0,
                    ) by {
                        assert(self.remaining()[i] == before[i + 1]);
                    }
                }
                match KeyPair::<K1, K2>::from_bytes(key) {
                    Some(keys) => Some((keys.second_key(), value)),
                    None => None,
                }
            },
        }
    }
}

/// Every pair with its value, one at a time: what [`StableMultimap::iter`]
/// returns. It reads the multimap as it goes, and the multimap cannot change
/// while it is there.
pub struct Iter<'a, const K1: u32, const K2: u32, const V: u32> {
    inner: ByteIter<'a>,
}

impl<'a, const K1: u32, const K2: u32, const V: u32> Iter<'a, K1, K2, V> {
    /// The packed keys and values that are yet to come.
    pub closed spec fn remaining(&self) -> Seq<(Seq<u8>, Seq<u8>)> {
        pending(self.inner)
    }

    /// The pairs and values that are yet to come, in their order.
    pub open spec fn view(&self) -> Seq<(Seq<u8>, Seq<u8>, Seq<u8>)> {
        pairs_listing(K1, self.remaining())
    }

    /// Every key that is yet to come is the packed key of a pair.
    pub open spec fn wf(&self) -> bool {
        forall|i: int|
            0 <= i < self.remaining().len() ==> is_pair_key(
                K1,
                K2,
                (#[trigger] self.remaining()[i]).0,
            )
    }

    /// The next pair and its value, if any is left.
    pub fn next(&mut self) -> (item: Option<(Vec<u8>, Vec<u8>, Vec<u8>)>)
        requires
            old(self).wf(),
        ensures
            final(self).wf(),
            item matches Some((first, second, value)) ==> {
                &&& old(self)@.len() > 0
                &&& old(self)@[0] == (first@, second@, value@)
                &&& final(self)@ == old(self)@.skip(1)
            },
            item is None ==> old(self)@.len() == 0 && final(self)@.len() == 0,
    {
        let ghost before = self.remaining();
        match iter_next(&mut self.inner) {
            None => None,
            Some((key, value)) => {
                proof {
                    assert(is_pair_key(K1, K2, before[0].0));
                    assert(self@ =~= pairs_listing(K1, before).skip(1));
                    assert forall|i: int| 0 <= i < self.remaining().len() implies is_pair_key(
                        K1,
                        K2,
                        (#[trigger] self.remaining()[i]).0,
                    ) by {
                        assert(self.remaining()[i] == before[i + 1]);
                    }
                }
                match KeyPair::<K1, K2>::from_bytes(key) {
                    Some(keys) => {
                        let first = keys.first_key();
                        let second = keys.second_key();
                        Some((first, second, value))
                    },
                    None => None,
                }
            },
        }
    }
}

} // verus!
