//! The typed structures, each bound to its memory region or regions. Their
//! operations refuse what is too large with an error, and ask nothing of
//! the caller beyond a well-formed structure.

use ic_stable_structures::cell::{InitError, ValueError};
use ic_stable_structures::log::WriteError;
use vstd::prelude::*;
use vstd::slice::slice_to_vec;
use crate::byte_cell::{cell_get, cell_init, cell_set, cell_value, ByteCell};
use crate::byte_log::{log_append, log_entries, log_get, log_len, log_new, ByteLog};
use crate::byte_map::{
    entries, iter_next, lists, map_get, map_init, map_insert, map_iter, map_remove, pending,
    ByteIter, ByteMap,
};
use crate::encoding::max_key_len;
use crate::error::Error;
use crate::key_pair::KeyPair;
use crate::memory::Region;
use crate::model::{lists_pairs, seconds_of, with_first, Pair};
use crate::multimap::{Iter, RangeIter};

verus! {

/// One value in one region.
pub struct StableCell {
    inner: ByteCell,
}

impl StableCell {
    /// The encoded value.
    pub closed spec fn view(&self) -> Seq<u8> {
        cell_value(self.inner)
    }

    /// What the underlying crate's failure to make a cell means here: a value
    /// that a cell could hold was refused because the region cannot grow.
    pub open spec fn init_error(failure: InitError) -> Error {
        match failure {
            InitError::IncompatibleVersion { .. } => Error::IncompatibleVersions,
            InitError::ValueTooLarge { value_size } => if value_size > u32::MAX {
                Error::ValueTooLarge(value_size)
            } else {
                Error::OutOfStableMemory
            },
        }
    }

    /// What the underlying crate's failure to store a value means here: a value
    /// that a cell could hold was refused because the region cannot grow.
    pub open spec fn value_error(failure: ValueError) -> Error {
        match failure {
            ValueError::ValueTooLarge { value_size } => if value_size > u32::MAX {
                Error::ValueTooLarge(value_size)
            } else {
                Error::OutOfStableMemory
            },
        }
    }

    /// A cell in `region`. If the region holds a cell already, that one is
    /// taken up again with its value; else the cell holds `value`.
    pub fn new(region: Region, value: &[u8]) -> (made: Result<Self, Error>)
        ensures
            made matches Err(error) ==> {
                ||| error == Error::IncompatibleVersions
                ||| error == Error::OutOfStableMemory && value@.len() <= u32::MAX
                ||| error == Error::ValueTooLarge(value@.len() as u64) && value@.len() > u32::MAX
            },
    {
        match cell_init(region.into_memory(), slice_to_vec(value)) {
            Ok(inner) => Ok(StableCell { inner }),
            Err(failure) => Err(Self::map_init_error(failure)),
        }
    }

    /// Says in the terms of this library why no cell could be made: the
    /// stored layout is unknown, the value is longer than a cell can hold,
    /// or, with a value of a length that a cell can hold, the region cannot
    /// grow as far.
    pub fn map_init_error(failure: InitError) -> (error: Error)
        ensures
            error == Self::init_error(failure),
    {
        match failure {
            InitError::IncompatibleVersion { .. } => Error::IncompatibleVersions,
            InitError::ValueTooLarge { value_size } => {
                if value_size > u32::MAX as u64 {
                    Error::ValueTooLarge(value_size)
                } else {
                    Error::OutOfStableMemory
                }
            },
        }
    }

    /// Says in the terms of this library why a value could not be stored:
    /// it is longer than a cell can hold, or, with a length that a cell can
    /// hold, the region cannot grow as far.
    pub fn map_value_error(failure: ValueError) -> (error: Error)
        ensures
            error == Self::value_error(failure),
    {
        match failure {
            ValueError::ValueTooLarge { value_size } => {
                if value_size > u32::MAX as u64 {
                    Error::ValueTooLarge(value_size)
                } else {
                    Error::OutOfStableMemory
                }
            },
        }
    }

    /// The value.
    pub fn get(&self) -> (value: &Vec<u8>)
        ensures
            value@ == self@,
    {
        cell_get(&self.inner)
    }

    /// Replaces the value. A value of more than `u32::MAX` bytes is refused
    /// as too large; any other is stored unless the region cannot grow as
    /// far. On failure the cell keeps its value.
    pub fn set(&mut self, value: &[u8]) -> (stored: Result<(), Error>)
        ensures
            stored is Ok ==> final(self)@ == value@,
            stored is Err ==> final(self)@ == old(self)@,
            value@.len() > u32::MAX ==> stored == Err::<(), Error>(
                Error::ValueTooLarge(value@.len() as u64),
            ),
            value@.len() <= u32::MAX ==> stored == Ok::<(), Error>(()) || stored == Err::<
                (),
                Error,
            >(Error::OutOfStableMemory),
    {
        match cell_set(&mut self.inner, slice_to_vec(value)) {
            Ok(_) => Ok(()),
            Err(failure) => Err(Self::map_value_error(failure)),
        }
    }
}

/// A list of values that only grows, in two regions: one for the index, one
/// for the entries.
pub struct StableLog {
    inner: ByteLog,
}

impl StableLog {
    /// The encoded values, in the order in which they were appended.
    pub closed spec fn view(&self) -> Seq<Seq<u8>> {
        log_entries(self.inner)
    }

    /// An empty log in the two regions, whatever they held. It never fails:
    /// the result is a `Result` for the callers that expect one.
    pub fn new(index_region: Region, data_region: Region) -> (made: Result<Self, Error>)
        requires
            index_region.id() != data_region.id(),
        ensures
            made matches Ok(log) && log@ == Seq::<Seq<u8>>::empty(),
    {
        Ok(StableLog { inner: log_new(index_region.into_memory(), data_region.into_memory()) })
    }

    /// The value at `index`, if the log has that many.
    pub fn get(&self, index: u64) -> (value: Option<Vec<u8>>)
        ensures
            value is Some <==> index < self@.len(),
            value matches Some(bytes) ==> bytes@ == self@[index as int],
    {
        log_get(&self.inner, index)
    }

    /// Appends a value. The result is its position, which is the number of
    /// values that the log held. It fails only if a region cannot grow as
    /// far, and the log is then as it was.
    pub fn append(&mut self, value: &[u8]) -> (appended: Result<u64, Error>)
        ensures
            appended matches Ok(index) ==> index == old(self)@.len() && final(self)@ == old(
                self,
            )@.push(value@),
            appended matches Err(error) ==> error == Error::OutOfStableMemory && final(self)@
                == old(self)@,
    {
        let entry = slice_to_vec(value);
        match log_append(&mut self.inner, &entry) {
            Ok(index) => Ok(index),
            Err(failure) => Err(Self::map_write_error(failure)),
        }
    }

    /// Says in the terms of this library why an entry could not be written:
    /// a region cannot grow as far.
    pub fn map_write_error(failure: WriteError) -> (error: Error)
        ensures
            error == Error::OutOfStableMemory,
    {
        match failure {
            WriteError::GrowFailed { .. } => Error::OutOfStableMemory,
        }
    }

    /// The number of values.
    pub fn len(&self) -> (count: u64)
        ensures
            count == self@.len(),
    {
        log_len(&self.inner)
    }

    /// Whether the log holds no value.
    pub fn is_empty(&self) -> (empty: bool)
        ensures
            empty <==> self@.len() == 0,
    {
        self.len() == 0
    }
}

/// What a log holds after each of `values` has been appended to it in turn,
/// if it held `start`.
pub open spec fn after_appends(start: Seq<Seq<u8>>, values: Seq<Seq<u8>>) -> Seq<Seq<u8>>
    decreases values.len(),
{
    if values.len() == 0 {
        start
    } else {
        after_appends(start, values.drop_last()).push(values.last())
    }
}

/// The position that the append of `values[i]` returns in such a run: the
/// number of values that the log holds by then.
pub open spec fn append_position(start: Seq<Seq<u8>>, values: Seq<Seq<u8>>, i: int) -> nat {
    after_appends(start, values.take(i)).len()
}

/// Appends to an empty log return the positions `0, 1, 2, ...` in turn, and
/// the log then holds the appended values at those positions, as many as were
/// appended and no more.
pub proof fn appends_keep_positions(values: Seq<Seq<u8>>)
    ensures
        after_appends(Seq::empty(), values) == values,
        forall|i: int|
            0 <= i < values.len() ==> #[trigger] append_position(Seq::empty(), values, i) == i,
    decreases values.len(),
{
    if values.len() > 0 {
        let front = values.drop_last();
        appends_keep_positions(front);
        assert(front.push(values.last()) =~= values);
        assert forall|i: int| 0 <= i < values.len() implies #[trigger] append_position(
            Seq::empty(),
            values,
            i,
        ) == i by {
            if i < front.len() {
                assert(values.take(i) =~= front.take(i));
                assert(append_position(Seq::empty(), front, i) == i);
            } else {
                assert(values.take(i) =~= front);
            }
        }
    }
}

/// A map from keys of at most `K` bytes to values of at most `V` bytes, in
/// one region.
pub struct StableBTreeMap<const K: u32, const V: u32> {
    inner: ByteMap,
    region: u8,
}

impl<const K: u32, const V: u32> StableBTreeMap<K, V> {
    /// The map from encoded keys to encoded values.
    pub closed spec fn view(&self) -> Map<Seq<u8>, Seq<u8>> {
        entries(self.inner)
    }

    /// The identifier of the region that the map is bound to.
    pub closed spec fn region_id(&self) -> u8 {
        self.region
    }

    /// A map in `region`, and bound to it from then on. If the region holds
    /// a map already, that one is taken up again; else the map is empty.
    pub fn new(region: Region) -> (map: Self)
        ensures
            map.region_id() == region.id(),
    {
        let id = region.memory_id();
        StableBTreeMap { inner: map_init(region.into_memory()), region: id }
    }

    /// The identifier of the region that the map is bound to.
    pub fn memory_id(&self) -> (id: u8)
        ensures
            id == self.region_id(),
    {
        self.region
    }

    /// The value of `key`, if it has one.
    pub fn get(&self, key: &[u8]) -> (value: Option<Vec<u8>>)
        ensures
            value matches Some(v) ==> self@.contains_pair(key@, v@),
            value is None ==> !self@.contains_key(key@),
    {
        let key = slice_to_vec(key);
        map_get(&self.inner, &key)
    }

    /// Stores `value` under `key`, in place of what `key` had. A key of more
    /// than `K` bytes is refused, then a value of more than `V` bytes, each
    /// with its length; the map is then as it was.
    pub fn insert(&mut self, key: &[u8], value: &[u8]) -> (stored: Result<(), Error>)
        ensures
            key@.len() > K ==> stored == Err::<(), Error>(Error::ValueTooLarge(key@.len() as u64)),
            key@.len() <= K && value@.len() > V ==> stored == Err::<(), Error>(
                Error::ValueTooLarge(value@.len() as u64),
            ),
            key@.len() <= K && value@.len() <= V ==> stored is Ok,
            stored is Ok ==> final(self)@ == old(self)@.insert(key@, value@),
            stored is Err ==> final(self)@ == old(self)@,
    {
        if key.len() > K as usize {
            return Err(Error::ValueTooLarge(key.len() as u64));
        }
        if value.len() > V as usize {
            return Err(Error::ValueTooLarge(value.len() as u64));
        }
        let _ = map_insert(&mut self.inner, slice_to_vec(key), slice_to_vec(value));
        Ok(())
    }

    /// Removes `key`. The result is the value that it had, if it had one.
    pub fn remove(&mut self, key: &[u8]) -> (previous: Option<Vec<u8>>)
        ensures
            final(self)@ == old(self)@.remove(key@),
            previous matches Some(v) ==> old(self)@.contains_pair(key@, v@),
            previous is None ==> !old(self)@.contains_key(key@),
    {
        let key = slice_to_vec(key);
        map_remove(&mut self.inner, &key)
    }

    /// Every key with its value, in ascending order of the keys, one at a
    /// time.
    pub fn iter(&self) -> (iter: EntryIter<'_>)
        ensures
            lists(iter@, self@),
    {
        EntryIter { inner: map_iter(&self.inner) }
    }
}

/// The entries of a [`StableBTreeMap`], one at a time. It reads the map as
/// it goes, and the map cannot change while it is there.
pub struct EntryIter<'a> {
    inner: ByteIter<'a>,
}

impl<'a> EntryIter<'a> {
    /// The keys and values that are yet to come, in their order.
    pub closed spec fn view(&self) -> Seq<(Seq<u8>, Seq<u8>)> {
        pending(self.inner)
    }

    /// The next key and its value, if any is left.
    pub fn next(&mut self) -> (item: Option<(Vec<u8>, Vec<u8>)>)
        ensures
            item matches Some((key, value)) ==> {
                &&& old(self)@.len() > 0
                &&& old(self)@[0] == (key@, value@)
                &&& final(self)@ == old(self)@.skip(1)
            },
            item is None ==> old(self)@.len() == 0 && final(self)@.len() == 0,
    {
        iter_next(&mut self.inner)
    }
}

/// The multimap bound to its region, with every limit checked at the call:
/// what is too long is refused with [`Error::ValueTooLarge`] and its length.
pub struct StableMultimap<const K1: u32, const K2: u32, const V: u32> {
    inner: crate::multimap::StableMultimap<K1, K2, V>,
}

impl<const K1: u32, const K2: u32, const V: u32> StableMultimap<K1, K2, V> {
    /// The multimap as a map from pairs to values.
    pub closed spec fn view(&self) -> Map<Pair, Seq<u8>> {
        self.inner@
    }

    /// The region holds what a multimap of these limits writes, and nothing
    /// else.
    pub closed spec fn wf(&self) -> bool {
        self.inner.wf()
    }

    /// The first of the three lengths that is over its limit, if one is.
    pub open spec fn oversize(first_len: nat, second_len: nat, value_len: nat) -> Option<nat> {
        if first_len > K1 {
            Some(first_len)
        } else if second_len > K2 {
            Some(second_len)
        } else if value_len > V {
            Some(value_len)
        } else {
            None
        }
    }

    /// A multimap in `region`. If the region holds a multimap already, that
    /// one is taken up again, after a look at every entry; else the multimap
    /// is empty. Limits whose packed keys could be longer than `u32::MAX` are
    /// refused with that length.
    pub fn new(region: Region) -> (made: Result<Self, Error>)
        ensures
            made matches Ok(multimap) ==> multimap.wf() && max_key_len(K1, K2) <= u32::MAX,
            max_key_len(K1, K2) > u32::MAX ==> (made matches Err(error) && error
                == Error::ValueTooLarge(max_key_len(K1, K2) as u64)),
            max_key_len(K1, K2) <= u32::MAX ==> (made matches Err(error) ==> error
                == Error::MalformedData),
    {
        let width = KeyPair::<K1, K2>::size_prefix_len();
        let longest: u64 = width as u64 + K1 as u64 + K2 as u64;
        if longest > u32::MAX as u64 {
            return Err(Error::ValueTooLarge(longest));
        }
        match crate::multimap::StableMultimap::<K1, K2, V>::new(region) {
            Ok(inner) => Ok(StableMultimap { inner }),
            Err(error) => Err(error),
        }
    }

    /// The value of the pair, if it has one. A key that is over its limit
    /// has none.
    pub fn get(&self, first_key: &[u8], second_key: &[u8]) -> (value: Option<Vec<u8>>)
        requires
            self.wf(),
        ensures
            value matches Some(v) ==> self@.contains_pair((first_key@, second_key@), v@),
            value is None ==> !self@.contains_key((first_key@, second_key@)),
    {
        if first_key.len() > K1 as usize || second_key.len() > K2 as usize {
            return None;
        }
        self.inner.get(first_key, second_key)
    }

    /// Stores `value` under the pair, in place of what the pair had. If a
    /// key or the value is over its limit, the first of them that is, in the
    /// order of the parameters, is refused with its length, and the multimap
    /// is as it was.
    pub fn insert(&mut self, first_key: &[u8], second_key: &[u8], value: &[u8]) -> (stored:
        Result<(), Error>)
        requires
            old(self).wf(),
        ensures
            final(self).wf(),
            match Self::oversize(first_key@.len(), second_key@.len(), value@.len()) {
                Some(len) => stored == Err::<(), Error>(Error::ValueTooLarge(len as u64))
                    && final(self)@ == old(self)@,
                None => stored is Ok && final(self)@ == old(self)@.insert(
                    (first_key@, second_key@),
                    value@,
                ),
            },
    {
        if first_key.len() > K1 as usize {
            return Err(Error::ValueTooLarge(first_key.len() as u64));
        }
        if second_key.len() > K2 as usize {
            return Err(Error::ValueTooLarge(second_key.len() as u64));
        }
        if value.len() > V as usize {
            return Err(Error::ValueTooLarge(value.len() as u64));
        }
        let _ = self.inner.insert(first_key, second_key, value);
        Ok(())
    }

    /// Removes the pair. The result is the value that it had, if it had one.
    /// A key that is over its limit is refused with its length, the first
    /// key before the second.
    pub fn remove(&mut self, first_key: &[u8], second_key: &[u8]) -> (removed: Result<
        Option<Vec<u8>>,
        Error,
    >)
        requires
            old(self).wf(),
        ensures
            final(self).wf(),
            match Self::oversize(first_key@.len(), second_key@.len(), 0) {
                Some(len) => removed matches Err(error) && error == Error::ValueTooLarge(
                    len as u64,
                ) && final(self)@ == old(self)@,
                None => {
                    &&& final(self)@ == old(self)@.remove((first_key@, second_key@))
                    &&& removed matches Ok(previous)
                    &&& previous matches Some(v) ==> old(self)@.contains_pair(
                        (first_key@, second_key@),
                        v@,
                    )
                    &&& previous is None ==> !old(self)@.contains_key((first_key@, second_key@))
                },
            },
    {
        if first_key.len() > K1 as usize {
            return Err(Error::ValueTooLarge(first_key.len() as u64));
        }
        if second_key.len() > K2 as usize {
            return Err(Error::ValueTooLarge(second_key.len() as u64));
        }
        Ok(self.inner.remove(first_key, second_key))
    }

    /// Removes every pair with the first key `first_key`. A first key that
    /// is over its limit is refused with its length.
    pub fn remove_partial(&mut self, first_key: &[u8]) -> (removed: Result<(), Error>)
        requires
            old(self).wf(),
        ensures
            final(self).wf(),
            first_key@.len() > K1 ==> removed == Err::<(), Error>(
                Error::ValueTooLarge(first_key@.len() as u64),
            ) && final(self)@ == old(self)@,
            first_key@.len() <= K1 ==> removed is Ok && final(self)@ == old(self)@.remove_keys(
                with_first(first_key@),
            ),
    {
        if first_key.len() > K1 as usize {
            return Err(Error::ValueTooLarge(first_key.len() as u64));
        }
        self.inner.remove_partial(first_key);
        Ok(())
    }

    /// The second keys that `first_key` has, with their values, in ascending
    /// order of the second keys, one at a time. A first key that is over its
    /// limit is refused with its length.
    pub fn range(&self, first_key: &[u8]) -> (scan: Result<RangeIter<'_, K1, K2, V>, Error>)
        requires
            self.wf(),
        ensures
            first_key@.len() > K1 ==> (scan matches Err(error) && error == Error::ValueTooLarge(
                first_key@.len() as u64,
            )),
            first_key@.len() <= K1 ==> (scan matches Ok(iter) && iter.wf() && lists(
                iter@,
                seconds_of(self@, first_key@),
            )),
    {
        if first_key.len() > K1 as usize {
            return Err(Error::ValueTooLarge(first_key.len() as u64));
        }
        Ok(self.inner.range(first_key))
    }

    /// Every pair with its value, in ascending order of the packed keys, one
    /// at a time.
    pub fn iter(&self) -> (iter: Iter<'_, K1, K2, V>)
        requires
            self.wf(),
        ensures
            iter.wf(),
            lists_pairs(K1, iter@, self@),
    {
        self.inner.iter()
    }

    /// The number of pairs.
    pub fn len(&self) -> (count: u64)
        requires
            self.wf(),
        ensures
            self@.dom().finite(),
            count == self@.len(),
    {
        self.inner.len()
    }

    /// Whether there is no pair.
    pub fn is_empty(&self) -> (empty: bool)
        requires
            self.wf(),
        ensures
            empty <==> self@ == Map::<Pair, Seq<u8>>::empty(),
    {
        self.inner.is_empty()
    }
}

} // verus!
