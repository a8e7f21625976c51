//! A map whose values have no limit of their own: each value is cut into
//! slices that fit a record, and the records of one key stand side by side
//! in a multimap.
//!
//! Under a key the multimap holds a directory record at slot 0, which says
//! how many slices the value has, and slice `i` at slot `i`, from 1 on. A
//! slot is written as four bytes, lowest first.

use vstd::prelude::*;
use vstd::slice::slice_subrange;
use crate::encoding::{
    le_bytes, le_value, lemma_le_bytes_len, lemma_le_value_of_bytes, max_key_len, pair_key,
    push_le, radix_pow, read_le,
};
use crate::error::Error;
use crate::key_pair::KeyPair;
use crate::memory::Region;
use crate::model::{lemma_pairs_listed_is_finite, lists_pairs, with_first, Pair};
use crate::multimap::{Iter, StableMultimap};
use crate::order::{bytes_equal, lemma_lex_lt_irreflexive, lex_lt};

verus! {

/// The second key of the record at `index`.
pub open spec fn slot(index: nat) -> Seq<u8> {
    le_bytes(index, 4)
}

/// The number of slices that the directory record of `key` announces.
pub open spec fn slice_count(records: Map<Pair, Seq<u8>>, key: Seq<u8>) -> nat {
    le_value(records[(key, slot(0))])
}

/// The slices `1 ..= upto` of `key`, joined.
pub open spec fn joined(records: Map<Pair, Seq<u8>>, key: Seq<u8>, upto: nat) -> Seq<u8>
    decreases upto,
{
    if upto == 0 {
        Seq::empty()
    } else {
        joined(records, key, (upto - 1) as nat) + records[(key, slot(upto))]
    }
}

/// The directory record of `key` is four bytes, and every slice that it
/// announces is there.
pub open spec fn entry_complete(records: Map<Pair, Seq<u8>>, key: Seq<u8>) -> bool {
    &&& records[(key, slot(0))].len() == 4
    &&& forall|i: nat|
        1 <= i <= slice_count(records, key) ==> #[trigger] records.contains_key((key, slot(i)))
}

/// Every key that has a directory record has all its slices.
pub open spec fn complete(records: Map<Pair, Seq<u8>>) -> bool {
    forall|key: Seq<u8>| #[trigger]
        records.contains_key((key, slot(0))) ==> entry_complete(records, key)
}

/// The map that the records spell: the keys that have a directory record,
/// each with its slices joined.
pub open spec fn values_of(records: Map<Pair, Seq<u8>>) -> Map<Seq<u8>, Seq<u8>> {
    Map::new(
        |key: Seq<u8>| records.contains_key((key, slot(0))),
        |key: Seq<u8>| joined(records, key, slice_count(records, key)),
    )
}

/// Two slots are the same bytes only if they are the same slot.
pub proof fn lemma_slots_differ(i: nat, j: nat)
    requires
        i < 0x1_0000_0000,
        j < 0x1_0000_0000,
        i != j,
    ensures
        slot(i) != slot(j),
        slot(i).len() == 4,
        le_value(slot(i)) == i,
{
    reveal_with_fuel(radix_pow, 5);
    lemma_le_bytes_len(i, 4);
    lemma_le_value_of_bytes(i, 4);
    lemma_le_value_of_bytes(j, 4);
}

/// Records that agree on the slices `1 ..= upto` of `key` join to the same.
pub proof fn lemma_joined_agrees(
    a: Map<Pair, Seq<u8>>,
    b: Map<Pair, Seq<u8>>,
    key: Seq<u8>,
    upto: nat,
)
    requires
        forall|i: nat| 1 <= i <= upto ==> #[trigger] a[(key, slot(i))] == b[(key, slot(i))],
    ensures
        joined(a, key, upto) == joined(b, key, upto),
    decreases upto,
{
    if upto > 0 {
        lemma_joined_agrees(a, b, key, (upto - 1) as nat);
        assert(a[(key, slot(upto))] == b[(key, slot(upto))]);
    }
}

/// Records that hold the same under every other key spell the same for
/// every other key.
pub proof fn lemma_other_keys_keep_values(
    before: Map<Pair, Seq<u8>>,
    after: Map<Pair, Seq<u8>>,
    key: Seq<u8>,
)
    requires
        complete(before),
        forall|pair: Pair|
            pair.0 != key ==> (#[trigger] after.contains_key(pair) == before.contains_key(pair)),
        forall|pair: Pair|
            pair.0 != key && before.contains_key(pair) ==> #[trigger] after[pair] == before[pair],
    ensures
        forall|other: Seq<u8>|
            other != key ==> (#[trigger] values_of(after).contains_key(other) == values_of(
                before,
            ).contains_key(other)),
        forall|other: Seq<u8>|
            other != key && values_of(before).contains_key(other) ==> #[trigger] values_of(
                after,
            )[other] == values_of(before)[other] && entry_complete(after, other),
{
    assert forall|other: Seq<u8>|
        other != key implies (#[trigger] values_of(after).contains_key(other) == values_of(
        before,
    ).contains_key(other)) by {
        assert(after.contains_key((other, slot(0))) == before.contains_key((other, slot(0))));
    }
    assert forall|other: Seq<u8>|
        other != key && values_of(before).contains_key(other) implies #[trigger] values_of(
        after,
    )[other] == values_of(before)[other] && entry_complete(after, other) by {
        assert(before.contains_key((other, slot(0))));
        assert(entry_complete(before, other));
        assert(after[(other, slot(0))] == before[(other, slot(0))]);
        let count = slice_count(before, other);
        assert forall|i: nat| 1 <= i <= count implies #[trigger] after[(other, slot(i))]
            == before[(other, slot(i))] && after.contains_key((other, slot(i))) by {
            assert(before.contains_key((other, slot(i))));
            assert(after.contains_key((other, slot(i))) == before.contains_key((other, slot(i))));
        }
        lemma_joined_agrees(after, before, other, count);
    }
}

/// There are no more keys than records.
pub proof fn lemma_keys_within_records(records: Map<Pair, Seq<u8>>)
    requires
        records.dom().finite(),
    ensures
        values_of(records).dom().finite(),
        values_of(records).len() <= records.len(),
{
    let keys = values_of(records).dom();
    let first = |pair: Pair| pair.0;
    let directories = records.dom().filter(|pair: Pair| pair.1 == slot(0));
    records.dom().lemma_len_filter(|pair: Pair| pair.1 == slot(0));
    assert(directories.map(first) =~= keys) by {
        assert forall|key: Seq<u8>| keys.contains(key) implies directories.map(first).contains(
            key,
        ) by {
            assert(directories.contains((key, slot(0))) && first((key, slot(0))) == key);
        }
    }
    vstd::set_lib::lemma_map_size_bound(directories, keys, first);
}

/// The keys and values that a run through `listing` gives: one for every
/// directory record, in the order of the listing.
pub open spec fn entries_in(
    listing: Seq<(Seq<u8>, Seq<u8>, Seq<u8>)>,
    records: Map<Pair, Seq<u8>>,
) -> Seq<(Seq<u8>, Seq<u8>)>
    decreases listing.len(),
{
    if listing.len() == 0 {
        Seq::empty()
    } else {
        let rest = entries_in(listing.skip(1), records);
        if listing[0].1 == slot(0) {
            seq![(listing[0].0, values_of(records)[listing[0].0])] + rest
        } else {
            rest
        }
    }
}

/// `entries` holds every key of `map` once, with its value.
pub open spec fn holds_each_once(entries: Seq<(Seq<u8>, Seq<u8>)>, map: Map<Seq<u8>, Seq<u8>>) -> bool {
    &&& forall|i: int|
        0 <= i < entries.len() ==> map.contains_pair((#[trigger] entries[i]).0, entries[i].1)
    &&& forall|key: Seq<u8>| #[trigger]
        map.contains_key(key) ==> exists|i: int|
            0 <= i < entries.len() && (#[trigger] entries[i]).0 == key
    &&& forall|i: int, j: int|
        0 <= i < j < entries.len() ==> (#[trigger] entries[i]).0 != (#[trigger] entries[j]).0
}

/// The pair of keys at position `i` of a listing.
pub open spec fn pair_at(listing: Seq<(Seq<u8>, Seq<u8>, Seq<u8>)>, i: int) -> Pair {
    (listing[i].0, listing[i].1)
}

/// `listing` holds the directory record of `key`.
pub open spec fn has_directory(listing: Seq<(Seq<u8>, Seq<u8>, Seq<u8>)>, key: Seq<u8>) -> bool {
    exists|j: int| 0 <= j < listing.len() && #[trigger] pair_at(listing, j) == (key, slot(0))
}

/// No pair of keys stands at two positions of `listing`.
pub open spec fn pairs_differ(listing: Seq<(Seq<u8>, Seq<u8>, Seq<u8>)>) -> bool {
    forall|i: int, j: int|
        0 <= i < j < listing.len() ==> #[trigger] pair_at(listing, i) != #[trigger] pair_at(
            listing,
            j,
        )
}

/// What a run gives comes from a directory record of the listing, with the
/// value of its key.
pub proof fn lemma_run_comes_from_directories(
    listing: Seq<(Seq<u8>, Seq<u8>, Seq<u8>)>,
    records: Map<Pair, Seq<u8>>,
    i: int,
)
    requires
        0 <= i < entries_in(listing, records).len(),
    ensures
        has_directory(listing, entries_in(listing, records)[i].0),
        entries_in(listing, records)[i].1 == values_of(records)[entries_in(listing, records)[i].0],
    decreases listing.len(),
{
    let tail = listing.skip(1);
    let rest = entries_in(tail, records);
    if listing[0].1 == slot(0) && i == 0 {
        assert(pair_at(listing, 0) == (listing[0].0, slot(0)));
    } else {
        let at: int = if listing[0].1 == slot(0) {
            i - 1
        } else {
            i
        };
        lemma_run_comes_from_directories(tail, records, at);
        let key = rest[at].0;
        let j = choose|j: int| 0 <= j < tail.len() && #[trigger] pair_at(tail, j) == (key, slot(0));
        assert(pair_at(listing, j + 1) == pair_at(tail, j));
    }
}

/// A run gives the key of every directory record of the listing.
pub proof fn lemma_run_covers_directories(
    listing: Seq<(Seq<u8>, Seq<u8>, Seq<u8>)>,
    records: Map<Pair, Seq<u8>>,
    key: Seq<u8>,
)
    requires
        has_directory(listing, key),
    ensures
        exists|i: int|
            0 <= i < entries_in(listing, records).len() && (#[trigger] entries_in(
                listing,
                records,
            )[i]).0 == key,
    decreases listing.len(),
{
    let all = entries_in(listing, records);
    let j = choose|j: int| 0 <= j < listing.len() && #[trigger] pair_at(listing, j) == (key, slot(0));
    if j == 0 {
        assert(all[0].0 == key);
    } else {
        let tail = listing.skip(1);
        let rest = entries_in(tail, records);
        assert(pair_at(tail, j - 1) == pair_at(listing, j));
        lemma_run_covers_directories(tail, records, key);
        let i = choose|i: int| 0 <= i < rest.len() && (#[trigger] rest[i]).0 == key;
        if listing[0].1 == slot(0) {
            assert(all[i + 1] == rest[i]);
        } else {
            assert(all[i] == rest[i]);
        }
    }
}

/// A run through a listing in which no pair stands twice gives no key twice.
pub proof fn lemma_run_gives_no_key_twice(
    listing: Seq<(Seq<u8>, Seq<u8>, Seq<u8>)>,
    records: Map<Pair, Seq<u8>>,
    i: int,
    j: int,
)
    requires
        pairs_differ(listing),
        0 <= i < j < entries_in(listing, records).len(),
    ensures
        entries_in(listing, records)[i].0 != entries_in(listing, records)[j].0,
    decreases listing.len(),
{
    let tail = listing.skip(1);
    let rest = entries_in(tail, records);
    assert(pairs_differ(tail)) by {
        assert forall|a: int, b: int| 0 <= a < b < tail.len() implies #[trigger] pair_at(tail, a)
            != #[trigger] pair_at(tail, b) by {
            assert(pair_at(tail, a) == pair_at(listing, a + 1));
            assert(pair_at(tail, b) == pair_at(listing, b + 1));
        }
    }
    if listing[0].1 == slot(0) {
        if i == 0 {
            lemma_run_comes_from_directories(tail, records, j - 1);
            let key = rest[j - 1].0;
            let at = choose|at: int|
                0 <= at < tail.len() && #[trigger] pair_at(tail, at) == (key, slot(0));
            assert(pair_at(listing, at + 1) == pair_at(tail, at));
            assert(pair_at(listing, 0) != pair_at(listing, at + 1));
        } else {
            lemma_run_gives_no_key_twice(tail, records, i - 1, j - 1);
        }
    } else {
        lemma_run_gives_no_key_twice(tail, records, i, j);
    }
}

/// A run through a listing of all records gives every key once, with its
/// value.
pub proof fn lemma_run_holds_each_once(
    first_max: u32,
    listing: Seq<(Seq<u8>, Seq<u8>, Seq<u8>)>,
    records: Map<Pair, Seq<u8>>,
)
    requires
        lists_pairs(first_max, listing, records),
    ensures
        holds_each_once(entries_in(listing, records), values_of(records)),
{
    let entries = entries_in(listing, records);
    let map = values_of(records);
    assert(pairs_differ(listing)) by {
        assert forall|i: int, j: int| 0 <= i < j < listing.len() implies #[trigger] pair_at(
            listing,
            i,
        ) != #[trigger] pair_at(listing, j) by {
            lemma_lex_lt_irreflexive(pair_key(first_max, listing[i].0, listing[i].1));
            assert(lex_lt(
                pair_key(first_max, listing[i].0, listing[i].1),
                pair_key(first_max, listing[j].0, listing[j].1),
            ));
        }
    }
    assert forall|i: int| 0 <= i < entries.len() implies map.contains_pair(
        (#[trigger] entries[i]).0,
        entries[i].1,
    ) by {
        lemma_run_comes_from_directories(listing, records, i);
        let key = entries[i].0;
        let j = choose|j: int|
            0 <= j < listing.len() && #[trigger] pair_at(listing, j) == (key, slot(0));
        assert(records.contains_pair((listing[j].0, listing[j].1), listing[j].2));
    }
    assert forall|key: Seq<u8>| #[trigger] map.contains_key(key) implies exists|i: int|
        0 <= i < entries.len() && (#[trigger] entries[i]).0 == key by {
        assert(records.contains_key((key, slot(0))));
        let j = choose|j: int|
            0 <= j < listing.len() && ((#[trigger] listing[j]).0, listing[j].1) == (key, slot(0));
        assert(pair_at(listing, j) == (key, slot(0)));
        lemma_run_covers_directories(listing, records, key);
    }
    assert forall|i: int, j: int| 0 <= i < j < entries.len() implies (#[trigger] entries[i]).0 != (
    #[trigger] entries[j]).0 by {
        lemma_run_gives_no_key_twice(listing, records, i, j);
    }
}

/// The four bytes of a slot.
pub fn slot_bytes(index: u32) -> (bytes: Vec<u8>)
    ensures
        bytes@ == slot(index as nat),
        bytes@.len() == 4,
{
    let mut bytes: Vec<u8> = Vec::new();
    push_le(&mut bytes, index as usize, 4);
    proof {
        lemma_le_bytes_len(index as nat, 4);
        assert(Seq::<u8>::empty() + slot(index as nat) =~= slot(index as nat));
    }
    bytes
}

/// A map from keys of at most `K` bytes to values of any length, kept in one
/// region in records of at most `C` bytes.
pub struct StableUnboundedMap<const K: u32, const C: u32> {
    records: StableMultimap<K, 4, C>,
    count: u64,
}

impl<const K: u32, const C: u32> StableUnboundedMap<K, C> {
    /// The records: a directory and the slices under every key.
    pub closed spec fn records(&self) -> Map<Pair, Seq<u8>> {
        self.records@
    }

    /// The map from keys to values.
    pub open spec fn view(&self) -> Map<Seq<u8>, Seq<u8>> {
        values_of(self.records())
    }

    /// A record can hold a directory, and the largest packed key can be held
    /// in memory.
    pub open spec fn limits_fit() -> bool {
        C >= 4 && max_key_len(K, 4) <= u32::MAX
    }

    /// The region holds what a map of these limits writes, and the map knows
    /// how many keys it has.
    pub closed spec fn wf(&self) -> bool {
        &&& Self::limits_fit()
        &&& self.records.wf()
        &&& complete(self.records@)
        &&& values_of(self.records@).dom().finite()
        &&& self.count == values_of(self.records@).len()
    }

    /// A map in `region`. If the region holds a map already, that one is
    /// taken up again, after a look at every record; else the map is empty.
    /// Limits under which no directory fits a record, or under which a packed
    /// key could be longer than `u32::MAX`, are refused with the length that
    /// does not fit.
    pub fn new(region: Region) -> (made: Result<Self, Error>)
        ensures
            made matches Ok(map) ==> map.wf(),
            C < 4 ==> (made matches Err(error) && error == Error::ValueTooLarge(4)),
            C >= 4 && max_key_len(K, 4) > u32::MAX ==> (made matches Err(error) && error
                == Error::ValueTooLarge(max_key_len(K, 4) as u64)),
            Self::limits_fit() ==> (made matches Err(error) ==> error == Error::MalformedData),
    {
        if C < 4 {
            return Err(Error::ValueTooLarge(4));
        }
        let width = KeyPair::<K, 4>::size_prefix_len();
        let longest: u64 = width as u64 + K as u64 + 4;
        if longest > u32::MAX as u64 {
            return Err(Error::ValueTooLarge(longest));
        }
        match StableMultimap::<K, 4, C>::new(region) {
            Ok(records) => Self::adopt(records),
            Err(error) => Err(error),
        }
    }

    /// Takes a multimap as the records of a map, if every key that has a
    /// directory record in it has all its slices.
    pub fn adopt(records: StableMultimap<K, 4, C>) -> (made: Result<Self, Error>)
        requires
            Self::limits_fit(),
            records.wf(),
        ensures
            made is Ok <==> complete(records@),
            made matches Ok(map) ==> map.wf() && map.records() == records@,
            made matches Err(error) ==> error == Error::MalformedData,
    {
        let directory_slot = slot_bytes(0);
        let total = records.len();
        let mut count: u64 = 0;
        let mut iter = records.iter();
        let ghost listing = iter@;
        let ghost mut seen: int = 0;
        let ghost mut found: Set<Seq<u8>> = Set::empty();
        proof {
            lemma_pairs_listed_is_finite(K, listing, records@);
            assert(listing.skip(0) =~= listing);
        }
        loop
            invariant
                Self::limits_fit(),
                records.wf(),
                directory_slot@ == slot(0),
                lists_pairs(K, listing, records@),
                listing.len() == total,
                0 <= seen <= listing.len(),
                iter.wf(),
                iter@ == listing.skip(seen),
                count <= seen,
                found.finite(),
                count == found.len(),
                forall|key: Seq<u8>|
                    found.contains(key) <==> exists|j: int|
                        0 <= j < seen && (#[trigger] listing[j]).0 == key && listing[j].1 == slot(
                            0,
                        ),
                forall|j: int|
                    0 <= j < seen && (#[trigger] listing[j]).1 == slot(0) ==> entry_complete(
                        records@,
                        listing[j].0,
                    ),
            decreases listing.len() - seen,
        {
            match iter.next() {
                None => {
                    proof {
                        assert(seen == listing.len());
                        assert forall|key: Seq<u8>| #[trigger]
                            records@.contains_key((key, slot(0))) implies entry_complete(
                            records@,
                            key,
                        ) && found.contains(key) by {
                            let j = choose|j: int|
                                0 <= j < listing.len() && ((#[trigger] listing[j]).0, listing[j].1)
                                    == (key, slot(0));
                            assert(listing[j].1 == slot(0));
                        }
                        assert(found =~= values_of(records@).dom()) by {
                            assert forall|key: Seq<u8>| found.contains(key) implies values_of(
                                records@,
                            ).dom().contains(key) by {
                                let j = choose|j: int|
                                    0 <= j < seen && (#[trigger] listing[j]).0 == key
                                        && listing[j].1 == slot(0);
                                assert(records@.contains_pair(
                                    (listing[j].0, listing[j].1),
                                    listing[j].2,
                                ));
                            }
                        }
                    }
                    return Ok(StableUnboundedMap { records, count });
                },
                Some((key, second, value)) => {
                    proof {
                        assert(listing.skip(seen)[0] == listing[seen]);
                        assert(listing.skip(seen).skip(1) =~= listing.skip(seen + 1));
                        assert(records@.contains_pair(
                            (listing[seen].0, listing[seen].1),
                            listing[seen].2,
                        ));
                    }
                    if bytes_equal(second.as_slice(), directory_slot.as_slice()) {
                        if !Self::has_all_slices(&records, &key, &value) {
                            return Err(Error::MalformedData);
                        }
                        proof {
                            assert(!found.contains(key@)) by {
                                if found.contains(key@) {
                                    let j = choose|j: int|
                                        0 <= j < seen && (#[trigger] listing[j]).0 == key@
                                            && listing[j].1 == slot(0);
                                    lemma_lex_lt_irreflexive(pair_key(K, key@, slot(0)));
                                    assert(lex_lt(
                                        pair_key(K, listing[j].0, listing[j].1),
                                        pair_key(K, listing[seen].0, listing[seen].1),
                                    ));
                                }
                            }
                            let ghost earlier = found;
                            found = found.insert(key@);
                            assert forall|other: Seq<u8>|
                                found.contains(other) <==> exists|j: int|
                                    0 <= j < seen + 1 && (#[trigger] listing[j]).0 == other
                                        && listing[j].1 == slot(0) by {
                                if earlier.contains(other) {
                                    let j = choose|j: int|
                                        0 <= j < seen && (#[trigger] listing[j]).0 == other
                                            && listing[j].1 == slot(0);
                                    assert(0 <= j < seen + 1);
                                }
                                if other == key@ {
                                    assert(listing[seen].0 == other);
                                }
                                if exists|j: int|
                                    0 <= j < seen + 1 && (#[trigger] listing[j]).0 == other
                                        && listing[j].1 == slot(0) {
                                    let j = choose|j: int|
                                        0 <= j < seen + 1 && (#[trigger] listing[j]).0 == other
                                            && listing[j].1 == slot(0);
                                    if j < seen {
                                        assert(earlier.contains(other));
                                    }
                                }
                            }
                        }
                        count = count + 1;
                    } else {
                        proof {
                            assert forall|other: Seq<u8>|
                                found.contains(other) <==> exists|j: int|
                                    0 <= j < seen + 1 && (#[trigger] listing[j]).0 == other
                                        && listing[j].1 == slot(0) by {
                                if found.contains(other) {
                                    let j = choose|j: int|
                                        0 <= j < seen && (#[trigger] listing[j]).0 == other
                                            && listing[j].1 == slot(0);
                                    assert(0 <= j < seen + 1);
                                }
                                if exists|j: int|
                                    0 <= j < seen + 1 && (#[trigger] listing[j]).0 == other
                                        && listing[j].1 == slot(0) {
                                    let j = choose|j: int|
                                        0 <= j < seen + 1 && (#[trigger] listing[j]).0 == other
                                            && listing[j].1 == slot(0);
                                    assert(j < seen);
                                }
                            }
                        }
                    }
                    proof {
                        seen = seen + 1;
                    }
                },
            }
        }
    }

    /// Gives up the map for the multimap of its records.
    pub fn into_inner(self) -> (records: StableMultimap<K, 4, C>)
        requires
            self.wf(),
        ensures
            records.wf(),
            records@ == self.records(),
    {
        self.records
    }

    /// Whether the directory record `directory` of `key` is four bytes and
    /// every slice that it announces is among the records.
    fn has_all_slices(records: &StableMultimap<K, 4, C>, key: &Vec<u8>, directory: &Vec<u8>) -> (yes:
        bool)
        requires
            Self::limits_fit(),
            records.wf(),
            records@.contains_pair((key@, slot(0)), directory@),
        ensures
            yes == entry_complete(records@, key@),
    {
        if directory.len() != 4 {
            return false;
        }
        assert(directory@.subrange(0, 4) =~= directory@);
        let count = read_le(directory.as_slice(), 4);
        proof {
            reveal_with_fuel(radix_pow, 5);
        }
        let mut i: u32 = 0;
        while (i as usize) < count
            invariant
                Self::limits_fit(),
                records.wf(),
                key@.len() <= K,
                count == slice_count(records@, key@),
                count < 0x1_0000_0000,
                i <= count,
                forall|j: nat| 1 <= j <= i ==> #[trigger] records@.contains_key((key@, slot(j))),
            decreases count - i,
        {
            i = i + 1;
            let slice_slot = slot_bytes(i);
            if records.get(key.as_slice(), slice_slot.as_slice()).is_none() {
                return false;
            }
        }
        true
    }

    /// The value of `key`, if it has one. A key of more than `K` bytes has
    /// none.
    pub fn get(&self, key: &[u8]) -> (value: Option<Vec<u8>>)
        requires
            self.wf(),
        ensures
            value matches Some(v) ==> self@.contains_pair(key@, v@),
            value is None ==> !self@.contains_key(key@),
    {
        if key.len() > K as usize {
            return None;
        }
        let directory_slot = slot_bytes(0);
        let directory = match self.records.get(key, directory_slot.as_slice()) {
            Some(directory) => directory,
            None => {
                return None;
            },
        };
        assert(entry_complete(self.records@, key@));
        assert(directory@.subrange(0, 4) =~= directory@);
        let count = read_le(directory.as_slice(), 4);
        proof {
            reveal_with_fuel(radix_pow, 5);
        }
        let mut value: Vec<u8> = Vec::new();
        let mut i: u32 = 0;
        while (i as usize) < count
            invariant
                self.wf(),
                key@.len() <= K,
                count == slice_count(self.records@, key@),
                count < 0x1_0000_0000,
                i <= count,
                entry_complete(self.records@, key@),
                value@ == joined(self.records@, key@, i as nat),
            decreases count - i,
        {
            i = i + 1;
            let slice_slot = slot_bytes(i);
            assert(self.records@.contains_key((key@, slot(i as nat))));
            match self.records.get(key, slice_slot.as_slice()) {
                Some(slice) => {
                    let ghost before = value@;
                    value.extend_from_slice(slice.as_slice());
                    assert(value@ =~= before + slice@);
                },
                None => {},
            }
        }
        Some(value)
    }

    /// Stores `value` under `key`, in place of what `key` had. A key of more
    /// than `K` bytes is refused, then a value of more than `u32::MAX` bytes,
    /// each with its length; the map is then as it was.
    pub fn insert(&mut self, key: &[u8], value: &[u8]) -> (stored: Result<(), Error>)
        requires
            old(self).wf(),
        ensures
            final(self).wf(),
            key@.len() > K ==> stored == Err::<(), Error>(Error::ValueTooLarge(key@.len() as u64)),
            key@.len() <= K && value@.len() > u32::MAX ==> stored == Err::<(), Error>(
                Error::ValueTooLarge(value@.len() as u64),
            ),
            key@.len() <= K && value@.len() <= u32::MAX ==> stored is Ok,
            stored is Ok ==> final(self)@ == old(self)@.insert(key@, value@),
            stored is Err ==> final(self)@ == old(self)@,
    {
        if key.len() > K as usize {
            return Err(Error::ValueTooLarge(key.len() as u64));
        }
        if value.len() > u32::MAX as usize {
            return Err(Error::ValueTooLarge(value.len() as u64));
        }
        let ghost before = self.records@;
        let directory_slot = slot_bytes(0);
        let existed = self.records.get(key, directory_slot.as_slice()).is_some();
        self.records.remove_partial(key);
        let total = value.len();
        let size = C as usize;
        let mut start: usize = 0;
        let mut i: u32 = 0;
        assert(value@.take(0) =~= Seq::<u8>::empty());
        while start < total
            invariant
                Self::limits_fit(),
                self.records.wf(),
                key@.len() <= K,
                size == C,
                total == value@.len(),
                total <= u32::MAX,
                i <= start <= total,
                forall|pair: Pair|
                    pair.0 != key@ ==> (#[trigger] self.records@.contains_key(pair)
                        == before.contains_key(pair)),
                forall|pair: Pair|
                    pair.0 != key@ && before.contains_key(pair) ==> #[trigger] self.records@[pair]
                        == before[pair],
                !self.records@.contains_key((key@, slot(0))),
                forall|j: nat| 1 <= j <= i ==> #[trigger] self.records@.contains_key((key@, slot(j))),
                joined(self.records@, key@, i as nat) == value@.take(start as int),
                self.count == old(self).count,
            decreases total - start,
        {
            let end = if total - start > size {
                start + size
            } else {
                total
            };
            i = i + 1;
            let slice_slot = slot_bytes(i);
            let slice = slice_subrange(value, start, end);
            let ghost earlier = self.records@;
            let _ = self.records.insert(key, slice_slot.as_slice(), slice);
            proof {
                lemma_slots_differ(i as nat, 0);
                assert forall|j: nat| 1 <= j <= i implies #[trigger] self.records@.contains_key(
                    (key@, slot(j)),
                ) by {
                    if j < i {
                        assert(earlier.contains_key((key@, slot(j))));
                    }
                }
                assert forall|j: nat| 1 <= j <= i - 1 implies #[trigger] self.records@[(
                    key@,
                    slot(j),
                )] == earlier[(key@, slot(j))] by {
                    lemma_slots_differ(j, i as nat);
                }
                lemma_joined_agrees(self.records@, earlier, key@, (i - 1) as nat);
                assert(value@.take(end as int) =~= value@.take(start as int) + slice@);
            }
            start = end;
        }
        let mut directory: Vec<u8> = Vec::new();
        push_le(&mut directory, i as usize, 4);
        let ghost sliced = self.records@;
        proof {
            lemma_le_bytes_len(i as nat, 4);
            assert(directory@ =~= slot(i as nat));
        }
        let _ = self.records.insert(key, directory_slot.as_slice(), directory.as_slice());
        proof {
            let after = self.records@;
            lemma_slots_differ(0, 1);
            assert(value@.take(total as int) =~= value@);
            assert forall|j: nat| 1 <= j <= i implies #[trigger] after[(key@, slot(j))] == sliced[(
                key@,
                slot(j),
            )] && after.contains_key((key@, slot(j))) by {
                lemma_slots_differ(j, 0);
                assert(sliced.contains_key((key@, slot(j))));
            }
            lemma_joined_agrees(after, sliced, key@, i as nat);
            if i > 0 {
                lemma_slots_differ(i as nat, 0);
            }
            assert(slice_count(after, key@) == i);
            assert(entry_complete(after, key@));
            lemma_other_keys_keep_values(before, after, key@);
            assert(values_of(after) =~= values_of(before).insert(key@, value@));
            assert(complete(after)) by {
                assert forall|other: Seq<u8>| #[trigger]
                    after.contains_key((other, slot(0))) implies entry_complete(after, other) by {
                    if other != key@ {
                        assert(values_of(after).contains_key(other));
                        assert(values_of(before).contains_key(other));
                    }
                }
            }
            assert(values_of(before).contains_key(key@) == existed);
        }
        if !existed {
            let records_now = self.records.len();
            proof {
                lemma_keys_within_records(self.records@);
            }
            self.count = self.count + 1;
        }
        Ok(())
    }

    /// Removes `key`. The result is the value that it had, if it had one.
    pub fn remove(&mut self, key: &[u8]) -> (previous: Option<Vec<u8>>)
        requires
            old(self).wf(),
        ensures
            final(self).wf(),
            final(self)@ == old(self)@.remove(key@),
            previous matches Some(v) ==> old(self)@.contains_pair(key@, v@),
            previous is None ==> !old(self)@.contains_key(key@),
    {
        let previous = self.get(key);
        if previous.is_none() {
            assert(self@.remove(key@) =~= self@);
            return None;
        }
        let ghost before = self.records@;
        self.records.remove_partial(key);
        proof {
            let after = self.records@;
            assert(!after.contains_key((key@, slot(0)))) by {
                assert(with_first(key@).contains((key@, slot(0))));
            }
            assert forall|pair: Pair| pair.0 != key@ implies (#[trigger] after.contains_key(pair)
                == before.contains_key(pair)) by {
                assert(!with_first(key@).contains(pair));
            }
            lemma_other_keys_keep_values(before, after, key@);
            assert(values_of(after) =~= values_of(before).remove(key@));
            assert(complete(after)) by {
                assert forall|other: Seq<u8>| #[trigger]
                    after.contains_key((other, slot(0))) implies entry_complete(after, other) by {
                    assert(values_of(after).contains_key(other));
                    assert(values_of(before).contains_key(other));
                }
            }
        }
        self.count = self.count - 1;
        previous
    }

    /// The number of keys.
    pub fn len(&self) -> (count: u64)
        requires
            self.wf(),
        ensures
            self@.dom().finite(),
            count == self@.len(),
    {
        self.count
    }

    /// Whether there is no key.
    pub fn is_empty(&self) -> (empty: bool)
        requires
            self.wf(),
        ensures
            empty <==> self@ == Map::<Seq<u8>, Seq<u8>>::empty(),
    {
        proof {
            if self@.len() == 0 {
                assert(self@.dom() =~= Set::<Seq<u8>>::empty());
                assert(self@ =~= Map::<Seq<u8>, Seq<u8>>::empty());
            }
        }
        self.count == 0
    }

    /// Every key with its value, one at a time.
    pub fn iter(&self) -> (iter: UnboundedIter<'_, K, C>)
        requires
            self.wf(),
        ensures
            iter.wf(),
            holds_each_once(iter@, self@),
    {
        let inner = self.records.iter();
        proof {
            lemma_run_holds_each_once(K, inner@, self.records@);
        }
        UnboundedIter { map: self, inner }
    }
}

/// The keys of a [`StableUnboundedMap`] with their values, one at a time. It
/// reads the map as it goes, and the map cannot change while it is there.
pub struct UnboundedIter<'a, const K: u32, const C: u32> {
    map: &'a StableUnboundedMap<K, C>,
    inner: Iter<'a, K, 4, C>,
}

impl<'a, const K: u32, const C: u32> UnboundedIter<'a, K, C> {
    /// The keys and values that are yet to come, in their order.
    pub closed spec fn view(&self) -> Seq<(Seq<u8>, Seq<u8>)> {
        entries_in(self.inner@, self.map.records())
    }

    /// What is yet to come is among the records of a well-formed map.
    pub closed spec fn wf(&self) -> bool {
        &&& self.map.wf()
        &&& self.inner.wf()
        &&& forall|i: int|
            0 <= i < self.inner@.len() ==> self.map.records().contains_key(
                ((#[trigger] self.inner@[i]).0, self.inner@[i].1),
            )
    }

    /// The next key and its value, if any is left.
    pub fn next(&mut self) -> (item: Option<(Vec<u8>, Vec<u8>)>)
        requires
            old(self).wf(),
        ensures
            final(self).wf(),
            item matches Some((key, value)) ==> {
                &&& old(self)@.len() > 0
                &&& old(self)@[0] == (key@, value@)
                &&& final(self)@ == old(self)@.skip(1)
            },
            item is None ==> old(self)@.len() == 0 && final(self)@.len() == 0,
    {
        let directory_slot = slot_bytes(0);
        loop
            invariant
                self.wf(),
                self.map == old(self).map,
                self@ == old(self)@,
                directory_slot@ == slot(0),
            decreases self.inner@.len(),
        {
            let ghost before = self.inner@;
            match self.inner.next() {
                None => {
                    return None;
                },
                Some((key, second, _)) => {
                    proof {
                        assert(self.map.records().contains_key((before[0].0, before[0].1)));
                        assert forall|i: int|
                            0 <= i < self.inner@.len() implies self.map.records().contains_key(
                            ((#[trigger] self.inner@[i]).0, self.inner@[i].1),
                        ) by {
                            assert(self.inner@[i] == before[i + 1]);
                        }
                    }
                    if bytes_equal(second.as_slice(), directory_slot.as_slice()) {
                        let value = self.map.get(key.as_slice());
                        proof {
                            let rest = entries_in(before.skip(1), self.map.records());
                            assert(old(self)@ =~= seq![(key@, self.map@[key@])] + rest);
                            assert(old(self)@.skip(1) =~= rest);
                        }
                        match value {
                            Some(value) => {
                                return Some((key, value));
                            },
                            None => {
                                return None;
                            },
                        }
                    }
                },
            }
        }
    }
}

} // verus!
