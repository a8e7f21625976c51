//! The multimap as a mathematical map from pairs of keys to values, read
//! off the packed keys that the ordered byte map holds.

use vstd::prelude::*;
use vstd::relations::injective_on;
use vstd::set_lib::lemma_map_size;
use crate::byte_map::{keys_between, lists};
use crate::encoding::{
    first_part, is_pair_key, key_prefix, lemma_pair_key_is_pair_key, lemma_pair_key_of_parts,
    lemma_parts_of_pair_key, pair_key, pair_key_is_injective, pair_keys_order_by_second,
    scan_bounds_hold_one_first_key, second_part, upper_key,
};
use crate::order::{lemma_lex_lt_irreflexive, lex_lt};

verus! {

/// A pair of keys.
pub type Pair = (Seq<u8>, Seq<u8>);

/// The pairs that `stored` holds, each with its value: the pairs within the
/// limits whose packed key is a key of `stored`.
pub open spec fn pairs_of(first_max: u32, second_max: u32, stored: Map<Seq<u8>, Seq<u8>>) -> Map<
    Pair,
    Seq<u8>,
> {
    Map::new(
        |pair: Pair|
            pair.0.len() <= first_max && pair.1.len() <= second_max && stored.contains_key(
                pair_key(first_max, pair.0, pair.1),
            ),
        |pair: Pair| stored[pair_key(first_max, pair.0, pair.1)],
    )
}

/// `stored` holds finitely many entries, every key the packed key of a pair
/// within the limits, every value within its limit.
pub open spec fn holds_pairs(
    first_max: u32,
    second_max: u32,
    value_max: u32,
    stored: Map<Seq<u8>, Seq<u8>>,
) -> bool {
    &&& stored.dom().finite()
    &&& forall|key: Seq<u8>| #[trigger]
        stored.contains_key(key) ==> is_pair_key(first_max, second_max, key) && stored[key].len()
            <= value_max
}

/// The pairs with the first key `first`.
pub open spec fn with_first(first: Seq<u8>) -> Set<Pair> {
    Set::new(|pair: Pair| pair.0 == first)
}

/// The second keys that `pairs` holds under `first`, each with its value.
pub open spec fn seconds_of(pairs: Map<Pair, Seq<u8>>, first: Seq<u8>) -> Map<Seq<u8>, Seq<u8>> {
    Map::new(|second: Seq<u8>| pairs.contains_key((first, second)), |second: Seq<u8>| pairs[(
        first,
        second,
    )])
}

/// A map of which a listing holds every key has finitely many keys.
pub proof fn lemma_listed_is_finite(listing: Seq<(Seq<u8>, Seq<u8>)>, map: Map<Seq<u8>, Seq<u8>>)
    requires
        lists(listing, map),
    ensures
        map.dom().finite(),
        map.len() == listing.len(),
    decreases listing.len(),
{
    if listing.len() == 0 {
        assert forall|key: Seq<u8>| !map.dom().contains(key) by {
            if map.contains_key(key) {
                let i = choose|i: int| 0 <= i < listing.len() && (#[trigger] listing[i]).0 == key;
            }
        }
        assert(map.dom() =~= Set::<Seq<u8>>::empty());
    } else {
        let last = listing.last();
        let front = listing.drop_last();
        let rest = map.remove(last.0);
        assert(map.contains_pair(last.0, last.1)) by {
            assert(listing[listing.len() - 1] == last);
        }
        assert(lists(front, rest)) by {
            assert forall|i: int| 0 <= i < front.len() implies rest.contains_pair(
                (#[trigger] front[i]).0,
                front[i].1,
            ) by {
                assert(front[i] == listing[i]);
                assert(lex_lt(listing[i].0, listing[listing.len() - 1].0));
                lemma_lex_lt_irreflexive(last.0);
            }
            assert forall|key: Seq<u8>| #[trigger] rest.contains_key(key) implies exists|i: int|
                0 <= i < front.len() && (#[trigger] front[i]).0 == key by {
                assert(map.contains_key(key));
                let i = choose|i: int| 0 <= i < listing.len() && (#[trigger] listing[i]).0 == key;
                assert(i < front.len());
                assert(front[i].0 == key);
            }
            assert forall|i: int, j: int| 0 <= i < j < front.len() implies lex_lt(
                #[trigger] front[i].0,
                #[trigger] front[j].0,
            ) by {
                assert(front[i] == listing[i] && front[j] == listing[j]);
            }
        }
        lemma_listed_is_finite(front, rest);
        assert(map.dom() =~= rest.dom().insert(last.0));
    }
}

/// Storing a value under the packed key of a pair stores it under the pair,
/// and touches no other pair.
pub proof fn lemma_insert_pair(
    first_max: u32,
    second_max: u32,
    stored: Map<Seq<u8>, Seq<u8>>,
    first: Seq<u8>,
    second: Seq<u8>,
    value: Seq<u8>,
)
    requires
        first.len() <= first_max,
        second.len() <= second_max,
    ensures
        pairs_of(first_max, second_max, stored.insert(pair_key(first_max, first, second), value))
            == pairs_of(first_max, second_max, stored).insert((first, second), value),
{
    let key = pair_key(first_max, first, second);
    let before = pairs_of(first_max, second_max, stored);
    let after = pairs_of(first_max, second_max, stored.insert(key, value));
    assert forall|pair: Pair|
        pair.0.len() <= first_max && pair_key(first_max, pair.0, pair.1) == key implies pair == (
        first,
        second,
    ) by {
        pair_key_is_injective(first_max, pair.0, pair.1, first, second);
    }
    assert(after =~= before.insert((first, second), value));
}

/// Removing the packed key of a pair removes the pair, and no other pair.
pub proof fn lemma_remove_pair(
    first_max: u32,
    second_max: u32,
    stored: Map<Seq<u8>, Seq<u8>>,
    first: Seq<u8>,
    second: Seq<u8>,
)
    requires
        first.len() <= first_max,
        second.len() <= second_max,
    ensures
        pairs_of(first_max, second_max, stored.remove(pair_key(first_max, first, second)))
            == pairs_of(first_max, second_max, stored).remove((first, second)),
{
    let key = pair_key(first_max, first, second);
    let before = pairs_of(first_max, second_max, stored);
    let after = pairs_of(first_max, second_max, stored.remove(key));
    assert forall|pair: Pair|
        pair.0.len() <= first_max && pair_key(first_max, pair.0, pair.1) == key implies pair == (
        first,
        second,
    ) by {
        pair_key_is_injective(first_max, pair.0, pair.1, first, second);
    }
    assert(after =~= before.remove((first, second)));
}

/// There are as many pairs as packed keys.
pub proof fn lemma_pairs_len(
    first_max: u32,
    second_max: u32,
    value_max: u32,
    stored: Map<Seq<u8>, Seq<u8>>,
)
    requires
        holds_pairs(first_max, second_max, value_max, stored),
    ensures
        pairs_of(first_max, second_max, stored).dom().finite(),
        pairs_of(first_max, second_max, stored).len() == stored.len(),
{
    let keys = stored.dom();
    let pairs = pairs_of(first_max, second_max, stored).dom();
    let unpack = |key: Seq<u8>| (first_part(first_max, key), second_part(first_max, key));
    assert forall|key: Seq<u8>| keys.contains(key) implies {
        let pair = #[trigger] unpack(key);
        pair_key(first_max, pair.0, pair.1) == key && pair.0.len() <= first_max && pair.1.len()
            <= second_max
    } by {
        assert(stored.contains_key(key));
        lemma_pair_key_of_parts(first_max, second_max, key);
    }
    assert(injective_on(unpack, keys)) by {
        assert forall|a: Seq<u8>, b: Seq<u8>|
            keys.contains(a) && keys.contains(b) && #[trigger] unpack(a) == #[trigger] unpack(
                b,
            ) implies a == b by {
            let pa = unpack(a);
            let pb = unpack(b);
            assert(pair_key(first_max, pa.0, pa.1) == a);
            assert(pair_key(first_max, pb.0, pb.1) == b);
        }
    }
    assert(keys.map(unpack) =~= pairs) by {
        assert forall|pair: Pair| pairs.contains(pair) implies keys.map(unpack).contains(pair) by {
            let key = pair_key(first_max, pair.0, pair.1);
            lemma_parts_of_pair_key(first_max, pair.0, pair.1);
            assert(keys.contains(key) && unpack(key) == pair);
        }
        assert forall|pair: Pair| keys.map(unpack).contains(pair) implies pairs.contains(pair) by {
            let key = choose|key: Seq<u8>| keys.contains(key) && pair == unpack(key);
            assert(pair_key(first_max, pair.0, pair.1) == key);
        }
    }
    lemma_map_size(keys, pairs, unpack);
}

/// The second keys and values of a listing of packed keys.
pub open spec fn seconds_listing(first_max: u32, listing: Seq<(Seq<u8>, Seq<u8>)>) -> Seq<
    (Seq<u8>, Seq<u8>),
> {
    Seq::new(listing.len(), |i: int| (second_part(first_max, listing[i].0), listing[i].1))
}

/// The pairs and values of a listing of packed keys.
pub open spec fn pairs_listing(first_max: u32, listing: Seq<(Seq<u8>, Seq<u8>)>) -> Seq<
    (Seq<u8>, Seq<u8>, Seq<u8>),
> {
    Seq::new(
        listing.len(),
        |i: int|
            (first_part(first_max, listing[i].0), second_part(first_max, listing[i].0), listing[i].1),
    )
}

/// `listing` holds every pair of `pairs` once, with its value, in ascending
/// order of the packed keys.
pub open spec fn lists_pairs(
    first_max: u32,
    listing: Seq<(Seq<u8>, Seq<u8>, Seq<u8>)>,
    pairs: Map<Pair, Seq<u8>>,
) -> bool {
    &&& forall|i: int, j: int|
        0 <= i < j < listing.len() ==> lex_lt(
            pair_key(first_max, (#[trigger] listing[i]).0, listing[i].1),
            pair_key(first_max, (#[trigger] listing[j]).0, listing[j].1),
        )
    &&& forall|i: int|
        0 <= i < listing.len() ==> pairs.contains_pair(
            ((#[trigger] listing[i]).0, listing[i].1),
            listing[i].2,
        )
    &&& forall|pair: Pair| #[trigger]
        pairs.contains_key(pair) ==> exists|i: int|
            0 <= i < listing.len() && ((#[trigger] listing[i]).0, listing[i].1) == pair
}

/// Removing every packed key between the bounds of `first` removes the pairs
/// of `first`, and no other pair.
pub proof fn lemma_remove_first(
    first_max: u32,
    second_max: u32,
    stored: Map<Seq<u8>, Seq<u8>>,
    first: Seq<u8>,
)
    requires
        first.len() <= first_max,
    ensures
        pairs_of(
            first_max,
            second_max,
            stored.remove_keys(
                keys_between(
                    key_prefix(first_max, first),
                    upper_key(first_max, second_max, first),
                ),
            ),
        ) == pairs_of(first_max, second_max, stored).remove_keys(with_first(first)),
{
    let scanned = keys_between(
        key_prefix(first_max, first),
        upper_key(first_max, second_max, first),
    );
    let before = pairs_of(first_max, second_max, stored);
    let after = pairs_of(first_max, second_max, stored.remove_keys(scanned));
    assert forall|pair: Pair|
        pair.0.len() <= first_max && pair.1.len() <= second_max implies (scanned.contains(
        pair_key(first_max, pair.0, pair.1),
    ) <==> pair.0 == first) by {
        let key = pair_key(first_max, pair.0, pair.1);
        lemma_pair_key_is_pair_key(first_max, second_max, pair.0, pair.1);
        lemma_parts_of_pair_key(first_max, pair.0, pair.1);
        scan_bounds_hold_one_first_key(first_max, second_max, first, key);
    }
    assert(after =~= before.remove_keys(with_first(first)));
}

/// A scan between the bounds of `first` lists the second keys that `first`
/// has, with their values, in ascending order of the second keys.
pub proof fn lemma_scan_lists_seconds(
    first_max: u32,
    second_max: u32,
    value_max: u32,
    stored: Map<Seq<u8>, Seq<u8>>,
    first: Seq<u8>,
    listing: Seq<(Seq<u8>, Seq<u8>)>,
)
    requires
        holds_pairs(first_max, second_max, value_max, stored),
        first.len() <= first_max,
        lists(
            listing,
            stored.restrict(
                keys_between(
                    key_prefix(first_max, first),
                    upper_key(first_max, second_max, first),
                ),
            ),
        ),
    ensures
        lists(
            seconds_listing(first_max, listing),
            seconds_of(pairs_of(first_max, second_max, stored), first),
        ),
        forall|i: int|
            0 <= i < listing.len() ==> is_pair_key(first_max, second_max, (#[trigger] listing[i]).0),
{
    let scanned = keys_between(
        key_prefix(first_max, first),
        upper_key(first_max, second_max, first),
    );
    let found = stored.restrict(scanned);
    let seconds = seconds_listing(first_max, listing);
    let wanted = seconds_of(pairs_of(first_max, second_max, stored), first);
    assert forall|i: int| 0 <= i < listing.len() implies {
        let key = (#[trigger] listing[i]).0;
        &&& is_pair_key(first_max, second_max, key)
        &&& key == pair_key(first_max, first, seconds[i].0)
        &&& seconds[i].0.len() <= second_max
        &&& stored.contains_pair(key, listing[i].1)
    } by {
        let key = listing[i].0;
        assert(found.contains_pair(key, listing[i].1));
        assert(stored.contains_key(key));
        scan_bounds_hold_one_first_key(first_max, second_max, first, key);
        lemma_pair_key_of_parts(first_max, second_max, key);
    }
    assert forall|i: int, j: int| 0 <= i < j < seconds.len() implies lex_lt(
        #[trigger] seconds[i].0,
        #[trigger] seconds[j].0,
    ) by {
        assert(lex_lt(listing[i].0, listing[j].0));
        pair_keys_order_by_second(first_max, first, seconds[i].0, seconds[j].0);
    }
    assert forall|i: int| 0 <= i < seconds.len() implies wanted.contains_pair(
        (#[trigger] seconds[i]).0,
        seconds[i].1,
    ) by {
        assert(stored.contains_pair(listing[i].0, listing[i].1));
    }
    assert forall|second: Seq<u8>| #[trigger] wanted.contains_key(second) implies exists|i: int|
        0 <= i < seconds.len() && (#[trigger] seconds[i]).0 == second by {
        let key = pair_key(first_max, first, second);
        lemma_pair_key_is_pair_key(first_max, second_max, first, second);
        lemma_parts_of_pair_key(first_max, first, second);
        scan_bounds_hold_one_first_key(first_max, second_max, first, key);
        assert(found.contains_key(key));
        let i = choose|i: int| 0 <= i < listing.len() && (#[trigger] listing[i]).0 == key;
        assert(seconds[i].0 == second);
    }
}

/// A listing of all packed keys lists all pairs.
pub proof fn lemma_listing_lists_pairs(
    first_max: u32,
    second_max: u32,
    value_max: u32,
    stored: Map<Seq<u8>, Seq<u8>>,
    listing: Seq<(Seq<u8>, Seq<u8>)>,
)
    requires
        holds_pairs(first_max, second_max, value_max, stored),
        lists(listing, stored),
    ensures
        lists_pairs(
            first_max,
            pairs_listing(first_max, listing),
            pairs_of(first_max, second_max, stored),
        ),
        forall|i: int|
            0 <= i < listing.len() ==> is_pair_key(first_max, second_max, (#[trigger] listing[i]).0),
{
    let triples = pairs_listing(first_max, listing);
    let pairs = pairs_of(first_max, second_max, stored);
    assert forall|i: int| 0 <= i < listing.len() implies {
        let key = (#[trigger] listing[i]).0;
        &&& is_pair_key(first_max, second_max, key)
        &&& key == pair_key(first_max, triples[i].0, triples[i].1)
        &&& triples[i].0.len() <= first_max
        &&& triples[i].1.len() <= second_max
        &&& stored.contains_pair(key, listing[i].1)
    } by {
        let key = listing[i].0;
        assert(stored.contains_pair(key, listing[i].1));
        assert(stored.contains_key(key));
        lemma_pair_key_of_parts(first_max, second_max, key);
    }
    assert forall|i: int, j: int| 0 <= i < j < triples.len() implies lex_lt(
        pair_key(first_max, (#[trigger] triples[i]).0, triples[i].1),
        pair_key(first_max, (#[trigger] triples[j]).0, triples[j].1),
    ) by {
        assert(lex_lt(listing[i].0, listing[j].0));
    }
    assert forall|i: int| 0 <= i < triples.len() implies pairs.contains_pair(
        ((#[trigger] triples[i]).0, triples[i].1),
        triples[i].2,
    ) by {
        assert(stored.contains_pair(listing[i].0, listing[i].1));
    }
    assert forall|pair: Pair| #[trigger] pairs.contains_key(pair) implies exists|i: int|
        0 <= i < triples.len() && ((#[trigger] triples[i]).0, triples[i].1) == pair by {
        let key = pair_key(first_max, pair.0, pair.1);
        lemma_parts_of_pair_key(first_max, pair.0, pair.1);
        let i = choose|i: int| 0 <= i < listing.len() && (#[trigger] listing[i]).0 == key;
        assert((triples[i].0, triples[i].1) == pair);
    }
}

/// A listing of all pairs has as many items as there are pairs.
pub proof fn lemma_pairs_listed_is_finite(
    first_max: u32,
    listing: Seq<(Seq<u8>, Seq<u8>, Seq<u8>)>,
    pairs: Map<Pair, Seq<u8>>,
)
    requires
        lists_pairs(first_max, listing, pairs),
    ensures
        pairs.dom().finite(),
        pairs.len() == listing.len(),
    decreases listing.len(),
{
    if listing.len() == 0 {
        assert forall|pair: Pair| !pairs.dom().contains(pair) by {
            if pairs.contains_key(pair) {
                let i = choose|i: int|
                    0 <= i < listing.len() && ((#[trigger] listing[i]).0, listing[i].1) == pair;
            }
        }
        assert(pairs.dom() =~= Set::<Pair>::empty());
    } else {
        let last = listing.last();
        let front = listing.drop_last();
        let rest = pairs.remove((last.0, last.1));
        assert(pairs.contains_pair((last.0, last.1), last.2)) by {
            assert(listing[listing.len() - 1] == last);
        }
        assert(lists_pairs(first_max, front, rest)) by {
            assert forall|i: int| 0 <= i < front.len() implies rest.contains_pair(
                ((#[trigger] front[i]).0, front[i].1),
                front[i].2,
            ) by {
                assert(front[i] == listing[i]);
                assert(pairs.contains_pair((listing[i].0, listing[i].1), listing[i].2));
                assert(lex_lt(
                    pair_key(first_max, listing[i].0, listing[i].1),
                    pair_key(first_max, last.0, last.1),
                ));
                lemma_lex_lt_irreflexive(pair_key(first_max, last.0, last.1));
            }
            assert forall|pair: Pair| #[trigger] rest.contains_key(pair) implies exists|i: int|
                0 <= i < front.len() && ((#[trigger] front[i]).0, front[i].1) == pair by {
                assert(pairs.contains_key(pair));
                let i = choose|i: int|
                    0 <= i < listing.len() && ((#[trigger] listing[i]).0, listing[i].1) == pair;
                assert(i < front.len());
                assert((front[i].0, front[i].1) == pair);
            }
            assert forall|i: int, j: int| 0 <= i < j < front.len() implies lex_lt(
                pair_key(first_max, (#[trigger] front[i]).0, front[i].1),
                pair_key(first_max, (#[trigger] front[j]).0, front[j].1),
            ) by {
                assert(front[i] == listing[i] && front[j] == listing[j]);
            }
        }
        lemma_pairs_listed_is_finite(first_max, front, rest);
        assert(pairs.dom() =~= rest.dom().insert((last.0, last.1)));
    }
}

/// After a value has been stored under a pair, the pair has exactly that
/// value, and every other pair has what it had.
pub proof fn stored_value_is_found(
    pairs: Map<Pair, Seq<u8>>,
    first: Seq<u8>,
    second: Seq<u8>,
    value: Seq<u8>,
)
    ensures
        pairs.insert((first, second), value).get((first, second)) == Some(value),
        forall|other: Pair|
            other != (first, second) ==> #[trigger] pairs.insert((first, second), value).get(other)
                == pairs.get(other),
{
}

/// Removing a pair that has no value changes nothing: there are as many
/// pairs as before.
pub proof fn removing_absent_changes_nothing(
    pairs: Map<Pair, Seq<u8>>,
    first: Seq<u8>,
    second: Seq<u8>,
)
    requires
        !pairs.contains_key((first, second)),
    ensures
        pairs.remove((first, second)) == pairs,
        pairs.remove((first, second)).len() == pairs.len(),
{
    assert(pairs.remove((first, second)) =~= pairs);
}

/// Removing the pairs of one first key removes every pair of it, and leaves
/// every pair of another first key with its value.
pub proof fn removal_by_first_key_is_exact(pairs: Map<Pair, Seq<u8>>, first: Seq<u8>)
    ensures
        forall|second: Seq<u8>|
            !(#[trigger] pairs.remove_keys(with_first(first)).contains_key((first, second))),
        forall|pair: Pair|
            pair.0 != first ==> #[trigger] pairs.remove_keys(with_first(first)).get(pair)
                == pairs.get(pair),
{
    assert forall|second: Seq<u8>|
        !(#[trigger] pairs.remove_keys(with_first(first)).contains_key((first, second))) by {
        assert(with_first(first).contains((first, second)));
    }
    assert forall|pair: Pair| pair.0 != first implies #[trigger] pairs.remove_keys(
        with_first(first),
    ).get(pair) == pairs.get(pair) by {
        assert(!with_first(first).contains(pair));
    }
}

/// A scan of one first key gives each second key of it once, with its
/// value, and as many items as the first key has second keys.
pub proof fn scan_gives_each_second_once(
    pairs: Map<Pair, Seq<u8>>,
    first: Seq<u8>,
    listing: Seq<(Seq<u8>, Seq<u8>)>,
    second: Seq<u8>,
)
    requires
        lists(listing, seconds_of(pairs, first)),
        pairs.contains_key((first, second)),
    ensures
        exists|i: int|
            0 <= i < listing.len() && #[trigger] listing[i] == (second, pairs[(first, second)])
                && forall|j: int|
                0 <= j < listing.len() && (#[trigger] listing[j]).0 == second ==> j == i,
        listing.len() == seconds_of(pairs, first).len(),
{
    let seconds = seconds_of(pairs, first);
    assert(seconds.contains_key(second));
    let i = choose|i: int| 0 <= i < listing.len() && (#[trigger] listing[i]).0 == second;
    assert(seconds.contains_pair(listing[i].0, listing[i].1));
    assert forall|j: int| 0 <= j < listing.len() && (#[trigger] listing[j]).0 == second implies j
        == i by {
        lemma_lex_lt_irreflexive(second);
        if j < i {
            assert(lex_lt(listing[j].0, listing[i].0));
        } else if i < j {
            assert(lex_lt(listing[i].0, listing[j].0));
        }
    }
    lemma_listed_is_finite(listing, seconds);
}

/// A traversal gives each pair once, with its value, and as many items as
/// there are pairs.
pub proof fn traversal_gives_each_pair_once(
    first_max: u32,
    pairs: Map<Pair, Seq<u8>>,
    listing: Seq<(Seq<u8>, Seq<u8>, Seq<u8>)>,
    first: Seq<u8>,
    second: Seq<u8>,
)
    requires
        lists_pairs(first_max, listing, pairs),
        pairs.contains_key((first, second)),
    ensures
        exists|i: int|
            0 <= i < listing.len() && #[trigger] listing[i] == (
                first,
                second,
                pairs[(first, second)],
            ) && forall|j: int|
                0 <= j < listing.len() && ((#[trigger] listing[j]).0, listing[j].1) == (
                    first,
                    second,
                ) ==> j == i,
        listing.len() == pairs.len(),
{
    let i = choose|i: int|
        0 <= i < listing.len() && ((#[trigger] listing[i]).0, listing[i].1) == (first, second);
    assert(pairs.contains_pair((listing[i].0, listing[i].1), listing[i].2));
    assert forall|j: int|
        0 <= j < listing.len() && ((#[trigger] listing[j]).0, listing[j].1) == (
            first,
            second,
        ) implies j == i by {
        lemma_lex_lt_irreflexive(pair_key(first_max, first, second));
        if j < i {
            assert(lex_lt(
                pair_key(first_max, listing[j].0, listing[j].1),
                pair_key(first_max, listing[i].0, listing[i].1),
            ));
        } else if i < j {
            assert(lex_lt(
                pair_key(first_max, listing[i].0, listing[i].1),
                pair_key(first_max, listing[j].0, listing[j].1),
            ));
        }
    }
    lemma_pairs_listed_is_finite(first_max, listing, pairs);
}

/// The counts of the scans of all first keys add up to the number of pairs:
/// a first key has as many pairs as a scan of it gives items, and all other
/// first keys have the rest between them.
pub proof fn scan_counts_add_up(pairs: Map<Pair, Seq<u8>>, first: Seq<u8>)
    requires
        pairs.dom().finite(),
    ensures
        seconds_of(pairs, first).dom().finite(),
        pairs.remove_keys(with_first(first)).dom().finite(),
        pairs.len() == seconds_of(pairs, first).len() + pairs.remove_keys(with_first(first)).len(),
{
    let all = pairs.dom();
    let mine = all.filter(|pair: Pair| pair.0 == first);
    let others = pairs.remove_keys(with_first(first)).dom();
    let second = |pair: Pair| pair.1;
    all.lemma_len_filter(|pair: Pair| pair.0 == first);
    assert(others =~= all.difference(mine));
    assert(mine.disjoint(others));
    assert(mine + others =~= all);
    vstd::set_lib::lemma_set_disjoint_lens(mine, others);
    assert(mine.map(second) =~= seconds_of(pairs, first).dom()) by {
        assert forall|s: Seq<u8>| seconds_of(pairs, first).dom().contains(s) implies mine.map(
            second,
        ).contains(s) by {
            assert(mine.contains((first, s)) && second((first, s)) == s);
        }
    }
    lemma_map_size(mine, seconds_of(pairs, first).dom(), second);
}

} // verus!
