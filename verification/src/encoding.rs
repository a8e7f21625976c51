//! How two keys are packed into one key of the ordered byte map, as a
//! mathematical description, and what that packing guarantees.
//!
//! A packed key is `[size prefix][first key][second key]`. The size prefix is
//! the length of the first key, little-endian, in as many bytes as the
//! largest first key needs.

use vstd::prelude::*;
use crate::order::{
    all_ones, lemma_between_starts_with, lemma_lex_lt_common_prefix, lemma_lex_lt_decided_early,
    lemma_starts_with_between, lex_le, lex_lt, starts_with,
};

verus! {

/// The number of bytes of the size prefix, given the largest length a first
/// key may have.
pub open spec fn prefix_width(first_max: u32) -> nat {
    if first_max <= 0xFF {
        1
    } else if first_max <= 0xFFFF {
        2
    } else {
        4
    }
}

/// The number of values that `width` bytes can tell apart.
pub open spec fn radix_pow(width: nat) -> nat
    decreases width,
{
    if width == 0 {
        1
    } else {
        256 * radix_pow((width - 1) as nat)
    }
}

/// The lowest `width` bytes of `n`, lowest first.
pub open spec fn le_bytes(n: nat, width: nat) -> Seq<u8>
    decreases width,
{
    if width == 0 {
        Seq::empty()
    } else {
        seq![(n % 256) as u8] + le_bytes(n / 256, (width - 1) as nat)
    }
}

/// The number that `bytes` spell, lowest byte first.
pub open spec fn le_value(bytes: Seq<u8>) -> nat
    decreases bytes.len(),
{
    if bytes.len() == 0 {
        0
    } else {
        bytes[0] as nat + 256 * le_value(bytes.drop_first())
    }
}

/// The size prefix and the first key: where the keys with this first key
/// begin.
pub open spec fn key_prefix(first_max: u32, first: Seq<u8>) -> Seq<u8> {
    le_bytes(first.len(), prefix_width(first_max)) + first
}

/// The packed key of a pair.
pub open spec fn pair_key(first_max: u32, first: Seq<u8>, second: Seq<u8>) -> Seq<u8> {
    key_prefix(first_max, first) + second
}

/// The largest length a packed key may have.
pub open spec fn max_key_len(first_max: u32, second_max: u32) -> nat {
    prefix_width(first_max) + first_max as nat + second_max as nat
}

/// The prefix of `first`, filled up with `0xFF` to the largest length: no
/// packed key with this first key comes after it.
pub open spec fn upper_key(first_max: u32, second_max: u32, first: Seq<u8>) -> Seq<u8> {
    let prefix = key_prefix(first_max, first);
    prefix + all_ones((max_key_len(first_max, second_max) - prefix.len()) as nat)
}

/// The length of the first key that the size prefix of `key` announces.
pub open spec fn first_len(first_max: u32, key: Seq<u8>) -> nat {
    le_value(key.subrange(0, prefix_width(first_max) as int))
}

/// `key` holds a size prefix and the first key that the prefix announces, and
/// is no longer than a packed key may be.
pub open spec fn is_key(first_max: u32, second_max: u32, key: Seq<u8>) -> bool {
    &&& prefix_width(first_max) <= key.len() <= max_key_len(first_max, second_max)
    &&& first_len(first_max, key) <= first_max
    &&& prefix_width(first_max) + first_len(first_max, key) <= key.len()
}

/// `key` is the packed key of a pair whose keys are within their limits.
pub open spec fn is_pair_key(first_max: u32, second_max: u32, key: Seq<u8>) -> bool {
    &&& is_key(first_max, second_max, key)
    &&& key.len() - prefix_width(first_max) - first_len(first_max, key) <= second_max
}

/// The first key inside a packed key.
pub open spec fn first_part(first_max: u32, key: Seq<u8>) -> Seq<u8> {
    let w = prefix_width(first_max) as int;
    key.subrange(w, w + first_len(first_max, key))
}

/// What follows the first key inside a packed key.
pub open spec fn second_part(first_max: u32, key: Seq<u8>) -> Seq<u8> {
    let w = prefix_width(first_max) as int;
    key.subrange(w + first_len(first_max, key), key.len() as int)
}

pub proof fn lemma_le_bytes_len(n: nat, width: nat)
    ensures
        le_bytes(n, width).len() == width,
    decreases width,
{
    if width > 0 {
        lemma_le_bytes_len(n / 256, (width - 1) as nat);
    }
}

/// Reading back what was written gives the number, if it fits the width.
pub proof fn lemma_le_value_of_bytes(n: nat, width: nat)
    requires
        n < radix_pow(width),
    ensures
        le_value(le_bytes(n, width)) == n,
    decreases width,
{
    if width > 0 {
        let rest = le_bytes(n / 256, (width - 1) as nat);
        let all = le_bytes(n, width);
        assert(all.drop_first() =~= rest);
        assert(all[0] == (n % 256) as u8);
        lemma_le_value_of_bytes(n / 256, (width - 1) as nat);
    }
}

/// Writing what was read gives the bytes back.
pub proof fn lemma_le_bytes_of_value(bytes: Seq<u8>)
    ensures
        le_value(bytes) < radix_pow(bytes.len()),
        le_bytes(le_value(bytes), bytes.len()) == bytes,
    decreases bytes.len(),
{
    if bytes.len() > 0 {
        let tail = bytes.drop_first();
        lemma_le_bytes_of_value(tail);
        let v = le_value(bytes);
        assert(v % 256 == bytes[0] as nat && v / 256 == le_value(tail)) by {
            assert(v == bytes[0] as nat + 256 * le_value(tail));
        }
        assert(le_bytes(v, bytes.len()) =~= bytes);
    }
}

/// Every length that a first key may have fits the size prefix.
pub proof fn lemma_width_holds(first_max: u32, n: nat)
    requires
        n <= first_max,
    ensures
        n < radix_pow(prefix_width(first_max)),
{
    reveal_with_fuel(radix_pow, 5);
}

/// Taking a packed key apart gives the keys it was made of.
pub proof fn lemma_parts_of_pair_key(first_max: u32, first: Seq<u8>, second: Seq<u8>)
    requires
        first.len() <= first_max,
    ensures
        key_prefix(first_max, first).len() == prefix_width(first_max) + first.len(),
        first_len(first_max, pair_key(first_max, first, second)) == first.len(),
        first_part(first_max, pair_key(first_max, first, second)) == first,
        second_part(first_max, pair_key(first_max, first, second)) == second,
        starts_with(pair_key(first_max, first, second), key_prefix(first_max, first)),
{
    let w = prefix_width(first_max);
    let key = pair_key(first_max, first, second);
    lemma_le_bytes_len(first.len(), w);
    lemma_width_holds(first_max, first.len());
    lemma_le_value_of_bytes(first.len(), w);
    assert(key.subrange(0, w as int) =~= le_bytes(first.len(), w));
    assert(first_part(first_max, key) =~= first);
    assert(second_part(first_max, key) =~= second);
    assert(key.subrange(0, key_prefix(first_max, first).len() as int) =~= key_prefix(
        first_max,
        first,
    ));
}

/// The packed key of a pair within the limits is the key of a pair.
pub proof fn lemma_pair_key_is_pair_key(
    first_max: u32,
    second_max: u32,
    first: Seq<u8>,
    second: Seq<u8>,
)
    requires
        first.len() <= first_max,
        second.len() <= second_max,
    ensures
        is_pair_key(first_max, second_max, pair_key(first_max, first, second)),
{
    lemma_parts_of_pair_key(first_max, first, second);
}

/// Putting the parts of a key together again gives the key.
pub proof fn lemma_pair_key_of_parts(first_max: u32, second_max: u32, key: Seq<u8>)
    requires
        is_key(first_max, second_max, key),
    ensures
        pair_key(first_max, first_part(first_max, key), second_part(first_max, key)) == key,
        first_part(first_max, key).len() == first_len(first_max, key),
        second_part(first_max, key).len() == key.len() - prefix_width(first_max) - first_len(
            first_max,
            key,
        ),
{
    let w = prefix_width(first_max);
    let head = key.subrange(0, w as int);
    lemma_le_bytes_of_value(head);
    assert(pair_key(first_max, first_part(first_max, key), second_part(first_max, key)) =~= key);
}

/// A key that begins with the prefix of `first` has `first` as its first key.
pub proof fn lemma_prefix_gives_first(first_max: u32, first: Seq<u8>, key: Seq<u8>)
    requires
        first.len() <= first_max,
        starts_with(key, key_prefix(first_max, first)),
    ensures
        first_len(first_max, key) == first.len(),
        first_part(first_max, key) == first,
{
    let prefix = key_prefix(first_max, first);
    let tail = key.subrange(prefix.len() as int, key.len() as int);
    assert(key =~= pair_key(first_max, first, tail));
    lemma_parts_of_pair_key(first_max, first, tail);
}

/// Two pairs with the same packed key are the same pair: the size prefix
/// tells where the first key ends.
pub proof fn pair_key_is_injective(
    first_max: u32,
    first_a: Seq<u8>,
    second_a: Seq<u8>,
    first_b: Seq<u8>,
    second_b: Seq<u8>,
)
    requires
        first_a.len() <= first_max,
        first_b.len() <= first_max,
        pair_key(first_max, first_a, second_a) == pair_key(first_max, first_b, second_b),
    ensures
        first_a == first_b,
        second_a == second_b,
{
    lemma_parts_of_pair_key(first_max, first_a, second_a);
    lemma_parts_of_pair_key(first_max, first_b, second_b);
}

/// Packed keys with one first key are ordered as their second keys are.
pub proof fn pair_keys_order_by_second(
    first_max: u32,
    first: Seq<u8>,
    second_a: Seq<u8>,
    second_b: Seq<u8>,
)
    ensures
        lex_lt(pair_key(first_max, first, second_a), pair_key(first_max, first, second_b))
            == lex_lt(second_a, second_b),
{
    lemma_lex_lt_common_prefix(key_prefix(first_max, first), second_a, second_b);
}

/// Packed keys with different first keys of one length are ordered as their
/// first keys are, whatever their second keys.
pub proof fn pair_keys_order_by_first(
    first_max: u32,
    first_a: Seq<u8>,
    second_a: Seq<u8>,
    first_b: Seq<u8>,
    second_b: Seq<u8>,
)
    requires
        first_a.len() == first_b.len(),
        first_a != first_b,
    ensures
        lex_lt(pair_key(first_max, first_a, second_a), pair_key(first_max, first_b, second_b))
            == lex_lt(first_a, first_b),
{
    let prefix = le_bytes(first_a.len(), prefix_width(first_max));
    assert(pair_key(first_max, first_a, second_a) =~= prefix + (first_a + second_a));
    assert(pair_key(first_max, first_b, second_b) =~= prefix + (first_b + second_b));
    lemma_lex_lt_common_prefix(prefix, first_a + second_a, first_b + second_b);
    lemma_lex_lt_decided_early(first_a, first_b, second_a, second_b);
}

/// A key lies between the prefix of `first` and the upper key of `first`
/// exactly if `first` is its first key: a scan between the two meets every
/// entry of `first` and no entry of another first key, whatever bytes the two
/// first keys share.
pub proof fn scan_bounds_hold_one_first_key(
    first_max: u32,
    second_max: u32,
    first: Seq<u8>,
    key: Seq<u8>,
)
    requires
        first.len() <= first_max,
        is_key(first_max, second_max, key),
    ensures
        (lex_le(key_prefix(first_max, first), key) && lex_le(
            key,
            upper_key(first_max, second_max, first),
        )) <==> first_part(first_max, key) == first,
{
    let prefix = key_prefix(first_max, first);
    let fill = (max_key_len(first_max, second_max) - prefix.len()) as nat;
    lemma_parts_of_pair_key(first_max, first, Seq::<u8>::empty());
    if first_part(first_max, key) == first {
        lemma_pair_key_of_parts(first_max, second_max, key);
        lemma_parts_of_pair_key(first_max, first, second_part(first_max, key));
        lemma_starts_with_between(key, prefix, fill);
    }
    if lex_le(prefix, key) && lex_le(key, upper_key(first_max, second_max, first)) {
        lemma_between_starts_with(key, prefix, all_ones(fill));
        lemma_prefix_gives_first(first_max, first, key);
    }
}

/// Appends the lowest `width` bytes of `n` to `buf`, lowest first.
pub fn push_le(buf: &mut Vec<u8>, n: usize, width: usize)
    ensures
        final(buf)@ == old(buf)@ + le_bytes(n as nat, width as nat),
{
    let mut rest: usize = n;
    let mut i: usize = 0;
    while i < width
        invariant
            i <= width,
            buf@ + le_bytes(rest as nat, (width - i) as nat) == old(buf)@ + le_bytes(
                n as nat,
                width as nat,
            ),
        decreases width - i,
    {
        let ghost before = buf@;
        buf.push((rest % 256) as u8);
        proof {
            let tail = le_bytes((rest / 256) as nat, (width - i - 1) as nat);
            assert(le_bytes(rest as nat, (width - i) as nat) =~= seq![(rest % 256) as u8] + tail);
            assert(buf@ + tail =~= before + le_bytes(rest as nat, (width - i) as nat));
        }
        rest = rest / 256;
        i = i + 1;
    }
    assert(buf@ + Seq::<u8>::empty() =~= buf@);
}

/// The number that the first `width` bytes of `bytes` spell, lowest byte
/// first.
pub fn read_le(bytes: &[u8], width: usize) -> (n: usize)
    requires
        width <= 4,
        width <= bytes@.len(),
    ensures
        n == le_value(bytes@.subrange(0, width as int)),
        n < radix_pow(width as nat),
{
    let ghost head = bytes@.subrange(0, width as int);
    let mut n: usize = 0;
    let mut i: usize = width;
    while i > 0
        invariant
            i <= width <= 4,
            width <= bytes@.len(),
            head == bytes@.subrange(0, width as int),
            n == le_value(head.subrange(i as int, width as int)),
            n < radix_pow((width - i) as nat),
        decreases i,
    {
        i = i - 1;
        proof {
            let now = head.subrange(i as int, width as int);
            assert(now.drop_first() =~= head.subrange(i + 1, width as int));
            assert(now[0] == bytes@[i as int]);
            reveal_with_fuel(radix_pow, 5);
        }
        n = n * 256 + bytes[i] as usize;
    }
    assert(head.subrange(0, width as int) =~= head);
    n
}

} // verus!
