//! The composite key: two keys packed into one buffer that the ordered byte
//! map can take as its key.

use vstd::prelude::*;
use vstd::slice::{slice_subrange, slice_to_vec};
use vstd::std_specs::cmp::PartialEqSpecImpl;
use crate::encoding::{
    first_len, first_part, is_key, is_pair_key, key_prefix, le_bytes, lemma_le_bytes_len,
    lemma_le_bytes_of_value, lemma_parts_of_pair_key, max_key_len, pair_key, prefix_width,
    push_le, radix_pow, read_le, second_part, upper_key,
};
use crate::order::{all_ones, bytes_equal, bytes_precede, lex_lt};

verus! {

/// A first key of at most `K1` bytes and a second key of at most `K2` bytes
/// in one buffer: `[size prefix][first key][second key]`.
///
/// The bounds of a scan over one first key are values of this type too; what
/// follows their first key need not be a second key.
pub struct KeyPair<const K1: u32, const K2: u32> {
    encoded: Vec<u8>,
    first_key_len: usize,
}

impl<const K1: u32, const K2: u32> KeyPair<K1, K2> {
    /// The buffer.
    pub closed spec fn view(&self) -> Seq<u8> {
        self.encoded@
    }

    #[verifier::type_invariant]
    spec fn well_formed(&self) -> bool {
        &&& is_key(K1, K2, self.encoded@)
        &&& self.first_key_len == first_len(K1, self.encoded@)
    }

    /// The largest packed key can be held in memory and its length written as
    /// a `u32`.
    pub open spec fn bounds_fit() -> bool {
        max_key_len(K1, K2) <= u32::MAX
    }

    /// The number of bytes of the size prefix: 1 if `K1` fits in 8 bits, 2 if
    /// it fits in 16 bits, else 4.
    pub fn size_prefix_len() -> (width: usize)
        ensures
            width == prefix_width(K1),
    {
        if K1 <= 0xFF {
            1
        } else if K1 <= 0xFFFF {
            2
        } else {
            4
        }
    }

    /// The largest length of a packed key.
    pub fn max_size() -> (size: u32)
        requires
            Self::bounds_fit(),
        ensures
            size == max_key_len(K1, K2),
    {
        Self::size_prefix_len() as u32 + K1 + K2
    }

    /// Appends the size prefix of a first key of `first_key_size` bytes.
    pub fn push_size_prefix(buf: &mut Vec<u8>, first_key_size: usize)
        ensures
            final(buf)@ == old(buf)@ + le_bytes(first_key_size as nat, prefix_width(K1)),
    {
        push_le(buf, first_key_size, Self::size_prefix_len());
    }

    /// Reads the length of the first key from the size prefix of `encoded`.
    pub fn read_first_key_len(encoded: &[u8]) -> (len: usize)
        requires
            encoded@.len() >= prefix_width(K1),
        ensures
            len == first_len(K1, encoded@),
    {
        read_le(encoded, Self::size_prefix_len())
    }

    /// Packs a pair.
    pub fn new(first_key: &[u8], second_key: &[u8]) -> (pair: Self)
        requires
            first_key@.len() <= K1,
            second_key@.len() <= K2,
        ensures
            pair@ == pair_key(K1, first_key@, second_key@),
            is_pair_key(K1, K2, pair@),
    {
        let mut buffer: Vec<u8> = Vec::new();
        Self::push_size_prefix(&mut buffer, first_key.len());
        buffer.extend_from_slice(first_key);
        buffer.extend_from_slice(second_key);
        proof {
            lemma_le_bytes_len(first_key@.len(), prefix_width(K1));
            lemma_parts_of_pair_key(K1, first_key@, second_key@);
            assert(buffer@ =~= pair_key(K1, first_key@, second_key@));
        }
        KeyPair { encoded: buffer, first_key_len: first_key.len() }
    }

    /// The lowest key that a pair with this first key can have: the size
    /// prefix and the first key, with nothing behind them.
    pub fn min_key(first_key: &[u8]) -> (bound: Self)
        requires
            first_key@.len() <= K1,
        ensures
            bound@ == key_prefix(K1, first_key@),
    {
        let mut buffer: Vec<u8> = Vec::new();
        Self::push_size_prefix(&mut buffer, first_key.len());
        buffer.extend_from_slice(first_key);
        proof {
            lemma_le_bytes_len(first_key@.len(), prefix_width(K1));
            lemma_parts_of_pair_key(K1, first_key@, Seq::<u8>::empty());
            assert(buffer@ =~= key_prefix(K1, first_key@));
            assert(buffer@ =~= pair_key(K1, first_key@, Seq::<u8>::empty()));
        }
        KeyPair { encoded: buffer, first_key_len: first_key.len() }
    }

    /// A key that no pair with this first key exceeds: the size prefix and
    /// the first key, filled up with `0xFF` to the largest length.
    pub fn max_key(first_key: &[u8]) -> (bound: Self)
        requires
            first_key@.len() <= K1,
            Self::bounds_fit(),
        ensures
            bound@ == upper_key(K1, K2, first_key@),
    {
        let mut buffer: Vec<u8> = Vec::new();
        Self::push_size_prefix(&mut buffer, first_key.len());
        buffer.extend_from_slice(first_key);
        let ghost prefix = buffer@;
        buffer.resize(Self::max_size() as usize, 0xFF);
        proof {
            lemma_le_bytes_len(first_key@.len(), prefix_width(K1));
            assert(prefix =~= key_prefix(K1, first_key@));
            let fill = all_ones((max_key_len(K1, K2) - prefix.len()) as nat);
            assert(buffer@ =~= prefix + fill) by {
                assert(buffer@.subrange(0, prefix.len() as int) == prefix);
                assert forall|i: int| 0 <= i < buffer@.len() implies buffer@[i] == (prefix
                    + fill)[i] by {
                    if i < prefix.len() {
                        assert(buffer@.subrange(0, prefix.len() as int)[i] == prefix[i]);
                    }
                }
            }
            lemma_parts_of_pair_key(K1, first_key@, fill);
        }
        KeyPair { encoded: buffer, first_key_len: first_key.len() }
    }

    /// The first key.
    pub fn first_key(&self) -> (first: Vec<u8>)
        ensures
            first@ == first_part(K1, self@),
            first@.len() <= K1,
    {
        proof {
            use_type_invariant(self);
        }
        let offset = Self::size_prefix_len();
        let total = self.encoded.len();
        assert(offset + self.first_key_len <= total);
        slice_to_vec(slice_subrange(self.encoded.as_slice(), offset, offset + self.first_key_len))
    }

    /// What follows the first key: the second key, where this is the key of a
    /// pair.
    pub fn second_key(&self) -> (second: Vec<u8>)
        ensures
            second@ == second_part(K1, self@),
    {
        proof {
            use_type_invariant(self);
        }
        let total = self.encoded.len();
        assert(prefix_width(K1) + self.first_key_len <= total);
        let offset = Self::size_prefix_len() + self.first_key_len;
        slice_to_vec(slice_subrange(self.encoded.as_slice(), offset, total))
    }

    /// Whether this is the key of a pair: whether what follows the first key
    /// is no longer than a second key may be.
    pub fn holds_pair(&self) -> (yes: bool)
        ensures
            yes == is_pair_key(K1, K2, self@),
    {
        proof {
            use_type_invariant(self);
        }
        let total = self.encoded.len();
        assert(prefix_width(K1) + self.first_key_len <= total);
        let offset = Self::size_prefix_len() + self.first_key_len;
        total - offset <= K2 as usize
    }

    /// The buffer.
    pub fn to_bytes(&self) -> (bytes: &Vec<u8>)
        ensures
            bytes@ == self@,
            is_key(K1, K2, self@),
    {
        proof {
            use_type_invariant(self);
        }
        &self.encoded
    }

    /// Gives up the key for its buffer.
    pub fn into_bytes(self) -> (bytes: Vec<u8>)
        ensures
            bytes@ == self@,
            is_key(K1, K2, self@),
    {
        proof {
            use_type_invariant(&self);
        }
        self.encoded
    }

    /// Whether this key comes before `other` in the ordered byte map: the
    /// keys are ordered as their buffers are, byte by byte.
    pub fn precedes(&self, other: &Self) -> (before: bool)
        ensures
            before == lex_lt(self@, other@),
    {
        bytes_precede(self.encoded.as_slice(), other.encoded.as_slice())
    }

    /// Takes a buffer as a key, if it holds one: a size prefix, a first key
    /// of the length that the prefix announces and of at most `K1` bytes, and
    /// no more bytes in all than a packed key may have.
    pub fn from_bytes(bytes: Vec<u8>) -> (key: Option<Self>)
        ensures
            key is Some <==> is_key(K1, K2, bytes@),
            key matches Some(pair) ==> pair@ == bytes@,
    {
        let width = Self::size_prefix_len();
        let total = bytes.len();
        if total < width {
            return None;
        }
        if total as u64 > width as u64 + K1 as u64 + K2 as u64 {
            return None;
        }
        let first_key_len = Self::read_first_key_len(bytes.as_slice());
        proof {
            lemma_le_bytes_of_value(bytes@.subrange(0, width as int));
            reveal_with_fuel(radix_pow, 5);
        }
        if first_key_len > K1 as usize || first_key_len > total - width {
            return None;
        }
        Some(KeyPair { encoded: bytes, first_key_len })
    }
}

impl<const K1: u32, const K2: u32> Clone for KeyPair<K1, K2> {
    fn clone(&self) -> (copy: Self)
        ensures
            copy@ == self@,
    {
        proof {
            use_type_invariant(self);
        }
        let encoded = self.encoded.clone();
        assert(encoded@ =~= self.encoded@);
        KeyPair { encoded, first_key_len: self.first_key_len }
    }
}

impl<const K1: u32, const K2: u32> PartialEq for KeyPair<K1, K2> {
    fn eq(&self, other: &Self) -> (same: bool) {
        bytes_equal(self.encoded.as_slice(), other.encoded.as_slice())
    }
}

impl<const K1: u32, const K2: u32> PartialEqSpecImpl for KeyPair<K1, K2> {
    open spec fn obeys_eq_spec() -> bool {
        true
    }

    open spec fn eq_spec(&self, other: &Self) -> bool {
        self@ == other@
    }
}

impl<const K1: u32, const K2: u32> Eq for KeyPair<K1, K2> {

}

} // verus!
