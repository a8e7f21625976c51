//! A stored value: its encoded bytes, and nothing of the type they encode.

use vstd::prelude::*;
use vstd::slice::slice_to_vec;

verus! {

/// The encoded bytes of a value, at most `V` of them.
pub struct Value<const V: u32> {
    bytes: Vec<u8>,
}

impl<const V: u32> Value<V> {
    /// The bytes.
    pub closed spec fn view(&self) -> Seq<u8> {
        self.bytes@
    }

    #[verifier::type_invariant]
    spec fn within_limit(&self) -> bool {
        self.bytes@.len() <= V
    }

    /// Wraps the encoded bytes of a value.
    pub fn new(bytes: &[u8]) -> (value: Self)
        requires
            bytes@.len() <= V,
        ensures
            value@ == bytes@,
    {
        Value { bytes: slice_to_vec(bytes) }
    }

    /// Takes a buffer as a value, if it is not too long for one.
    pub fn from_bytes(bytes: Vec<u8>) -> (value: Option<Self>)
        ensures
            value is Some <==> bytes@.len() <= V,
            value matches Some(v) ==> v@ == bytes@,
    {
        if bytes.len() > V as usize {
            None
        } else {
            Some(Value { bytes })
        }
    }

    /// The bytes.
    pub fn to_bytes(&self) -> (bytes: &Vec<u8>)
        ensures
            bytes@ == self@,
            bytes@.len() <= V,
    {
        proof {
            use_type_invariant(self);
        }
        &self.bytes
    }

    /// Gives up the wrapper for the bytes.
    pub fn into_inner(self) -> (bytes: Vec<u8>)
        ensures
            bytes@ == self@,
            bytes@.len() <= V,
    {
        proof {
            use_type_invariant(&self);
        }
        self.bytes
    }
}

} // verus!
