//! What can go wrong in a storage operation.

use vstd::prelude::*;

verus! {

/// The failures that the storage structures report. A lookup that finds
/// nothing is no failure.
#[derive(Debug, Clone, Copy, PartialEq, Eq, Structural)]
pub enum Error {
    /// The region cannot grow as far as the operation needs.
    OutOfStableMemory,
    /// An encoded key or value is longer than its type allows. The field is
    /// the length that was refused.
    ValueTooLarge(u64),
    /// The region holds data of a layout that this version cannot read.
    IncompatibleVersions,
    /// The region holds bytes that are not what the structure would have
    /// written.
    MalformedData,
    /// There is no such region, or it is bound to a structure already. The
    /// field is the identifier that was asked for.
    RegionUnavailable(u8),
}

impl Error {
    /// A sentence that says what went wrong.
    pub fn message(&self) -> (text: &'static str)
        ensures
            text@.len() > 0,
    {
        let text = match self {
            Error::OutOfStableMemory => "stable memory can't handle that much data",
            Error::ValueTooLarge(_) => "value bytes are too large for the stable structure",
            Error::IncompatibleVersions => "stored data has an incompatible layout version",
            Error::MalformedData => "stored bytes are not a valid encoding",
            Error::RegionUnavailable(_) => "memory region is missing or already in use",
        };
        proof {
            reveal_strlit("stable memory can't handle that much data");
            reveal_strlit("value bytes are too large for the stable structure");
            reveal_strlit("stored data has an incompatible layout version");
            reveal_strlit("stored bytes are not a valid encoding");
            reveal_strlit("memory region is missing or already in use");
        }
        text
    }
}

} // verus!
