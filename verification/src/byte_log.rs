//! The append-only log of the underlying crate, holding byte strings: what it
//! holds, and one wrapper for each of its operations. Verus takes the
//! wrappers' contracts on trust.

use ic_stable_structures::log::{Log, WriteError};
use ic_stable_structures::memory_manager::VirtualMemory;
use ic_stable_structures::DefaultMemoryImpl;
use vstd::prelude::*;
use crate::memory::RegionMemory;

verus! {

/// The underlying crate's reason why `Log::append` fails, with its fields.
#[verifier::external_type_specification]
pub struct ExWriteError(WriteError);

/// The underlying crate's log, in two regions: one for the index, one for the
/// entries. Verus does not look inside: [`log_entries`] names what it holds.
#[verifier::external_body]
pub struct ByteLog {
    inner: Log<Vec<u8>, VirtualMemory<DefaultMemoryImpl>, VirtualMemory<DefaultMemoryImpl>>,
}

/// The entries of the log, in the order in which they were appended.
pub uninterp spec fn log_entries(log: ByteLog) -> Seq<Seq<u8>>;

/// `Log::new`: an empty log in the two regions, whatever they held. The
/// underlying crate aborts here if a region cannot take its first page.
#[verifier::external_body]
pub(crate) fn log_new(index_memory: RegionMemory, data_memory: RegionMemory) -> (log: ByteLog)
    ensures
        log_entries(log) == Seq::<Seq<u8>>::empty(),
{
    ByteLog { inner: Log::new(index_memory.inner, data_memory.inner) }
}

/// `Log::append`: on success the log holds `entry` behind what it held, and
/// the result is the position of `entry`; on failure, which comes when a
/// region cannot grow as far as the entry needs, the log holds what it held.
#[verifier::external_body]
pub(crate) fn log_append(log: &mut ByteLog, entry: &Vec<u8>) -> (appended: Result<u64, WriteError>)
    ensures
        appended matches Ok(index) ==> {
            &&& index == log_entries(*old(log)).len()
            &&& log_entries(*final(log)) == log_entries(*old(log)).push(entry@)
        },
        appended is Err ==> log_entries(*final(log)) == log_entries(*old(log)),
{
    log.inner.append(entry)
}

/// `Log::get`: the entry at `index`, if the log has that many.
#[verifier::external_body]
pub(crate) fn log_get(log: &ByteLog, index: u64) -> (entry: Option<Vec<u8>>)
    ensures
        entry is Some <==> index < log_entries(*log).len(),
        entry matches Some(bytes) ==> bytes@ == log_entries(*log)[index as int],
{
    log.inner.get(index)
}

/// `Log::len`: the number of entries.
#[verifier::external_body]
pub(crate) fn log_len(log: &ByteLog) -> (length: u64)
    ensures
        length == log_entries(*log).len(),
{
    log.inner.len()
}

} // verus!
