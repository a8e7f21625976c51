//! The single-value cell of the underlying crate, holding bytes: what it holds,
//! and one wrapper for each of its operations. Verus takes the wrappers'
//! contracts on trust.

use ic_stable_structures::cell::{Cell, InitError, ValueError};
use ic_stable_structures::memory_manager::VirtualMemory;
use ic_stable_structures::DefaultMemoryImpl;
use vstd::prelude::*;
use crate::memory::RegionMemory;

verus! {

/// The underlying crate's reasons why `Cell::init` fails, with their fields.
#[verifier::external_type_specification]
pub struct ExInitError(InitError);

/// The underlying crate's reason why `Cell::set` fails, with its field.
#[verifier::external_type_specification]
pub struct ExValueError(ValueError);

/// The underlying crate's cell, in one region. Verus does not look inside:
/// [`cell_value`] names what it holds.
#[verifier::external_body]
pub struct ByteCell {
    inner: Cell<Vec<u8>, VirtualMemory<DefaultMemoryImpl>>,
}

/// The bytes that the cell holds.
pub uninterp spec fn cell_value(cell: ByteCell) -> Seq<u8>;

/// `Cell::init`: the cell that the region holds, or a new one that holds
/// `value` if the region holds none. Which of the two depends on the region;
/// a new one cannot be written if the region cannot grow as far, or if the
/// value is longer than `u32::MAX`, and the failure then names the length of
/// `value`.
#[verifier::external_body]
pub(crate) fn cell_init(memory: RegionMemory, value: Vec<u8>) -> (made: Result<ByteCell, InitError>)
    ensures
        made matches Err(InitError::ValueTooLarge { value_size }) ==> value_size == value@.len(),
{
    Cell::init(memory.inner, value).map(|inner| ByteCell { inner })
}

/// `Cell::get`: the bytes that the cell holds.
#[verifier::external_body]
pub(crate) fn cell_get(cell: &ByteCell) -> (value: &Vec<u8>)
    ensures
        value@ == cell_value(*cell),
{
    cell.inner.get()
}

/// `Cell::set`: on success the cell holds `value` and the result is what it
/// held before; on failure it holds what it held, and the failure names the
/// length of `value`. It fails if `value` is longer than `u32::MAX`, and
/// if the region cannot grow as far as `value` needs.
#[verifier::external_body]
pub(crate) fn cell_set(cell: &mut ByteCell, value: Vec<u8>) -> (replaced: Result<
    Vec<u8>,
    ValueError,
>)
    ensures
        replaced matches Ok(previous) ==> {
            &&& previous@ == cell_value(*old(cell))
            &&& cell_value(*final(cell)) == value@
            &&& value@.len() <= u32::MAX
        },
        replaced matches Err(ValueError::ValueTooLarge { value_size }) ==> {
            &&& cell_value(*final(cell)) == cell_value(*old(cell))
            &&& value_size == value@.len()
        },
{
    cell.inner.set(value)
}

} // verus!
