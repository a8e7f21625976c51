//! The memory regions that the structures live in, and the registry that
//! hands each of them out once.

use ic_stable_structures::memory_manager::{MemoryId, MemoryManager, VirtualMemory};
use ic_stable_structures::DefaultMemoryImpl;
use vstd::prelude::*;
use crate::error::Error;

verus! {

/// The number of regions: their identifiers are `0 ..= 254`.
pub const REGION_COUNT: u8 = 255;

/// The underlying crate's manager, which divides the memory of the process into
/// regions. Verus does not look inside.
#[verifier::external_body]
pub struct Manager {
    inner: MemoryManager<DefaultMemoryImpl>,
}

/// The underlying crate's memory of one region. Verus does not look inside.
#[verifier::external_body]
pub struct RegionMemory {
    pub(crate) inner: VirtualMemory<DefaultMemoryImpl>,
}

/// `MemoryManager::init` on a default memory: the manager of the memory of
/// the process. Nothing is claimed of the result. The underlying crate aborts
/// here if the memory holds a manager of a layout that it does not know.
#[verifier::external_body]
fn open_manager() -> Manager {
    Manager { inner: MemoryManager::init(DefaultMemoryImpl::default()) }
}

/// `MemoryManager::get` with `MemoryId::new(id)`: the memory of region `id`.
/// Nothing is claimed of the result. `MemoryId::new` aborts on 255, which
/// the precondition leaves out.
#[verifier::external_body]
fn memory_of_region(manager: &Manager, id: u8) -> RegionMemory
    requires
        id < REGION_COUNT,
{
    RegionMemory { inner: manager.inner.get(MemoryId::new(id)) }
}

/// One memory region, to be bound to one structure. It cannot be copied, and
/// only a [`MemoryRegistry`] makes one.
pub struct Region {
    id: u8,
    memory: RegionMemory,
}

impl Region {
    /// The identifier of the region.
    pub closed spec fn id(&self) -> u8 {
        self.id
    }

    /// The identifier of the region.
    pub fn memory_id(&self) -> (id: u8)
        ensures
            id == self.id(),
    {
        self.id
    }

    /// The memory of the region.
    pub(crate) closed spec fn memory(&self) -> RegionMemory {
        self.memory
    }

    /// Gives up the region for its memory.
    pub(crate) fn into_memory(self) -> (memory: RegionMemory)
        ensures
            memory == self.memory(),
    {
        self.memory
    }
}

/// The regions of the process, and which of them are bound already. A
/// process makes one registry, at its start, and hands it to whatever
/// constructs a structure: two structures on one region would destroy each
/// other's data.
pub struct MemoryRegistry {
    manager: Manager,
    taken: Vec<bool>,
}

impl MemoryRegistry {
    /// The registry knows of every region whether it has been handed out.
    pub closed spec fn wf(&self) -> bool {
        self.taken@.len() == REGION_COUNT
    }

    /// Whether region `id` has been handed out.
    pub closed spec fn is_taken(&self, id: u8) -> bool {
        id < self.taken@.len() && self.taken@[id as int]
    }

    /// A registry that has handed out nothing yet.
    pub fn new() -> (registry: Self)
        ensures
            registry.wf(),
            forall|id: u8| !registry.is_taken(id),
    {
        let mut taken: Vec<bool> = Vec::new();
        let mut i: u8 = 0;
        while i < REGION_COUNT
            invariant
                i <= REGION_COUNT,
                taken@.len() == i,
                forall|j: int| 0 <= j < i ==> !taken@[j],
            decreases REGION_COUNT - i,
        {
            taken.push(false);
            i = i + 1;
        }
        MemoryRegistry { manager: open_manager(), taken }
    }

    /// Hands out region `id`, if there is such a region and it has not been
    /// handed out before.
    pub fn claim(&mut self, id: u8) -> (region: Result<Region, Error>)
        requires
            old(self).wf(),
        ensures
            final(self).wf(),
            region is Ok <==> id < REGION_COUNT && !old(self).is_taken(id),
            region matches Ok(r) ==> r.id() == id,
            region matches Err(error) ==> error == Error::RegionUnavailable(id),
            forall|other: u8|
                final(self).is_taken(other) == (old(self).is_taken(other) || (other == id && id
                    < REGION_COUNT)),
    {
        if id >= REGION_COUNT || self.taken[id as usize] {
            return Err(Error::RegionUnavailable(id));
        }
        self.taken.set(id as usize, true);
        Ok(Region { id, memory: memory_of_region(&self.manager, id) })
    }
}

} // verus!
