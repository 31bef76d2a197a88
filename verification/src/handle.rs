//! Handles to allocated blocks, and the errors the allocator reports.

use vstd::prelude::*;

verus! {

/// A token for one allocation.
///
/// The allocator hands one out for every block it allocates. The token names
/// the allocation, not the memory: once the block is released or evicted the
/// token no longer resolves.
#[derive(Clone, Copy, Debug, PartialEq, Eq, Structural)]
pub struct BlockHandle {
    pub(crate) slot: usize,
    pub(crate) generation: u64,
    pub(crate) offset: usize,
}

impl BlockHandle {
    /// Offset in the arena of the first byte of the allocation.
    pub open(crate) spec fn spec_offset(self) -> usize {
        self.offset
    }

    /// Offset in the arena of the first byte of the allocation.
    #[verifier::when_used_as_spec(spec_offset)]
    pub fn offset(self) -> (r: usize)
        ensures
            r == self.spec_offset(),
    {
        self.offset
    }
}

/// Why an operation of the allocator failed.
#[derive(Clone, Copy, Debug, PartialEq, Eq, Structural)]
pub enum AllocError {
    /// The arena cannot provide the requested bytes, even after evicting
    /// every purgeable block.
    OutOfMemory,
    /// The handle does not name a live allocation.
    InvalidHandle,
    /// The memory that the handle named is already free.
    DoubleFree,
}

} // verus!
