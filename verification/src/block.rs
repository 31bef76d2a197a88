//! The nodes of the block list.

use vstd::prelude::*;
use crate::tag::PurgeTag;

verus! {

/// What the allocator records about a block: its tag and its size.
#[derive(Clone, Copy, Debug, PartialEq, Eq)]
pub struct BlockMetaData {
    /// `None` while the block is free.
    pub tag: Option<PurgeTag>,
    /// Length of the block in bytes.
    pub size: usize,
}

impl BlockMetaData {
    pub fn new(tag: Option<PurgeTag>, size: usize) -> (metadata: BlockMetaData)
        ensures
            metadata.tag == tag,
            metadata.size == size,
    {
        BlockMetaData { tag, size }
    }
}

/// A node of the block list. It stands for the bytes
/// `offset .. offset + size` of the arena and is linked to the blocks before
/// and after it by their places in the allocator's table.
#[derive(Clone, Copy, Debug)]
pub struct Block {
    pub(crate) metadata: BlockMetaData,
    pub(crate) offset: usize,
    pub(crate) prev: Option<usize>,
    pub(crate) next: Option<usize>,
    pub(crate) generation: u64,
}

impl Block {
    pub open(crate) spec fn spec_size(self) -> usize {
        self.metadata.size
    }

    pub open(crate) spec fn spec_offset(self) -> usize {
        self.offset
    }

    pub open(crate) spec fn spec_tag(self) -> Option<PurgeTag> {
        self.metadata.tag
    }

    pub open(crate) spec fn spec_is_free(self) -> bool {
        self.metadata.tag is None
    }

    /// The block is linked to no other and has never been in use.
    pub open(crate) spec fn detached(self) -> bool {
        self.prev is None && self.next is None && self.generation == 0
    }

    /// A free block over `size` bytes from `offset`, linked to nothing.
    pub fn new(offset: usize, size: usize) -> (block: Block)
        ensures
            block.size() == size,
            block.offset() == offset,
            block.tag() is None,
            block.is_free(),
            block.detached(),
    {
        Block {
            metadata: BlockMetaData::new(None, size),
            offset,
            prev: None,
            next: None,
            generation: 0,
        }
    }

    /// Length of the block in bytes.
    #[verifier::when_used_as_spec(spec_size)]
    pub fn size(self) -> (size: usize)
        ensures
            size == self.spec_size(),
    {
        self.metadata.size
    }

    /// Offset in the arena of the first byte of the block.
    #[verifier::when_used_as_spec(spec_offset)]
    pub fn offset(self) -> (offset: usize)
        ensures
            offset == self.spec_offset(),
    {
        self.offset
    }

    /// The tag of the block; `None` while it is free.
    #[verifier::when_used_as_spec(spec_tag)]
    pub fn tag(self) -> (tag: Option<PurgeTag>)
        ensures
            tag == self.spec_tag(),
    {
        self.metadata.tag
    }

    #[verifier::when_used_as_spec(spec_is_free)]
    pub fn is_free(self) -> (free: bool)
        ensures
            free == self.spec_is_free(),
            free == (self.tag() is None),
    {
        self.metadata.tag.is_none()
    }
}

} // verus!
