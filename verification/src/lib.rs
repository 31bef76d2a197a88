//! A fixed-arena, tag-based zone allocator.
//!
//! One pre-reserved region of bytes is managed as a list of contiguous
//! blocks. Every block is either free or in use under a [`tag::PurgeTag`];
//! blocks whose tag is purgeable may be evicted by the allocator to make
//! room.
//!
//! - [`tag`]: the purge tags.
//! - [`handle`]: handles to allocations, and the errors reported.
//! - [`span`], [`zone`]: the mathematical model of an arena and of every
//!   operation on it.
//! - [`invariants`], [`laws`]: proofs about the model.
//! - [`block`], [`allocator`]: the block list and the allocator itself,
//!   whose contracts are stated over the model.

pub mod allocator;
pub mod block;
pub mod handle;
pub mod invariants;
pub mod laws;
pub mod span;
pub mod tag;
pub mod zone;
