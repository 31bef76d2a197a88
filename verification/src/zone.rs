//! The mathematical model of an arena: its bytes, the blocks that tile it in
//! address order, and the position of the rover.
//!
//! Every operation of the allocator is described here as a function from one
//! [`Zone`] to the next.

use vstd::prelude::*;
use crate::handle::BlockHandle;
use crate::span::{count, doomed_by, in_use, unit, lemma_count_remove, lemma_count_update, Claim, Span};
use crate::tag::PurgeTag;

verus! {

/// A free block is split only if more than this many bytes would be left
/// over; otherwise the whole block is handed out.
pub const MIN_REMAINDER: usize = 8;

/// The state of an arena.
pub struct Zone {
    /// The contents of the arena.
    pub bytes: Seq<u8>,
    /// The blocks, in address order.
    pub blocks: Seq<Span>,
    /// Index in `blocks` at which the next search starts.
    pub rover: int,
}

impl Zone {
    pub open spec fn capacity(self) -> nat {
        self.bytes.len()
    }

    // ----- validity ------------------------------------------------------

    /// The blocks lie end to end from offset 0 to the capacity.
    pub open spec fn tiled(self) -> bool {
        &&& self.blocks.len() > 0
        &&& self.blocks[0].offset == 0
        &&& forall|i: int| 0 < i < self.blocks.len() ==> #[trigger] self.adjoins(i)
        &&& self.blocks.last().end() == self.capacity()
    }

    /// Block `i` starts where its predecessor ends.
    pub open spec fn adjoins(self, i: int) -> bool {
        self.blocks[i].offset == self.blocks[i - 1].end()
    }

    /// Block `i` and its predecessor are both free.
    pub open spec fn both_free(self, i: int) -> bool {
        self.blocks[i].is_free() && self.blocks[i - 1].is_free()
    }

    /// No block is empty, unless it is free and the only one.
    pub open spec fn positive(self) -> bool {
        forall|i: int|
            0 <= i < self.blocks.len() ==> {
                ||| (#[trigger] self.blocks[i]).size > 0
                ||| self.blocks.len() == 1 && self.blocks[i].is_free()
            }
    }

    /// The handle on a block in use records where the block starts.
    pub open spec fn anchored(self) -> bool {
        forall|i: int|
            0 <= i < self.blocks.len() ==> match (#[trigger] self.blocks[i]).claim {
                Some(c) => c.handle.offset() == self.blocks[i].offset,
                None => true,
            }
    }

    /// No two neighbouring blocks are both free.
    pub open spec fn coalesced(self) -> bool {
        forall|i: int| 0 < i < self.blocks.len() ==> !#[trigger] self.both_free(i)
    }

    /// Everything that holds of an arena between the steps of an operation.
    pub open spec fn sound(self) -> bool {
        &&& self.tiled()
        &&& self.positive()
        &&& self.anchored()
        &&& 0 <= self.rover < self.blocks.len()
    }

    /// Everything that holds of an arena between operations.
    pub open spec fn wf(self) -> bool {
        &&& self.sound()
        &&& self.coalesced()
    }

    // ----- handles -------------------------------------------------------

    /// Block `k` is in use under `handle`.
    pub open spec fn held_at(self, k: int, handle: BlockHandle) -> bool {
        &&& 0 <= k < self.blocks.len()
        &&& self.blocks[k].claim matches Some(c)
        &&& c.handle == handle
    }

    /// Some block is in use under `handle`.
    pub open spec fn owns(self, handle: BlockHandle) -> bool {
        exists|k: int| self.held_at(k, handle)
    }

    /// Index of the block in use under `handle`.
    pub open spec fn index_of(self, handle: BlockHandle) -> int
        recommends
            self.owns(handle),
    {
        choose|k: int| self.held_at(k, handle)
    }

    /// The block in use under `handle`.
    pub open spec fn block_of(self, handle: BlockHandle) -> Span
        recommends
            self.owns(handle),
    {
        self.blocks[self.index_of(handle)]
    }

    /// The byte at `addr` lies in a free block.
    pub open spec fn free_at(self, addr: nat) -> bool {
        exists|k: int|
            0 <= k < self.blocks.len() && (#[trigger] self.blocks[k]).is_free()
                && self.blocks[k].covers(addr)
    }

    // ----- the arena as first reserved -----------------------------------

    /// One free block over all of `bytes`.
    pub open spec fn fresh(bytes: Seq<u8>) -> Zone {
        Zone { bytes, blocks: seq![Span { offset: 0, size: bytes.len(), claim: None }], rover: 0 }
    }

    // ----- releasing -----------------------------------------------------

    /// Block `i` absorbs its successor.
    pub open spec fn merge(self, i: int) -> Zone
        recommends
            0 <= i < self.blocks.len() - 1,
    {
        let a = self.blocks[i];
        let b = self.blocks[i + 1];
        Zone {
            blocks: self.blocks.remove(i + 1).update(i, Span { size: a.size + b.size, ..a }),
            rover: if self.rover > i {
                self.rover - 1
            } else {
                self.rover
            },
            ..self
        }
    }

    /// Block `k` becomes free, as it stands.
    pub open spec fn vacate(self, k: int) -> Zone
        recommends
            0 <= k < self.blocks.len(),
    {
        Zone { blocks: self.blocks.update(k, Span { claim: None, ..self.blocks[k] }), ..self }
    }

    /// Block `k` becomes free and is merged with each free neighbour. A rover
    /// on an absorbed block moves to the block that absorbed it.
    pub open spec fn release(self, k: int) -> Zone
        recommends
            0 <= k < self.blocks.len(),
    {
        let a = self.vacate(k);
        let b = if k + 1 < a.blocks.len() && a.blocks[k + 1].is_free() {
            a.merge(k)
        } else {
            a
        };
        if k > 0 && b.blocks[k - 1].is_free() {
            b.merge(k - 1)
        } else {
            b
        }
    }

    // ----- searching -----------------------------------------------------

    /// How many steps a search that starts at the rover and wraps round at
    /// the end of the arena takes to reach block `k`.
    pub open spec fn scan_rank(self, k: int) -> int {
        if k >= self.rover {
            k - self.rover
        } else {
            k - self.rover + self.blocks.len()
        }
    }

    /// Block `k` is free and holds at least `size` bytes.
    pub open spec fn fits_at(self, k: int, size: nat) -> bool {
        0 <= k < self.blocks.len() && self.blocks[k].fits(size)
    }

    pub open spec fn has_fit(self, size: nat) -> bool {
        exists|k: int| self.fits_at(k, size)
    }

    /// Block `k` is the first, in search order, that fits `size` bytes.
    pub open spec fn is_first_fit(self, size: nat, k: int) -> bool {
        &&& self.fits_at(k, size)
        &&& forall|j: int| #[trigger]
            self.fits_at(j, size) ==> self.scan_rank(k) <= self.scan_rank(j)
    }

    /// The first block, in search order, that fits `size` bytes.
    pub open spec fn first_fit(self, size: nat) -> int
        recommends
            self.has_fit(size),
    {
        choose|k: int| self.is_first_fit(size, k)
    }

    /// Where block `j` fits, some block is the first fit.
    pub proof fn lemma_earliest_fit(self, size: nat, j: int) -> (k: int)
        requires
            0 <= self.rover < self.blocks.len(),
            self.fits_at(j, size),
        ensures
            self.is_first_fit(size, k),
        decreases self.scan_rank(j),
    {
        if exists|i: int| self.fits_at(i, size) && self.scan_rank(i) < self.scan_rank(j) {
            let i = choose|i: int| self.fits_at(i, size) && self.scan_rank(i) < self.scan_rank(j);
            self.lemma_earliest_fit(size, i)
        } else {
            j
        }
    }

    /// Where a block fits, exactly one is the first fit.
    pub proof fn lemma_first_fit_exists(self, size: nat)
        requires
            0 <= self.rover < self.blocks.len(),
            self.has_fit(size),
        ensures
            self.is_first_fit(size, self.first_fit(size)),
            forall|k: int| self.is_first_fit(size, k) ==> k == self.first_fit(size),
    {
        let w = choose|k: int| self.fits_at(k, size);
        let k0 = self.lemma_earliest_fit(size, w);
    }

    // ----- placing -------------------------------------------------------

    /// Block `k` is cut down to `size` bytes; the rest becomes a free block
    /// of its own, right after it.
    pub open spec fn split(self, k: int, size: nat) -> Zone
        recommends
            0 <= k < self.blocks.len(),
            size < self.blocks[k].size,
    {
        let b = self.blocks[k];
        let rest = Span { offset: b.offset + size, size: (b.size - size) as nat, claim: None };
        Zone {
            blocks: self.blocks.update(k, Span { size, ..b }).insert(k + 1, rest),
            rover: if self.rover > k {
                self.rover + 1
            } else {
                self.rover
            },
            ..self
        }
    }

    /// A request of `size` bytes is placed in the free block `k`: the block
    /// is split if that leaves more than `MIN_REMAINDER` bytes, then put in
    /// use under `tag` and `handle`; the rover moves to the block after it.
    pub open spec fn place(self, k: int, size: nat, tag: PurgeTag, handle: BlockHandle) -> Zone
        recommends
            self.fits_at(k, size),
    {
        let z = if self.blocks[k].size > size + MIN_REMAINDER {
            self.split(k, size)
        } else {
            self
        };
        Zone {
            blocks: z.blocks.update(k, Span { claim: Some(Claim { tag, handle }), ..z.blocks[k] }),
            rover: if k + 1 < z.blocks.len() {
                k + 1
            } else {
                0
            },
            ..z
        }
    }

    // ----- evicting ------------------------------------------------------

    pub open spec fn evictable_at(self, k: int) -> bool {
        0 <= k < self.blocks.len() && self.blocks[k].evictable()
    }

    /// Block `k` is the next to evict: among the evictable blocks it has the
    /// greatest tag value (a cached block goes before one at the purge
    /// level), and among those of that value the lowest address.
    pub open spec fn is_victim(self, k: int) -> bool {
        self.leads(self.blocks.len() as int, k)
    }

    /// Among the first `n` blocks, block `k` is the one to evict first: of
    /// the evictable ones it has the greatest tag value, and of those with
    /// that value the lowest address.
    pub open spec fn leads(self, n: int, k: int) -> bool {
        &&& k < n
        &&& self.evictable_at(k)
        &&& forall|j: int|
            j < n && #[trigger] self.evictable_at(j) ==> {
                ||| self.blocks[j].tag_value() < self.blocks[k].tag_value()
                ||| self.blocks[j].tag_value() == self.blocks[k].tag_value() && k <= j
            }
    }

    pub open spec fn has_victim(self) -> bool {
        exists|k: int| self.evictable_at(k)
    }

    /// The next block to evict.
    pub open spec fn victim(self) -> int
        recommends
            self.has_victim(),
    {
        choose|k: int| self.is_victim(k)
    }

    /// Number of blocks in use.
    pub open spec fn used_count(self) -> nat {
        count(self.blocks, in_use())
    }

    /// The arena after the evictions that a request of `size` bytes causes:
    /// while no free block fits the request and a block is evictable, the
    /// next victim is released.
    pub open spec fn reclaim(self, size: nat) -> Zone
        decreases self.used_count(),
        via Self::reclaim_decreases
    {
        if self.has_fit(size) || !self.has_victim() {
            self
        } else {
            self.release(self.victim()).reclaim(size)
        }
    }

    #[via_fn]
    proof fn reclaim_decreases(self, size: nat) {
        if !(self.has_fit(size) || !self.has_victim()) {
            self.lemma_victim_exists();
            self.lemma_release_used_count(self.victim());
        }
    }

    /// Where one of the first `n` blocks is evictable, one of them leads.
    pub proof fn lemma_leader(self, n: int) -> (k: int)
        requires
            n <= self.blocks.len(),
            exists|j: int| j < n && self.evictable_at(j),
        ensures
            self.leads(n, k),
        decreases n,
    {
        let w = choose|j: int| j < n && self.evictable_at(j);
        if exists|j: int| j < n - 1 && self.evictable_at(j) {
            let k0 = self.lemma_leader(n - 1);
            if self.evictable_at(n - 1) && self.blocks[n - 1].tag_value()
                > self.blocks[k0].tag_value() {
                n - 1
            } else {
                k0
            }
        } else {
            assert(w == n - 1);
            n - 1
        }
    }

    /// Where a block is evictable, there is exactly one next victim.
    pub proof fn lemma_victim_exists(self)
        requires
            self.has_victim(),
        ensures
            self.is_victim(self.victim()),
            forall|k: int| self.is_victim(k) ==> k == self.victim(),
    {
        let w = choose|k: int| self.evictable_at(k);
        let k0 = self.lemma_leader(self.blocks.len() as int);
        assert(self.is_victim(k0));
    }

    /// Merging a free block into its predecessor leaves the number of blocks
    /// in use as it was.
    pub proof fn lemma_merge_used_count(self, i: int)
        requires
            0 <= i < self.blocks.len() - 1,
            self.blocks[i + 1].is_free(),
        ensures
            self.merge(i).used_count() == self.used_count(),
    {
        let a = self.blocks[i];
        let b = self.blocks[i + 1];
        lemma_count_remove(self.blocks, i + 1, in_use());
        lemma_count_update(
            self.blocks.remove(i + 1),
            i,
            Span { size: a.size + b.size, ..a },
            in_use(),
        );
    }

    /// Releasing a block in use leaves one block fewer in use.
    pub proof fn lemma_release_used_count(self, k: int)
        requires
            0 <= k < self.blocks.len(),
            !self.blocks[k].is_free(),
        ensures
            self.release(k).used_count() == self.used_count() - 1,
    {
        let a = self.vacate(k);
        lemma_count_update(self.blocks, k, Span { claim: None, ..self.blocks[k] }, in_use());
        let b = if k + 1 < a.blocks.len() && a.blocks[k + 1].is_free() {
            a.lemma_merge_used_count(k);
            a.merge(k)
        } else {
            a
        };
        if k > 0 && b.blocks[k - 1].is_free() {
            b.lemma_merge_used_count(k - 1);
        }
    }

    /// The arena after a request of `size` bytes under `tag` has been
    /// served with `handle`.
    pub open spec fn allocate(self, size: nat, tag: PurgeTag, handle: BlockHandle) -> Zone {
        let settled = self.reclaim(size);
        settled.place(settled.first_fit(size), size, tag, handle)
    }

    /// Some run of neighbouring blocks, each free or evictable, holds at
    /// least `size` bytes.
    pub open spec fn can_fit(self, size: nat) -> bool {
        exists|i: int, j: int| self.is_room(i, j, size)
    }

    /// Blocks `i ..= j` are each free or evictable and together hold at
    /// least `size` bytes.
    pub open spec fn is_room(self, i: int, j: int, size: nat) -> bool {
        &&& 0 <= i <= j < self.blocks.len()
        &&& forall|k: int| i <= k <= j ==> (#[trigger] self.blocks[k]).reclaimable()
        &&& self.blocks[j].end() - self.blocks[i].offset >= size
    }

    // ----- retagging and purging -----------------------------------------

    /// Block `k`, in use, is put under `tag`.
    pub open spec fn retag(self, k: int, tag: PurgeTag) -> Zone
        recommends
            0 <= k < self.blocks.len(),
            !self.blocks[k].is_free(),
    {
        let b = self.blocks[k];
        Zone {
            blocks: self.blocks.update(
                k,
                Span { claim: Some(Claim { tag, handle: b.claim.unwrap().handle }), ..b },
            ),
            ..self
        }
    }

    pub open spec fn doomed_at(self, k: int, threshold: u8) -> bool {
        0 <= k < self.blocks.len() && self.blocks[k].doomed(threshold)
    }

    /// Block `k` is the first in use under a tag of at least `threshold`.
    pub open spec fn is_first_doomed(self, k: int, threshold: u8) -> bool {
        &&& self.doomed_at(k, threshold)
        &&& forall|j: int| #[trigger] self.doomed_at(j, threshold) ==> k <= j
    }

    pub open spec fn has_doomed(self, threshold: u8) -> bool {
        exists|k: int| self.doomed_at(k, threshold)
    }

    pub open spec fn first_doomed(self, threshold: u8) -> int
        recommends
            self.has_doomed(threshold),
    {
        choose|k: int| self.is_first_doomed(k, threshold)
    }

    /// Number of blocks in use under a tag of at least `threshold`.
    pub open spec fn doomed_count(self, threshold: u8) -> nat {
        count(self.blocks, doomed_by(threshold))
    }

    /// The arena after every block in use under a tag of at least
    /// `threshold` has been released, in address order.
    pub open spec fn purge(self, threshold: u8) -> Zone
        decreases self.used_count(),
        via Self::purge_decreases
    {
        if !self.has_doomed(threshold) {
            self
        } else {
            self.release(self.first_doomed(threshold)).purge(threshold)
        }
    }

    #[via_fn]
    proof fn purge_decreases(self, threshold: u8) {
        if self.has_doomed(threshold) {
            self.lemma_first_doomed_exists(threshold);
            self.lemma_release_used_count(self.first_doomed(threshold));
        }
    }

    /// Merging a free block into its predecessor leaves the number of
    /// doomed blocks as it was.
    pub proof fn lemma_merge_doomed_count(self, i: int, threshold: u8)
        requires
            0 <= i < self.blocks.len() - 1,
            self.blocks[i + 1].is_free(),
        ensures
            self.merge(i).doomed_count(threshold) == self.doomed_count(threshold),
    {
        let a = self.blocks[i];
        let b = self.blocks[i + 1];
        lemma_count_remove(self.blocks, i + 1, doomed_by(threshold));
        lemma_count_update(
            self.blocks.remove(i + 1),
            i,
            Span { size: a.size + b.size, ..a },
            doomed_by(threshold),
        );
    }

    /// Releasing a doomed block leaves one doomed block fewer; releasing
    /// another block leaves as many.
    pub proof fn lemma_release_doomed_count(self, k: int, threshold: u8)
        requires
            0 <= k < self.blocks.len(),
        ensures
            self.release(k).doomed_count(threshold) + unit(self.blocks[k].doomed(threshold))
                == self.doomed_count(threshold),
    {
        let a = self.vacate(k);
        lemma_count_update(
            self.blocks,
            k,
            Span { claim: None, ..self.blocks[k] },
            doomed_by(threshold),
        );
        let b = if k + 1 < a.blocks.len() && a.blocks[k + 1].is_free() {
            a.lemma_merge_doomed_count(k, threshold);
            a.merge(k)
        } else {
            a
        };
        if k > 0 && b.blocks[k - 1].is_free() {
            b.lemma_merge_doomed_count(k - 1, threshold);
        }
    }

    /// Where a block at or before `j` is doomed, one of them is the first.
    pub proof fn lemma_earliest_doomed(self, j: int, threshold: u8) -> (k: int)
        requires
            self.doomed_at(j, threshold),
        ensures
            self.is_first_doomed(k, threshold),
        decreases j,
    {
        if exists|i: int| i < j && self.doomed_at(i, threshold) {
            let i = choose|i: int| i < j && self.doomed_at(i, threshold);
            self.lemma_earliest_doomed(i, threshold)
        } else {
            j
        }
    }

    /// Where a block is doomed, exactly one is the first.
    pub proof fn lemma_first_doomed_exists(self, threshold: u8)
        requires
            self.has_doomed(threshold),
        ensures
            self.is_first_doomed(self.first_doomed(threshold), threshold),
            forall|k: int| self.is_first_doomed(k, threshold) ==> k == self.first_doomed(threshold),
    {
        let w = choose|k: int| self.doomed_at(k, threshold);
        let k0 = self.lemma_earliest_doomed(w, threshold);
    }

    // ----- the bytes -----------------------------------------------------

    /// Byte `index` of block `k` is set to `value`.
    pub open spec fn store(self, k: int, index: nat, value: u8) -> Zone
        recommends
            0 <= k < self.blocks.len(),
            index < self.blocks[k].size,
    {
        Zone { bytes: self.bytes.update(self.blocks[k].offset + index as int, value), ..self }
    }
}

} // verus!
