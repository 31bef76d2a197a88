//! What holds of every valid arena and of every operation on one.

use vstd::prelude::*;
use crate::handle::BlockHandle;
use crate::span::Span;
use crate::tag::PurgeTag;
use crate::zone::{Zone, MIN_REMAINDER};

verus! {

impl Zone {
    // ----- coverage ------------------------------------------------------

    /// Sum of the sizes of the first `m` blocks.
    pub open spec fn size_upto(self, m: int) -> nat
        decreases m,
    {
        if m <= 0 {
            0
        } else {
            self.size_upto(m - 1) + self.blocks[m - 1].size
        }
    }

    /// Sum of the sizes of all blocks.
    pub open spec fn total_size(self) -> nat {
        self.size_upto(self.blocks.len() as int)
    }

    /// In a tiled arena the first `m` blocks hold as many bytes as lie
    /// before the end of the last of them.
    pub proof fn lemma_size_upto(self, m: int)
        requires
            self.tiled(),
            0 < m <= self.blocks.len(),
        ensures
            self.size_upto(m) == self.blocks[m - 1].end(),
        decreases m,
    {
        if m > 1 {
            self.lemma_size_upto(m - 1);
            assert(self.adjoins(m - 1));
        } else {
            assert(self.size_upto(0) == 0);
        }
    }

    /// In a valid arena the sizes of the blocks add up to the capacity.
    pub proof fn lemma_sizes_cover(self)
        requires
            self.wf(),
        ensures
            self.total_size() == self.capacity(),
    {
        self.lemma_size_upto(self.blocks.len() as int);
    }

    /// Some block at or after `m` covers `addr`.
    proof fn lemma_cover_from(self, addr: nat, m: int) -> (k: int)
        requires
            self.tiled(),
            0 <= m < self.blocks.len(),
            self.blocks[m].offset <= addr < self.capacity(),
        ensures
            0 <= k < self.blocks.len(),
            self.blocks[k].covers(addr),
        decreases self.blocks.len() - m,
    {
        if addr < self.blocks[m].end() {
            m
        } else {
            assert(self.adjoins(m + 1));
            self.lemma_cover_from(addr, m + 1)
        }
    }

    /// In a valid arena every byte below the capacity lies in exactly one
    /// block: the blocks leave no gap and do not overlap.
    pub proof fn lemma_partition(self, addr: nat)
        requires
            self.wf(),
            addr < self.capacity(),
        ensures
            exists|k: int| 0 <= k < self.blocks.len() && (#[trigger] self.blocks[k]).covers(addr),
            forall|i: int, j: int|
                0 <= i < self.blocks.len() && 0 <= j < self.blocks.len() && (
                #[trigger] self.blocks[i]).covers(addr) && (#[trigger] self.blocks[j]).covers(addr)
                    ==> i == j,
    {
        let k = self.lemma_cover_from(addr, 0);
        assert forall|i: int, j: int|
            0 <= i < self.blocks.len() && 0 <= j < self.blocks.len() && (
            #[trigger] self.blocks[i]).covers(addr) && (#[trigger] self.blocks[j]).covers(
                addr,
            ) implies i == j by {
            if i < j {
                self.lemma_tiled_order(i, j);
            }
            if j < i {
                self.lemma_tiled_order(j, i);
            }
        }
    }

    // ----- merge closure -------------------------------------------------

    /// After a release no two neighbouring blocks are both free, and the
    /// released handle names nothing: the byte it points at is free.
    pub proof fn lemma_release_closed(self, k: int, handle: BlockHandle)
        requires
            self.wf(),
            self.held_at(k, handle),
        ensures
            self.release(k).coalesced(),
            !self.release(k).owns(handle),
            self.release(k).free_at(handle.offset() as nat),
    {
        self.lemma_release_wf(k);
        self.lemma_release_form(k);
        let r = self.release(k);
        let lo = self.merge_lo(k);
        let hi = self.merge_hi(k);
        assert(self.blocks[k].size > 0);
        if lo < k {
            assert(self.adjoins(k));
        }
        assert(r.blocks[lo].is_free() && r.blocks[lo].covers(handle.offset() as nat));
        assert forall|x: int| !r.held_at(x, handle) by {
            if r.held_at(x, handle) {
                if x < lo {
                    self.lemma_held_once(x, k, handle);
                } else {
                    self.lemma_held_once(x + (hi - lo), k, handle);
                }
            }
        }
    }

    // ----- split minimality ----------------------------------------------

    /// A request placed in a block that fits it gets a block of at least
    /// the size asked for and of at most `MIN_REMAINDER` bytes more, under
    /// the tag and the handle given.
    pub proof fn lemma_place_tight(self, k: int, size: nat, tag: PurgeTag, handle: BlockHandle)
        requires
            self.wf(),
            self.fits_at(k, size),
            size > 0,
            handle.offset() == self.blocks[k].offset,
        ensures
            self.place(k, size, tag, handle).held_at(k, handle),
            self.place(k, size, tag, handle).owns(handle),
            self.place(k, size, tag, handle).block_of(handle) == self.place(
                k,
                size,
                tag,
                handle,
            ).blocks[k],
            size <= self.place(k, size, tag, handle).blocks[k].size <= size + MIN_REMAINDER,
            self.place(k, size, tag, handle).blocks[k].offset == self.blocks[k].offset,
            self.place(k, size, tag, handle).blocks[k].tag() == Some(tag),
    {
        let p = self.place(k, size, tag, handle);
        if self.blocks[k].size > size + MIN_REMAINDER {
            self.lemma_split_form(k, size);
        }
        self.lemma_place_wf(k, size, tag, handle);
        assert(p.held_at(k, handle));
        p.lemma_index_of(k, handle);
    }

    // ----- what survives -------------------------------------------------

    /// A release leaves every other block in use as it is.
    pub proof fn lemma_release_keeps(self, k: int, b: Span)
        requires
            0 <= k < self.blocks.len(),
            self.blocks.contains(b),
            !b.is_free(),
            b != self.blocks[k],
        ensures
            self.release(k).blocks.contains(b),
    {
        self.lemma_release_form(k);
        let r = self.release(k);
        let lo = self.merge_lo(k);
        let hi = self.merge_hi(k);
        let p = choose|p: int| 0 <= p < self.blocks.len() && self.blocks[p] == b;
        if p < lo {
            assert(r.blocks[p] == b);
        } else {
            assert(p > hi);
            assert(r.blocks[p - (hi - lo)] == b);
        }
    }

    /// Placing a request leaves every block in use as it is.
    pub proof fn lemma_place_keeps(
        self,
        k: int,
        size: nat,
        tag: PurgeTag,
        handle: BlockHandle,
        b: Span,
    )
        requires
            self.fits_at(k, size),
            self.blocks.contains(b),
            !b.is_free(),
        ensures
            self.place(k, size, tag, handle).blocks.contains(b),
    {
        let r = self.place(k, size, tag, handle);
        let p = choose|p: int| 0 <= p < self.blocks.len() && self.blocks[p] == b;
        if self.blocks[k].size > size + MIN_REMAINDER {
            self.lemma_split_form(k, size);
            if p < k {
                assert(r.blocks[p] == b);
            } else {
                assert(r.blocks[p + 1] == b);
            }
        } else {
            assert(r.blocks[p] == b);
        }
    }

    /// The evictions that a request causes leave every block under a
    /// protected tag as it is.
    pub proof fn lemma_reclaim_keeps(self, size: nat, b: Span)
        requires
            self.blocks.contains(b),
            b.protected(),
        ensures
            self.reclaim(size).blocks.contains(b),
        decreases self.used_count(),
    {
        if !(self.has_fit(size) || !self.has_victim()) {
            self.lemma_victim_exists();
            let k = self.victim();
            self.lemma_release_used_count(k);
            self.lemma_release_keeps(k, b);
            self.release(k).lemma_reclaim_keeps(size, b);
        }
    }

    /// An allocation never reclaims a block under a protected tag: such a
    /// block is in the arena afterwards as it was before, whether the
    /// request was served or not.
    pub proof fn lemma_allocate_keeps(self, size: nat, tag: PurgeTag, handle: BlockHandle, b: Span)
        requires
            self.wf(),
            self.blocks.contains(b),
            b.protected(),
        ensures
            self.reclaim(size).blocks.contains(b),
            self.reclaim(size).has_fit(size) ==> self.allocate(size, tag, handle).blocks.contains(
                b,
            ),
    {
        self.lemma_reclaim_keeps(size, b);
        let settled = self.reclaim(size);
        if settled.has_fit(size) {
            self.lemma_reclaim_wf(size);
            settled.lemma_first_fit_exists(size);
            settled.lemma_place_keeps(settled.first_fit(size), size, tag, handle, b);
        }
    }

    /// A purge leaves every block in use under a tag below the threshold as
    /// it is. With a threshold of at least `PURGE_THRESHOLD` these are all
    /// the blocks under a protected tag.
    pub proof fn lemma_purge_keeps(self, threshold: u8, b: Span)
        requires
            self.blocks.contains(b),
            !b.is_free(),
            !b.doomed(threshold),
        ensures
            self.purge(threshold).blocks.contains(b),
        decreases self.used_count(),
    {
        if self.has_doomed(threshold) {
            self.lemma_first_doomed_exists(threshold);
            let k = self.first_doomed(threshold);
            self.lemma_release_used_count(k);
            self.lemma_release_keeps(k, b);
            self.release(k).lemma_purge_keeps(threshold, b);
        }
    }

    /// After a purge no block is in use under a tag at or above the
    /// threshold.
    pub proof fn lemma_purge_clean(self, threshold: u8)
        ensures
            !self.purge(threshold).has_doomed(threshold),
        decreases self.used_count(),
    {
        if self.has_doomed(threshold) {
            self.lemma_first_doomed_exists(threshold);
            let k = self.first_doomed(threshold);
            self.lemma_release_used_count(k);
            self.release(k).lemma_purge_clean(threshold);
        }
    }

    // ----- eviction, then fit --------------------------------------------

    /// In a sound arena the block that a release leaves spans the blocks it
    /// merged.
    pub proof fn lemma_merged_extent(self, k: int)
        requires
            self.sound(),
            0 <= k < self.blocks.len(),
        ensures
            self.merged(k).offset == self.blocks[self.merge_lo(k)].offset,
            self.merged(k).end() == self.blocks[self.merge_hi(k)].end(),
    {
        if self.merge_lo(k) < k {
            assert(self.adjoins(k));
        }
        if k < self.merge_hi(k) {
            assert(self.adjoins(k + 1));
        }
    }

    /// Room before the release of a reclaimable block is room after it.
    proof fn lemma_room_after_release(self, k: int, size: nat, i: int, j: int)
        requires
            self.sound(),
            0 <= k < self.blocks.len(),
            self.is_room(i, j, size),
        ensures
            self.release(k).can_fit(size),
    {
        self.lemma_release_form(k);
        self.lemma_merged_extent(k);
        let r = self.release(k);
        let lo = self.merge_lo(k);
        let hi = self.merge_hi(k);
        let d = hi - lo;
        let i2 = if i < lo {
            i
        } else if i <= hi {
            lo
        } else {
            i - d
        };
        let j2 = if j < lo {
            j
        } else if j <= hi {
            lo
        } else {
            j - d
        };
        assert forall|x: int| i2 <= x <= j2 implies (#[trigger] r.blocks[x]).reclaimable() by {
            if x < lo {
                assert(self.blocks[x].reclaimable());
            } else if x > lo {
                assert(self.blocks[x + d].reclaimable());
            }
        }
        if lo <= i <= hi && lo < i {
            self.lemma_tiled_order(lo, i);
            assert(self.blocks[lo].size >= 0);
        }
        if lo <= j <= hi && j < hi {
            self.lemma_tiled_order(j, hi);
            assert(self.blocks[hi].size >= 0);
        }
        assert(r.is_room(i2, j2, size));
    }

    /// Room after the release of a reclaimable block was room before it.
    proof fn lemma_room_before_release(self, k: int, size: nat, i: int, j: int)
        requires
            self.sound(),
            0 <= k < self.blocks.len(),
            self.blocks[k].reclaimable(),
            self.release(k).is_room(i, j, size),
        ensures
            self.can_fit(size),
    {
        self.lemma_release_form(k);
        self.lemma_merged_extent(k);
        let r = self.release(k);
        let lo = self.merge_lo(k);
        let hi = self.merge_hi(k);
        let d = hi - lo;
        let i2 = if i <= lo {
            i
        } else {
            i + d
        };
        let j2 = if j < lo {
            j
        } else if j == lo {
            hi
        } else {
            j + d
        };
        assert forall|x: int| i2 <= x <= j2 implies (#[trigger] self.blocks[x]).reclaimable() by {
            if x < lo {
                assert(r.blocks[x].reclaimable());
            } else if x > hi {
                assert(r.blocks[x - d].reclaimable());
            }
        }
        assert(self.is_room(i2, j2, size));
    }

    /// Releasing a reclaimable block neither makes nor takes room.
    pub proof fn lemma_release_room(self, k: int, size: nat)
        requires
            self.sound(),
            0 <= k < self.blocks.len(),
            self.blocks[k].reclaimable(),
        ensures
            self.release(k).can_fit(size) <==> self.can_fit(size),
    {
        if self.can_fit(size) {
            let (i, j) = choose|i: int, j: int| self.is_room(i, j, size);
            self.lemma_room_after_release(k, size, i, j);
        }
        if self.release(k).can_fit(size) {
            let (i, j) = choose|i: int, j: int| self.release(k).is_room(i, j, size);
            self.lemma_room_before_release(k, size, i, j);
        }
    }

    /// Eviction, then fit: a request is served exactly when some run of
    /// neighbouring blocks, each free or evictable, holds the bytes asked
    /// for. The evictions merge such a run into one free block that fits.
    pub proof fn lemma_reclaim_fits(self, size: nat)
        requires
            self.wf(),
        ensures
            self.reclaim(size).has_fit(size) <==> self.can_fit(size),
        decreases self.used_count(),
    {
        if self.has_fit(size) {
            let k = choose|k: int| self.fits_at(k, size);
            assert(self.is_room(k, k, size));
        } else if !self.has_victim() {
            if self.can_fit(size) {
                let (i, j) = choose|i: int, j: int| self.is_room(i, j, size);
                assert forall|x: int| i <= x <= j implies (#[trigger] self.blocks[x]).is_free() by {
                    assert(self.blocks[x].reclaimable());
                    assert(!self.evictable_at(x));
                }
                if i < j {
                    assert(self.both_free(i + 1));
                }
                assert(self.fits_at(i, size));
            }
        } else {
            self.lemma_victim_exists();
            let k = self.victim();
            self.lemma_release_used_count(k);
            self.lemma_release_wf(k);
            self.lemma_release_room(k, size);
            self.release(k).lemma_reclaim_fits(size);
        }
    }
}

} // verus!
