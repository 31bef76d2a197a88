//! Proofs that the steps of the model keep an arena valid.

use vstd::prelude::*;
use crate::handle::BlockHandle;
use crate::span::{Claim, Span};
use crate::tag::PurgeTag;
use crate::zone::{Zone, MIN_REMAINDER};

verus! {

impl Zone {
    /// In a tiled arena an earlier block ends where a later one starts, or
    /// before.
    pub proof fn lemma_tiled_order(self, i: int, j: int)
        requires
            self.tiled(),
            0 <= i < j < self.blocks.len(),
        ensures
            self.blocks[i].end() <= self.blocks[j].offset,
        decreases j - i,
    {
        if i + 1 < j {
            self.lemma_tiled_order(i, j - 1);
        }
        assert(self.adjoins(j));
    }

    /// In a tiled arena every block ends within the capacity.
    pub proof fn lemma_tiled_bound(self, i: int)
        requires
            self.tiled(),
            0 <= i < self.blocks.len(),
        ensures
            self.blocks[i].end() <= self.capacity(),
    {
        if i < self.blocks.len() - 1 {
            self.lemma_tiled_order(i, self.blocks.len() - 1);
        }
    }

    /// In a sound arena a later block starts strictly after an earlier one.
    pub proof fn lemma_offsets_increase(self, i: int, j: int)
        requires
            self.sound(),
            0 <= i < j < self.blocks.len(),
        ensures
            self.blocks[i].offset < self.blocks[j].offset,
    {
        self.lemma_tiled_order(i, j);
        assert(self.blocks[i].size > 0);
    }

    /// In a sound arena a handle is on one block at most.
    pub proof fn lemma_held_once(self, i: int, j: int, handle: BlockHandle)
        requires
            self.sound(),
            self.held_at(i, handle),
            self.held_at(j, handle),
        ensures
            i == j,
    {
        if i < j {
            self.lemma_offsets_increase(i, j);
        }
        if j < i {
            self.lemma_offsets_increase(j, i);
        }
    }

    /// In a sound arena the block under a handle is the one found by index.
    pub proof fn lemma_index_of(self, k: int, handle: BlockHandle)
        requires
            self.sound(),
            self.held_at(k, handle),
        ensures
            self.owns(handle),
            self.index_of(handle) == k,
    {
        self.lemma_held_once(k, self.index_of(handle), handle);
    }

    pub proof fn lemma_fresh_wf(bytes: Seq<u8>)
        ensures
            Zone::fresh(bytes).wf(),
    {
    }

    /// The blocks after a merge, one by one.
    pub proof fn lemma_merge_form(self, i: int)
        requires
            0 <= i < self.blocks.len() - 1,
        ensures
            self.merge(i).blocks.len() == self.blocks.len() - 1,
            forall|x: int| 0 <= x < i ==> #[trigger] self.merge(i).blocks[x] == self.blocks[x],
            self.merge(i).blocks[i] == (Span {
                size: self.blocks[i].size + self.blocks[i + 1].size,
                ..self.blocks[i]
            }),
            forall|x: int|
                i < x < self.blocks.len() - 1 ==> #[trigger] self.merge(i).blocks[x]
                    == self.blocks[x + 1],
    {
    }

    /// The blocks after a split, one by one.
    pub proof fn lemma_split_form(self, k: int, size: nat)
        requires
            0 <= k < self.blocks.len(),
        ensures
            self.split(k, size).blocks.len() == self.blocks.len() + 1,
            forall|x: int| 0 <= x < k ==> #[trigger] self.split(k, size).blocks[x] == self.blocks[x],
            self.split(k, size).blocks[k] == (Span { size, ..self.blocks[k] }),
            self.split(k, size).blocks[k + 1] == (Span {
                offset: self.blocks[k].offset + size,
                size: (self.blocks[k].size - size) as nat,
                claim: None,
            }),
            forall|x: int|
                k + 1 < x < self.blocks.len() + 1 ==> #[trigger] self.split(k, size).blocks[x]
                    == self.blocks[x - 1],
    {
    }

    /// Index of the first block that a release of block `k` merges.
    pub open spec fn merge_lo(self, k: int) -> int {
        if k > 0 && self.blocks[k - 1].is_free() {
            k - 1
        } else {
            k
        }
    }

    /// Index of the last block that a release of block `k` merges.
    pub open spec fn merge_hi(self, k: int) -> int {
        if k + 1 < self.blocks.len() && self.blocks[k + 1].is_free() {
            k + 1
        } else {
            k
        }
    }

    /// The free block that a release of block `k` leaves.
    pub open spec fn merged(self, k: int) -> Span {
        let lo = self.merge_lo(k);
        let hi = self.merge_hi(k);
        Span {
            offset: self.blocks[lo].offset,
            size: (if lo < k {
                self.blocks[lo].size
            } else {
                0
            }) + self.blocks[k].size + (if k < hi {
                self.blocks[hi].size
            } else {
                0
            }),
            claim: None,
        }
    }

    /// The arena after a release of block `k`, written out block by block.
    pub open spec fn release_form(self, k: int) -> Zone {
        let lo = self.merge_lo(k);
        let hi = self.merge_hi(k);
        Zone {
            blocks: Seq::new(
                (self.blocks.len() - (hi - lo)) as nat,
                |x: int|
                    if x < lo {
                        self.blocks[x]
                    } else if x == lo {
                        self.merged(k)
                    } else {
                        self.blocks[x + (hi - lo)]
                    },
            ),
            rover: if self.rover <= lo {
                self.rover
            } else if self.rover <= hi {
                lo
            } else {
                self.rover - (hi - lo)
            },
            ..self
        }
    }

    /// A release, step by step, gives the arena written out block by block.
    pub proof fn lemma_release_form(self, k: int)
        requires
            0 <= k < self.blocks.len(),
        ensures
            self.release(k) == self.release_form(k),
    {
        let n = self.blocks.len() as int;
        let a = self.vacate(k);
        let right = k + 1 < n && self.blocks[k + 1].is_free();
        let left = k > 0 && self.blocks[k - 1].is_free();
        let b = if right {
            a.merge(k)
        } else {
            a
        };
        if right {
            a.lemma_merge_form(k);
        }
        assert(k > 0 ==> b.blocks[k - 1] == self.blocks[k - 1]);
        if left {
            b.lemma_merge_form(k - 1);
        }
        assert(self.release(k).blocks =~= self.release_form(k).blocks);
    }

    pub proof fn lemma_vacate_sound(self, k: int)
        requires
            self.sound(),
            0 <= k < self.blocks.len(),
        ensures
            self.vacate(k).sound(),
    {
        let v = self.vacate(k);
        assert forall|i: int| 0 < i < v.blocks.len() implies #[trigger] v.adjoins(i) by {
            assert(self.adjoins(i));
        }
        if v.blocks.len() > 1 {
            assert forall|i: int| 0 <= i < v.blocks.len() implies (#[trigger] v.blocks[i]).size
                > 0 by {
                assert(self.blocks[i].size > 0);
            }
        }
        assert forall|i: int| 0 <= i < v.blocks.len() implies match (#[trigger] v.blocks[i]).claim {
            Some(c) => c.handle.offset() == v.blocks[i].offset,
            None => true,
        } by {
            assert(self.blocks[i].offset == v.blocks[i].offset);
        }
    }

    pub proof fn lemma_merge_sound(self, i: int)
        requires
            self.sound(),
            0 <= i < self.blocks.len() - 1,
        ensures
            self.merge(i).sound(),
    {
        let m = self.merge(i);
        let n = self.blocks.len() as int;
        self.lemma_merge_form(i);
        assert(self.adjoins(i + 1));
        assert forall|x: int| 0 < x < m.blocks.len() implies #[trigger] m.adjoins(x) by {
            if x < i {
                assert(self.adjoins(x));
            } else if x == i {
                assert(self.adjoins(x));
            } else {
                assert(self.adjoins(x + 1));
            }
        }
        assert(m.blocks.last().end() == self.capacity()) by {
            assert(self.blocks[n - 1].end() == self.capacity());
        }
        if m.blocks.len() > 1 {
            assert forall|x: int| 0 <= x < m.blocks.len() implies (#[trigger] m.blocks[x]).size
                > 0 by {
                assert(self.blocks[x].size > 0);
                assert(self.blocks[x + 1].size > 0);
            }
        }
        assert forall|x: int| 0 <= x < m.blocks.len() implies match (#[trigger] m.blocks[x]).claim {
            Some(c) => c.handle.offset() == m.blocks[x].offset,
            None => true,
        } by {
            assert(self.blocks[x].size >= 0);
            assert(self.blocks[x + 1].size >= 0);
        }
    }

    /// Releasing a block of a sound arena leaves a sound arena.
    pub proof fn lemma_release_sound(self, k: int)
        requires
            self.sound(),
            0 <= k < self.blocks.len(),
        ensures
            self.release(k).sound(),
    {
        let n = self.blocks.len() as int;
        let a = self.vacate(k);
        self.lemma_vacate_sound(k);
        let b = if k + 1 < n && a.blocks[k + 1].is_free() {
            a.lemma_merge_sound(k);
            a.merge(k)
        } else {
            a
        };
        if k > 0 && b.blocks[k - 1].is_free() {
            b.lemma_merge_sound(k - 1);
        }
    }

    /// Releasing a block of a valid arena leaves a valid arena.
    pub proof fn lemma_release_wf(self, k: int)
        requires
            self.wf(),
            0 <= k < self.blocks.len(),
        ensures
            self.release(k).wf(),
    {
        self.lemma_release_sound(k);
        self.lemma_release_form(k);
        let r = self.release_form(k);
        let lo = self.merge_lo(k);
        let hi = self.merge_hi(k);
        let d = hi - lo;
        assert forall|x: int| 0 < x < r.blocks.len() implies !#[trigger] r.both_free(x) by {
            if x < lo {
                assert(!self.both_free(x));
            } else if x == lo {
                assert(!self.both_free(lo));
            } else if x == lo + 1 {
                assert(!self.both_free(hi + 1));
            } else {
                assert(!self.both_free(x + d));
            }
        }
    }

    pub proof fn lemma_split_sound(self, k: int, size: nat)
        requires
            self.sound(),
            0 <= k < self.blocks.len(),
            0 < size < self.blocks[k].size,
        ensures
            self.split(k, size).sound(),
    {
        let s = self.split(k, size);
        let n = self.blocks.len() as int;
        let b = self.blocks[k];
        self.lemma_split_form(k, size);
        assert forall|x: int| 0 < x < s.blocks.len() implies #[trigger] s.adjoins(x) by {
            if x <= k {
                assert(self.adjoins(x));
            } else if x == k + 1 {
            } else {
                assert(self.adjoins(x - 1));
            }
        }
        assert(s.blocks.last().end() == self.capacity()) by {
            assert(self.blocks[n - 1].end() == self.capacity());
        }
        assert forall|x: int| 0 <= x < s.blocks.len() implies (#[trigger] s.blocks[x]).size
            > 0 by {
            if n > 1 {
                if x < n {
                    assert(self.blocks[x].size > 0);
                }
                if x > 0 {
                    assert(self.blocks[x - 1].size > 0);
                }
            }
        }
        assert forall|x: int| 0 <= x < s.blocks.len() implies match (#[trigger] s.blocks[x]).claim {
            Some(c) => c.handle.offset() == s.blocks[x].offset,
            None => true,
        } by {
            if x < n {
                assert(self.blocks[x].size >= 0);
            }
            if x > 0 {
                assert(self.blocks[x - 1].size >= 0);
            }
        }
    }

    /// Placing a request in a block that fits it leaves a valid arena.
    pub proof fn lemma_place_wf(self, k: int, size: nat, tag: PurgeTag, handle: BlockHandle)
        requires
            self.wf(),
            self.fits_at(k, size),
            size > 0,
            handle.offset() == self.blocks[k].offset,
        ensures
            self.place(k, size, tag, handle).wf(),
    {
        let n = self.blocks.len() as int;
        let cut = self.blocks[k].size > size + MIN_REMAINDER;
        let z = if cut {
            self.split(k, size)
        } else {
            self
        };
        if cut {
            self.lemma_split_sound(k, size);
            self.lemma_split_form(k, size);
        }
        let p = self.place(k, size, tag, handle);
        assert(p.blocks.len() == z.blocks.len());
        assert forall|x: int| 0 <= x < p.blocks.len() implies #[trigger] p.blocks[x] == (if x == k {
            Span { claim: Some(Claim { tag, handle }), ..z.blocks[k] }
        } else {
            z.blocks[x]
        }) by {}
        assert forall|x: int| 0 < x < p.blocks.len() implies #[trigger] p.adjoins(x) by {
            assert(z.adjoins(x));
        }
        if p.blocks.len() > 1 {
            assert forall|x: int| 0 <= x < p.blocks.len() implies (#[trigger] p.blocks[x]).size
                > 0 by {
                assert(z.blocks[x].size > 0);
            }
        }
        assert forall|x: int| 0 <= x < p.blocks.len() implies match (#[trigger] p.blocks[x]).claim {
            Some(c) => c.handle.offset() == p.blocks[x].offset,
            None => true,
        } by {
            assert(z.blocks[x].size >= 0);
        }
        assert forall|x: int| 0 < x < p.blocks.len() implies !#[trigger] p.both_free(x) by {
            if x < n {
                assert(!self.both_free(x));
            }
            if x >= 2 {
                assert(!self.both_free(x - 1));
            }
        }
    }

    pub proof fn lemma_retag_wf(self, k: int, tag: PurgeTag)
        requires
            self.wf(),
            0 <= k < self.blocks.len(),
            !self.blocks[k].is_free(),
        ensures
            self.retag(k, tag).wf(),
    {
        let r = self.retag(k, tag);
        assert forall|x: int| 0 <= x < r.blocks.len() implies {
            &&& (#[trigger] r.blocks[x]).offset == self.blocks[x].offset
            &&& r.blocks[x].size == self.blocks[x].size
            &&& r.blocks[x].is_free() == self.blocks[x].is_free()
        } by {}
        assert forall|x: int| 0 < x < r.blocks.len() implies #[trigger] r.adjoins(x) by {
            assert(self.adjoins(x));
        }
        if r.blocks.len() > 1 {
            assert forall|x: int| 0 <= x < r.blocks.len() implies (#[trigger] r.blocks[x]).size
                > 0 by {
                assert(self.blocks[x].size > 0);
            }
        }
        assert forall|x: int| 0 <= x < r.blocks.len() implies match (#[trigger] r.blocks[x]).claim {
            Some(c) => c.handle.offset() == r.blocks[x].offset,
            None => true,
        } by {
            assert(self.blocks[x].size >= 0);
        }
        assert forall|x: int| 0 < x < r.blocks.len() implies !#[trigger] r.both_free(x) by {
            assert(!self.both_free(x));
        }
    }

    pub proof fn lemma_store_wf(self, k: int, index: nat, value: u8)
        requires
            self.wf(),
            0 <= k < self.blocks.len(),
            index < self.blocks[k].size,
        ensures
            self.store(k, index, value).wf(),
    {
        let r = self.store(k, index, value);
        self.lemma_tiled_bound(k);
        assert(r.bytes.len() == self.bytes.len());
        assert forall|x: int| 0 < x < r.blocks.len() implies #[trigger] r.adjoins(x) by {
            assert(self.adjoins(x));
        }
        assert forall|x: int| 0 < x < r.blocks.len() implies !#[trigger] r.both_free(x) by {
            assert(!self.both_free(x));
        }
    }

    /// The evictions that a request causes leave a valid arena.
    pub proof fn lemma_reclaim_wf(self, size: nat)
        requires
            self.wf(),
        ensures
            self.reclaim(size).wf(),
        decreases self.used_count(),
    {
        if !(self.has_fit(size) || !self.has_victim()) {
            self.lemma_victim_exists();
            let k = self.victim();
            self.lemma_release_used_count(k);
            self.lemma_release_wf(k);
            self.release(k).lemma_reclaim_wf(size);
        }
    }

    /// A purge leaves a valid arena.
    pub proof fn lemma_purge_wf(self, threshold: u8)
        requires
            self.wf(),
        ensures
            self.purge(threshold).wf(),
        decreases self.used_count(),
    {
        if self.has_doomed(threshold) {
            self.lemma_first_doomed_exists(threshold);
            let k = self.first_doomed(threshold);
            self.lemma_release_used_count(k);
            self.lemma_release_wf(k);
            self.release(k).lemma_purge_wf(threshold);
        }
    }
}

} // verus!
