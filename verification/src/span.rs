//! Blocks as the model sees them, and counting over sequences of them.

use vstd::prelude::*;
use crate::handle::BlockHandle;
use crate::tag::PurgeTag;

verus! {

/// What an allocation has put on a block: its tag and its handle.
pub struct Claim {
    pub tag: PurgeTag,
    pub handle: BlockHandle,
}

/// One block of the arena: the bytes `offset .. offset + size`, free when
/// `claim` is `None`.
pub struct Span {
    pub offset: nat,
    pub size: nat,
    pub claim: Option<Claim>,
}

impl Span {
    /// Offset of the first byte after the block.
    pub open spec fn end(self) -> nat {
        self.offset + self.size
    }

    pub open spec fn is_free(self) -> bool {
        self.claim is None
    }

    /// The tag of the block; `None` when it is free.
    pub open spec fn tag(self) -> Option<PurgeTag> {
        match self.claim {
            Some(c) => Some(c.tag),
            None => None,
        }
    }

    /// Whether the block covers the byte at `addr`.
    pub open spec fn covers(self, addr: nat) -> bool {
        self.offset <= addr < self.end()
    }

    /// Whether a request of `size` bytes can be placed in the block as it is.
    pub open spec fn fits(self, size: nat) -> bool {
        self.is_free() && self.size >= size
    }

    /// In use under a purgeable tag.
    pub open spec fn evictable(self) -> bool {
        self.claim matches Some(c) && c.tag.is_purgeable()
    }

    /// In use under a tag that is not purgeable.
    pub open spec fn protected(self) -> bool {
        self.claim matches Some(c) && !c.tag.is_purgeable()
    }

    /// Free, or in use under a purgeable tag.
    pub open spec fn reclaimable(self) -> bool {
        self.is_free() || self.evictable()
    }

    /// In use under a tag whose value is at least `threshold`.
    pub open spec fn doomed(self, threshold: u8) -> bool {
        self.claim matches Some(c) && c.tag.value() >= threshold
    }

    /// Numeric value of the tag; 0 for a free block.
    pub open spec fn tag_value(self) -> int {
        match self.claim {
            Some(c) => c.tag.value() as int,
            None => 0,
        }
    }
}

/// Number of blocks of `blocks` that satisfy `pred`.
pub open spec fn count(blocks: Seq<Span>, pred: spec_fn(Span) -> bool) -> nat
    decreases blocks.len(),
{
    if blocks.len() == 0 {
        0
    } else {
        count(blocks.drop_last(), pred) + if pred(blocks.last()) { 1nat } else { 0nat }
    }
}

/// 1 where `c` holds, else 0.
pub open spec fn unit(c: bool) -> nat {
    if c {
        1
    } else {
        0
    }
}

/// The predicate "in use".
pub open spec fn in_use() -> spec_fn(Span) -> bool {
    |b: Span| !b.is_free()
}

/// The predicate "in use under a tag of at least `threshold`".
pub open spec fn doomed_by(threshold: u8) -> spec_fn(Span) -> bool {
    |b: Span| b.doomed(threshold)
}

pub proof fn lemma_count_bound(blocks: Seq<Span>, pred: spec_fn(Span) -> bool)
    ensures
        count(blocks, pred) <= blocks.len(),
    decreases blocks.len(),
{
    if blocks.len() > 0 {
        lemma_count_bound(blocks.drop_last(), pred);
    }
}

/// Where no block satisfies `pred`, the count is 0, and conversely.
pub proof fn lemma_count_zero(blocks: Seq<Span>, pred: spec_fn(Span) -> bool)
    ensures
        count(blocks, pred) == 0 <==> forall|i: int| 0 <= i < blocks.len() ==> !pred(#[trigger] blocks[i]),
    decreases blocks.len(),
{
    if blocks.len() > 0 {
        let front = blocks.drop_last();
        lemma_count_zero(front, pred);
        if count(blocks, pred) == 0 {
            assert forall|i: int| 0 <= i < blocks.len() implies !pred(#[trigger] blocks[i]) by {
                if i < front.len() {
                    assert(front[i] == blocks[i]);
                }
            }
        }
        if forall|i: int| 0 <= i < blocks.len() ==> !pred(#[trigger] blocks[i]) {
            assert forall|i: int| 0 <= i < front.len() implies !pred(#[trigger] front[i]) by {
                assert(front[i] == blocks[i]);
            }
        }
    }
}

pub proof fn lemma_count_update(blocks: Seq<Span>, k: int, b: Span, pred: spec_fn(Span) -> bool)
    requires
        0 <= k < blocks.len(),
    ensures
        count(blocks.update(k, b), pred) + unit(pred(blocks[k])) == count(blocks, pred) + unit(
            pred(b),
        ),
    decreases blocks.len(),
{
    let after = blocks.update(k, b);
    if k == blocks.len() - 1 {
        assert(after.drop_last() =~= blocks.drop_last());
    } else {
        assert(after.drop_last() =~= blocks.drop_last().update(k, b));
        lemma_count_update(blocks.drop_last(), k, b, pred);
    }
}

pub proof fn lemma_count_remove(blocks: Seq<Span>, k: int, pred: spec_fn(Span) -> bool)
    requires
        0 <= k < blocks.len(),
    ensures
        count(blocks.remove(k), pred) + unit(pred(blocks[k])) == count(blocks, pred),
    decreases blocks.len(),
{
    let after = blocks.remove(k);
    if k == blocks.len() - 1 {
        assert(after =~= blocks.drop_last());
    } else {
        assert(after.drop_last() =~= blocks.drop_last().remove(k));
        assert(after.last() == blocks.last());
        lemma_count_remove(blocks.drop_last(), k, pred);
    }
}

} // verus!
