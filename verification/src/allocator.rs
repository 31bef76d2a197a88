//! The allocator: a table of block nodes, linked in address order, over one
//! arena of bytes.

use vstd::prelude::*;
use crate::block::Block;
use crate::handle::{AllocError, BlockHandle};
use crate::span::{Claim, Span};
use crate::tag::PurgeTag;
use crate::zone::{Zone, MIN_REMAINDER};

verus! {

/// A zone allocator over one arena of fixed capacity.
///
/// The blocks of the arena are nodes in a table; each node names its
/// neighbours in address order by their places in the table. The node at
/// place 0 is always the block at offset 0: a merge keeps the earlier block
/// and a split keeps the block it cuts. Places of absorbed nodes are kept
/// for reuse.
pub struct MemoryAllocator {
    arena: Vec<u8>,
    slots: Vec<Block>,
    spare: Vec<usize>,
    rover: usize,
    /// The places of the live nodes, in address order.
    order: Ghost<Seq<usize>>,
    /// Where in `order` the rover stands.
    cursor: Ghost<int>,
}

impl View for MemoryAllocator {
    type V = Zone;

    closed spec fn view(&self) -> Zone {
        Zone {
            bytes: self.arena@,
            blocks: Seq::new(self.order@.len(), |i: int| self.span_of(self.order@[i] as int)),
            rover: self.cursor@,
        }
    }
}

impl MemoryAllocator {
    /// The block that the node at place `s` stands for.
    spec fn span_of(&self, s: int) -> Span {
        let node = self.slots@[s];
        Span {
            offset: node.offset as nat,
            size: node.metadata.size as nat,
            claim: match node.metadata.tag {
                Some(tag) => Some(
                    Claim {
                        tag,
                        handle: BlockHandle {
                            slot: s as usize,
                            generation: node.generation,
                            offset: node.offset,
                        },
                    },
                ),
                None => None,
            },
        }
    }

    /// The node at position `i` of the list names its neighbours.
    spec fn linked_at(&self, i: int) -> bool {
        let order = self.order@;
        &&& order[i] < self.slots.len()
        &&& self.slots[order[i] as int].prev == (if i == 0 {
            None
        } else {
            Some(order[i - 1])
        })
        &&& self.slots[order[i] as int].next == (if i == order.len() - 1 {
            None
        } else {
            Some(order[i + 1])
        })
    }

    /// The spare place at position `j` is within the table, free, and not
    /// in the list.
    spec fn spare_at(&self, j: int) -> bool {
        let s = self.spare@[j];
        &&& s < self.slots.len()
        &&& self.slots[s as int].metadata.tag is None
        &&& !self.order@.contains(s)
    }

    /// The table and the list agree.
    pub closed spec fn linked(&self) -> bool {
        let order = self.order@;
        &&& order.len() >= 1
        &&& order[0] == 0
        &&& order.no_duplicates()
        &&& forall|i: int| 0 <= i < order.len() ==> #[trigger] self.linked_at(i)
        &&& self.spare@.no_duplicates()
        &&& forall|j: int| 0 <= j < self.spare@.len() ==> #[trigger] self.spare_at(j)
        &&& order.len() + self.spare@.len() == self.slots.len()
        &&& forall|s: int|
            0 <= s < self.slots.len() && (#[trigger] self.slots[s]).metadata.tag is Some
                ==> order.contains(s as usize)
        &&& 0 <= self.cursor@ < order.len()
        &&& order[self.cursor@] == self.rover
    }

    /// What holds of the allocator between the steps of an operation.
    spec fn intact(&self) -> bool {
        self.linked() && self@.sound()
    }

    /// What holds of the allocator between operations: the table and the
    /// list agree, and the arena they show is valid.
    pub open spec fn wf(&self) -> bool {
        self.linked() && self@.wf()
    }

    /// An allocator over the bytes of `arena`, all of them in one free
    /// block.
    pub fn with_arena(arena: Vec<u8>) -> (zone: MemoryAllocator)
        ensures
            zone.wf(),
            zone@ == Zone::fresh(arena@),
    {
        let capacity = arena.len();
        let mut slots: Vec<Block> = Vec::new();
        slots.push(Block::new(0, capacity));
        let ghost order = seq![0usize];
        let zone = MemoryAllocator {
            arena,
            slots,
            spare: Vec::new(),
            rover: 0,
            order: Ghost(order),
            cursor: Ghost(0),
        };
        proof {
            assert(zone.linked_at(0));
            assert(zone.order@.contains(0usize)) by {
                assert(zone.order@[0] == 0usize);
            }
            assert(zone@.blocks =~= Zone::fresh(arena@).blocks);
            Zone::lemma_fresh_wf(arena@);
        }
        zone
    }

    /// Reserves an arena of `capacity` zeroed bytes and returns an allocator
    /// over it. Fails with `OutOfMemory` if the bytes cannot be had.
    pub fn init(capacity: usize) -> (r: Result<MemoryAllocator, AllocError>)
        ensures
            match r {
                Ok(zone) => zone.wf() && zone@ == Zone::fresh(
                    Seq::new(capacity as nat, |i: int| 0u8),
                ),
                Err(e) => e == AllocError::OutOfMemory,
            },
    {
        let mut arena: Vec<u8> = Vec::new();
        if arena.try_reserve(capacity).is_err() {
            return Err(AllocError::OutOfMemory);
        }
        let mut filled: usize = 0;
        while filled < capacity
            invariant
                filled <= capacity,
                arena@ =~= Seq::new(filled as nat, |i: int| 0u8),
            decreases capacity - filled,
        {
            arena.push(0u8);
            filled = filled + 1;
        }
        Ok(MemoryAllocator::with_arena(arena))
    }

    /// Every place of `before` is still in the table, with the generation
    /// it had.
    spec fn keeps_generations(&self, before: &MemoryAllocator) -> bool {
        &&& before.slots.len() <= self.slots.len()
        &&& forall|t: int|
            0 <= t < before.slots.len() ==> (#[trigger] self.slots[t]).generation
                == before.slots[t].generation
    }

    /// The node at place `s`, position `k` of the list, becomes free.
    fn vacate(&mut self, s: usize, Ghost(k): Ghost<int>)
        requires
            old(self).intact(),
            0 <= k < old(self).order@.len(),
            old(self).order@[k] == s,
        ensures
            final(self).intact(),
            final(self)@ == old(self)@.vacate(k),
            final(self).order@ == old(self).order@,
            final(self).rover == old(self).rover,
            final(self).slots.len() == old(self).slots.len(),
            final(self).keeps_generations(old(self)),
    {
        proof {
            assert(self.linked_at(k));
        }
        let mut node = self.slots[s];
        node.metadata.tag = None;
        self.slots.set(s, node);
        proof {
            let order = self.order@;
            assert forall|i: int| 0 <= i < order.len() implies #[trigger] self.linked_at(i) by {
                assert(old(self).linked_at(i));
            }
            assert forall|j: int| 0 <= j < self.spare@.len() implies #[trigger] self.spare_at(
                j,
            ) by {
                assert(old(self).spare_at(j));
            }
            assert forall|t: int|
                0 <= t < self.slots.len() && (#[trigger] self.slots[t]).metadata.tag is Some
                implies order.contains(t as usize) by {
                assert(old(self).slots[t].metadata.tag is Some);
            }
            assert(self@.blocks =~= old(self)@.vacate(k).blocks) by {
                assert forall|i: int| 0 <= i < order.len() && i != k implies self.span_of(
                    order[i] as int,
                ) == old(self).span_of(order[i] as int) by {
                    assert(old(self).linked_at(i));
                    assert(order[i] != order[k]);
                }
            }
            old(self)@.lemma_vacate_sound(k);
        }
    }

    /// The free node at place `s`, position `k` of the list, absorbs the
    /// free node after it. The absorbed place becomes spare; a rover on it
    /// moves to `s`.
    fn merge_next(&mut self, s: usize, Ghost(k): Ghost<int>)
        requires
            old(self).intact(),
            0 <= k < old(self).order@.len() - 1,
            old(self).order@[k] == s,
            old(self)@.blocks[k].is_free(),
            old(self)@.blocks[k + 1].is_free(),
        ensures
            final(self).intact(),
            final(self)@ == old(self)@.merge(k),
            final(self).order@ == old(self).order@.remove(k + 1),
            final(self).slots.len() == old(self).slots.len(),
            final(self).keeps_generations(old(self)),
    {
        let ghost before = *self;
        let ghost order = self.order@;
        let ghost n = order.len() as int;
        proof {
            assert(self.linked_at(k));
            assert(self.linked_at(k + 1));
            if k + 2 < n {
                assert(self.linked_at(k + 2));
            }
            assert(self@.adjoins(k + 1));
            self@.lemma_tiled_bound(k + 1);
        }
        let node = self.slots[s];
        let t = node.next.unwrap();
        let gone = self.slots[t];
        proof {
            assert(self@.blocks[k] == self.span_of(s as int));
            assert(self@.blocks[k + 1] == self.span_of(t as int));
            assert(self@.capacity() == self.arena.len());
            assert(self@.blocks[k + 1].end() <= self@.capacity());
            assert(self@.blocks[k + 1].offset == self@.blocks[k].end());
            assert(node.metadata.size + gone.metadata.size <= self.arena.len());
        }
        let mut merged = node;
        merged.metadata.size = node.metadata.size + gone.metadata.size;
        merged.next = gone.next;
        self.slots.set(s, merged);
        match gone.next {
            Some(u) => {
                let mut after = self.slots[u];
                after.prev = Some(s);
                self.slots.set(u, after);
            },
            None => {},
        }
        self.spare.push(t);
        if self.rover == t {
            self.rover = s;
        }
        proof {
            self.order = Ghost(order.remove(k + 1));
            self.cursor = Ghost(
                if before.cursor@ > k {
                    before.cursor@ - 1
                } else {
                    before.cursor@
                },
            );
            let after = self.order@;
            assert(after.len() == n - 1);
            assert forall|i: int| 0 <= i < n - 1 implies #[trigger] after[i] == (if i <= k {
                order[i]
            } else {
                order[i + 1]
            }) by {}
            assert(after.no_duplicates());
            assert forall|i: int| 0 <= i < n - 1 implies #[trigger] self.linked_at(i) by {
                if i <= k {
                    assert(before.linked_at(i));
                } else {
                    assert(before.linked_at(i + 1));
                }
            }
            assert forall|j: int| 0 <= j < self.spare@.len() implies #[trigger] self.spare_at(
                j,
            ) by {
                if j < before.spare@.len() {
                    assert(before.spare_at(j));
                    assert(!order.contains(self.spare@[j]));
                }
            }
            assert(self.spare@.no_duplicates()) by {
                assert forall|j: int| 0 <= j < before.spare@.len() implies before.spare@[j]
                    != t by {
                    assert(before.spare_at(j));
                }
            }
            assert forall|x: int|
                0 <= x < self.slots.len() && (#[trigger] self.slots[x]).metadata.tag is Some
                implies after.contains(x as usize) by {
                assert(before.slots[x].metadata.tag is Some);
                let i = choose|i: int| 0 <= i < n && order[i] == x as usize;
                assert(i != k + 1);
                if i <= k {
                    assert(after[i] == x as usize);
                } else {
                    assert(after[i - 1] == x as usize);
                }
            }
            assert(self@.blocks =~= before@.merge(k).blocks) by {
                before@.lemma_merge_form(k);
                assert forall|i: int| 0 <= i < n - 1 implies #[trigger] self@.blocks[i]
                    == before@.merge(k).blocks[i] by {
                    if i < k {
                        assert(before.linked_at(i));
                        assert(order[i] != order[k]);
                        assert(order[i] != order[k + 1]);
                        if k + 2 < n {
                            assert(order[i] != order[k + 2]);
                        }
                        assert(self.span_of(order[i] as int) == before.span_of(order[i] as int));
                    } else if i > k {
                        assert(before.linked_at(i + 1));
                        assert(order[i + 1] != order[k]);
                        assert(order[i + 1] != order[k + 1]);
                        assert(self.span_of(order[i + 1] as int) == before.span_of(
                            order[i + 1] as int,
                        ));
                    } else {
                        assert(before@.blocks[k] == before.span_of(s as int));
                        assert(before@.blocks[k + 1] == before.span_of(t as int));
                        assert(order[k] != order[k + 1]);
                        if k + 2 < n {
                            assert(order[k] != order[k + 2]);
                        }
                    }
                }
            }
            before@.lemma_merge_sound(k);
        }
    }

    /// The table `self` is the table `before` after the free node at place
    /// `s`, position `k`, was cut down to `size` bytes and the rest put at
    /// place `t`.
    spec fn split_of(
        &self,
        before: &MemoryAllocator,
        s: usize,
        t: usize,
        k: int,
        size: usize,
    ) -> bool {
        let node = before.slots[s as int];
        &&& self.arena == before.arena
        &&& self.order@ == before.order@.insert(k + 1, t)
        &&& self.cursor@ == (if before.cursor@ > k {
            before.cursor@ + 1
        } else {
            before.cursor@
        })
        &&& self.rover == before.rover
        &&& self.slots.len() == (if t < before.slots.len() {
            before.slots.len() as int
        } else {
            before.slots.len() + 1
        })
        &&& t <= before.slots.len()
        &&& self.spare@.len() == (if t < before.slots.len() {
            before.spare@.len() - 1
        } else {
            before.spare@.len() as int
        })
        &&& forall|j: int| 0 <= j < self.spare@.len() ==> self.spare@[j] == before.spare@[j]
        &&& t < before.slots.len() ==> before.spare@.len() > 0 && before.spare@.last() == t
        &&& forall|x: int|
            0 <= x < self.slots.len() ==> #[trigger] self.slots[x] == (if x == s {
                Block {
                    metadata: crate::block::BlockMetaData { tag: node.metadata.tag, size },
                    next: Some(t),
                    ..node
                }
            } else if x == t {
                Block {
                    metadata: crate::block::BlockMetaData {
                        tag: None,
                        size: (node.metadata.size - size) as usize,
                    },
                    offset: (node.offset + size) as usize,
                    prev: Some(s),
                    next: node.next,
                    generation: if t < before.slots.len() {
                        before.slots[t as int].generation
                    } else {
                        0
                    },
                }
            } else if node.next == Some(x as usize) {
                Block { prev: Some(t), ..before.slots[x] }
            } else {
                before.slots[x]
            })
    }

    proof fn lemma_split_linked(
        &self,
        before: &MemoryAllocator,
        s: usize,
        t: usize,
        k: int,
        size: usize,
    )
        requires
            before.intact(),
            0 <= k < before.order@.len(),
            before.order@[k] == s,
            before@.blocks[k].is_free(),
            0 < size < before@.blocks[k].size,
            self.split_of(before, s, t, k, size),
        ensures
            self.linked(),
    {
        let order = before.order@;
        let n = order.len() as int;
        let after = self.order@;
        assert(before.linked_at(k));
        if k + 1 < n {
            assert(before.linked_at(k + 1));
        }
        assert(!order.contains(t)) by {
            if t >= before.slots.len() {
                assert forall|i: int| 0 <= i < n implies order[i] != t by {
                    assert(before.linked_at(i));
                }
            } else {
                assert(before.spare_at(before.spare@.len() - 1));
            }
        }
        assert(after.len() == n + 1);
        assert forall|i: int| 0 <= i < n + 1 implies #[trigger] after[i] == (if i <= k {
            order[i]
        } else if i == k + 1 {
            t
        } else {
            order[i - 1]
        }) by {}
        assert(after.no_duplicates()) by {
            assert forall|i: int, j: int|
                0 <= i < n + 1 && 0 <= j < n + 1 && i != j implies after[i] != after[j] by {
                let oi = if i <= k {
                    i
                } else {
                    i - 1
                };
                let oj = if j <= k {
                    j
                } else {
                    j - 1
                };
                if i != k + 1 {
                    assert(order[oi] != t);
                }
                if j != k + 1 {
                    assert(order[oj] != t);
                }
            }
        }
        assert forall|i: int| 0 <= i < n + 1 implies #[trigger] self.linked_at(i) by {
            if i <= k {
                assert(before.linked_at(i));
                assert(order[i] != t);
                if i < k {
                    assert(order[i] != order[k]);
                    if k + 1 < n {
                        assert(order[i] != order[k + 1]);
                    }
                }
            } else if i == k + 1 {
            } else {
                assert(before.linked_at(i - 1));
                assert(order[i - 1] != t);
                assert(order[i - 1] != order[k]);
                if i > k + 2 {
                    assert(order[i - 1] != order[k + 1]);
                }
            }
        }
        assert(self.spare@.no_duplicates());
        assert forall|j: int| 0 <= j < self.spare@.len() implies #[trigger] self.spare_at(j) by {
            assert(before.spare_at(j));
            let x = before.spare@[j];
            assert(!order.contains(x));
            assert(x != t);
            assert forall|i: int| 0 <= i < n + 1 implies after[i] != x by {
                if i != k + 1 {
                    let oi = if i <= k {
                        i
                    } else {
                        i - 1
                    };
                    assert(order[oi] != x);
                }
            }
        }
        assert forall|x: int|
            0 <= x < self.slots.len() && (#[trigger] self.slots[x]).metadata.tag is Some
            implies after.contains(x as usize) by {
            assert(x != t);
            assert(before@.blocks[k] == before.span_of(s as int));
            assert(before.slots[x].metadata.tag is Some);
            let i = choose|i: int| 0 <= i < n && order[i] == x as usize;
            if i <= k {
                assert(after[i] == x as usize);
            } else {
                assert(after[i + 1] == x as usize);
            }
        }
    }

    proof fn lemma_split_view(
        &self,
        before: &MemoryAllocator,
        s: usize,
        t: usize,
        k: int,
        size: usize,
    )
        requires
            before.intact(),
            0 <= k < before.order@.len(),
            before.order@[k] == s,
            before@.blocks[k].is_free(),
            0 < size < before@.blocks[k].size,
            self.split_of(before, s, t, k, size),
        ensures
            self@ == before@.split(k, size as nat),
    {
        let order = before.order@;
        let n = order.len() as int;
        let after = self.order@;
        assert(before.linked_at(k));
        if k + 1 < n {
            assert(before.linked_at(k + 1));
        }
        assert(!order.contains(t)) by {
            if t >= before.slots.len() {
                assert forall|i: int| 0 <= i < n implies order[i] != t by {
                    assert(before.linked_at(i));
                }
            } else {
                assert(before.spare_at(before.spare@.len() - 1));
            }
        }
        assert(before@.blocks[k] == before.span_of(s as int));
        before@.lemma_split_form(k, size as nat);
        before@.lemma_tiled_bound(k);
        assert(before@.capacity() == before.arena.len());
        assert(self@.blocks.len() == n + 1);
        assert forall|i: int| 0 <= i < n + 1 implies #[trigger] self@.blocks[i] == before@.split(
            k,
            size as nat,
        ).blocks[i] by {
            if i < k {
                assert(before.linked_at(i));
                assert(after[i] == order[i]);
                assert(order[i] != t);
                assert(order[i] != order[k]);
                if k + 1 < n {
                    assert(order[i] != order[k + 1]);
                }
                assert(self.span_of(order[i] as int) == before.span_of(order[i] as int));
                assert(before@.blocks[i] == before.span_of(order[i] as int));
            } else if i == k {
                assert(after[k] == s);
            } else if i == k + 1 {
                assert(after[k + 1] == t);
            } else {
                assert(before.linked_at(i - 1));
                assert(after[i] == order[i - 1]);
                assert(order[i - 1] != t);
                assert(order[i - 1] != order[k]);
                assert(self.span_of(order[i - 1] as int) == before.span_of(order[i - 1] as int));
                assert(before@.blocks[i - 1] == before.span_of(order[i - 1] as int));
            }
        }
        assert(self@.blocks =~= before@.split(k, size as nat).blocks);
    }

    /// The free node at place `s`, position `k` of the list, is cut down to
    /// `size` bytes. The rest becomes a free node right after it, at a spare
    /// place if there is one, else at a new place.
    fn split(&mut self, s: usize, size: usize, Ghost(k): Ghost<int>)
        requires
            old(self).intact(),
            0 <= k < old(self).order@.len(),
            old(self).order@[k] == s,
            old(self)@.blocks[k].is_free(),
            0 < size < old(self)@.blocks[k].size,
        ensures
            final(self).intact(),
            final(self)@ == old(self)@.split(k, size as nat),
            final(self).order@.len() == old(self).order@.len() + 1,
            final(self).order@[k] == s,
            final(self).keeps_generations(old(self)),
    {
        let ghost before = *self;
        let ghost order = self.order@;
        let ghost n = order.len() as int;
        proof {
            assert(self.linked_at(k));
            if k + 1 < n {
                assert(self.linked_at(k + 1));
            }
            assert(self@.blocks[k] == self.span_of(s as int));
            self@.lemma_tiled_bound(k);
            assert(self@.capacity() == self.arena.len());
        }
        let node = self.slots[s];
        let mut rest = Block::new(node.offset + size, node.metadata.size - size);
        rest.prev = Some(s);
        rest.next = node.next;
        let t = match self.spare.pop() {
            Some(t) => {
                proof {
                    assert(before.spare_at(before.spare@.len() - 1));
                    assert(!order.contains(t));
                }
                rest.generation = self.slots[t].generation;
                self.slots.set(t, rest);
                t
            },
            None => {
                self.slots.push(rest);
                self.slots.len() - 1
            },
        };
        proof {
            assert(t != s) by {
                if t < before.slots.len() {
                    assert(!order.contains(t));
                }
            }
            if k + 1 < n {
                assert(order[k + 1] != t) by {
                    if t < before.slots.len() {
                        assert(!order.contains(t));
                    }
                }
            }
        }
        let mut head = node;
        head.metadata.size = size;
        head.next = Some(t);
        self.slots.set(s, head);
        match node.next {
            Some(u) => {
                let mut after = self.slots[u];
                after.prev = Some(t);
                self.slots.set(u, after);
            },
            None => {},
        }
        proof {
            self.order = Ghost(order.insert(k + 1, t));
            self.cursor = Ghost(
                if before.cursor@ > k {
                    before.cursor@ + 1
                } else {
                    before.cursor@
                },
            );
            assert(self.split_of(&before, s, t, k, size));
            self.lemma_split_linked(&before, s, t, k, size);
            self.lemma_split_view(&before, s, t, k, size);
            before@.lemma_split_sound(k, size as nat);
        }
    }

    /// A request of `size` bytes under `tag` is placed in the free node at
    /// place `s`, position `k` of the list.
    fn claim(&mut self, s: usize, size: usize, tag: PurgeTag, Ghost(k): Ghost<int>) -> (handle:
        BlockHandle)
        requires
            old(self).wf(),
            0 <= k < old(self).order@.len(),
            old(self).order@[k] == s,
            old(self)@.fits_at(k, size as nat),
            size > 0,
        ensures
            final(self).wf(),
            final(self)@ == old(self)@.place(k, size as nat, tag, handle),
            handle.slot == s,
            handle.offset() == old(self)@.blocks[k].offset,
            s < old(self).slots.len(),
            handle.generation != old(self).slots[s as int].generation,
    {
        let ghost before = *self;
        proof {
            assert(self.linked_at(k));
            assert(self@.blocks[k] == self.span_of(s as int));
        }
        if self.slots[s].metadata.size - size > MIN_REMAINDER {
            self.split(s, size, Ghost(k));
        }
        let ghost mid = *self;
        let ghost order = self.order@;
        let ghost n = order.len() as int;
        proof {
            assert(self.linked_at(k));
            assert(self@.blocks[k] == self.span_of(s as int));
        }
        let mut node = self.slots[s];
        node.metadata.tag = Some(tag);
        node.generation = if node.generation == u64::MAX {
            0
        } else {
            node.generation + 1
        };
        self.slots.set(s, node);
        self.rover = match node.next {
            Some(u) => u,
            None => 0,
        };
        let handle = BlockHandle { slot: s, generation: node.generation, offset: node.offset };
        proof {
            self.cursor = Ghost(
                if k + 1 < n {
                    k + 1
                } else {
                    0
                },
            );
            assert forall|i: int| 0 <= i < n implies #[trigger] self.linked_at(i) by {
                assert(mid.linked_at(i));
            }
            assert forall|j: int| 0 <= j < self.spare@.len() implies #[trigger] self.spare_at(
                j,
            ) by {
                assert(mid.spare_at(j));
            }
            assert forall|x: int|
                0 <= x < self.slots.len() && (#[trigger] self.slots[x]).metadata.tag is Some
                implies order.contains(x as usize) by {
                if x != s {
                    assert(mid.slots[x].metadata.tag is Some);
                }
            }
            assert(self@.blocks =~= before@.place(k, size as nat, tag, handle).blocks) by {
                assert forall|i: int| 0 <= i < n && i != k implies self.span_of(order[i] as int)
                    == mid.span_of(order[i] as int) by {
                    assert(mid.linked_at(i));
                    assert(order[i] != order[k]);
                }
            }
            before@.lemma_place_wf(k, size as nat, tag, handle);
        }
        handle
    }

    /// The first free node, from the rover on and round the end of the
    /// list, that holds at least `size` bytes; with it, its position.
    fn find_fit(&self, size: usize) -> (r: (Option<usize>, Ghost<int>))
        requires
            self.intact(),
        ensures
            match r.0 {
                Some(s) => {
                    &&& 0 <= r.1@ < self.order@.len()
                    &&& self.order@[r.1@] == s
                    &&& self@.is_first_fit(size as nat, r.1@)
                },
                None => !self@.has_fit(size as nat),
            },
    {
        let ghost n = self.order@.len() as int;
        let mut cur = self.rover;
        let ghost mut pos = self.cursor@;
        let ghost mut rank: int = 0;
        loop
            invariant
                self.intact(),
                n == self.order@.len(),
                0 <= pos < n,
                self.order@[pos] == cur,
                0 <= rank < n,
                self@.scan_rank(pos) == rank,
                forall|j: int| #[trigger]
                    self@.fits_at(j, size as nat) ==> self@.scan_rank(j) >= rank,
            decreases n - rank,
        {
            proof {
                assert(self.linked_at(pos));
                assert(self@.blocks[pos] == self.span_of(cur as int));
            }
            let node = self.slots[cur];
            if node.metadata.tag.is_none() && node.metadata.size >= size {
                return (Some(cur), Ghost(pos));
            }
            let next = match node.next {
                Some(u) => u,
                None => 0,
            };
            let ghost next_pos = if pos + 1 < n {
                pos + 1
            } else {
                0
            };
            proof {
                assert(self.order@[next_pos] == next);
                assert(!self@.fits_at(pos, size as nat));
                assert forall|j: int| #[trigger]
                    self@.fits_at(j, size as nat) implies self@.scan_rank(j) >= rank + 1 by {
                    if self@.scan_rank(j) == rank {
                        assert(j == pos);
                    }
                }
            }
            if next == self.rover {
                proof {
                    assert(next_pos == self.cursor@);
                    assert forall|j: int| !self@.fits_at(j, size as nat) by {
                        if self@.fits_at(j, size as nat) {
                            assert(self@.scan_rank(j) >= rank + 1);
                        }
                    }
                }
                return (None, Ghost(0));
            }
            proof {
                assert(next_pos != self.cursor@);
            }
            cur = next;
            proof {
                pos = next_pos;
                rank = rank + 1;
            }
        }
    }

    /// The node to evict next, if any is evictable; with it, its position.
    fn find_victim(&self) -> (r: (Option<usize>, Ghost<int>))
        requires
            self.intact(),
        ensures
            match r.0 {
                Some(s) => {
                    &&& 0 <= r.1@ < self.order@.len()
                    &&& self.order@[r.1@] == s
                    &&& self@.is_victim(r.1@)
                },
                None => !self@.has_victim(),
            },
    {
        let ghost n = self.order@.len() as int;
        let mut cur: usize = 0;
        let mut best: Option<usize> = None;
        let mut best_value: u8 = 0;
        let ghost mut pos: int = 0;
        let ghost mut best_pos: int = 0;
        loop
            invariant
                self.intact(),
                n == self.order@.len(),
                0 <= pos < n,
                self.order@[pos] == cur,
                match best {
                    Some(b) => {
                        &&& 0 <= best_pos < pos
                        &&& self.order@[best_pos] == b
                        &&& self@.leads(pos, best_pos)
                        &&& best_value == self@.blocks[best_pos].tag_value()
                    },
                    None => forall|j: int| j < pos ==> !#[trigger] self@.evictable_at(j),
                },
            decreases n - pos,
        {
            proof {
                assert(self.linked_at(pos));
                assert(self@.blocks[pos] == self.span_of(cur as int));
            }
            let node = self.slots[cur];
            let ghost was = best;
            let ghost was_pos = best_pos;
            match node.metadata.tag {
                Some(tag) => {
                    if tag.is_purgeable() {
                        let value = tag.value();
                        if best.is_none() || best_value < value {
                            best = Some(cur);
                            best_value = value;
                            proof {
                                best_pos = pos;
                            }
                        }
                    }
                },
                None => {},
            }
            proof {
                match best {
                    Some(b) => {
                        assert(self@.leads(pos + 1, best_pos)) by {
                            assert forall|j: int|
                                j < pos + 1 && #[trigger] self@.evictable_at(j) implies {
                                ||| self@.blocks[j].tag_value() < self@.blocks[best_pos].tag_value()
                                ||| self@.blocks[j].tag_value()
                                    == self@.blocks[best_pos].tag_value() && best_pos <= j
                            } by {
                                if was is Some {
                                    assert(self@.leads(pos, was_pos));
                                }
                            }
                        }
                    },
                    None => {
                        assert forall|j: int| j < pos + 1 implies !#[trigger] self@.evictable_at(
                            j,
                        ) by {}
                    },
                }
            }
            match node.next {
                Some(u) => {
                    cur = u;
                    proof {
                        pos = pos + 1;
                    }
                },
                None => {
                    proof {
                        if best is None {
                            assert forall|j: int| !self@.evictable_at(j) by {}
                        }
                    }
                    return (best, Ghost(best_pos));
                },
            }
        }
    }

    /// The node at place `s`, position `k` of the list, becomes free and
    /// absorbs, or is absorbed by, each free neighbour. Returns the place
    /// and position of the node that is left.
    fn release_slot(&mut self, s: usize, Ghost(k): Ghost<int>) -> (r: (usize, Ghost<int>))
        requires
            old(self).wf(),
            0 <= k < old(self).order@.len(),
            old(self).order@[k] == s,
        ensures
            final(self).wf(),
            final(self)@ == old(self)@.release(k),
            r.1@ == old(self)@.merge_lo(k),
            0 <= r.1@ < final(self).order@.len(),
            final(self).order@[r.1@] == r.0,
            final(self).slots.len() == old(self).slots.len(),
            final(self).keeps_generations(old(self)),
    {
        let ghost before = *self;
        let ghost n = self.order@.len() as int;
        proof {
            before@.lemma_release_wf(k);
            assert(self.linked_at(k));
            if k > 0 {
                assert(self.linked_at(k - 1));
                assert(self@.blocks[k - 1] == self.span_of(self.order@[k - 1] as int));
            }
        }
        self.vacate(s, Ghost(k));
        proof {
            assert(self.linked_at(k));
            if k + 1 < n {
                assert(self.linked_at(k + 1));
                assert(self@.blocks[k + 1] == self.span_of(self.order@[k + 1] as int));
            }
        }
        let node = self.slots[s];
        match node.next {
            Some(u) => {
                if self.slots[u].metadata.tag.is_none() {
                    self.merge_next(s, Ghost(k));
                }
            },
            None => {},
        }
        proof {
            assert(self.linked_at(k));
            if k > 0 {
                assert(self.linked_at(k - 1));
                assert(self@.blocks[k - 1] == self.span_of(self.order@[k - 1] as int));
                assert(self@.blocks[k - 1] == before@.blocks[k - 1]);
            }
        }
        let node = self.slots[s];
        match node.prev {
            Some(p) => {
                if self.slots[p].metadata.tag.is_none() {
                    self.merge_next(p, Ghost(k - 1));
                    return (p, Ghost(k - 1));
                }
            },
            None => {},
        }
        (s, Ghost(k))
    }

    /// Whether `handle` names a block in use; with the answer, the position
    /// of that block.
    fn locate(&self, handle: BlockHandle) -> (r: (bool, Ghost<int>))
        requires
            self.intact(),
        ensures
            r.0 == self@.owns(handle),
            r.0 ==> {
                &&& self@.held_at(r.1@, handle)
                &&& r.1@ == self@.index_of(handle)
                &&& self.order@[r.1@] == handle.slot
                &&& handle.slot < self.slots.len()
                &&& self@.blocks[r.1@] == self.span_of(handle.slot as int)
                &&& self@.blocks[r.1@].end() <= self.arena.len()
            },
    {
        if handle.slot < self.slots.len() {
            let node = self.slots[handle.slot];
            if node.metadata.tag.is_some() && node.generation == handle.generation && node.offset
                == handle.offset {
                let ghost k = self.order@.index_of(handle.slot);
                proof {
                    assert(self.order@.contains(handle.slot));
                    assert(self@.blocks[k] == self.span_of(handle.slot as int));
                    self@.lemma_index_of(k, handle);
                    self@.lemma_tiled_bound(k);
                }
                return (true, Ghost(k));
            }
        }
        proof {
            assert forall|i: int| !self@.held_at(i, handle) by {
                if self@.held_at(i, handle) {
                    assert(self.linked_at(i));
                    assert(self@.blocks[i] == self.span_of(self.order@[i] as int));
                }
            }
        }
        (false, Ghost(0))
    }

    /// Whether the byte at `addr` lies in a free block.
    fn is_free_at(&self, addr: usize) -> (free: bool)
        requires
            self.intact(),
        ensures
            free == self@.free_at(addr as nat),
    {
        let ghost n = self.order@.len() as int;
        let mut cur: usize = 0;
        let ghost mut pos: int = 0;
        loop
            invariant
                self.intact(),
                n == self.order@.len(),
                0 <= pos < n,
                self.order@[pos] == cur,
                self@.blocks[pos].offset <= addr,
            decreases n - pos,
        {
            proof {
                assert(self.linked_at(pos));
                assert(self@.blocks[pos] == self.span_of(cur as int));
                self@.lemma_tiled_bound(pos);
                assert(self@.capacity() == self.arena.len());
            }
            let node = self.slots[cur];
            if addr < node.offset + node.metadata.size {
                proof {
                    assert(self@.blocks[pos].covers(addr as nat));
                    assert forall|j: int|
                        0 <= j < n && j != pos implies !(#[trigger] self@.blocks[j]).covers(
                        addr as nat,
                    ) by {
                        if j < pos {
                            self@.lemma_tiled_order(j, pos);
                        } else {
                            self@.lemma_tiled_order(pos, j);
                        }
                    }
                }
                return node.metadata.tag.is_none();
            }
            match node.next {
                Some(u) => {
                    proof {
                        assert(self@.adjoins(pos + 1));
                    }
                    cur = u;
                    proof {
                        pos = pos + 1;
                    }
                },
                None => {
                    proof {
                        assert forall|j: int| 0 <= j < n implies !(#[trigger] self@.blocks[j]).covers(
                            addr as nat,
                        ) by {
                            self@.lemma_tiled_bound(j);
                        }
                    }
                    return false;
                },
            }
        }
    }

    /// Allocates `size` bytes under `tag`.
    ///
    /// The first free block that holds `size` bytes, searching from the
    /// rover and round the end of the arena, is taken; it is split if that
    /// leaves more than `MIN_REMAINDER` bytes, and the rover moves past it.
    /// While no free block is large enough, the evictable block of greatest
    /// tag value, and among those the one at the lowest address, is
    /// released. When nothing is left to evict the request fails with
    /// `OutOfMemory`; the evictions made stay made.
    pub fn allocate(&mut self, size: usize, tag: PurgeTag) -> (r: Result<BlockHandle, AllocError>)
        requires
            old(self).wf(),
            size > 0,
        ensures
            final(self).wf(),
            match r {
                Ok(handle) => {
                    &&& final(self)@ == old(self)@.allocate(size as nat, tag, handle)
                    &&& !old(self)@.owns(handle)
                },
                Err(e) => {
                    &&& e == AllocError::OutOfMemory
                    &&& final(self)@ == old(self)@.reclaim(size as nat)
                },
            },
            r is Ok <==> old(self)@.reclaim(size as nat).has_fit(size as nat),
            r is Ok <==> old(self)@.can_fit(size as nat),
            r matches Ok(handle) ==> {
                &&& final(self)@.owns(handle)
                &&& final(self)@.block_of(handle).offset == handle.offset()
                &&& final(self)@.block_of(handle).tag() == Some(tag)
                &&& size <= final(self)@.block_of(handle).size <= size + MIN_REMAINDER
            },
            forall|b: Span| #[trigger]
                old(self)@.blocks.contains(b) && b.protected() ==> final(self)@.blocks.contains(b),
    {
        loop
            invariant
                self.wf(),
                old(self).wf(),
                size > 0,
                self@.reclaim(size as nat) == old(self)@.reclaim(size as nat),
                self.slots.len() == old(self).slots.len(),
                self.keeps_generations(old(self)),
            decreases self@.used_count(),
        {
            let ghost now = *self;
            let (fit, Ghost(k)) = self.find_fit(size);
            match fit {
                Some(s) => {
                    proof {
                        assert(self@.fits_at(k, size as nat));
                        self@.lemma_first_fit_exists(size as nat);
                    }
                    let handle = self.claim(s, size, tag, Ghost(k));
                    proof {
                        old(self)@.lemma_reclaim_fits(size as nat);
                        now@.lemma_place_tight(k, size as nat, tag, handle);
                        assert forall|b: Span| #[trigger]
                            old(self)@.blocks.contains(b) && b.protected() implies self@.blocks.contains(
                            b,
                        ) by {
                            old(self)@.lemma_allocate_keeps(size as nat, tag, handle, b);
                        }
                        assert forall|i: int| !old(self)@.held_at(i, handle) by {
                            if old(self)@.held_at(i, handle) {
                                assert(old(self).linked_at(i));
                                assert(old(self)@.blocks[i] == old(self).span_of(
                                    old(self).order@[i] as int,
                                ));
                            }
                        }
                    }
                    return Ok(handle);
                },
                None => {
                    let (victim, Ghost(v)) = self.find_victim();
                    match victim {
                        Some(s) => {
                            proof {
                                assert(self@.evictable_at(v));
                                self@.lemma_victim_exists();
                                self@.lemma_release_used_count(v);
                            }
                            self.release_slot(s, Ghost(v));
                        },
                        None => {
                            proof {
                                old(self)@.lemma_reclaim_fits(size as nat);
                                assert forall|b: Span| #[trigger]
                                    old(self)@.blocks.contains(b)
                                        && b.protected() implies self@.blocks.contains(b) by {
                                    old(self)@.lemma_reclaim_keeps(size as nat, b);
                                }
                            }
                            return Err(AllocError::OutOfMemory);
                        },
                    }
                },
            }
        }
    }

    /// Releases the block that `handle` names and merges it with each free
    /// neighbour. A rover on an absorbed block moves to the merged block.
    ///
    /// Fails if `handle` names no block in use: with `DoubleFree` if the
    /// byte it points at lies in a free block, else with `InvalidHandle`.
    pub fn free(&mut self, handle: BlockHandle) -> (r: Result<(), AllocError>)
        requires
            old(self).wf(),
        ensures
            final(self).wf(),
            match r {
                Ok(_) => {
                    &&& old(self)@.owns(handle)
                    &&& final(self)@ == old(self)@.release(old(self)@.index_of(handle))
                    &&& final(self)@.coalesced()
                    &&& !final(self)@.owns(handle)
                    &&& final(self)@.free_at(handle.offset() as nat)
                },
                Err(e) => {
                    &&& !old(self)@.owns(handle)
                    &&& *final(self) == *old(self)
                    &&& e == if old(self)@.free_at(handle.offset() as nat) {
                        AllocError::DoubleFree
                    } else {
                        AllocError::InvalidHandle
                    }
                },
            },
    {
        let (live, Ghost(k)) = self.locate(handle);
        if live {
            proof {
                self@.lemma_release_closed(k, handle);
            }
            self.release_slot(handle.slot, Ghost(k));
            Ok(())
        } else if self.is_free_at(handle.offset) {
            Err(AllocError::DoubleFree)
        } else {
            Err(AllocError::InvalidHandle)
        }
    }

    /// Puts the block that `handle` names under `tag`. The block is neither
    /// moved nor resized. Fails with `InvalidHandle` if `handle` names no
    /// block in use.
    pub fn change_tag(&mut self, handle: BlockHandle, tag: PurgeTag) -> (r: Result<
        (),
        AllocError,
    >)
        requires
            old(self).wf(),
        ensures
            final(self).wf(),
            match r {
                Ok(_) => {
                    &&& old(self)@.owns(handle)
                    &&& final(self)@ == old(self)@.retag(old(self)@.index_of(handle), tag)
                },
                Err(e) => {
                    &&& e == AllocError::InvalidHandle
                    &&& !old(self)@.owns(handle)
                    &&& *final(self) == *old(self)
                },
            },
    {
        let (live, Ghost(k)) = self.locate(handle);
        if !live {
            return Err(AllocError::InvalidHandle);
        }
        let ghost before = *self;
        let mut node = self.slots[handle.slot];
        node.metadata.tag = Some(tag);
        self.slots.set(handle.slot, node);
        proof {
            let order = self.order@;
            assert(before@.blocks[k] == before.span_of(handle.slot as int));
            assert forall|i: int| 0 <= i < order.len() implies #[trigger] self.linked_at(i) by {
                assert(before.linked_at(i));
            }
            assert forall|j: int| 0 <= j < self.spare@.len() implies #[trigger] self.spare_at(
                j,
            ) by {
                assert(before.spare_at(j));
            }
            assert forall|x: int|
                0 <= x < self.slots.len() && (#[trigger] self.slots[x]).metadata.tag is Some
                implies order.contains(x as usize) by {
                assert(before.slots[x].metadata.tag is Some);
            }
            assert(self@.blocks =~= before@.retag(k, tag).blocks) by {
                assert forall|i: int| 0 <= i < order.len() && i != k implies self.span_of(
                    order[i] as int,
                ) == before.span_of(order[i] as int) by {
                    assert(before.linked_at(i));
                    assert(order[i] != order[k]);
                }
            }
            before@.lemma_retag_wf(k, tag);
        }
        Ok(())
    }

    /// Releases every block in use under a tag whose value is at least
    /// `threshold`, in address order, merging as it goes. Returns the
    /// number of blocks released.
    pub fn purge(&mut self, threshold: u8) -> (evicted: usize)
        requires
            old(self).wf(),
        ensures
            final(self).wf(),
            final(self)@ == old(self)@.purge(threshold),
            evicted == old(self)@.doomed_count(threshold),
            !final(self)@.has_doomed(threshold),
            forall|b: Span| #[trigger]
                old(self)@.blocks.contains(b) && !b.is_free() && !b.doomed(threshold)
                    ==> final(self)@.blocks.contains(b),
    {

        let mut evicted: usize = 0;
        let mut cur: usize = 0;
        let ghost mut pos: int = 0;
        proof {
            crate::span::lemma_count_bound(self@.blocks, crate::span::doomed_by(threshold));
        }
        loop
            invariant
                self.wf(),
                0 <= pos < self.order@.len(),
                self.order@[pos] == cur,
                forall|j: int| j < pos ==> !#[trigger] self@.doomed_at(j, threshold),
                self@.purge(threshold) == old(self)@.purge(threshold),
                evicted + self@.doomed_count(threshold) == old(self)@.doomed_count(threshold),
                old(self)@.doomed_count(threshold) <= old(self).order@.len(),
                old(self).linked(),
            decreases self@.used_count(), self.order@.len() - pos,
        {
            proof {
                assert(self.linked_at(pos));
                assert(self@.blocks[pos] == self.span_of(cur as int));
            }
            let node = self.slots[cur];
            let doomed = match node.metadata.tag {
                Some(tag) => tag.value() >= threshold,
                None => false,
            };
            if doomed {
                proof {
                    assert(self@.doomed_at(pos, threshold));
                    assert(self@.is_first_doomed(pos, threshold));
                    self@.lemma_first_doomed_exists(threshold);
                    self@.lemma_release_used_count(pos);
                    self@.lemma_release_doomed_count(pos, threshold);
                    self@.lemma_release_form(pos);
                }
                let ghost now = *self;
                let (left, Ghost(lo)) = self.release_slot(cur, Ghost(pos));
                evicted = evicted + 1;
                cur = left;
                proof {
                    assert forall|j: int| j < lo implies !#[trigger] self@.doomed_at(
                        j,
                        threshold,
                    ) by {
                        if 0 <= j {
                            assert(self@.blocks[j] == now@.blocks[j]);
                            assert(!now@.doomed_at(j, threshold));
                        }
                    }
                    pos = lo;
                }
            } else {
                match node.next {
                    Some(u) => {
                        cur = u;
                        proof {
                            pos = pos + 1;
                        }
                    },
                    None => {
                        proof {
                            assert forall|j: int| !self@.doomed_at(j, threshold) by {
                                if j < pos {
                                    assert(!self@.doomed_at(j, threshold));
                                }
                            }
                            assert forall|i: int| 0 <= i < self@.blocks.len() implies !(
                            crate::span::doomed_by(threshold))(#[trigger] self@.blocks[i]) by {
                                assert(!self@.doomed_at(i, threshold));
                            }
                            crate::span::lemma_count_zero(
                                self@.blocks,
                                crate::span::doomed_by(threshold),
                            );
                            old(self)@.lemma_purge_clean(threshold);
                            assert forall|b: Span| #[trigger]
                                old(self)@.blocks.contains(b) && !b.is_free() && !b.doomed(
                                    threshold,
                                ) implies self@.blocks.contains(b) by {
                                old(self)@.lemma_purge_keeps(threshold, b);
                            }
                        }
                        return evicted;
                    },
                }
            }
        }
    }

    /// Whether `handle` names a block in use.
    pub fn is_valid(&self, handle: BlockHandle) -> (live: bool)
        requires
            self.wf(),
        ensures
            live == self@.owns(handle),
    {
        self.locate(handle).0
    }

    /// Length in bytes of the block that `handle` names. Fails with
    /// `InvalidHandle` if `handle` names no block in use.
    pub fn size_of(&self, handle: BlockHandle) -> (r: Result<usize, AllocError>)
        requires
            self.wf(),
        ensures
            match r {
                Ok(size) => self@.owns(handle) && size == self@.block_of(handle).size,
                Err(e) => e == AllocError::InvalidHandle && !self@.owns(handle),
            },
    {
        let (live, Ghost(k)) = self.locate(handle);
        if !live {
            return Err(AllocError::InvalidHandle);
        }
        proof {
            assert(self@.blocks[k] == self.span_of(handle.slot as int));
        }
        Ok(self.slots[handle.slot].metadata.size)
    }

    /// The tag of the block that `handle` names. Fails with `InvalidHandle`
    /// if `handle` names no block in use.
    pub fn tag_of(&self, handle: BlockHandle) -> (r: Result<PurgeTag, AllocError>)
        requires
            self.wf(),
        ensures
            match r {
                Ok(tag) => self@.owns(handle) && Some(tag) == self@.block_of(handle).tag(),
                Err(e) => e == AllocError::InvalidHandle && !self@.owns(handle),
            },
    {
        let (live, Ghost(k)) = self.locate(handle);
        if !live {
            return Err(AllocError::InvalidHandle);
        }
        proof {
            assert(self@.blocks[k] == self.span_of(handle.slot as int));
        }
        match self.slots[handle.slot].metadata.tag {
            Some(tag) => Ok(tag),
            None => Err(AllocError::InvalidHandle),
        }
    }

    /// Byte `index` of the block that `handle` names. Fails with
    /// `InvalidHandle` if `handle` names no block in use, or one of `index`
    /// bytes or fewer.
    pub fn read(&self, handle: BlockHandle, index: usize) -> (r: Result<u8, AllocError>)
        requires
            self.wf(),
        ensures
            match r {
                Ok(value) => {
                    &&& self@.owns(handle)
                    &&& index < self@.block_of(handle).size
                    &&& value == self@.bytes[self@.block_of(handle).offset + index]
                },
                Err(e) => {
                    &&& e == AllocError::InvalidHandle
                    &&& !(self@.owns(handle) && index < self@.block_of(handle).size)
                },
            },
    {
        let (live, Ghost(k)) = self.locate(handle);
        if !live {
            return Err(AllocError::InvalidHandle);
        }
        proof {
            assert(self@.blocks[k] == self.span_of(handle.slot as int));
            self@.lemma_tiled_bound(k);
        }
        let node = self.slots[handle.slot];
        if index >= node.metadata.size {
            return Err(AllocError::InvalidHandle);
        }
        Ok(self.arena[node.offset + index])
    }

    /// Sets byte `index` of the block that `handle` names to `value`. Fails
    /// with `InvalidHandle` if `handle` names no block in use, or one of
    /// `index` bytes or fewer.
    pub fn write(&mut self, handle: BlockHandle, index: usize, value: u8) -> (r: Result<
        (),
        AllocError,
    >)
        requires
            old(self).wf(),
        ensures
            final(self).wf(),
            match r {
                Ok(_) => {
                    &&& old(self)@.owns(handle)
                    &&& index < old(self)@.block_of(handle).size
                    &&& final(self)@ == old(self)@.store(
                        old(self)@.index_of(handle),
                        index as nat,
                        value,
                    )
                },
                Err(e) => {
                    &&& e == AllocError::InvalidHandle
                    &&& !(old(self)@.owns(handle) && index < old(self)@.block_of(handle).size)
                    &&& *final(self) == *old(self)
                },
            },
    {
        let (live, Ghost(k)) = self.locate(handle);
        if !live {
            return Err(AllocError::InvalidHandle);
        }
        proof {
            assert(self@.blocks[k] == self.span_of(handle.slot as int));
            self@.lemma_tiled_bound(k);
        }
        let node = self.slots[handle.slot];
        if index >= node.metadata.size {
            return Err(AllocError::InvalidHandle);
        }
        let ghost before = *self;
        self.arena.set(node.offset + index, value);
        proof {
            let order = self.order@;
            assert forall|i: int| 0 <= i < order.len() implies #[trigger] self.linked_at(i) by {
                assert(before.linked_at(i));
            }
            assert forall|j: int| 0 <= j < self.spare@.len() implies #[trigger] self.spare_at(
                j,
            ) by {
                assert(before.spare_at(j));
            }
            assert(self@.blocks =~= before@.blocks);
            assert(self@.bytes =~= before@.store(k, index as nat, value).bytes);
            before@.lemma_store_wf(k, index as nat, value);
        }
        Ok(())
    }

    /// The blocks of the arena, in address order.
    pub fn blocks(&self) -> (list: Vec<Block>)
        requires
            self.wf(),
        ensures
            list@.len() == self@.blocks.len(),
            forall|i: int|
                0 <= i < list@.len() ==> {
                    &&& (#[trigger] list@[i]).offset() == self@.blocks[i].offset
                    &&& list@[i].size() == self@.blocks[i].size
                    &&& list@[i].tag() == self@.blocks[i].tag()
                },
    {
        let ghost n = self.order@.len() as int;
        let mut list: Vec<Block> = Vec::new();
        let mut cur: usize = 0;
        let ghost mut pos: int = 0;
        loop
            invariant
                self.wf(),
                n == self.order@.len(),
                0 <= pos < n,
                self.order@[pos] == cur,
                list@.len() == pos,
                forall|i: int|
                    0 <= i < pos ==> {
                        &&& (#[trigger] list@[i]).offset() == self@.blocks[i].offset
                        &&& list@[i].size() == self@.blocks[i].size
                        &&& list@[i].tag() == self@.blocks[i].tag()
                    },
            decreases n - pos,
        {
            proof {
                assert(self.linked_at(pos));
                assert(self@.blocks[pos] == self.span_of(cur as int));
            }
            let node = self.slots[cur];
            list.push(node);
            match node.next {
                Some(u) => {
                    cur = u;
                    proof {
                        pos = pos + 1;
                    }
                },
                None => {
                    return list;
                },
            }
        }
    }

    /// Number of bytes in the arena.
    pub fn capacity(&self) -> (capacity: usize)
        ensures
            capacity == self@.capacity(),
    {
        self.arena.len()
    }
}

} // verus!
