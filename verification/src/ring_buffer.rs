//! Buffers of values stored in fixed-size blocks that are linked one to the next and
//! taken from a shared allocator.
use vstd::prelude::*;
use crate::heap_allocator::HeapAllocator;

verus! {

/// Hands out the blocks of ring buffers; every block holds at most `block_size` values.
pub struct RingBufferAllocator<T> {
    blocks: HeapAllocator<Block<T>>,
    block_size: usize,
}

/// A buffer: where its first and last blocks are, and how far the last one is filled.
pub struct RingBuffer {
    start_id: usize,
    start_idx: usize,
    end_id: usize,
    end_idx: usize,
    len: usize,
}

struct Block<T> {
    values: Vec<T>,
    next_id: usize,
}

/// The number that stands for "no block".
pub open spec fn no_block() -> usize {
    usize::MAX
}

impl<T> RingBufferAllocator<T> {
    /// The most values a block holds.
    pub closed spec fn block_size(&self) -> nat {
        self.block_size as nat
    }

    /// Block `id` is in use.
    pub closed spec fn has_block(&self, id: usize) -> bool {
        id < self.blocks.slots().len() && self.blocks.slots()[id as int] is Some
    }

    /// The values in block `id`.
    pub closed spec fn block_items(&self, id: usize) -> Seq<T> {
        self.blocks.slots()[id as int]->0.values@
    }

    /// The block that follows block `id`.
    pub closed spec fn next_block(&self, id: usize) -> usize {
        self.blocks.slots()[id as int]->0.next_id
    }

    /// Internal consistency, and blocks that can hold something.
    pub closed spec fn wf(&self) -> bool {
        &&& self.blocks.wf()
        &&& self.block_size > 0
    }

    /// The values of the blocks `ids`, in order.
    pub open spec fn run_items(&self, ids: Seq<usize>) -> Seq<T>
        decreases ids.len(),
    {
        if ids.len() == 0 {
            Seq::empty()
        } else {
            self.run_items(ids.drop_last()) + self.block_items(ids.last())
        }
    }

    /// `ids` are blocks in use, each linked to the next, all full but the last, which is
    /// not.
    pub open spec fn chained(&self, ids: Seq<usize>) -> bool {
        &&& ids.len() > 0
        &&& ids.no_duplicates()
        &&& forall|i: int| 0 <= i < ids.len() ==> self.has_block(#[trigger] ids[i])
        &&& forall|i: int| 0 <= i < ids.len() - 1 ==> self.next_block(#[trigger] ids[i]) == ids[i + 1]
        &&& forall|i: int| 0 <= i < ids.len() - 1 ==> self.block_items(#[trigger] ids[i]).len() == self.block_size()
        &&& self.block_items(ids.last()).len() < self.block_size()
    }

    /// An allocator whose blocks hold up to `block_size` values.
    pub fn new(block_size: usize) -> (r: Self)
        requires
            block_size > 0,
        ensures
            r.wf(),
            r.block_size() == block_size,
            forall|id: usize| !r.has_block(id),
    {
        RingBufferAllocator { blocks: HeapAllocator::new(), block_size }
    }

    /// The values in block `id`.
    pub fn block_values(&self, id: usize) -> (r: &Vec<T>)
        requires
            self.has_block(id),
        ensures
            r@ == self.block_items(id),
    {
        &self.blocks.get(id).values
    }

    /// The block that follows block `id`, or `no_block()`.
    pub fn next_block_id(&self, id: usize) -> (r: usize)
        requires
            self.has_block(id),
        ensures
            r == self.next_block(id),
    {
        self.blocks.get(id).next_id
    }

    /// A new, empty buffer, with no block yet; its first `extend` opens one.
    pub fn new_buffer(&mut self) -> (r: RingBuffer)
        ensures
            *final(self) == *old(self),
            r.fits(final(self)),
            r.end_block() == no_block(),
            r.start_block() == no_block(),
            r.len() == 0,
    {
        RingBuffer { start_id: usize::MAX, start_idx: usize::MAX, end_id: usize::MAX, end_idx: usize::MAX, len: 0 }
    }
}

impl RingBuffer {
    /// The number of the buffer's last block, or `no_block()`.
    pub fn end_block_id(&self) -> (r: usize)
        ensures
            r == self.end_block(),
    {
        self.end_id
    }

    /// The buffer's last block, or `no_block()`.
    pub closed spec fn end_block(&self) -> usize {
        self.end_id
    }

    /// The buffer's first block, or `no_block()`.
    pub closed spec fn start_block(&self) -> usize {
        self.start_id
    }

    /// The length the buffer records.
    pub closed spec fn len(&self) -> nat {
        self.len as nat
    }

    /// The buffer agrees with `alloc`: it has no block yet, or its last block is in use
    /// and the buffer knows how far it is filled.
    pub closed spec fn fits<T>(&self, alloc: &RingBufferAllocator<T>) -> bool {
        ||| self.end_id == usize::MAX && self.end_idx >= alloc.block_size
        ||| {
            &&& self.end_id != usize::MAX
            &&& alloc.has_block(self.end_id)
            &&& alloc.block_items(self.end_id).len() == self.end_idx
            &&& self.end_idx <= alloc.block_size
        }
    }

    /// What the buffer's last block holds before more values are added.
    pub open spec fn tail_items<T>(&self, alloc: &RingBufferAllocator<T>) -> Seq<T> {
        if self.end_block() == no_block() {
            Seq::empty()
        } else {
            alloc.block_items(self.end_block())
        }
    }
}

/// The values of blocks whose values did not change did not change.
proof fn lemma_run_items_frame<T>(a1: &RingBufferAllocator<T>, a2: &RingBufferAllocator<T>, ids: Seq<usize>)
    requires
        forall|i: int| 0 <= i < ids.len() ==> a1.block_items(#[trigger] ids[i]) == a2.block_items(ids[i]),
    ensures
        a1.run_items(ids) == a2.run_items(ids),
    decreases ids.len(),
{
    if ids.len() > 0 {
        let init = ids.drop_last();
        assert forall|i: int| 0 <= i < init.len() implies a1.block_items(#[trigger] init[i]) == a2.block_items(init[i]) by {
            assert(init[i] == ids[i]);
        }
        lemma_run_items_frame(a1, a2, init);
    }
}

impl RingBuffer {
    /// Appends `values` to the buffer: they fill its last block, then as many new blocks
    /// as they need, each linked from the one before. When the values fill the last
    /// block exactly, a new empty block is linked after it.
    #[verifier::spinoff_prover]
    #[verifier::rlimit(100)]
    pub fn extend<T>(&mut self, alloc: &mut RingBufferAllocator<T>, values: Vec<T>)
        requires
            old(alloc).wf(),
            old(self).fits(old(alloc)),
        ensures
            final(alloc).wf(),
            final(self).fits(final(alloc)),
            final(alloc).block_size() == old(alloc).block_size(),
            final(self).start_block() == old(self).start_block(),
            final(self).len() == old(self).len(),
            exists|ids: Seq<usize>|
                {
                    &&& final(alloc).chained(ids)
                    &&& ids.last() == final(self).end_block()
                    &&& old(self).end_block() != no_block() ==> ids[0] == old(self).end_block()
                    &&& final(alloc).run_items(ids) == old(self).tail_items(old(alloc)) + values@
                    &&& forall|i: int|
                        0 <= i < ids.len() && ids[i] != old(self).end_block() ==> !old(alloc).has_block(#[trigger] ids[i])
                },
            forall|id: usize|
                old(alloc).has_block(id) && id != old(self).end_block() ==> {
                    &&& final(alloc).has_block(id)
                    &&& final(alloc).block_items(id) == old(alloc).block_items(id)
                    &&& final(alloc).next_block(id) == old(alloc).next_block(id)
                },
    {
        let ghost a0 = *alloc;
        let ghost old_end = self.end_id;
        let ghost prior = self.tail_items(alloc);
        let ghost mut ids: Seq<usize> = if self.end_id == usize::MAX {
            Seq::empty()
        } else {
            seq![self.end_id]
        };
        let mut rest = values;
        proof {
            if old_end != usize::MAX {
                assert(ids.drop_last() =~= Seq::<usize>::empty());
                assert(alloc.run_items(ids) == alloc.run_items(Seq::<usize>::empty()) + alloc.block_items(old_end));
                assert(alloc.run_items(Seq::<usize>::empty()) =~= Seq::<T>::empty());
                assert(alloc.run_items(ids) =~= prior);
            } else {
                assert(alloc.run_items(ids) =~= Seq::<T>::empty());
            }
            assert(alloc.run_items(ids) + rest@ =~= prior + values@);
        }
        loop
            invariant
                alloc.wf(),
                alloc.block_size == a0.block_size,
                self.start_id == old(self).start_id,
                self.len == old(self).len,
                self.fits(alloc),
                old_end == old(self).end_id,
                self.end_id == usize::MAX ==> ids.len() == 0,
                self.end_id != usize::MAX ==> ids.len() > 0 && ids.last() == self.end_id,
                old_end != usize::MAX ==> ids.len() > 0 && ids[0] == old_end,
                ids.no_duplicates(),
                forall|i: int| 0 <= i < ids.len() ==> alloc.has_block(#[trigger] ids[i]),
                forall|i: int| 0 <= i < ids.len() - 1 ==> alloc.next_block(#[trigger] ids[i]) == ids[i + 1],
                forall|i: int| 0 <= i < ids.len() - 1 ==> alloc.block_items(#[trigger] ids[i]).len() == alloc.block_size(),
                forall|i: int| 0 <= i < ids.len() && ids[i] != old_end ==> !a0.has_block(#[trigger] ids[i]),
                alloc.run_items(ids) + rest@ == prior + values@,
                forall|id: usize|
                    a0.has_block(id) && id != old_end ==> {
                        &&& alloc.has_block(id)
                        &&& alloc.block_items(id) == a0.block_items(id)
                        &&& alloc.next_block(id) == a0.next_block(id)
                    },
            ensures
                alloc.wf(),
                alloc.block_size == a0.block_size,
                self.start_id == old(self).start_id,
                self.len == old(self).len,
                self.fits(alloc),
                self.end_id != usize::MAX,
                ids.len() > 0 && ids.last() == self.end_id,
                old_end != usize::MAX ==> ids[0] == old_end,
                alloc.chained(ids),
                forall|i: int| 0 <= i < ids.len() && ids[i] != old_end ==> !a0.has_block(#[trigger] ids[i]),
                alloc.run_items(ids) == prior + values@,
                forall|id: usize|
                    a0.has_block(id) && id != old_end ==> {
                        &&& alloc.has_block(id)
                        &&& alloc.block_items(id) == a0.block_items(id)
                        &&& alloc.next_block(id) == a0.next_block(id)
                    },
            decreases 2 * rest@.len() + (if self.end_idx >= alloc.block_size {
                1int
            } else {
                0int
            }),
        {
            if self.end_idx >= alloc.block_size {
                let ghost a1 = *alloc;
                let new_id = alloc.blocks.push(Block { values: Vec::new(), next_id: usize::MAX });
                proof {
                    if a1.blocks.free_set().len() > 0 {
                        a1.blocks.lemma_free_slots_empty(new_id);
                    }
                    assert(!a1.has_block(new_id));
                    assert forall|i: int| 0 <= i < ids.len() implies alloc.block_items(#[trigger] ids[i]) == a1.block_items(ids[i]) by {
                        assert(ids[i] != new_id);
                    }
                }
                if self.end_id != usize::MAX {
                    let b = alloc.blocks.get_mut(self.end_id);
                    b.next_id = new_id;
                }
                proof {
                    let a2 = *alloc;
                    assert forall|i: int| 0 <= i < ids.len() implies a2.block_items(#[trigger] ids[i]) == a1.block_items(ids[i]) by {
                        assert(ids[i] != new_id);
                    }
                    lemma_run_items_frame(&a2, &a1, ids);
                    let ids2 = ids.push(new_id);
                    assert(ids2.drop_last() =~= ids);
                    assert(a2.block_items(new_id) =~= Seq::<T>::empty());
                    assert(a2.run_items(ids2) =~= a1.run_items(ids));
                    assert forall|i: int| 0 <= i < ids2.len() - 1 implies a2.next_block(#[trigger] ids2[i]) == ids2[i + 1] by {
                        assert(ids2[i] == ids[i]);
                        if i < ids.len() - 1 {
                            assert(ids[i] != self.end_id);
                        }
                    }
                    assert forall|i: int| 0 <= i < ids2.len() - 1 implies a2.block_items(#[trigger] ids2[i]).len() == a2.block_size() by {
                        assert(ids2[i] == ids[i]);
                    }
                    assert forall|i: int| 0 <= i < ids2.len() implies a2.has_block(#[trigger] ids2[i]) by {
                        if i < ids.len() {
                            assert(ids2[i] == ids[i]);
                        }
                    }
                    assert forall|i: int| 0 <= i < ids2.len() && ids2[i] != old_end implies !a0.has_block(#[trigger] ids2[i]) by {
                        if i < ids.len() {
                            assert(ids2[i] == ids[i]);
                        } else {
                            assert(ids2[i] == new_id);
                            if a0.has_block(new_id) && new_id != old_end {
                                assert(a1.has_block(new_id));
                            }
                        }
                    }
                    assert forall|a: int, b: int| 0 <= a < b < ids2.len() implies ids2[a] != ids2[b] by {
                        if b == ids.len() {
                            assert(a1.has_block(ids[a]));
                        } else {
                            assert(ids2[a] == ids[a] && ids2[b] == ids[b]);
                        }
                    }
                    ids = ids2;
                }
                self.end_id = new_id;
                self.end_idx = 0;
            }
            let ghost a3 = *alloc;
            let filled = alloc.blocks.get(self.end_id).values.len();
            let n_open = alloc.block_size - filled;
            let at = if n_open < rest.len() {
                n_open
            } else {
                rest.len()
            };
            let tail = rest.split_off(at);
            let mut chunk = rest;
            rest = tail;
            let ghost chunk0 = chunk@;
            let b = alloc.blocks.get_mut(self.end_id);
            b.values.append(&mut chunk);
            self.end_idx = b.values.len();
            proof {
                let a4 = *alloc;
                let last = ids.last();
                assert(a4.block_items(last) == a3.block_items(last) + chunk0);
                assert forall|i: int| 0 <= i < ids.len() - 1 implies a4.block_items(#[trigger] ids[i]) == a3.block_items(ids[i]) by {
                    assert(ids[i] != last);
                }
                lemma_run_items_frame(&a4, &a3, ids.drop_last());
                assert(a4.run_items(ids) == a4.run_items(ids.drop_last()) + a4.block_items(last));
                assert(a3.run_items(ids) == a3.run_items(ids.drop_last()) + a3.block_items(last));
            }
            if self.end_idx < alloc.block_size {
                proof {
                    assert(rest@.len() == 0);
                    assert(alloc.run_items(ids) =~= prior + values@);
                }
                break;
            }
        }
        proof {
            let ids_final = ids;
            assert(alloc.chained(ids_final));
        }
    }
}

} // verus!
