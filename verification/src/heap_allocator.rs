use vstd::prelude::*;

verus! {

/// The index of the parent of node `i` in an array-embedded binary heap.
pub open spec fn heap_parent(i: int) -> int {
    (i - 1) / 2
}

/// `h` is a min-heap: no element is smaller than its parent.
pub open spec fn is_min_heap(h: Seq<usize>) -> bool {
    forall|i: int| 0 < i < h.len() ==> h[heap_parent(i)] <= #[trigger] h[i]
}

/// `m` is the smallest element of `s`.
pub open spec fn is_least(s: Set<usize>, m: usize) -> bool {
    &&& s.contains(m)
    &&& forall|x: usize| s.contains(x) ==> m <= x
}

/// Heap property everywhere except between `idx` and its parent, and the parent of
/// `idx` is no larger than the children of `idx` (the state while sifting up).
spec fn sift_up_inv(h: Seq<usize>, idx: int) -> bool {
    &&& 0 <= idx < h.len()
    &&& forall|i: int| 0 < i < h.len() && i != idx ==> h[heap_parent(i)] <= #[trigger] h[i]
    &&& idx > 0 ==> forall|c: int|
        0 < c < h.len() && heap_parent(c) == idx ==> h[heap_parent(idx)] <= #[trigger] h[c]
}

/// Heap property everywhere except between `idx` and its children, and the parent of
/// `idx` is no larger than the children of `idx` (the state while sifting down).
spec fn sift_down_inv(h: Seq<usize>, idx: int) -> bool {
    &&& 0 <= idx
    &&& (h.len() > 0 ==> idx < h.len())
    &&& forall|i: int| 0 < i < h.len() && heap_parent(i) != idx ==> h[heap_parent(i)] <= #[trigger] h[i]
    &&& idx > 0 ==> forall|c: int|
        0 < c < h.len() && heap_parent(c) == idx ==> h[heap_parent(idx)] <= #[trigger] h[c]
}

/// The root of a non-empty min-heap is its smallest element.
proof fn lemma_heap_root_is_min(h: Seq<usize>, i: int)
    requires
        is_min_heap(h),
        0 <= i < h.len(),
    ensures
        h[0] <= h[i],
    decreases i,
{
    if i > 0 {
        lemma_heap_root_is_min(h, heap_parent(i));
    }
}

/// Swapping two positions keeps the set of elements and their distinctness.
proof fn lemma_swap_keeps_set(h: Seq<usize>, i: int, j: int)
    requires
        0 <= i < h.len(),
        0 <= j < h.len(),
        h.no_duplicates(),
    ensures
        h.update(i, h[j]).update(j, h[i]).to_set() =~= h.to_set(),
        h.update(i, h[j]).update(j, h[i]).no_duplicates(),
        h.update(i, h[j]).update(j, h[i]).len() == h.len(),
{
    let g = h.update(i, h[j]).update(j, h[i]);
    assert forall|x: usize| g.to_set().contains(x) implies h.to_set().contains(x) by {
        let k = choose|k: int| 0 <= k < g.len() && g[k] == x;
        if k == i {
            assert(h[j] == x);
        } else if k == j {
            assert(h[i] == x);
        } else {
            assert(h[k] == x);
        }
    }
    assert forall|x: usize| h.to_set().contains(x) implies g.to_set().contains(x) by {
        let k = choose|k: int| 0 <= k < h.len() && h[k] == x;
        if k == i {
            assert(g[j] == x);
        } else if k == j {
            assert(g[i] == x);
        } else {
            assert(g[k] == x);
        }
    }
}

/// Swapping `idx` with its larger parent moves the sift-up position to the parent.
proof fn lemma_sift_up_step(h: Seq<usize>, idx: int)
    requires
        sift_up_inv(h, idx),
        idx > 0,
        h[idx] < h[heap_parent(idx)],
    ensures
        sift_up_inv(h.update(idx, h[heap_parent(idx)]).update(heap_parent(idx), h[idx]), heap_parent(idx)),
{
    let p = heap_parent(idx);
    let g = h.update(idx, h[p]).update(p, h[idx]);
    assert forall|i: int| 0 < i < g.len() && i != p implies g[heap_parent(i)] <= #[trigger] g[i] by {
        if i == idx {
        } else if heap_parent(i) == idx {
            assert(h[p] <= h[i]);
        } else if heap_parent(i) == p {
            assert(h[p] <= h[i]);
        } else {
            assert(h[heap_parent(i)] <= h[i]);
        }
    }
    if p > 0 {
        assert forall|c: int| 0 < c < g.len() && heap_parent(c) == p implies g[heap_parent(p)] <= #[trigger] g[c] by {
            assert(h[heap_parent(p)] <= h[p]);
            if c != idx {
                assert(h[p] <= h[c]);
            }
        }
    }
}

/// When `idx` is no smaller than its parent, sifting up is done.
proof fn lemma_sift_up_done(h: Seq<usize>, idx: int)
    requires
        sift_up_inv(h, idx),
        idx == 0 || h[heap_parent(idx)] <= h[idx],
    ensures
        is_min_heap(h),
{
    assert forall|i: int| 0 < i < h.len() implies h[heap_parent(i)] <= #[trigger] h[i] by {
        if i != idx {
        }
    }
}

/// Swapping `idx` with its smaller child `s` moves the sift-down position to `s`.
proof fn lemma_sift_down_step(h: Seq<usize>, idx: int, s: int)
    requires
        sift_down_inv(h, idx),
        0 < s < h.len(),
        heap_parent(s) == idx,
        h[s] < h[idx],
        forall|c: int| 0 < c < h.len() && heap_parent(c) == idx ==> h[s] <= #[trigger] h[c],
    ensures
        sift_down_inv(h.update(idx, h[s]).update(s, h[idx]), s),
{
    let g = h.update(idx, h[s]).update(s, h[idx]);
    assert forall|i: int| 0 < i < g.len() && heap_parent(i) != s implies g[heap_parent(i)] <= #[trigger] g[i] by {
        if i == idx {
        } else if heap_parent(i) == idx {
            assert(h[s] <= h[i]);
        } else {
            assert(h[heap_parent(i)] <= h[i]);
        }
    }
    assert forall|c: int| 0 < c < g.len() && heap_parent(c) == s implies g[heap_parent(s)] <= #[trigger] g[c] by {
        assert(h[s] <= h[c]);
    }
}

/// When no child of `idx` is smaller than it, sifting down is done.
proof fn lemma_sift_down_done(h: Seq<usize>, idx: int)
    requires
        sift_down_inv(h, idx),
        forall|c: int| 0 < c < h.len() && heap_parent(c) == idx ==> h[idx] <= #[trigger] h[c],
    ensures
        is_min_heap(h),
{
    assert forall|i: int| 0 < i < h.len() implies h[heap_parent(i)] <= #[trigger] h[i] by {
        if heap_parent(i) == idx {
        }
    }
}

/// Every element of `h` names an existing, empty slot of `v`.
spec fn names_empty_slots<T>(h: Seq<usize>, v: Seq<Option<T>>) -> bool {
    forall|x: usize| #[trigger] h.to_set().contains(x) ==> x < v.len() && v[x as int] is None
}

/// A slot allocator: values live in numbered slots, freed slot numbers are kept in a
/// min-heap and the smallest freed slot is reused first.
pub struct HeapAllocator<T> {
    values: Vec<Option<T>>,
    free_heap: Vec<usize>,
}

impl<T> HeapAllocator<T> {
    /// The slots, each empty (`None`) or holding a value.
    pub closed spec fn slots(&self) -> Seq<Option<T>> {
        self.values@
    }

    /// The slot numbers that are waiting to be reused.
    pub closed spec fn free_set(&self) -> Set<usize> {
        self.free_heap@.to_set()
    }

    /// Internal consistency: the free list is a min-heap of distinct slot numbers,
    /// each naming an existing, empty slot.
    pub closed spec fn wf(&self) -> bool {
        &&& is_min_heap(self.free_heap@)
        &&& self.free_heap@.no_duplicates()
        &&& names_empty_slots(self.free_heap@, self.values@)
    }

    /// Every freed slot number names an existing, empty slot.
    pub proof fn lemma_free_slots_empty(&self, i: usize)
        requires
            self.wf(),
            self.free_set().contains(i),
        ensures
            i < self.slots().len(),
            self.slots()[i as int] is None,
    {
    }

    /// The free set is finite.
    pub proof fn lemma_free_set_finite(&self)
        ensures
            self.free_set().finite(),
    {
        broadcast use vstd::seq_lib::seq_to_set_is_finite;

    }

    /// `after` is `before` with `value` stored by `push` in slot `idx`: the smallest freed
    /// slot when one is free, else a new slot at the end.
    pub open spec fn pushed(before: &Self, after: &Self, value: T, idx: usize) -> bool {
        &&& idx < after.slots().len() <= usize::MAX
        &&& after.slots().len() >= before.slots().len()
        &&& before.free_set().len() == 0 ==> idx == before.slots().len() && after.slots() == before.slots().push(
            Some(value),
        ) && after.free_set() == before.free_set()
        &&& before.free_set().len() > 0 ==> is_least(before.free_set(), idx) && after.slots()
            == before.slots().update(idx as int, Some(value)) && after.free_set() == before.free_set().remove(idx)
    }

    /// `after` is `before` with slot `idx` emptied by `free` and its number made free.
    pub open spec fn freed(before: &Self, after: &Self, idx: usize) -> bool {
        &&& idx < before.slots().len()
        &&& after.slots() == before.slots().update(idx as int, None)
        &&& after.free_set() == before.free_set().insert(idx)
    }

    /// What `push` stores is in the slot it returns, where `get` reads it, and it stays
    /// there until that slot is freed: a later `push` goes to another slot and leaves it
    /// in place, and so does the `free` of another slot.
    pub proof fn lemma_stored_value_stays(a: &Self, b: &Self, i: usize, v: T)
        requires
            a.wf(),
            i < a.slots().len(),
            a.slots()[i as int] == Some(v),
        ensures
            forall|w: T, j: usize| #[trigger] Self::pushed(a, b, w, j) ==> b.slots()[j as int] == Some(w),
            forall|w: T, j: usize| #[trigger] Self::pushed(a, b, w, j) ==> j != i && b.slots()[i as int] == Some(v),
            forall|j: usize| #[trigger] Self::freed(a, b, j) && j != i ==> b.slots()[i as int] == Some(v),
    {
        a.lemma_free_set_finite();
        assert forall|w: T, j: usize| #[trigger] Self::pushed(a, b, w, j) implies j != i && b.slots()[i as int] == Some(v) by {
            if a.free_set().len() > 0 {
                a.lemma_free_slots_empty(j);
            }
        }
    }

    /// While slot `i` is free, `push` takes a slot no later than `i`: the smallest free one.
    pub proof fn lemma_freed_slot_reused_first(a: &Self, b: &Self, i: usize)
        requires
            a.wf(),
            a.free_set().contains(i),
        ensures
            a.free_set().len() > 0,
            forall|w: T, j: usize| #[trigger] Self::pushed(a, b, w, j) ==> j <= i && a.free_set().contains(j),
    {
        a.lemma_free_set_finite();
        vstd::set::axiom_set_contains_len(a.free_set(), i);
    }

    pub fn new() -> (res: Self)
        ensures
            res.wf(),
            res.slots() == Seq::<Option<T>>::empty(),
            res.free_set() == Set::<usize>::empty(),
    {
        let res = HeapAllocator { values: Vec::new(), free_heap: Vec::new() };
        assert(res.free_heap@.to_set() =~= Set::<usize>::empty());
        res
    }

    /// Stores `value` in the smallest freed slot, or in a new slot at the end when no
    /// slot is free, and returns the slot number.
    pub fn push(&mut self, value: T) -> (idx: usize)
        requires
            old(self).wf(),
        ensures
            final(self).wf(),
            Self::pushed(old(self), final(self), value, idx),
    {
        match self.pop_max_idx() {
            Some(idx) => {
                let ghost pre = self.values@;
                proof {
                    assert(old(self).free_set().contains(idx));
                }
                self.values.set(idx, Some(value));
                proof {
                    assert(self.values.len() == self.values@.len());
                    assert forall|x: usize| #[trigger] self.free_heap@.to_set().contains(x) implies x
                        < self.values@.len() && self.values@[x as int] is None by {
                        assert(pre[x as int] is None);
                    }
                }
                idx
            },
            None => {
                let ghost pre = self.values@;
                let idx = self.values.len();
                self.values.push(Some(value));
                proof {
                    assert(self.values.len() == self.values@.len());
                    assert forall|x: usize| #[trigger] self.free_heap@.to_set().contains(x) implies x
                        < self.values@.len() && self.values@[x as int] is None by {
                        assert(pre[x as int] is None);
                    }
                }
                idx
            },
        }
    }

    /// The value in an occupied slot.
    pub fn get(&self, idx: usize) -> (r: &T)
        requires
            idx < self.slots().len(),
            self.slots()[idx as int] is Some,
        ensures
            *r == self.slots()[idx as int].unwrap(),
    {
        self.values[idx].as_ref().unwrap()
    }

    /// Mutable access to the value in an occupied slot.
    pub fn get_mut(&mut self, idx: usize) -> (r: &mut T)
        requires
            idx < old(self).slots().len(),
            old(self).slots()[idx as int] is Some,
        ensures
            *r == old(self).slots()[idx as int].unwrap(),
            final(self).slots() == old(self).slots().update(idx as int, Some(*final(r))),
            final(self).free_set() == old(self).free_set(),
            old(self).wf() ==> final(self).wf(),
    {
        let slot = &mut self.values[idx];
        slot.as_mut().unwrap()
    }

    /// Empties an occupied slot and makes its number available for reuse.
    pub fn free(&mut self, idx: usize)
        requires
            old(self).wf(),
            idx < old(self).slots().len(),
            old(self).slots()[idx as int] is Some,
        ensures
            final(self).wf(),
            Self::freed(old(self), final(self), idx),
    {
        let ghost pre = self.values@;
        self.values.set(idx, None);
        proof {
            assert forall|x: usize| #[trigger] self.free_heap@.to_set().contains(x) implies x
                < self.values@.len() && self.values@[x as int] is None by {
                assert(pre[x as int] is None);
            }
        }
        self.push_idx(idx);
    }

    /// Adds the number of an existing, empty slot that is not yet free to the free list.
    pub fn push_idx(&mut self, value: usize)
        requires
            old(self).wf(),
            value < old(self).slots().len(),
            old(self).slots()[value as int] is None,
            !old(self).free_set().contains(value),
        ensures
            final(self).wf(),
            final(self).slots() == old(self).slots(),
            final(self).free_set() == old(self).free_set().insert(value),
    {
        let ghost h0 = self.free_heap@;
        self.free_heap.push(value);
        proof {
            let h = self.free_heap@;
            assert(h == h0.push(value));
            assert(h.to_set() =~= h0.to_set().insert(value)) by {
                assert(h[h.len() - 1] == value);
                assert forall|x: usize| #[trigger] h0.to_set().contains(x) implies h.to_set().contains(x) by {
                    let k = choose|k: int| 0 <= k < h0.len() && h0[k] == x;
                    assert(h[k] == x);
                }
                assert forall|x: usize| #[trigger] h.to_set().contains(x) implies h0.to_set().insert(value).contains(x) by {
                    let k = choose|k: int| 0 <= k < h.len() && h[k] == x;
                    if k < h0.len() {
                        assert(h0[k] == x);
                    }
                }
            }
            assert forall|i: int, j: int| 0 <= i < h.len() && 0 <= j < h.len() && i != j implies h[i] != h[j] by {
                if j == h.len() - 1 {
                    assert(h0.to_set().contains(h0[i]));
                } else if i == h.len() - 1 {
                    assert(h0.to_set().contains(h0[j]));
                }
            }
            assert(sift_up_inv(h, h.len() - 1));
        }
        let last = self.free_heap.len() - 1;
        self.heapify_up(last);
    }

    /// Removes and returns the smallest free slot number, if any. The slot itself is
    /// left empty.
    pub fn pop_max_idx(&mut self) -> (res: Option<usize>)
        requires
            old(self).wf(),
        ensures
            final(self).wf(),
            final(self).slots() == old(self).slots(),
            old(self).free_set().len() == 0 <==> res is None,
            res matches Some(m) ==> is_least(old(self).free_set(), m) && final(self).free_set()
                == old(self).free_set().remove(m),
            res is None ==> final(self).free_set() == old(self).free_set(),
    {
        proof {
            self.free_heap@.unique_seq_to_set();
        }
        if self.free_heap.is_empty() {
            proof {
                assert(self.free_heap@.to_set() =~= Set::<usize>::empty());
            }
            return None;
        }
        let ghost h0 = self.free_heap@;
        let max = self.free_heap[0];
        proof {
            assert(h0.to_set().contains(max));
            assert forall|x: usize| h0.to_set().contains(x) implies max <= x by {
                let k = choose|k: int| 0 <= k < h0.len() && h0[k] == x;
                lemma_heap_root_is_min(h0, k);
            }
        }
        let last = self.free_heap.pop().unwrap();
        if !self.free_heap.is_empty() {
            self.free_heap.set(0, last);
            proof {
                let h = self.free_heap@;
                assert(h.len() == h0.len() - 1);
                assert(forall|k: int| 0 < k < h.len() ==> h[k] == h0[k]);
                assert(h[0] == h0[h0.len() - 1]);
                assert forall|x: usize| #[trigger] h.to_set().contains(x) <==> h0.to_set().remove(max).contains(x) by {
                    if h.to_set().contains(x) {
                        let k = choose|k: int| 0 <= k < h.len() && h[k] == x;
                        if k == 0 {
                            assert(h0[h0.len() - 1] == x);
                        } else {
                            assert(h0[k] == x);
                        }
                    }
                    if h0.to_set().remove(max).contains(x) {
                        let k = choose|k: int| 0 <= k < h0.len() && h0[k] == x;
                        if k == h0.len() - 1 {
                            assert(h[0] == x);
                        } else {
                            assert(h[k] == x);
                        }
                    }
                }
                assert(h.to_set() =~= h0.to_set().remove(max));
                assert forall|i: int, j: int| 0 <= i < h.len() && 0 <= j < h.len() && i != j implies h[i] != h[j] by {
                    if i == 0 {
                        assert(h0[h0.len() - 1] != h0[j]);
                    } else if j == 0 {
                        assert(h0[h0.len() - 1] != h0[i]);
                    } else {
                        assert(h0[i] != h0[j]);
                    }
                }
                assert(sift_down_inv(h, 0)) by {
                    assert forall|i: int| 0 < i < h.len() && heap_parent(i) != 0 implies h[heap_parent(i)] <= #[trigger] h[i] by {
                        assert(h0[heap_parent(i)] <= h0[i]);
                    }
                }
                assert forall|x: usize| #[trigger] h.to_set().contains(x) implies x < self.values@.len()
                    && self.values@[x as int] is None by {
                    assert(h0.to_set().contains(x));
                }
            }
            self.heapify_down(0);
        } else {
            proof {
                assert(h0.len() == 1);
                assert(self.free_heap@.to_set() =~= h0.to_set().remove(max)) by {
                    assert forall|x: usize| h0.to_set().contains(x) implies x == max by {
                        let k = choose|k: int| 0 <= k < h0.len() && h0[k] == x;
                        assert(k == 0);
                    }
                }
                assert(is_min_heap(self.free_heap@));
            }
        }
        proof {
            vstd::set_lib::lemma_set_empty_equivalency_len(old(self).free_set());
        }
        Some(max)
    }

    /// Restores the heap property by moving the element at `index` towards the root.
    fn heapify_up(&mut self, index: usize)
        requires
            sift_up_inv(old(self).free_heap@, index as int),
            old(self).free_heap@.no_duplicates(),
            names_empty_slots(old(self).free_heap@, old(self).values@),
        ensures
            final(self).wf(),
            final(self).values@ == old(self).values@,
            final(self).free_heap@.to_set() == old(self).free_heap@.to_set(),
    {
        let mut index = index;
        while index > 0
            invariant
                sift_up_inv(self.free_heap@, index as int),
                self.free_heap@.no_duplicates(),
                self.free_heap@.to_set() == old(self).free_heap@.to_set(),
                self.values@ == old(self).values@,
                names_empty_slots(self.free_heap@, self.values@),
            decreases index,
        {
            let parent_index = (index - 1) / 2;
            if self.free_heap[index] < self.free_heap[parent_index] {
                let ghost h = self.free_heap@;
                let a = self.free_heap[index];
                let b = self.free_heap[parent_index];
                self.free_heap.set(index, b);
                self.free_heap.set(parent_index, a);
                proof {
                    lemma_swap_keeps_set(h, index as int, parent_index as int);
                    lemma_sift_up_step(h, index as int);
                    assert(self.free_heap@ == h.update(index as int, h[parent_index as int]).update(
                        parent_index as int,
                        h[index as int],
                    ));
                }
                index = parent_index;
            } else {
                proof {
                    lemma_sift_up_done(self.free_heap@, index as int);
                }
                return;
            }
        }
        proof {
            lemma_sift_up_done(self.free_heap@, index as int);
        }
    }

    /// Restores the heap property by moving the element at `index` towards the leaves.
    #[verifier::spinoff_prover]
    fn heapify_down(&mut self, index: usize)
        requires
            sift_down_inv(old(self).free_heap@, index as int),
            old(self).free_heap@.no_duplicates(),
            names_empty_slots(old(self).free_heap@, old(self).values@),
        ensures
            final(self).wf(),
            final(self).values@ == old(self).values@,
            final(self).free_heap@.to_set() == old(self).free_heap@.to_set(),
    {
        let len = self.free_heap.len();
        let mut index = index;
        loop
            invariant
                len == self.free_heap@.len(),
                sift_down_inv(self.free_heap@, index as int),
                self.free_heap@.no_duplicates(),
                self.free_heap@.to_set() == old(self).free_heap@.to_set(),
                self.values@ == old(self).values@,
                names_empty_slots(self.free_heap@, self.values@),
            decreases len - index,
        {
            if index > (usize::MAX - 2) / 2 {
                // no children can exist this far down
                proof {
                    lemma_sift_down_done(self.free_heap@, index as int);
                }
                return;
            }
            let left = 2 * index + 1;
            let right = 2 * index + 2;
            let mut smallest = index;
            if left < len && self.free_heap[left] < self.free_heap[smallest] {
                smallest = left;
            }
            if right < len && self.free_heap[right] < self.free_heap[smallest] {
                smallest = right;
            }
            proof {
                let h = self.free_heap@;
                assert(forall|c: int| 0 < c < h.len() && heap_parent(c) == index ==> c == left || c == right);
            }
            if smallest != index {
                let ghost h = self.free_heap@;
                let a = self.free_heap[index];
                let b = self.free_heap[smallest];
                self.free_heap.set(index, b);
                self.free_heap.set(smallest, a);
                proof {
                    lemma_swap_keeps_set(h, index as int, smallest as int);
                    lemma_sift_down_step(h, index as int, smallest as int);
                    assert(self.free_heap@ == h.update(index as int, h[smallest as int]).update(
                        smallest as int,
                        h[index as int],
                    ));
                }
                index = smallest;
            } else {
                proof {
                    lemma_sift_down_done(self.free_heap@, index as int);
                }
                return;
            }
        }
    }
}

} // verus!
