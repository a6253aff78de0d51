//! A dense store of resources, found by the index of their handle and
//! reclaimed once no copy of the handle is left.

use crate::handle::{RawResourceHandle, RefCount, ResourceHandle};
use std::collections::HashMap;
use std::marker::PhantomData;
use vstd::prelude::*;

verus! {

broadcast use vstd::std_specs::hash::group_hash_axioms;

struct Slot<T> {
    idx: usize,
    refcount: RefCount,
    data: T,
}

/// An entry that a sweep took out of a registry.
pub struct Reaped<T> {
    /// The index of the entry's handle.
    pub idx: usize,
    /// Where the entry stood in the dense store before the sweep.
    pub dense_index: usize,
    /// What the registry held for it.
    pub data: T,
}

/// Resources of one kind, each stored under the index of its handle.
pub struct ResourceRegistry<T, H> {
    slots: Vec<Slot<T>>,
    index: HashMap<usize, usize>,
    _phantom: PhantomData<H>,
}

/// `order` after the entry at `pos` has been replaced by the last one.
pub open spec fn swap_removed(order: Seq<usize>, pos: int) -> Seq<usize> {
    order.update(pos, order.last()).drop_last()
}

/// The dense order after a sweep has gone from the last entry down to the
/// entry at `from`: each marked entry it met was replaced by the entry
/// that was last by then.
pub open spec fn swept_order(order: Seq<usize>, dead: Seq<bool>, from: int) -> Seq<usize>
    decreases order.len() - from,
{
    if from >= order.len() {
        order
    } else if dead[from] {
        swap_removed(swept_order(order, dead, from + 1), from)
    } else {
        swept_order(order, dead, from + 1)
    }
}

/// What a sweep does: `reaped` lists the marked entries of the old store,
/// from the highest dense index down, and `after` holds the others.
pub open spec fn reaps<T>(
    order: Seq<usize>,
    before: Map<usize, T>,
    dead: Seq<bool>,
    reaped: Seq<Reaped<T>>,
    after: Map<usize, T>,
) -> bool {
    &&& forall|j: int|
        0 <= j < reaped.len() ==> {
            let r = #[trigger] reaped[j];
            &&& r.dense_index < order.len()
            &&& dead[r.dense_index as int]
            &&& r.idx == order[r.dense_index as int]
            &&& r.data == before[r.idx]
        }
    &&& forall|j: int, k: int|
        0 <= j < k < reaped.len() ==> (#[trigger] reaped[j]).dense_index > (
        #[trigger] reaped[k]).dense_index
    &&& forall|i: int| 0 <= i < order.len() && dead[i] ==> #[trigger] reaped_at(reaped, i)
    &&& after == before.remove_keys(marked(order, dead))
}

/// Whether `reaped` holds the entry that stood at the dense index `i`.
pub open spec fn reaped_at<T>(reaped: Seq<Reaped<T>>, i: int) -> bool {
    exists|j: int| 0 <= j < reaped.len() && (#[trigger] reaped[j]).dense_index == i
}

/// The handle indices that `dead` marks in a store laid out as `order`.
pub open spec fn marked(order: Seq<usize>, dead: Seq<bool>) -> Set<usize> {
    Set::new(|k: usize| exists|i: int| 0 <= i < order.len() && dead[i] && #[trigger] order[i] == k)
}

impl<T, H> View for ResourceRegistry<T, H> {
    type V = Map<usize, T>;

    /// The stored resources by handle index.
    closed spec fn view(&self) -> Map<usize, T> {
        Map::new(
            |k: usize| self.index@.contains_key(k),
            |k: usize| self.slots@[self.index@[k] as int].data,
        )
    }
}

impl<T, H> ResourceRegistry<T, H> {
    /// The index map and the dense store describe each other.
    pub closed spec fn wf(&self) -> bool {
        &&& forall|i: int|
            #![trigger self.slots@[i]]
            0 <= i < self.slots@.len() ==> self.index@.contains_key(self.slots@[i].idx)
                && self.index@[self.slots@[i].idx] == i
        &&& forall|k: usize| #[trigger]
            self.index@.contains_key(k) ==> self.index@[k] < self.slots@.len()
                && self.slots@[self.index@[k] as int].idx == k
    }

    /// The handle indices in the order of the dense store.
    pub closed spec fn order(&self) -> Seq<usize> {
        Seq::new(self.slots@.len(), |i: int| self.slots@[i].idx)
    }

    /// The dense store lists every stored handle index exactly once.
    pub proof fn lemma_order(&self)
        requires
            self.wf(),
        ensures
            self@.dom().finite(),
            forall|i: int| 0 <= i < self.order().len() ==> self@.contains_key(#[trigger] self.order()[i]),
            forall|k: usize| #[trigger]
                self@.contains_key(k) ==> exists|i: int|
                    0 <= i < self.order().len() && self.order()[i] == k,
            forall|i: int, j: int|
                0 <= i < j < self.order().len() ==> self.order()[i] != self.order()[j],
    {
        assert(self@.dom() =~= self.index@.dom());
        assert forall|k: usize| #[trigger] self@.contains_key(k) implies exists|i: int|
            0 <= i < self.order().len() && self.order()[i] == k by {
            let i = self.index@[k] as int;
            assert(self.order()[i] == k);
        }
        assert forall|i: int, j: int| 0 <= i < j < self.order().len() implies self.order()[i]
            != self.order()[j] by {
            let a = self.slots@[i];
            let b = self.slots@[j];
        }
    }

    /// An empty registry.
    pub fn new() -> (registry: Self)
        ensures
            registry.wf(),
            registry@ == Map::<usize, T>::empty(),
            registry.order() == Seq::<usize>::empty(),
    {
        let registry = ResourceRegistry { slots: Vec::new(), index: HashMap::new(), _phantom: PhantomData };
        assert(registry@ =~= Map::<usize, T>::empty());
        assert(registry.order() =~= Seq::<usize>::empty());
        registry
    }

    /// The number of stored resources.
    pub fn count(&self) -> (n: usize)
        requires
            self.wf(),
        ensures
            n == self.order().len(),
            n == self@.dom().len(),
    {
        proof {
            self.lemma_count();
        }
        self.slots.len()
    }

    /// The dense store has as many entries as there are handle indices.
    pub proof fn lemma_count(&self)
        requires
            self.wf(),
        ensures
            self.order().len() == self@.dom().len(),
    {
        self.lemma_order();
        self.order().unique_seq_to_set();
        assert(self.order().to_set() =~= self@.dom());
    }

    /// Whether a resource is stored for `handle`.
    pub fn contains(&self, handle: RawResourceHandle<H>) -> (found: bool)
        requires
            self.wf(),
        ensures
            found == self@.contains_key(handle.idx),
    {
        self.index.contains_key(&handle.idx)
    }

    /// Stores `data` for `handle`, at the end of the dense store.
    pub fn insert(&mut self, handle: &ResourceHandle<H>, data: T)
        requires
            old(self).wf(),
            !old(self)@.contains_key(handle.index()),
        ensures
            final(self).wf(),
            final(self)@ == old(self)@.insert(handle.index(), data),
            final(self).order() == old(self).order().push(handle.index()),
    {
        let raw = handle.get_raw();
        let pos = self.slots.len();
        self.slots.push(Slot { idx: raw.idx, refcount: handle.get_refcount(), data });
        self.index.insert(raw.idx, pos);
        proof {
            assert forall|i: int| 0 <= i < self.slots@.len() implies self.index@.contains_key(
                (#[trigger] self.slots@[i]).idx,
            ) && self.index@[self.slots@[i].idx] == i by {
                if i < pos {
                    assert(self.slots@[i] == old(self).slots@[i]);
                }
            }
            assert(self@ =~= old(self)@.insert(handle.index(), data));
            assert(self.order() =~= old(self).order().push(handle.index()));
        }
    }

    /// The resource stored for `handle`.
    pub fn get(&self, handle: RawResourceHandle<H>) -> (data: &T)
        requires
            self.wf(),
            self@.contains_key(handle.idx),
        ensures
            *data == self@[handle.idx],
    {
        let pos = *self.index.get(&handle.idx).unwrap();
        &self.slots[pos].data
    }

    /// Where the resource of `handle` stands in the dense store.
    pub fn get_index_of(&self, handle: RawResourceHandle<H>) -> (pos: usize)
        requires
            self.wf(),
            self@.contains_key(handle.idx),
        ensures
            pos < self.order().len(),
            self.order()[pos as int] == handle.idx,
    {
        *self.index.get(&handle.idx).unwrap()
    }

    /// The handle index of the entry at `pos` of the dense store.
    pub fn key_at(&self, pos: usize) -> (idx: usize)
        requires
            self.wf(),
            pos < self.order().len(),
        ensures
            idx == self.order()[pos as int],
    {
        self.slots[pos].idx
    }

    /// The resource at `pos` of the dense store.
    pub fn value_at(&self, pos: usize) -> (data: &T)
        requires
            self.wf(),
            pos < self.order().len(),
        ensures
            self@.contains_key(self.order()[pos as int]),
            *data == self@[self.order()[pos as int]],
    {
        proof {
            let slot = self.slots@[pos as int];
        }
        &self.slots[pos].data
    }

    /// The resource at `pos` of the dense store, to be changed in place.
    pub fn value_at_mut(&mut self, pos: usize) -> (data: &mut T)
        requires
            old(self).wf(),
            pos < old(self).order().len(),
        ensures
            *data == old(self)@[old(self).order()[pos as int]],
            final(self).wf(),
            final(self)@ == old(self)@.insert(old(self).order()[pos as int], *final(data)),
            final(self).order() == old(self).order(),
    {
        proof {
            let slot = self.slots@[pos as int];
        }
        &mut self.slots[pos].data
    }

    /// The resource stored for `handle`, to be changed in place.
    pub fn get_mut(&mut self, handle: RawResourceHandle<H>) -> (data: &mut T)
        requires
            old(self).wf(),
            old(self)@.contains_key(handle.idx),
        ensures
            *data == old(self)@[handle.idx],
            final(self).wf(),
            final(self)@ == old(self)@.insert(handle.idx, *final(data)),
            final(self).order() == old(self).order(),
    {
        let pos = *self.index.get(&handle.idx).unwrap();
        &mut self.slots[pos].data
    }

    /// Every stored resource, in the order of the dense store.
    pub fn values(&self) -> (all: Vec<&T>)
        requires
            self.wf(),
        ensures
            all@.len() == self.order().len(),
            forall|i: int| 0 <= i < all@.len() ==> *(#[trigger] all@[i]) == self@[self.order()[i]],
    {
        let mut all: Vec<&T> = Vec::new();
        let mut i: usize = 0;
        while i < self.slots.len()
            invariant
                self.wf(),
                i <= self.slots@.len(),
                all@.len() == i,
                forall|j: int| 0 <= j < i ==> *(#[trigger] all@[j]) == self.slots@[j].data,
            decreases self.slots@.len() - i,
        {
            all.push(&self.slots[i].data);
            i += 1;
        }
        proof {
            assert forall|j: int| 0 <= j < all@.len() implies *(#[trigger] all@[j])
                == self@[self.order()[j]] by {
                let slot = self.slots@[j];
            }
        }
        all
    }

    /// Asks, for each entry of the dense store, whether its handle has no
    /// copy left. What the answers are depends on the handles' holders.
    pub fn poll_dead(&self) -> (dead: Vec<bool>)
        requires
            self.wf(),
        ensures
            dead@.len() == self.order().len(),
    {
        let mut dead: Vec<bool> = Vec::new();
        let mut i: usize = 0;
        while i < self.slots.len()
            invariant
                i <= self.slots@.len(),
                dead@.len() == i,
            decreases self.slots@.len() - i,
        {
            dead.push(self.slots[i].refcount.is_last());
            i += 1;
        }
        dead
    }

    /// Takes the entry at `pos` out and moves the last entry into its place.
    fn take_slot(&mut self, pos: usize) -> (slot: Slot<T>)
        requires
            old(self).wf(),
            pos < old(self).slots@.len(),
        ensures
            final(self).wf(),
            slot == old(self).slots@[pos as int],
            old(self)@.contains_key(slot.idx),
            slot.data == old(self)@[slot.idx],
            final(self)@ == old(self)@.remove(slot.idx),
            final(self).order() == swap_removed(old(self).order(), pos as int),
    {
        let slot = self.slots.swap_remove(pos);
        self.index.remove(&slot.idx);
        if pos < self.slots.len() {
            let moved = self.slots[pos].idx;
            self.index.insert(moved, pos);
        }
        proof {
            let last = old(self).slots@.len() - 1;
            assert forall|i: int| 0 <= i < self.slots@.len() implies self.index@.contains_key(
                (#[trigger] self.slots@[i]).idx,
            ) && self.index@[self.slots@[i].idx] == i by {
                if i == pos {
                    assert(self.slots@[i] == old(self).slots@[last]);
                } else {
                    assert(self.slots@[i] == old(self).slots@[i]);
                }
            }
            assert forall|k: usize| #[trigger] self.index@.contains_key(k) implies self.index@[k]
                < self.slots@.len() && self.slots@[self.index@[k] as int].idx == k by {
                assert(old(self).index@.contains_key(k));
                let p = old(self).index@[k] as int;
                assert(old(self).slots@[p].idx == k);
            }
            assert(self@ =~= old(self)@.remove(slot.idx)) by {
                assert forall|k: usize| #[trigger] self@.contains_key(k) implies self@[k] == old(
                    self,
                )@[k] by {
                    let p = old(self).index@[k] as int;
                    assert(old(self).slots@[p].idx == k);
                }
            }
            assert(self.order() =~= swap_removed(old(self).order(), pos as int));
        }
        slot
    }

    /// Takes out the entries that `dead` marks, from the highest dense
    /// index down, filling each gap with the entry that is last by then.
    pub fn remove_marked(&mut self, dead: &Vec<bool>) -> (reaped: Vec<Reaped<T>>)
        requires
            old(self).wf(),
            dead@.len() == old(self).order().len(),
        ensures
            final(self).wf(),
            reaps(old(self).order(), old(self)@, dead@, reaped@, final(self)@),
            final(self).order() == swept_order(old(self).order(), dead@, 0),
    {
        let mut reaped: Vec<Reaped<T>> = Vec::new();
        let mut i: usize = self.slots.len();
        let ghost order = self.order();
        let ghost before = self@;
        proof {
            assert(self@ =~= before.remove_keys(marked_from(order, dead@, i as int)));
        }
        while i > 0
            invariant
                self.wf(),
                order == old(self).order(),
                before == old(self)@,
                old(self).wf(),
                dead@.len() == order.len(),
                i <= self.order().len() <= order.len(),
                self.order() == swept_order(order, dead@, i as int),
                forall|p: int| 0 <= p < i ==> self.order()[p] == order[p],
                self@ == before.remove_keys(marked_from(order, dead@, i as int)),
                forall|j: int|
                    0 <= j < reaped@.len() ==> {
                        let r = #[trigger] reaped@[j];
                        &&& i <= r.dense_index < order.len()
                        &&& dead@[r.dense_index as int]
                        &&& r.idx == order[r.dense_index as int]
                        &&& r.data == before[r.idx]
                    },
                forall|j: int, k: int|
                    0 <= j < k < reaped@.len() ==> (#[trigger] reaped@[j]).dense_index > (
                    #[trigger] reaped@[k]).dense_index,
                forall|p: int|
                    i <= p < order.len() && dead@[p] ==> #[trigger] reaped_at(reaped@, p),
            decreases i,
        {
            i -= 1;
            let ghost prev = self@;
            let ghost prev_reaped = reaped@;
            if dead[i] {
                proof {
                    self.lemma_order();
                }
                let slot = self.take_slot(i);
                assert(slot.idx == order[i as int]);
                reaped.push(Reaped { idx: slot.idx, dense_index: i, data: slot.data });
                proof {
                    assert(marked_from(order, dead@, i as int) =~= marked_from(
                        order,
                        dead@,
                        i + 1,
                    ).insert(slot.idx));
                    assert(self@ =~= before.remove_keys(marked_from(order, dead@, i as int)));
                    assert(prev.contains_key(slot.idx));
                    assert forall|p: int| i <= p < order.len() && dead@[p] implies #[trigger] reaped_at(
                        reaped@,
                        p,
                    ) by {
                        if p == i {
                            assert(reaped@[reaped@.len() - 1].dense_index == i);
                        } else {
                            assert(reaped_at(prev_reaped, p));
                            let j = choose|j: int|
                                0 <= j < prev_reaped.len() && (#[trigger] prev_reaped[j]).dense_index
                                    == p;
                            assert(reaped@[j] == prev_reaped[j]);
                        }
                    }
                }
            } else {
                proof {
                    assert(marked_from(order, dead@, i as int) =~= marked_from(order, dead@, i + 1));
                }
            }
        }
        proof {
            assert(marked_from(order, dead@, 0) =~= marked(order, dead@));
        }
        reaped
    }

    /// Takes out every entry whose handle has no copy left. Which entries
    /// those are is decided by the handles' holders.
    pub fn remove_all_dead(&mut self) -> (reaped: Vec<Reaped<T>>)
        requires
            old(self).wf(),
        ensures
            final(self).wf(),
            exists|dead: Seq<bool>|
                dead.len() == old(self).order().len() && #[trigger] reaps(
                    old(self).order(),
                    old(self)@,
                    dead,
                    reaped@,
                    final(self)@,
                ) && final(self).order() == swept_order(old(self).order(), dead, 0),
    {
        let dead = self.poll_dead();
        let reaped = self.remove_marked(&dead);
        assert(reaps(old(self).order(), old(self)@, dead@, reaped@, self@));
        reaped
    }
}

/// The handle indices that `dead` marks at dense index `from` or above.
pub open spec fn marked_from(order: Seq<usize>, dead: Seq<bool>, from: int) -> Set<usize> {
    Set::new(
        |k: usize| exists|i: int| from <= i < order.len() && dead[i] && #[trigger] order[i] == k,
    )
}

} // verus!
