//! A pool of nodes addressed by stable handles.

use vstd::prelude::*;

verus! {

/// Owns every node of one collection. A handle is the position of a slot;
/// it stays valid until the node is released, whatever happens to other
/// nodes in between. Slots of released nodes are handed out again before
/// the pool grows.
pub struct Arena<N> {
    slots: Vec<Option<N>>,
    free: Vec<usize>,
}

impl<N> Arena<N> {
    /// The live nodes, by handle.
    pub closed spec fn heap(&self) -> Map<usize, N> {
        Map::new(
            |h: usize| h < self.slots@.len() && self.slots@[h as int].is_some(),
            |h: usize| self.slots@[h as int].unwrap(),
        )
    }

    /// The number of slots, occupied or not.
    pub closed spec fn capacity(&self) -> nat {
        self.slots@.len()
    }

    /// The number of slots that are not on the free list.
    pub closed spec fn live(&self) -> int {
        self.slots@.len() - self.free@.len()
    }

    /// The free list names empty slots only, and none of them twice.
    pub closed spec fn well_formed(&self) -> bool {
        &&& forall|i: int|
            0 <= i < self.free@.len() ==> {
                &&& (#[trigger] self.free@[i]) < self.slots@.len()
                &&& self.slots@[self.free@[i] as int].is_none()
            }
        &&& forall|i: int, j: int|
            0 <= i < j < self.free@.len() ==> self.free@[i] != self.free@[j]
    }

    /// A pool without slots.
    pub fn new() -> (arena: Self)
        ensures
            arena.well_formed(),
            arena.heap() == Map::<usize, N>::empty(),
            arena.live() == 0,
            arena.capacity() == 0,
    {
        let arena = Arena { slots: Vec::new(), free: Vec::new() };
        assert(arena.heap() =~= Map::<usize, N>::empty());
        arena
    }

    /// Stores `node` in a slot that held no node and returns its handle.
    pub fn store(&mut self, node: N) -> (handle: usize)
        requires
            old(self).well_formed(),
        ensures
            final(self).well_formed(),
            !old(self).heap().dom().contains(handle),
            final(self).heap() == old(self).heap().insert(handle, node),
            final(self).live() == old(self).live() + 1,
            final(self).live() <= final(self).capacity() <= usize::MAX,
            old(self).capacity() <= final(self).capacity(),
    {
        let handle: usize = match self.free.pop() {
            Some(handle) => {
                self.slots[handle] = Some(node);
                handle
            },
            None => {
                let handle: usize = self.slots.len();
                self.slots.push(Some(node));
                handle
            },
        };
        assert(self.heap() =~= old(self).heap().insert(handle, node));
        assert(self.slots@.len() == self.slots.len());
        handle
    }

    /// Takes the node with this handle out of the pool.
    pub fn release(&mut self, handle: usize) -> (node: N)
        requires
            old(self).well_formed(),
            old(self).heap().dom().contains(handle),
        ensures
            final(self).well_formed(),
            node == old(self).heap()[handle],
            final(self).heap() == old(self).heap().remove(handle),
            final(self).live() == old(self).live() - 1,
            final(self).capacity() == old(self).capacity(),
    {
        let node = self.slots[handle].take().unwrap();
        self.free.push(handle);
        assert(self.heap() =~= old(self).heap().remove(handle));
        node
    }

    /// The node with this handle, to read.
    pub fn get(&self, handle: usize) -> (node: &N)
        requires
            self.heap().dom().contains(handle),
        ensures
            *node == self.heap()[handle],
    {
        self.slots[handle].as_ref().unwrap()
    }

    /// The node with this handle, to change in place. Whatever is written
    /// to it, it keeps its handle and no other node is touched.
    pub fn get_mut(&mut self, handle: usize) -> (node: &mut N)
        requires
            old(self).well_formed(),
            old(self).heap().dom().contains(handle),
        ensures
            *node == old(self).heap()[handle],
            final(self).well_formed(),
            final(self).heap() == old(self).heap().insert(handle, *final(node)),
            final(self).live() == old(self).live(),
            final(self).capacity() == old(self).capacity(),
    {
        self.slots[handle].as_mut().unwrap()
    }

    /// No more slots are in use than there are.
    pub proof fn lemma_live_within_capacity(&self)
        ensures
            self.live() <= self.capacity(),
    {
    }
}

} // verus!
