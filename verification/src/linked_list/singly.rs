//! A linked list in which each node knows the node behind it.

use vstd::prelude::*;
use crate::arena::Arena;
use crate::chain::{
    before_last_handle, is_chain, last_handle, lemma_erase_after, lemma_insert_after,
    lemma_pop_front, lemma_push_front, lemma_walk_visits_chain, link_at, nth_handle, values,
    walk, with_successor, without_successor, Node,
};
use crate::error::CollectionError;
use crate::linked_list::inserted;

verus! {

/// A sequence of values on a chain of nodes that starts at the root. Every
/// position is reached by walking there from the root.
pub struct SinglyLinkedList<T> {
    nodes: Arena<Node<T>>,
    root: Option<usize>,
    amount: usize,
    order: Ghost<Seq<usize>>,
}

impl<T> View for SinglyLinkedList<T> {
    type V = Seq<T>;

    /// The values in the list, from the first node to the last.
    closed spec fn view(&self) -> Seq<T> {
        values(self.nodes.heap(), self.order@)
    }
}

impl<T: Clone> SinglyLinkedList<T> {
    /// The chain starts at the root, its nodes are all the pool holds, and
    /// the count is their number.
    pub closed spec fn well_formed(&self) -> bool {
        &&& self.nodes.well_formed()
        &&& is_chain(self.nodes.heap(), self.root, self.order@)
        &&& self.amount == self.order@.len()
        &&& self.amount == self.nodes.live()
    }

    /// The values met on the way from the root along the links, node after
    /// node, until a node has no successor.
    pub closed spec fn forward(&self) -> Seq<T> {
        walk(self.nodes.heap(), self.root, self.nodes.capacity())
    }

    /// The list is what a walk from the root along the links finds: the
    /// size is the number of nodes that the walk reaches, and the value at
    /// each position is the value of the node reached there.
    pub proof fn lemma_forward_is_view(&self)
        requires
            self.well_formed(),
        ensures
            self.forward() == self@,
            self.forward().len() == self@.len(),
    {
        self.nodes.lemma_live_within_capacity();
        lemma_walk_visits_chain(self.nodes.heap(), self.root, self.order@, 0, self.nodes.capacity());
        assert(self@.skip(0) =~= self@);
    }

    /// An empty list.
    pub fn new() -> (list: Self)
        ensures
            list.well_formed(),
            list@ == Seq::<T>::empty(),
    {
        let list = SinglyLinkedList { nodes: Arena::new(), root: None, amount: 0, order: Ghost(Seq::empty()) };
        assert(list@ =~= Seq::<T>::empty());
        list
    }

    /// Puts `data` in front of the first value.
    pub fn push_begin(&mut self, data: T)
        requires
            old(self).well_formed(),
        ensures
            final(self).well_formed(),
            final(self)@ == inserted(old(self)@, data, 0),
    {
        let handle: usize = self.nodes.store(Node { data, next: self.root });
        proof {
            lemma_push_front(old(self).nodes.heap(), self.root, self.order@, handle, data);
            assert(seq![data] + old(self)@ =~= inserted(old(self)@, data, 0));
        }
        self.root = Some(handle);
        self.amount = self.amount + 1;
        self.order = Ghost(seq![handle] + self.order@);
    }

    /// Puts `data` behind the last value, which is found by walking the
    /// whole chain.
    pub fn push_back(&mut self, data: T)
        requires
            old(self).well_formed(),
        ensures
            final(self).well_formed(),
            final(self)@ == old(self)@.push(data),
    {
        match self.root {
            None => {
                self.push_begin(data);
                assert(inserted(old(self)@, data, 0) =~= old(self)@.push(data));
            },
            Some(first) => {
                let tail: usize = last_handle(&self.nodes, first, Ghost(self.order@));
                self.link_behind(tail, data, Ghost(self.amount as int));
                assert(old(self)@.insert(old(self)@.len() as int, data) =~= old(self)@.push(data));
            },
        }
    }

    /// Puts `data` at position `index`, in front of the value that was
    /// there. Where the list has no such position, `data` goes to the end.
    pub fn insert(&mut self, data: T, index: usize)
        requires
            old(self).well_formed(),
        ensures
            final(self).well_formed(),
            final(self)@ == inserted(old(self)@, data, index),
    {
        if index >= self.amount {
            self.push_back(data);
        } else if index == 0 {
            self.push_begin(data);
        } else {
            let first: usize = self.root.unwrap();
            let pred: usize = nth_handle(&self.nodes, first, index - 1, Ghost(self.order@));
            self.link_behind(pred, data, Ghost(index as int));
        }
    }

    /// Takes the first value out of the list.
    pub fn pop_begin(&mut self) -> (result: Result<(), CollectionError>)
        requires
            old(self).well_formed(),
        ensures
            final(self).well_formed(),
            match result {
                Ok(_) => old(self)@.len() > 0 && final(self)@ == old(self)@.drop_first(),
                Err(e) => {
                    &&& e == CollectionError::EmptyCollection
                    &&& old(self)@.len() == 0
                    &&& *final(self) == *old(self)
                },
            },
    {
        match self.root {
            None => Err(CollectionError::EmptyCollection),
            Some(handle) => {
                proof {
                    lemma_pop_front(self.nodes.heap(), self.root, self.order@);
                }
                let node = self.nodes.release(handle);
                self.root = node.next;
                self.amount = self.amount - 1;
                self.order = Ghost(self.order@.drop_first());
                Ok(())
            },
        }
    }

    /// Takes the last value out of the list. The walk looks one node
    /// ahead, so that it stops at the node before the last.
    pub fn pop_back(&mut self) -> (result: Result<(), CollectionError>)
        requires
            old(self).well_formed(),
        ensures
            final(self).well_formed(),
            match result {
                Ok(_) => old(self)@.len() > 0 && final(self)@ == old(self)@.drop_last(),
                Err(e) => {
                    &&& e == CollectionError::EmptyCollection
                    &&& old(self)@.len() == 0
                    &&& *final(self) == *old(self)
                },
            },
    {
        match self.root {
            None => Err(CollectionError::EmptyCollection),
            Some(first) => {
                proof {
                    lemma_pop_front(self.nodes.heap(), self.root, self.order@);
                }
                if self.nodes.get(first).next.is_none() {
                    assert(self.order@.len() == 1) by {
                        assert(self.nodes.heap()[self.order@[0]].next == link_at(self.order@, 1));
                    }
                    let result = self.pop_begin();
                    assert(old(self)@.drop_first() =~= old(self)@.drop_last());
                    result
                } else {
                    assert(self.order@.len() >= 2) by {
                        assert(self.nodes.heap()[self.order@[0]].next == link_at(self.order@, 1));
                    }
                    let pred: usize = before_last_handle(&self.nodes, first, Ghost(self.order@));
                    self.unlink_behind(pred, Ghost(self.amount - 1));
                    assert(old(self)@.remove(old(self)@.len() - 1) =~= old(self)@.drop_last());
                    Ok(())
                }
            },
        }
    }

    /// Takes the value at position `index` out of the list.
    pub fn erase(&mut self, index: usize) -> (result: Result<(), CollectionError>)
        requires
            old(self).well_formed(),
        ensures
            final(self).well_formed(),
            match result {
                Ok(_) => index < old(self)@.len() && final(self)@ == old(self)@.remove(index as int),
                Err(e) => {
                    &&& e == CollectionError::IndexOutOfRange
                    &&& index >= old(self)@.len()
                    &&& *final(self) == *old(self)
                },
            },
    {
        if index >= self.amount {
            return Err(CollectionError::IndexOutOfRange);
        }
        if index == 0 {
            let result = self.pop_begin();
            assert(old(self)@.drop_first() =~= old(self)@.remove(0));
            return result;
        }
        let first: usize = self.root.unwrap();
        let pred: usize = nth_handle(&self.nodes, first, index - 1, Ghost(self.order@));
        self.unlink_behind(pred, Ghost(index as int));
        Ok(())
    }

    /// A copy of the value at position `index`.
    pub fn get(&self, index: usize) -> (result: Result<T, CollectionError>)
        requires
            self.well_formed(),
        ensures
            match result {
                Ok(value) => index < self@.len() && cloned(self@[index as int], value),
                Err(e) => e == CollectionError::IndexOutOfRange && index >= self@.len(),
            },
    {
        if index >= self.amount {
            return Err(CollectionError::IndexOutOfRange);
        }
        let first: usize = self.root.unwrap();
        let handle: usize = nth_handle(&self.nodes, first, index, Ghost(self.order@));
        Ok(self.nodes.get(handle).data.clone())
    }

    /// Copies of all values, from the first node to the last, found in
    /// one walk along the chain.
    pub fn to_vec(&self) -> (copies: Vec<T>)
        requires
            self.well_formed(),
        ensures
            copies@.len() == self@.len(),
            forall|i: int| 0 <= i < copies@.len() ==> cloned(self@[i], #[trigger] copies@[i]),
    {
        let mut copies: Vec<T> = Vec::new();
        let mut current: Option<usize> = self.root;
        loop
            invariant
                self.well_formed(),
                copies@.len() <= self.order@.len(),
                current == link_at(self.order@, copies@.len() as int),
                forall|i: int| 0 <= i < copies@.len() ==> cloned(self@[i], #[trigger] copies@[i]),
            ensures
                copies@.len() == self.order@.len(),
            decreases self.order@.len() - copies@.len(),
        {
            match current {
                None => {
                    break ;
                },
                Some(handle) => {
                    let ghost at = copies@.len() as int;
                    assert(self.nodes.heap()[self.order@[at]].next == link_at(self.order@, at + 1));
                    let node = self.nodes.get(handle);
                    copies.push(node.data.clone());
                    current = node.next;
                },
            }
        }
        copies
    }

    /// The number of values in the list.
    pub fn size(&self) -> (amount: &usize)
        requires
            self.well_formed(),
        ensures
            *amount == self@.len(),
    {
        &self.amount
    }

    /// Splices a new node for `data` in between the node `pred`, which
    /// stands at position `k - 1`, and its successor.
    fn link_behind(&mut self, pred: usize, data: T, Ghost(k): Ghost<int>)
        requires
            old(self).well_formed(),
            1 <= k <= old(self).order@.len(),
            pred == old(self).order@[k - 1],
        ensures
            final(self).well_formed(),
            final(self)@ == old(self)@.insert(k, data),
    {
        let next: Option<usize> = self.nodes.get(pred).next;
        let handle: usize = self.nodes.store(Node { data, next });
        self.nodes.get_mut(pred).next = Some(handle);
        proof {
            let heap = old(self).nodes.heap();
            lemma_insert_after(heap, self.root, self.order@, k, handle, data);
            assert(self.nodes.heap() =~= with_successor(heap, pred, handle, data));
        }
        self.order = Ghost(self.order@.insert(k, handle));
        self.amount = self.amount + 1;
    }

    /// Splices the successor of the node `pred`, which stands at position
    /// `k - 1`, out of the chain and releases it.
    fn unlink_behind(&mut self, pred: usize, Ghost(k): Ghost<int>)
        requires
            old(self).well_formed(),
            1 <= k < old(self).order@.len(),
            pred == old(self).order@[k - 1],
        ensures
            final(self).well_formed(),
            final(self)@ == old(self)@.remove(k),
    {
        proof {
            lemma_erase_after(self.nodes.heap(), self.root, self.order@, k);
        }
        let victim: usize = self.nodes.get(pred).next.unwrap();
        let node = self.nodes.release(victim);
        self.nodes.get_mut(pred).next = node.next;
        proof {
            assert(self.nodes.heap() =~= without_successor(old(self).nodes.heap(), pred));
        }
        self.order = Ghost(self.order@.remove(k));
        self.amount = self.amount - 1;
    }
}

} // verus!
