//! A first-in, first-out queue.

use vstd::prelude::*;
use crate::arena::Arena;
use crate::chain::{
    is_chain, last_handle, lemma_insert_after, lemma_pop_front, lemma_push_front, values,
    with_successor, Node,
};
use crate::error::CollectionError;

verus! {

/// A queue of values on a chain of nodes. The node at the root of the chain
/// holds the value that has waited longest; a push walks to the far end.
pub struct Queue<T> {
    nodes: Arena<Node<T>>,
    root: Option<usize>,
    amount: usize,
    order: Ghost<Seq<usize>>,
}

impl<T> View for Queue<T> {
    type V = Seq<T>;

    /// The values in the queue, the one pushed first first.
    closed spec fn view(&self) -> Seq<T> {
        values(self.nodes.heap(), self.order@)
    }
}

/// The queue `q` after `v` was pushed.
pub open spec fn pushed<T>(q: Seq<T>, v: T) -> Seq<T> {
    q.push(v)
}

/// The queue `q` after each of `items` was pushed, the first of them first.
pub open spec fn pushed_all<T>(q: Seq<T>, items: Seq<T>) -> Seq<T>
    decreases items.len(),
{
    if items.len() == 0 {
        q
    } else {
        pushed_all(pushed(q, items.first()), items.drop_first())
    }
}

/// The values that `n` gets in a row hand out of the queue `q`, in the order
/// in which they come; fewer where the queue runs empty before.
pub open spec fn taken<T>(q: Seq<T>, n: nat) -> Seq<T>
    decreases n,
{
    if n == 0 || q.len() == 0 {
        Seq::empty()
    } else {
        seq![q.first()] + taken(q.drop_first(), (n - 1) as nat)
    }
}

impl<T: Clone> Queue<T> {
    /// The chain starts at the root, its nodes are all the pool holds, and
    /// the count is their number.
    pub closed spec fn well_formed(&self) -> bool {
        &&& self.nodes.well_formed()
        &&& is_chain(self.nodes.heap(), self.root, self.order@)
        &&& self.amount == self.order@.len()
        &&& self.amount == self.nodes.live()
    }

    /// An empty queue.
    pub fn new() -> (queue: Self)
        ensures
            queue.well_formed(),
            queue@ == Seq::<T>::empty(),
    {
        let queue = Queue { nodes: Arena::new(), root: None, amount: 0, order: Ghost(Seq::empty()) };
        assert(queue@ =~= Seq::<T>::empty());
        queue
    }

    /// Puts `data` at the end of the queue.
    pub fn push(&mut self, data: T)
        requires
            old(self).well_formed(),
        ensures
            final(self).well_formed(),
            final(self)@ == pushed(old(self)@, data),
    {
        match self.root {
            None => {
                let handle: usize = self.nodes.store(Node { data, next: None });
                proof {
                    lemma_push_front(old(self).nodes.heap(), None, self.order@, handle, data);
                    assert(seq![data] + old(self)@ =~= old(self)@.push(data));
                }
                self.root = Some(handle);
                self.order = Ghost(seq![handle] + self.order@);
            },
            Some(first) => {
                let tail: usize = last_handle(&self.nodes, first, Ghost(self.order@));
                let handle: usize = self.nodes.store(Node { data, next: None });
                self.nodes.get_mut(tail).next = Some(handle);
                proof {
                    let order = self.order@;
                    let heap = old(self).nodes.heap();
                    lemma_insert_after(heap, self.root, order, order.len() as int, handle, data);
                    assert(self.nodes.heap() =~= with_successor(heap, tail, handle, data));
                    assert(old(self)@.insert(order.len() as int, data) =~= old(self)@.push(data));
                }
                self.order = Ghost(self.order@.insert(self.order@.len() as int, handle));
            },
        }
        self.amount = self.amount + 1;
    }

    /// Takes the value that was pushed first out of the queue and returns it.
    pub fn get(&mut self) -> (result: Result<T, CollectionError>)
        requires
            old(self).well_formed(),
        ensures
            final(self).well_formed(),
            match result {
                Ok(value) => {
                    &&& old(self)@.len() > 0
                    &&& value == old(self)@.first()
                    &&& final(self)@ == old(self)@.drop_first()
                },
                Err(e) => {
                    &&& e == CollectionError::EmptyCollection
                    &&& old(self)@.len() == 0
                    &&& *final(self) == *old(self)
                },
            },
    {
        match self.root {
            None => Err(CollectionError::EmptyCollection),
            Some(handle) => {
                proof {
                    lemma_pop_front(self.nodes.heap(), self.root, self.order@);
                }
                let node = self.nodes.release(handle);
                self.root = node.next;
                self.amount = self.amount - 1;
                self.order = Ghost(self.order@.drop_first());
                Ok(node.data)
            },
        }
    }

    /// A copy of the value that was pushed first; the queue keeps it.
    pub fn top(&self) -> (result: Result<T, CollectionError>)
        requires
            self.well_formed(),
        ensures
            match result {
                Ok(value) => self@.len() > 0 && cloned(self@.first(), value),
                Err(e) => e == CollectionError::EmptyCollection && self@.len() == 0,
            },
    {
        match self.root {
            None => Err(CollectionError::EmptyCollection),
            Some(handle) => {
                proof {
                    lemma_pop_front(self.nodes.heap(), self.root, self.order@);
                }
                Ok(self.nodes.get(handle).data.clone())
            },
        }
    }

    /// The number of values in the queue.
    pub fn size(&self) -> (amount: &usize)
        requires
            self.well_formed(),
        ensures
            *amount == self@.len(),
    {
        &self.amount
    }
}

proof fn lemma_pushed_all_appends<T>(q: Seq<T>, items: Seq<T>)
    ensures
        pushed_all(q, items) == q + items,
    decreases items.len(),
{
    if items.len() == 0 {
        assert(pushed_all(q, items) =~= q + items);
    } else {
        let rest = items.drop_first();
        lemma_pushed_all_appends(pushed(q, items.first()), rest);
        assert(pushed(q, items.first()) + rest =~= q + items);
    }
}

proof fn lemma_taken_all<T>(q: Seq<T>)
    ensures
        taken(q, q.len()) == q,
    decreases q.len(),
{
    if q.len() == 0 {
        assert(taken(q, q.len()) =~= q);
    } else {
        lemma_taken_all(q.drop_first());
        assert(seq![q.first()] + q.drop_first() =~= q);
    }
}

/// First in, first out: after any values were pushed one after the other
/// into an empty queue, as many gets hand them back in the order in which
/// they were pushed.
pub proof fn lemma_gets_repeat_pushes<T>(items: Seq<T>)
    ensures
        taken(pushed_all(Seq::empty(), items), items.len()) == items,
{
    lemma_pushed_all_appends(Seq::empty(), items);
    assert(Seq::<T>::empty() + items =~= items);
    lemma_taken_all(items);
}

} // verus!
