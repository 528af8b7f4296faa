//! A last-in, first-out stack.

use vstd::prelude::*;
use crate::arena::Arena;
use crate::chain::{is_chain, lemma_pop_front, lemma_push_front, values, Node};
use crate::error::CollectionError;

verus! {

/// A stack of values on a chain of nodes. The node at the root of the chain
/// holds the value pushed last.
pub struct Stack<T> {
    nodes: Arena<Node<T>>,
    root: Option<usize>,
    amount: usize,
    order: Ghost<Seq<usize>>,
}

impl<T> View for Stack<T> {
    type V = Seq<T>;

    /// The values on the stack, the one pushed last first.
    closed spec fn view(&self) -> Seq<T> {
        values(self.nodes.heap(), self.order@)
    }
}

/// The stack `s` after `v` was pushed.
pub open spec fn pushed<T>(s: Seq<T>, v: T) -> Seq<T> {
    seq![v] + s
}

/// The stack `s` after each of `items` was pushed, the first of them first.
pub open spec fn pushed_all<T>(s: Seq<T>, items: Seq<T>) -> Seq<T>
    decreases items.len(),
{
    if items.len() == 0 {
        s
    } else {
        pushed_all(pushed(s, items.first()), items.drop_first())
    }
}

/// The values that `n` gets in a row hand out of the stack `s`, in the order
/// in which they come; fewer where the stack runs empty before.
pub open spec fn taken<T>(s: Seq<T>, n: nat) -> Seq<T>
    decreases n,
{
    if n == 0 || s.len() == 0 {
        Seq::empty()
    } else {
        seq![s.first()] + taken(s.drop_first(), (n - 1) as nat)
    }
}

impl<T: Clone> Stack<T> {
    /// The chain starts at the root, its nodes are all the pool holds, and
    /// the count is their number.
    pub closed spec fn well_formed(&self) -> bool {
        &&& self.nodes.well_formed()
        &&& is_chain(self.nodes.heap(), self.root, self.order@)
        &&& self.amount == self.order@.len()
        &&& self.amount == self.nodes.live()
    }

    /// An empty stack.
    pub fn new() -> (stack: Self)
        ensures
            stack.well_formed(),
            stack@ == Seq::<T>::empty(),
    {
        let stack = Stack { nodes: Arena::new(), root: None, amount: 0, order: Ghost(Seq::empty()) };
        assert(stack@ =~= Seq::<T>::empty());
        stack
    }

    /// Puts `data` on top of the stack.
    pub fn push(&mut self, data: T)
        requires
            old(self).well_formed(),
        ensures
            final(self).well_formed(),
            final(self)@ == pushed(old(self)@, data),
    {
        let handle: usize = self.nodes.store(Node { data, next: self.root });
        proof {
            lemma_push_front(old(self).nodes.heap(), self.root, self.order@, handle, data);
        }
        self.root = Some(handle);
        self.amount = self.amount + 1;
        self.order = Ghost(seq![handle] + self.order@);
    }

    /// Takes the value pushed last off the stack and returns it.
    pub fn get(&mut self) -> (result: Result<T, CollectionError>)
        requires
            old(self).well_formed(),
        ensures
            final(self).well_formed(),
            match result {
                Ok(value) => {
                    &&& old(self)@.len() > 0
                    &&& value == old(self)@.first()
                    &&& final(self)@ == old(self)@.drop_first()
                },
                Err(e) => {
                    &&& e == CollectionError::EmptyCollection
                    &&& old(self)@.len() == 0
                    &&& *final(self) == *old(self)
                },
            },
    {
        match self.root {
            None => Err(CollectionError::EmptyCollection),
            Some(handle) => {
                proof {
                    lemma_pop_front(self.nodes.heap(), self.root, self.order@);
                }
                let node = self.nodes.release(handle);
                self.root = node.next;
                self.amount = self.amount - 1;
                self.order = Ghost(self.order@.drop_first());
                Ok(node.data)
            },
        }
    }

    /// A copy of the value pushed last; the stack keeps it.
    pub fn top(&self) -> (result: Result<T, CollectionError>)
        requires
            self.well_formed(),
        ensures
            match result {
                Ok(value) => self@.len() > 0 && cloned(self@.first(), value),
                Err(e) => e == CollectionError::EmptyCollection && self@.len() == 0,
            },
    {
        match self.root {
            None => Err(CollectionError::EmptyCollection),
            Some(handle) => {
                proof {
                    lemma_pop_front(self.nodes.heap(), self.root, self.order@);
                }
                Ok(self.nodes.get(handle).data.clone())
            },
        }
    }

    /// The number of values on the stack.
    pub fn size(&self) -> (amount: &usize)
        requires
            self.well_formed(),
        ensures
            *amount == self@.len(),
    {
        &self.amount
    }
}

proof fn lemma_pushed_all_reverses<T>(s: Seq<T>, items: Seq<T>)
    ensures
        pushed_all(s, items) == items.reverse() + s,
    decreases items.len(),
{
    if items.len() == 0 {
        assert(pushed_all(s, items) =~= items.reverse() + s);
    } else {
        let rest = items.drop_first();
        lemma_pushed_all_reverses(pushed(s, items.first()), rest);
        assert(rest.reverse() + pushed(s, items.first()) =~= items.reverse() + s);
    }
}

proof fn lemma_taken_is_prefix<T>(front: Seq<T>, s: Seq<T>)
    ensures
        taken(front + s, front.len()) == front,
    decreases front.len(),
{
    if front.len() == 0 {
        assert(taken(front + s, front.len()) =~= front);
    } else {
        let rest = front.drop_first();
        lemma_taken_is_prefix(rest, s);
        assert((front + s).drop_first() =~= rest + s);
        assert(seq![front.first()] + rest =~= front);
    }
}

/// Last in, first out: after any values were pushed one after the other,
/// as many gets hand them back in the reverse of the order in which they
/// were pushed, whatever the stack held before.
pub proof fn lemma_gets_reverse_pushes<T>(s: Seq<T>, items: Seq<T>)
    ensures
        taken(pushed_all(s, items), items.len()) == items.reverse(),
        pushed_all(s, items).skip(items.len() as int) == s,
{
    lemma_pushed_all_reverses(s, items);
    lemma_taken_is_prefix(items.reverse(), s);
    assert((items.reverse() + s).skip(items.len() as int) =~= s);
}

} // verus!
