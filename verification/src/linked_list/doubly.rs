//! A linked list in which each node knows both of its neighbours.

use vstd::prelude::*;
use crate::arena::Arena;
use crate::chain::link_at;
use crate::error::CollectionError;
use crate::linked_list::inserted;

verus! {

/// One element of the list: a value, the handle of the node in front of it
/// and the handle of the node behind it. Only the pool owns nodes, so the
/// two links of a node are of the same kind and neither keeps a node alive.
struct Node<T> {
    data: T,
    prev: Option<usize>,
    next: Option<usize>,
}

/// A sequence of values on a chain of nodes that can be walked from the
/// head to the tail and from the tail to the head.
pub struct DoublyLinkedList<T> {
    nodes: Arena<Node<T>>,
    head: Option<usize>,
    tail: Option<usize>,
    amount: usize,
    order: Ghost<Seq<usize>>,
}

/// `order` names, first to last, the nodes of a list in `heap`: each is
/// live, none occurs twice, each points forward to the one named after it
/// and back to the one named before it, `head` is the first and `tail` the
/// last.
spec fn is_linked<T>(heap: Map<usize, Node<T>>, head: Option<usize>, tail: Option<usize>, order: Seq<usize>) -> bool {
    &&& head == link_at(order, 0)
    &&& tail == link_at(order, order.len() - 1)
    &&& order.no_duplicates()
    &&& forall|i: int| 0 <= i < order.len() ==> heap.dom().contains(#[trigger] order[i])
    &&& forall|i: int|
        0 <= i < order.len() ==> {
            &&& (#[trigger] heap[order[i]]).next == link_at(order, i + 1)
            &&& heap[order[i]].prev == link_at(order, i - 1)
        }
}

/// The values held by the nodes that `order` names.
spec fn values<T>(heap: Map<usize, Node<T>>, order: Seq<usize>) -> Seq<T> {
    Seq::new(order.len(), |i: int| heap[order[i]].data)
}

/// The values met by following `next` from `cur` until it points nowhere,
/// leaves the heap, or `fuel` nodes have been visited.
spec fn walk_next<T>(heap: Map<usize, Node<T>>, cur: Option<usize>, fuel: nat) -> Seq<T>
    decreases fuel,
{
    if fuel > 0 && cur.is_some() && heap.dom().contains(cur.unwrap()) {
        seq![heap[cur.unwrap()].data] + walk_next(heap, heap[cur.unwrap()].next, (fuel - 1) as nat)
    } else {
        Seq::empty()
    }
}

/// The values met by following `prev` from `cur` until it points nowhere,
/// leaves the heap, or `fuel` nodes have been visited.
spec fn walk_prev<T>(heap: Map<usize, Node<T>>, cur: Option<usize>, fuel: nat) -> Seq<T>
    decreases fuel,
{
    if fuel > 0 && cur.is_some() && heap.dom().contains(cur.unwrap()) {
        seq![heap[cur.unwrap()].data] + walk_prev(heap, heap[cur.unwrap()].prev, (fuel - 1) as nat)
    } else {
        Seq::empty()
    }
}

/// The heap after a node for `data` was stored under `handle` and its
/// neighbours, where it has any, were pointed at it.
spec fn with_node_between<T>(
    heap: Map<usize, Node<T>>,
    prev: Option<usize>,
    next: Option<usize>,
    handle: usize,
    data: T,
) -> Map<usize, Node<T>> {
    let stored = heap.insert(handle, Node { data, prev, next });
    let forward = match prev {
        Some(p) => stored.insert(p, Node { data: stored[p].data, prev: stored[p].prev, next: Some(handle) }),
        None => stored,
    };
    match next {
        Some(n) => forward.insert(n, Node { data: forward[n].data, prev: Some(handle), next: forward[n].next }),
        None => forward,
    }
}

/// The heap after the node `handle` was released and its neighbours, where
/// it has any, were pointed at each other.
spec fn without_node<T>(heap: Map<usize, Node<T>>, handle: usize) -> Map<usize, Node<T>> {
    let prev = heap[handle].prev;
    let next = heap[handle].next;
    let released = heap.remove(handle);
    let forward = match prev {
        Some(p) => released.insert(p, Node { data: released[p].data, prev: released[p].prev, next }),
        None => released,
    };
    match next {
        Some(n) => forward.insert(n, Node { data: forward[n].data, prev, next: forward[n].next }),
        None => forward,
    }
}

/// A fresh node linked in at position `k` takes that position; the nodes
/// from there on move back by one, and the new node is the head or the tail
/// where it has no neighbour on that side.
proof fn lemma_link_between<T>(
    heap: Map<usize, Node<T>>,
    head: Option<usize>,
    tail: Option<usize>,
    order: Seq<usize>,
    k: int,
    handle: usize,
    data: T,
)
    requires
        is_linked(heap, head, tail, order),
        0 <= k <= order.len(),
        !heap.dom().contains(handle),
    ensures
        is_linked(
            with_node_between(heap, link_at(order, k - 1), link_at(order, k), handle, data),
            if k == 0 {
                Some(handle)
            } else {
                head
            },
            if k == order.len() {
                Some(handle)
            } else {
                tail
            },
            order.insert(k, handle),
        ),
        values(
            with_node_between(heap, link_at(order, k - 1), link_at(order, k), handle, data),
            order.insert(k, handle),
        ) == values(heap, order).insert(k, data),
{
    let linked = with_node_between(heap, link_at(order, k - 1), link_at(order, k), handle, data);
    let after = order.insert(k, handle);
    assert forall|i: int| 0 <= i < after.len() implies after[i] == (if i < k {
        order[i]
    } else if i == k {
        handle
    } else {
        order[i - 1]
    }) by {}
    assert forall|i: int| 0 <= i < order.len() implies order[i] != handle by {
        assert(heap.dom().contains(order[i]));
    }
    if k > 0 {
        assert(heap.dom().contains(order[k - 1]));
    }
    if k < order.len() {
        assert(heap.dom().contains(order[k]));
    }
    assert forall|i: int| 0 <= i < after.len() implies linked.dom().contains(#[trigger] after[i]) by {
        if i < k {
            assert(heap.dom().contains(order[i]));
        } else if i > k {
            assert(heap.dom().contains(order[i - 1]));
        }
    }
    assert forall|i: int| 0 <= i < after.len() implies {
        &&& (#[trigger] linked[after[i]]).next == link_at(after, i + 1)
        &&& linked[after[i]].prev == link_at(after, i - 1)
        &&& linked[after[i]].data == values(heap, order).insert(k, data)[i]
    } by {
        if i < k {
            assert(heap[order[i]].next == link_at(order, i + 1));
        } else if i > k {
            assert(heap[order[i - 1]].next == link_at(order, i));
        }
    }
    assert(values(linked, after) =~= values(heap, order).insert(k, data));
}

/// With the node at position `k` released and its neighbours linked to
/// each other, the list is the old one without position `k`; a neighbour
/// becomes the head or the tail where the node was it.
proof fn lemma_unlink<T>(
    heap: Map<usize, Node<T>>,
    head: Option<usize>,
    tail: Option<usize>,
    order: Seq<usize>,
    k: int,
)
    requires
        is_linked(heap, head, tail, order),
        0 <= k < order.len(),
    ensures
        heap.dom().contains(order[k]),
        heap[order[k]].prev == link_at(order, k - 1),
        heap[order[k]].next == link_at(order, k + 1),
        is_linked(
            without_node(heap, order[k]),
            if k == 0 {
                link_at(order, 1)
            } else {
                head
            },
            if k == order.len() - 1 {
                link_at(order, k - 1)
            } else {
                tail
            },
            order.remove(k),
        ),
        values(without_node(heap, order[k]), order.remove(k)) == values(heap, order).remove(k),
{
    let linked = without_node(heap, order[k]);
    let after = order.remove(k);
    assert(heap.dom().contains(order[k]));
    assert(heap[order[k]].next == link_at(order, k + 1));
    assert forall|i: int| 0 <= i < after.len() implies after[i] == (if i < k {
        order[i]
    } else {
        order[i + 1]
    }) by {}
    if k > 0 {
        assert(heap.dom().contains(order[k - 1]));
    }
    if k + 1 < order.len() {
        assert(heap.dom().contains(order[k + 1]));
    }
    assert forall|i: int| 0 <= i < after.len() implies linked.dom().contains(#[trigger] after[i]) by {
        if i < k {
            assert(heap.dom().contains(order[i]));
        } else {
            assert(heap.dom().contains(order[i + 1]));
        }
    }
    assert forall|i: int| 0 <= i < after.len() implies {
        &&& (#[trigger] linked[after[i]]).next == link_at(after, i + 1)
        &&& linked[after[i]].prev == link_at(after, i - 1)
        &&& linked[after[i]].data == values(heap, order).remove(k)[i]
    } by {
        if i < k {
            assert(heap[order[i]].next == link_at(order, i + 1));
        } else {
            assert(heap[order[i + 1]].next == link_at(order, i + 2));
        }
    }
    assert(values(linked, after) =~= values(heap, order).remove(k));
}

/// Walking forward from the `i`-th node visits the rest of the list in
/// order and then stops, given fuel for that many nodes.
proof fn lemma_walk_next_visits<T>(
    heap: Map<usize, Node<T>>,
    head: Option<usize>,
    tail: Option<usize>,
    order: Seq<usize>,
    i: int,
    fuel: nat,
)
    requires
        is_linked(heap, head, tail, order),
        0 <= i <= order.len(),
        fuel >= order.len() - i,
    ensures
        walk_next(heap, link_at(order, i), fuel) == values(heap, order).skip(i),
    decreases order.len() - i,
{
    if i < order.len() {
        assert(heap.dom().contains(order[i]));
        assert(heap[order[i]].next == link_at(order, i + 1));
        lemma_walk_next_visits(heap, head, tail, order, i + 1, (fuel - 1) as nat);
    }
    assert(walk_next(heap, link_at(order, i), fuel) =~= values(heap, order).skip(i));
}

/// Walking backward from the `i`-th node visits the nodes up to it, last
/// one first, and then stops, given fuel for that many nodes.
proof fn lemma_walk_prev_visits<T>(
    heap: Map<usize, Node<T>>,
    head: Option<usize>,
    tail: Option<usize>,
    order: Seq<usize>,
    i: int,
    fuel: nat,
)
    requires
        is_linked(heap, head, tail, order),
        -1 <= i < order.len(),
        fuel >= i + 1,
    ensures
        walk_prev(heap, link_at(order, i), fuel) == values(heap, order).take(i + 1).reverse(),
    decreases i + 1,
{
    if i >= 0 {
        assert(heap.dom().contains(order[i]));
        assert(heap[order[i]].prev == link_at(order, i - 1));
        lemma_walk_prev_visits(heap, head, tail, order, i - 1, (fuel - 1) as nat);
        assert(seq![heap[order[i]].data] + values(heap, order).take(i).reverse() =~= values(
            heap,
            order,
        ).take(i + 1).reverse());
    } else {
        assert(walk_prev(heap, link_at(order, i), fuel) =~= values(heap, order).take(i + 1).reverse());
    }
}

impl<T> View for DoublyLinkedList<T> {
    type V = Seq<T>;

    /// The values in the list, from the head to the tail.
    closed spec fn view(&self) -> Seq<T> {
        values(self.nodes.heap(), self.order@)
    }
}

impl<T: Clone> DoublyLinkedList<T> {
    /// The nodes are linked in both directions between the head and the
    /// tail, they are all the pool holds, and the count is their number.
    pub closed spec fn well_formed(&self) -> bool {
        &&& self.nodes.well_formed()
        &&& is_linked(self.nodes.heap(), self.head, self.tail, self.order@)
        &&& self.amount == self.order@.len()
        &&& self.amount == self.nodes.live()
    }

    /// The values met on the way from the head along the forward links,
    /// node after node, until a node has no successor.
    pub closed spec fn forward(&self) -> Seq<T> {
        walk_next(self.nodes.heap(), self.head, self.nodes.capacity())
    }

    /// The values met on the way from the tail along the back links, node
    /// after node, until a node has no predecessor.
    pub closed spec fn backward(&self) -> Seq<T> {
        walk_prev(self.nodes.heap(), self.tail, self.nodes.capacity())
    }

    /// The list is what a walk from the head along the forward links
    /// finds: the size is the number of nodes that the walk reaches, and
    /// the value at each position is the value of the node reached there.
    pub proof fn lemma_forward_is_view(&self)
        requires
            self.well_formed(),
        ensures
            self.forward() == self@,
            self.forward().len() == self@.len(),
    {
        self.nodes.lemma_live_within_capacity();
        lemma_walk_next_visits(
            self.nodes.heap(),
            self.head,
            self.tail,
            self.order@,
            0,
            self.nodes.capacity(),
        );
        assert(self@.skip(0) =~= self@);
    }

    /// A walk from the tail along the back links finds the values that the
    /// walk from the head finds, in the reverse order.
    pub proof fn lemma_backward_is_reverse(&self)
        requires
            self.well_formed(),
        ensures
            self.backward() == self.forward().reverse(),
            self.backward() == self@.reverse(),
    {
        self.lemma_forward_is_view();
        self.nodes.lemma_live_within_capacity();
        lemma_walk_prev_visits(
            self.nodes.heap(),
            self.head,
            self.tail,
            self.order@,
            self.order@.len() - 1,
            self.nodes.capacity(),
        );
        assert(self@.take(self@.len() as int) =~= self@);
    }

    /// An empty list.
    pub fn new() -> (list: Self)
        ensures
            list.well_formed(),
            list@ == Seq::<T>::empty(),
    {
        let list = DoublyLinkedList {
            nodes: Arena::new(),
            head: None,
            tail: None,
            amount: 0,
            order: Ghost(Seq::empty()),
        };
        assert(list@ =~= Seq::<T>::empty());
        list
    }

    /// Puts `data` in front of the first value.
    pub fn push_begin(&mut self, data: T)
        requires
            old(self).well_formed(),
        ensures
            final(self).well_formed(),
            final(self)@ == inserted(old(self)@, data, 0),
    {
        self.link_between(None, self.head, data, Ghost(0));
        assert(old(self)@.insert(0, data) =~= inserted(old(self)@, data, 0));
    }

    /// Puts `data` behind the last value, which the tail link finds
    /// without a walk.
    pub fn push_back(&mut self, data: T)
        requires
            old(self).well_formed(),
        ensures
            final(self).well_formed(),
            final(self)@ == old(self)@.push(data),
    {
        self.link_between(self.tail, None, data, Ghost(self.amount as int));
        assert(old(self)@.insert(old(self)@.len() as int, data) =~= old(self)@.push(data));
    }

    /// Puts `data` at position `index`, in front of the value that was
    /// there. Where the list has no such position, `data` goes to the end.
    pub fn insert(&mut self, data: T, index: usize)
        requires
            old(self).well_formed(),
        ensures
            final(self).well_formed(),
            final(self)@ == inserted(old(self)@, data, index),
    {
        if index >= self.amount {
            self.push_back(data);
            return ;
        }
        if index == 0 {
            self.push_begin(data);
            return ;
        }
        let pred: usize = self.nth_handle(index - 1);
        assert(self.nodes.heap()[self.order@[index - 1]].next == link_at(self.order@, index as int));
        let next: Option<usize> = self.nodes.get(pred).next;
        self.link_between(Some(pred), next, data, Ghost(index as int));
    }

    /// Takes the first value out of the list.
    pub fn pop_begin(&mut self) -> (result: Result<(), CollectionError>)
        requires
            old(self).well_formed(),
        ensures
            final(self).well_formed(),
            match result {
                Ok(_) => old(self)@.len() > 0 && final(self)@ == old(self)@.drop_first(),
                Err(e) => {
                    &&& e == CollectionError::EmptyCollection
                    &&& old(self)@.len() == 0
                    &&& *final(self) == *old(self)
                },
            },
    {
        match self.head {
            None => Err(CollectionError::EmptyCollection),
            Some(handle) => {
                self.unlink(handle, Ghost(0));
                assert(old(self)@.remove(0) =~= old(self)@.drop_first());
                Ok(())
            },
        }
    }

    /// Takes the last value out of the list, which the tail link finds
    /// without a walk.
    pub fn pop_back(&mut self) -> (result: Result<(), CollectionError>)
        requires
            old(self).well_formed(),
        ensures
            final(self).well_formed(),
            match result {
                Ok(_) => old(self)@.len() > 0 && final(self)@ == old(self)@.drop_last(),
                Err(e) => {
                    &&& e == CollectionError::EmptyCollection
                    &&& old(self)@.len() == 0
                    &&& *final(self) == *old(self)
                },
            },
    {
        match self.tail {
            None => Err(CollectionError::EmptyCollection),
            Some(handle) => {
                self.unlink(handle, Ghost(self.amount - 1));
                assert(old(self)@.remove(old(self)@.len() - 1) =~= old(self)@.drop_last());
                Ok(())
            },
        }
    }

    /// Takes the value at position `index` out of the list.
    pub fn erase(&mut self, index: usize) -> (result: Result<(), CollectionError>)
        requires
            old(self).well_formed(),
        ensures
            final(self).well_formed(),
            match result {
                Ok(_) => index < old(self)@.len() && final(self)@ == old(self)@.remove(index as int),
                Err(e) => {
                    &&& e == CollectionError::IndexOutOfRange
                    &&& index >= old(self)@.len()
                    &&& *final(self) == *old(self)
                },
            },
    {
        if index >= self.amount {
            return Err(CollectionError::IndexOutOfRange);
        }
        let handle: usize = self.nth_handle(index);
        self.unlink(handle, Ghost(index as int));
        Ok(())
    }

    /// A copy of the value at position `index`.
    pub fn get(&self, index: usize) -> (result: Result<T, CollectionError>)
        requires
            self.well_formed(),
        ensures
            match result {
                Ok(value) => index < self@.len() && cloned(self@[index as int], value),
                Err(e) => e == CollectionError::IndexOutOfRange && index >= self@.len(),
            },
    {
        if index >= self.amount {
            return Err(CollectionError::IndexOutOfRange);
        }
        let handle: usize = self.nth_handle(index);
        Ok(self.nodes.get(handle).data.clone())
    }

    /// The number of values in the list.
    pub fn size(&self) -> (amount: &usize)
        requires
            self.well_formed(),
        ensures
            *amount == self@.len(),
    {
        &self.amount
    }

    /// Walks from the head along the forward links to position `index`.
    fn nth_handle(&self, index: usize) -> (handle: usize)
        requires
            self.well_formed(),
            index < self.order@.len(),
        ensures
            handle == self.order@[index as int],
    {
        let mut current: usize = self.head.unwrap();
        let mut counter: usize = 0;
        while counter < index
            invariant
                self.well_formed(),
                counter <= index < self.order@.len(),
                current == self.order@[counter as int],
            decreases index - counter,
        {
            assert(self.nodes.heap()[self.order@[counter as int]].next == link_at(self.order@, counter + 1));
            current = self.nodes.get(current).next.unwrap();
            counter = counter + 1;
        }
        current
    }

    /// Stores a node for `data` and links it in at position `k`, between
    /// `prev` and `next`. Where it has no neighbour on one side, it becomes
    /// the head or the tail.
    fn link_between(&mut self, prev: Option<usize>, next: Option<usize>, data: T, Ghost(k): Ghost<int>)
        requires
            old(self).well_formed(),
            0 <= k <= old(self).order@.len(),
            prev == link_at(old(self).order@, k - 1),
            next == link_at(old(self).order@, k),
        ensures
            final(self).well_formed(),
            final(self)@ == old(self)@.insert(k, data),
    {
        let handle: usize = self.nodes.store(Node { data, prev, next });
        proof {
            lemma_link_between(old(self).nodes.heap(), self.head, self.tail, self.order@, k, handle, data);
            if k > 0 {
                assert(old(self).nodes.heap().dom().contains(self.order@[k - 1]));
            }
            if k < self.order@.len() {
                assert(old(self).nodes.heap().dom().contains(self.order@[k]));
            }
        }
        match prev {
            Some(p) => {
                self.nodes.get_mut(p).next = Some(handle);
            },
            None => {
                self.head = Some(handle);
            },
        }
        match next {
            Some(n) => {
                self.nodes.get_mut(n).prev = Some(handle);
            },
            None => {
                self.tail = Some(handle);
            },
        }
        proof {
            assert(self.nodes.heap() =~= with_node_between(old(self).nodes.heap(), prev, next, handle, data));
        }
        self.order = Ghost(self.order@.insert(k, handle));
        self.amount = self.amount + 1;
    }

    /// Releases the node `handle`, which stands at position `k`, and links
    /// its neighbours to each other. Where it was the head or the tail, its
    /// neighbour on the other side becomes that.
    fn unlink(&mut self, handle: usize, Ghost(k): Ghost<int>)
        requires
            old(self).well_formed(),
            0 <= k < old(self).order@.len(),
            handle == old(self).order@[k],
        ensures
            final(self).well_formed(),
            final(self)@ == old(self)@.remove(k),
    {
        proof {
            lemma_unlink(self.nodes.heap(), self.head, self.tail, self.order@, k);
            if k > 0 {
                assert(self.nodes.heap().dom().contains(self.order@[k - 1]));
            }
            if k + 1 < self.order@.len() {
                assert(self.nodes.heap().dom().contains(self.order@[k + 1]));
            }
        }
        let node = self.nodes.release(handle);
        match node.prev {
            Some(p) => {
                self.nodes.get_mut(p).next = node.next;
            },
            None => {
                self.head = node.next;
            },
        }
        match node.next {
            Some(n) => {
                self.nodes.get_mut(n).prev = node.prev;
            },
            None => {
                self.tail = node.prev;
            },
        }
        proof {
            assert(self.nodes.heap() =~= without_node(old(self).nodes.heap(), handle));
        }
        self.order = Ghost(self.order@.remove(k));
        self.amount = self.amount - 1;
    }
}

} // verus!
