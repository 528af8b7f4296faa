//! Singly-linked chains of pooled nodes, and what it means to walk one.

use vstd::prelude::*;
use crate::arena::Arena;

verus! {

/// One element of a chain: a value and the handle of the node behind it.
pub struct Node<T> {
    pub data: T,
    pub next: Option<usize>,
}

/// The handle at position `i` of `order`, or nothing past either end.
pub open spec fn link_at(order: Seq<usize>, i: int) -> Option<usize> {
    if 0 <= i < order.len() {
        Some(order[i])
    } else {
        None
    }
}

/// `order` names, first to last, the nodes of a chain in `heap` that starts
/// at `root`: each is live, none occurs twice, each points to the one named
/// after it and the last points nowhere.
pub open spec fn is_chain<T>(heap: Map<usize, Node<T>>, root: Option<usize>, order: Seq<usize>) -> bool {
    &&& root == link_at(order, 0)
    &&& order.no_duplicates()
    &&& forall|i: int| 0 <= i < order.len() ==> heap.dom().contains(#[trigger] order[i])
    &&& forall|i: int|
        0 <= i < order.len() ==> (#[trigger] heap[order[i]]).next == link_at(order, i + 1)
}

/// The values held by the nodes that `order` names.
pub open spec fn values<T>(heap: Map<usize, Node<T>>, order: Seq<usize>) -> Seq<T> {
    Seq::new(order.len(), |i: int| heap[order[i]].data)
}

/// The values met by following `next` from `cur` until it points nowhere,
/// leaves the heap, or `fuel` nodes have been visited.
pub open spec fn walk<T>(heap: Map<usize, Node<T>>, cur: Option<usize>, fuel: nat) -> Seq<T>
    decreases fuel,
{
    if fuel > 0 && cur.is_some() && heap.dom().contains(cur.unwrap()) {
        seq![heap[cur.unwrap()].data] + walk(heap, heap[cur.unwrap()].next, (fuel - 1) as nat)
    } else {
        Seq::empty()
    }
}

/// Walking a chain from its `i`-th node visits the rest of it in order and
/// then stops, given fuel for that many nodes.
pub proof fn lemma_walk_visits_chain<T>(
    heap: Map<usize, Node<T>>,
    root: Option<usize>,
    order: Seq<usize>,
    i: int,
    fuel: nat,
)
    requires
        is_chain(heap, root, order),
        0 <= i <= order.len(),
        fuel >= order.len() - i,
    ensures
        walk(heap, link_at(order, i), fuel) == values(heap, order).skip(i),
    decreases order.len() - i,
{
    if i < order.len() {
        assert(heap[order[i]].next == link_at(order, i + 1));
        lemma_walk_visits_chain(heap, root, order, i + 1, (fuel - 1) as nat);
    }
    assert(walk(heap, link_at(order, i), fuel) =~= values(heap, order).skip(i));
}

/// The heap after a node for `data` was stored under `handle` and put in
/// front of the chain that starts at `root`.
pub open spec fn with_front<T>(heap: Map<usize, Node<T>>, root: Option<usize>, handle: usize, data: T) -> Map<
    usize,
    Node<T>,
> {
    heap.insert(handle, Node { data, next: root })
}

/// The heap after a node for `data` was stored under `handle` and linked in
/// behind the node `pred`.
pub open spec fn with_successor<T>(heap: Map<usize, Node<T>>, pred: usize, handle: usize, data: T) -> Map<
    usize,
    Node<T>,
> {
    heap.insert(handle, Node { data, next: heap[pred].next }).insert(
        pred,
        Node { data: heap[pred].data, next: Some(handle) },
    )
}

/// The heap after the node behind `pred` was released and `pred` linked to
/// the one that followed it.
pub open spec fn without_successor<T>(heap: Map<usize, Node<T>>, pred: usize) -> Map<usize, Node<T>> {
    let victim = heap[pred].next.unwrap();
    heap.remove(victim).insert(pred, Node { data: heap[pred].data, next: heap[victim].next })
}

/// A fresh node put in front of a chain makes a chain that starts with it.
pub proof fn lemma_push_front<T>(
    heap: Map<usize, Node<T>>,
    root: Option<usize>,
    order: Seq<usize>,
    handle: usize,
    data: T,
)
    requires
        is_chain(heap, root, order),
        !heap.dom().contains(handle),
    ensures
        is_chain(with_front(heap, root, handle, data), Some(handle), seq![handle] + order),
        values(with_front(heap, root, handle, data), seq![handle] + order) == seq![data] + values(
            heap,
            order,
        ),
{
    let linked = with_front(heap, root, handle, data);
    let after = seq![handle] + order;
    assert forall|i: int| 0 <= i < after.len() implies (#[trigger] linked[after[i]]).next == link_at(
        after,
        i + 1,
    ) by {
        if i > 0 {
            assert(heap.dom().contains(order[i - 1]));
            assert(heap[order[i - 1]].next == link_at(order, i));
        }
    }
    assert forall|i: int| 0 <= i < after.len() implies linked.dom().contains(#[trigger] after[i]) by {
        if i > 0 {
            assert(heap.dom().contains(order[i - 1]));
        }
    }
    assert(after.no_duplicates()) by {
        assert forall|i: int, j: int| 0 <= i < after.len() && 0 <= j < after.len() && i != j implies after[i]
            != after[j] by {
            if i > 0 {
                assert(heap.dom().contains(order[i - 1]));
            }
            if j > 0 {
                assert(heap.dom().contains(order[j - 1]));
            }
        }
    }
    assert(values(linked, after) =~= seq![data] + values(heap, order)) by {
        assert forall|i: int| 0 < i < after.len() implies linked[after[i]] == heap[order[i - 1]] by {
            assert(heap.dom().contains(order[i - 1]));
        }
    }
}

/// A chain without its first node is the chain that starts at the second.
pub proof fn lemma_pop_front<T>(heap: Map<usize, Node<T>>, root: Option<usize>, order: Seq<usize>)
    requires
        is_chain(heap, root, order),
        order.len() > 0,
    ensures
        root == Some(order[0]),
        heap.dom().contains(order[0]),
        is_chain(heap.remove(order[0]), heap[order[0]].next, order.drop_first()),
        values(heap.remove(order[0]), order.drop_first()) == values(heap, order).drop_first(),
        values(heap, order).first() == heap[order[0]].data,
{
    let rest = heap.remove(order[0]);
    let after = order.drop_first();
    assert(heap.dom().contains(order[0]));
    assert(heap[order[0]].next == link_at(order, 1));
    assert forall|i: int| 0 <= i < after.len() implies rest.dom().contains(#[trigger] after[i]) by {
        assert(heap.dom().contains(order[i + 1]));
    }
    assert forall|i: int| 0 <= i < after.len() implies (#[trigger] rest[after[i]]).next == link_at(
        after,
        i + 1,
    ) by {
        assert(heap[order[i + 1]].next == link_at(order, i + 2));
    }
    assert(values(rest, after) =~= values(heap, order).drop_first());
}

/// A fresh node linked in behind the node at position `k - 1` takes
/// position `k`; the nodes from there on move back by one.
pub proof fn lemma_insert_after<T>(
    heap: Map<usize, Node<T>>,
    root: Option<usize>,
    order: Seq<usize>,
    k: int,
    handle: usize,
    data: T,
)
    requires
        is_chain(heap, root, order),
        1 <= k <= order.len(),
        !heap.dom().contains(handle),
    ensures
        is_chain(with_successor(heap, order[k - 1], handle, data), root, order.insert(k, handle)),
        values(with_successor(heap, order[k - 1], handle, data), order.insert(k, handle)) == values(
            heap,
            order,
        ).insert(k, data),
{
    let pred = order[k - 1];
    let linked = with_successor(heap, pred, handle, data);
    let after = order.insert(k, handle);
    assert(heap.dom().contains(pred));
    assert(heap[pred].next == link_at(order, k));
    assert forall|i: int| 0 <= i < after.len() implies after[i] == (if i < k {
        order[i]
    } else if i == k {
        handle
    } else {
        order[i - 1]
    }) by {}
    assert forall|i: int| 0 <= i < order.len() implies order[i] != handle by {
        assert(heap.dom().contains(order[i]));
    }
    assert forall|i: int| 0 <= i < after.len() implies linked.dom().contains(#[trigger] after[i]) by {
        if i < k {
            assert(heap.dom().contains(order[i]));
        } else if i > k {
            assert(heap.dom().contains(order[i - 1]));
        }
    }
    assert forall|i: int| 0 <= i < after.len() implies (#[trigger] linked[after[i]]).next == link_at(
        after,
        i + 1,
    ) by {
        if i < k - 1 {
            assert(heap[order[i]].next == link_at(order, i + 1));
        } else if i > k {
            assert(heap[order[i - 1]].next == link_at(order, i));
        }
    }
    assert(values(linked, after) =~= values(heap, order).insert(k, data));
}

/// With the node at position `k` released and its predecessor linked past
/// it, the chain is the old one without position `k`.
pub proof fn lemma_erase_after<T>(heap: Map<usize, Node<T>>, root: Option<usize>, order: Seq<usize>, k: int)
    requires
        is_chain(heap, root, order),
        1 <= k < order.len(),
    ensures
        heap[order[k - 1]].next == Some(order[k]),
        is_chain(without_successor(heap, order[k - 1]), root, order.remove(k)),
        values(without_successor(heap, order[k - 1]), order.remove(k)) == values(heap, order).remove(k),
{
    let pred = order[k - 1];
    let victim = order[k];
    let linked = without_successor(heap, pred);
    let after = order.remove(k);
    assert(heap.dom().contains(pred));
    assert(heap.dom().contains(victim));
    assert(heap[pred].next == link_at(order, k));
    assert(heap[victim].next == link_at(order, k + 1));
    assert forall|i: int| 0 <= i < after.len() implies after[i] == (if i < k {
        order[i]
    } else {
        order[i + 1]
    }) by {}
    assert forall|i: int| 0 <= i < after.len() implies linked.dom().contains(#[trigger] after[i]) by {
        if i < k {
            assert(heap.dom().contains(order[i]));
        } else {
            assert(heap.dom().contains(order[i + 1]));
        }
    }
    assert forall|i: int| 0 <= i < after.len() implies (#[trigger] linked[after[i]]).next == link_at(
        after,
        i + 1,
    ) by {
        if i < k - 1 {
            assert(heap[order[i]].next == link_at(order, i + 1));
        } else if i >= k {
            assert(heap[order[i + 1]].next == link_at(order, i + 2));
        }
    }
    assert(values(linked, after) =~= values(heap, order).remove(k));
}

/// Follows `steps` links from the first node of a chain.
pub fn nth_handle<T>(nodes: &Arena<Node<T>>, first: usize, steps: usize, Ghost(order): Ghost<Seq<usize>>) -> (handle:
    usize)
    requires
        is_chain(nodes.heap(), Some(first), order),
        steps < order.len(),
    ensures
        handle == order[steps as int],
{
    let mut current: usize = first;
    let mut counter: usize = 0;
    while counter < steps
        invariant
            is_chain(nodes.heap(), Some(first), order),
            counter <= steps < order.len(),
            current == order[counter as int],
        decreases steps - counter,
    {
        assert(nodes.heap()[order[counter as int]].next == link_at(order, counter + 1));
        current = nodes.get(current).next.unwrap();
        counter = counter + 1;
    }
    current
}

/// Follows the links from the first node of a chain to the node that has
/// no successor.
pub fn last_handle<T>(nodes: &Arena<Node<T>>, first: usize, Ghost(order): Ghost<Seq<usize>>) -> (handle: usize)
    requires
        is_chain(nodes.heap(), Some(first), order),
    ensures
        order.len() > 0,
        handle == order.last(),
{
    let mut current: usize = first;
    let ghost mut at: int = 0;
    loop
        invariant
            is_chain(nodes.heap(), Some(first), order),
            0 <= at < order.len(),
            current == order[at],
        ensures
            at == order.len() - 1,
        decreases order.len() - at,
    {
        assert(nodes.heap()[order[at]].next == link_at(order, at + 1));
        match nodes.get(current).next {
            None => {
                break ;
            },
            Some(next) => {
                current = next;
                proof {
                    at = at + 1;
                }
            },
        }
    }
    current
}

/// Follows the links from the first node of a chain of two nodes or more,
/// looking one node ahead, to the node whose successor has no successor.
pub fn before_last_handle<T>(nodes: &Arena<Node<T>>, first: usize, Ghost(order): Ghost<Seq<usize>>) -> (handle:
    usize)
    requires
        is_chain(nodes.heap(), Some(first), order),
        order.len() >= 2,
    ensures
        handle == order[order.len() - 2],
{
    let mut current: usize = first;
    let ghost mut at: int = 0;
    loop
        invariant
            is_chain(nodes.heap(), Some(first), order),
            0 <= at < order.len() - 1,
            current == order[at],
        ensures
            at == order.len() - 2,
        decreases order.len() - at,
    {
        assert(nodes.heap()[order[at]].next == link_at(order, at + 1));
        assert(nodes.heap()[order[at + 1]].next == link_at(order, at + 2));
        let next: usize = nodes.get(current).next.unwrap();
        if nodes.get(next).next.is_none() {
            break ;
        }
        current = next;
        proof {
            at = at + 1;
        }
    }
    current
}

} // verus!
