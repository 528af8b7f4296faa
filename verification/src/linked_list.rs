//! Linked lists with access by position.
//!
//! Both lists are viewed as the sequence of their values from the first
//! node to the last, and their operations have the same contracts over
//! that sequence.

pub mod doubly;
pub mod singly;

pub use doubly::DoublyLinkedList;
pub use singly::SinglyLinkedList;

use vstd::prelude::*;

verus! {

/// The sequence `s` after `v` was inserted at `index`. A position behind
/// the end is no failure: the value then goes to the end.
pub open spec fn inserted<T>(s: Seq<T>, v: T, index: usize) -> Seq<T> {
    if index >= s.len() {
        s.push(v)
    } else {
        s.insert(index as int, v)
    }
}

/// A value inserted at position 0 is the value at position 0.
pub proof fn lemma_insert_front_is_first<T>(s: Seq<T>, v: T)
    ensures
        inserted(s, v, 0).len() == s.len() + 1,
        inserted(s, v, 0)[0] == v,
        inserted(s, v, 0).drop_first() == s,
{
    assert(inserted(s, v, 0).drop_first() =~= s);
}

/// A value inserted at the size of the list, or at any position behind it,
/// is the value at the last position.
pub proof fn lemma_insert_at_size_is_last<T>(s: Seq<T>, v: T, index: usize)
    requires
        index >= s.len(),
    ensures
        inserted(s, v, index).len() == s.len() + 1,
        inserted(s, v, index)[inserted(s, v, index).len() - 1] == v,
        inserted(s, v, index).drop_last() == s,
{
    assert(inserted(s, v, index).drop_last() =~= s);
}

/// After the value at position `index` was erased, the value at each
/// position from `index` on is the one that was one position further back,
/// and the values before `index` are where they were.
pub proof fn lemma_erase_shifts<T>(s: Seq<T>, index: usize)
    requires
        index < s.len(),
    ensures
        s.remove(index as int).len() == s.len() - 1,
        forall|i: int| index <= i < s.len() - 1 ==> s.remove(index as int)[i] == s[i + 1],
        forall|i: int| 0 <= i < index ==> s.remove(index as int)[i] == s[i],
{
}

} // verus!
