//! The ways an operation on a collection can fail.

use vstd::prelude::*;

verus! {

#[derive(Clone, Copy, Debug, PartialEq, Eq, Structural)]
pub enum CollectionError {
    /// A value was asked of, or taken from, a collection that holds none.
    EmptyCollection,
    /// A position was named at which the collection holds no value.
    IndexOutOfRange,
}

} // verus!
