//! Linear collections built from explicit chains of nodes: a stack, a queue,
//! a singly-linked list and a doubly-linked list.
//!
//! Nodes live in a pool and refer to each other by handle, so a node can be
//! reached from both of its neighbours without shared ownership. Every
//! collection is viewed as the sequence of its values, and each operation's
//! contract says what it does to that sequence.

mod arena;
mod chain;
pub mod error;
pub mod linked_list;
pub mod queue;
pub mod stack;
