//! Two linked lists, singly and doubly linked, whose nodes live in an arena
//! and are linked by index. Both support appending at the tail, searching
//! for an element, removing the tail element and walking the chain in order.
//! Each operation is proved against a model of the list as a sequence of
//! elements (see `model`).

use vstd::prelude::*;

pub mod doubly;
pub mod model;
pub mod singly;

pub use doubly::DoublyLinkedList;
pub use singly::SinglyLinkedList;

verus! {

} // verus!
