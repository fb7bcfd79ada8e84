//! Two verified container primitives: a binary min-heap over a growable
//! array ([`heap::Heap`]) and a last-in-first-out stack ([`stack::Stack`]).
//!
//! Each operation carries a contract over the container's abstract state
//! (a `Seq` view, and for the heap also the multiset of its contents);
//! the heap is generic over any element type with a total order
//! capability ([`order::TotalOrder`]).

pub mod heap;
pub mod order;
pub mod stack;
