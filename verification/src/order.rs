use vstd::prelude::*;

verus! {

/// Capability constraint for element types the heap can order.
///
/// `le` is the specification-level relation the heap-order invariant is
/// stated over; it must be a total preorder (total and transitive, hence
/// also reflexive).  `lt` is the executable strict comparison the heap
/// runs, tied to `le` by its postcondition.
pub trait TotalOrder: Sized {
    /// The "less than or equal" relation of the order.
    spec fn le(self, other: Self) -> bool;

    /// `le` relates every pair of values, one way or the other.
    proof fn total(x: Self, y: Self)
        ensures
            Self::le(x, y) || Self::le(y, x),
    ;

    /// `le` is transitive.
    proof fn transitive(x: Self, y: Self, z: Self)
        requires
            Self::le(x, y),
            Self::le(y, z),
        ensures
            Self::le(x, z),
    ;

    /// Executable strict comparison: `true` exactly when `other` is not
    /// less than or equal to `self`.
    fn lt(&self, other: &Self) -> (r: bool)
        ensures
            r == !Self::le(*other, *self),
    ;
}

impl TotalOrder for i32 {
    open spec fn le(self, other: Self) -> bool {
        self <= other
    }

    proof fn total(x: Self, y: Self) {
    }

    proof fn transitive(x: Self, y: Self, z: Self) {
    }

    fn lt(&self, other: &Self) -> (r: bool) {
        *self < *other
    }
}

impl TotalOrder for u64 {
    open spec fn le(self, other: Self) -> bool {
        self <= other
    }

    proof fn total(x: Self, y: Self) {
    }

    proof fn transitive(x: Self, y: Self, z: Self) {
    }

    fn lt(&self, other: &Self) -> (r: bool) {
        *self < *other
    }
}

} // verus!
