//! Elements that the container can store on either of its two sides.

use vstd::prelude::*;

verus! {

/// What a key or a value must support: an exact copy and an exact equality
/// test, both stated over the element's mathematical view. The container's
/// contracts identify an element with its view, so both operations must be
/// faithful to it.
pub trait Element: View + Sized {
    /// Returns a copy whose view equals this element's view.
    fn dup(&self) -> (r: Self)
        ensures
            r@ == self@,
    ;

    /// Decides whether two elements have the same view.
    fn same_as(&self, other: &Self) -> (r: bool)
        ensures
            r == (self@ == other@),
    ;
}

impl Element for String {
    fn dup(&self) -> (r: Self) {
        self.clone()
    }

    fn same_as(&self, other: &Self) -> (r: bool) {
        self.eq(other)
    }
}

impl Element for u64 {
    fn dup(&self) -> (r: Self) {
        *self
    }

    fn same_as(&self, other: &Self) -> (r: bool) {
        *self == *other
    }
}

} // verus!
