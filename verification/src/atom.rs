//! The capability that variable identifiers and domain values must offer:
//! a decidable equality that agrees with the mathematical view, and a way to
//! duplicate a value without changing that view.

use vstd::prelude::*;

verus! {

/// An opaque, comparable value. Variables and domain values of a CSP are
/// `Atom`s: the engine never looks inside them, it only compares and copies
/// them, and both operations are pinned to the value's view.
pub trait Atom: View + Sized {
    /// Equality test that decides equality of the views.
    fn same(&self, other: &Self) -> (r: bool)
        ensures
            r == (self@ == other@),
    ;

    /// A copy whose view equals the original's.
    fn dup(&self) -> (r: Self)
        ensures
            r@ == self@,
    ;
}

impl Atom for String {
    fn same(&self, other: &Self) -> (r: bool)
        ensures
            r == (self@ == other@),
    {
        self.eq(other)
    }

    fn dup(&self) -> (r: Self)
        ensures
            r@ == self@,
    {
        self.clone()
    }
}

impl Atom for i32 {
    fn same(&self, other: &Self) -> (r: bool)
        ensures
            r == (self@ == other@),
    {
        *self == *other
    }

    fn dup(&self) -> (r: Self)
        ensures
            r@ == self@,
    {
        *self
    }
}

} // verus!
