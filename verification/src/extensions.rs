//! A small helper for lists of findings.

use vstd::prelude::*;

verus! {

/// Turns a list into an option that is `None` for the empty list.
pub trait VecExt: Sized {
    /// The number of elements in the list.
    spec fn count(&self) -> nat;

    /// `None` for an empty list, and else the list itself.
    fn to_option(self) -> (filled: Option<Self>)
        ensures
            filled == (if self.count() == 0 {
                None
            } else {
                Some(self)
            }),
    ;
}

impl<T> VecExt for Vec<T> {
    open spec fn count(&self) -> nat {
        self@.len()
    }

    fn to_option(self) -> (filled: Option<Self>) {
        if self.is_empty() {
            None
        } else {
            Some(self)
        }
    }
}

} // verus!
