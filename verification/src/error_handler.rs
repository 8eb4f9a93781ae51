//! The handlers used where routing finds nothing.

use vstd::prelude::*;

verus! {

/// What answers requests that no route takes.
pub struct ErrorHandler<S> {
    pub not_found: S,
}

impl<S> ErrorHandler<S> {
    pub fn new(not_found: S) -> (r: Self)
        ensures
            r.not_found == not_found,
    {
        ErrorHandler { not_found }
    }
}

} // verus!
