//! Counts that are never zero.
use vstd::prelude::*;

verus! {

/// A count of at least one.
#[derive(Debug, Clone, Copy, PartialEq, Eq, Structural)]
pub struct PositiveCount {
    value: usize,
}

impl PositiveCount {
    /// A count is never zero.
    #[verifier::type_invariant]
    spec fn is_positive(self) -> bool {
        self.value > 0
    }

    /// The count.
    pub closed spec fn spec_get(self) -> usize {
        self.value
    }

    /// Accept a count exactly when it is positive.
    pub fn new(value: usize) -> (r: Option<Self>)
        ensures
            r is Some <==> value > 0,
            r matches Some(c) ==> c.spec_get() == value,
    {
        if value > 0 {
            Some(Self { value })
        } else {
            None
        }
    }

    /// The count, which is positive.
    pub fn get(self) -> (v: usize)
        ensures
            v == self.spec_get(),
            v > 0,
    {
        proof {
            use_type_invariant(&self);
        }
        self.value
    }

    /// A count already known to be positive.
    pub(crate) fn known(value: usize) -> (c: Self)
        requires
            value > 0,
        ensures
            c.spec_get() == value,
    {
        Self { value }
    }
}

} // verus!
