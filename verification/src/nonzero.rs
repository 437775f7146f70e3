//! Sizes and counts that cannot be zero.
use vstd::prelude::*;

verus! {

/// A `usize` other than 0.
#[derive(Debug, Clone, Copy, PartialEq, Eq)]
pub struct NonZeroUsize {
    value: usize,
}

impl View for NonZeroUsize {
    type V = nat;

    closed spec fn view(&self) -> nat {
        self.value as nat
    }
}

impl NonZeroUsize {
    #[verifier::type_invariant]
    spec fn inv(self) -> bool {
        self.value > 0
    }

    /// Wraps `value` unless it is 0.
    pub fn new(value: usize) -> (r: Option<NonZeroUsize>)
        ensures
            match r {
                Some(n) => n@ == value && value > 0,
                None => value == 0,
            },
    {
        if value == 0 {
            None
        } else {
            Some(NonZeroUsize { value })
        }
    }

    /// The number itself.
    pub fn get(self) -> (r: usize)
        ensures
            r == self@,
            r > 0,
    {
        proof {
            use_type_invariant(&self);
        }
        self.value
    }
}

} // verus!
