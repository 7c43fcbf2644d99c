use vstd::prelude::*;
use vstd::std_specs::convert::FromSpecImpl;

verus! {

/// A floating-point value tagged for relaxed arithmetic.
///
/// The wrapper holds exactly one value and enforces no invariant on it:
/// every bit pattern is admitted, NaNs and infinities included.
#[derive(Debug)]
pub struct Fast<F>(pub F);

impl<F: Copy> Clone for Fast<F> {
    fn clone(&self) -> (copy: Self)
        ensures
            copy == *self,
    {
        Fast(self.0)
    }
}

impl<F: Copy> Copy for Fast<F> {

}

impl<F> Fast<F> {
    /// Returns the held value, unchanged.
    pub fn get(self) -> (value: F)
        ensures
            value == self.0,
    {
        self.0
    }
}

impl<F> From<F> for Fast<F> {
    fn from(x: F) -> (wrapped: Self) {
        Fast(x)
    }
}

impl<F> FromSpecImpl<F> for Fast<F> {
    open spec fn obeys_from_spec() -> bool {
        true
    }

    open spec fn from_spec(x: F) -> Self {
        Fast(x)
    }
}

} // verus!
