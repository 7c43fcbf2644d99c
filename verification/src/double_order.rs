use crate::double::is_equal;
use crate::double::is_less;
use crate::wrapper::Fast;
use core::cmp::Ordering;
use vstd::prelude::*;
use vstd::std_specs::cmp::PartialEqSpecImpl;
use vstd::std_specs::cmp::PartialOrdSpecImpl;

verus! {

impl PartialEq for Fast<u64> {
    /// Ordinary equality of the two held values: a NaN equals nothing, not
    /// even itself, and the two zeros are equal.
    fn eq(&self, other: &Fast<u64>) -> (r: bool) {
        is_equal(self.0, other.0)
    }
}

impl PartialEqSpecImpl for Fast<u64> {
    open spec fn obeys_eq_spec() -> bool {
        true
    }

    open spec fn eq_spec(&self, other: &Fast<u64>) -> bool {
        self.equals(*other)
    }
}

impl PartialOrd for Fast<u64> {
    /// Ordinary order of the two held values: none where either is a NaN.
    fn partial_cmp(&self, other: &Fast<u64>) -> (r: Option<Ordering>) {
        if self.is_nan() || other.is_nan() {
            None
        } else if is_less(self.0, other.0) {
            Some(Ordering::Less)
        } else if is_less(other.0, self.0) {
            Some(Ordering::Greater)
        } else {
            Some(Ordering::Equal)
        }
    }
}

impl PartialOrdSpecImpl for Fast<u64> {
    open spec fn obeys_partial_cmp_spec() -> bool {
        true
    }

    open spec fn partial_cmp_spec(&self, other: &Fast<u64>) -> Option<Ordering> {
        if self.unordered(*other) {
            None
        } else if self.precedes(*other) {
            Some(Ordering::Less)
        } else if other.precedes(*self) {
            Some(Ordering::Greater)
        } else {
            Some(Ordering::Equal)
        }
    }
}

} // verus!
