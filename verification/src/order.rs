use crate::format::Format;
use vstd::arithmetic::power2::pow2;
use vstd::prelude::*;

verus! {

impl Format {
    /// The value of a pattern that is no NaN, counted in units of the
    /// smallest subnormal and signed. The infinities count as the values
    /// one binade beyond the largest finite ones.
    pub open spec fn signed_units(self, x: nat) -> int {
        if self.is_negative(x) {
            -(self.units(self.magnitude(x)) as int)
        } else {
            self.units(self.magnitude(x)) as int
        }
    }

    /// Ordinary equality: neither pattern is a NaN and the two values are
    /// equal. The two zeros are equal, and a NaN equals nothing.
    pub open spec fn equals(self, x: nat, y: nat) -> bool {
        !self.is_nan(x) && !self.is_nan(y) && self.signed_units(x) == self.signed_units(y)
    }

    /// Ordinary order: neither pattern is a NaN and the first value is the
    /// smaller one.
    pub open spec fn precedes(self, x: nat, y: nat) -> bool {
        !self.is_nan(x) && !self.is_nan(y) && self.signed_units(x) < self.signed_units(y)
    }

    /// Only the zero magnitude has the value zero.
    pub proof fn lemma_units_zero(self, m: nat)
        requires
            self.wf(),
            m <= self.infinity(),
        ensures
            self.units(m) == 0 <==> m == 0,
    {
        self.lemma_parts(0);
        vstd::arithmetic::power2::lemma2_to64();
        assert(self.units(0) == 0) by (nonlinear_arith)
            requires
                self.units(0) == 0 * pow2(0),
        ;
        if m > 0 {
            self.lemma_units_increase(0, m);
        }
    }

    /// Whether two patterns are equal as numbers.
    pub fn is_equal(&self, x: u64, y: u64) -> (r: bool)
        requires
            self.wf(),
            self.holds(x as nat),
            self.holds(y as nat),
        ensures
            r == self.equals(x as nat, y as nat),
    {
        let (sx, mx) = self.split(x);
        let (sy, my) = self.split(y);
        let inf: u64 = self.infinite();
        if mx > inf || my > inf {
            return false;
        }
        proof {
            self.lemma_units_zero(mx as nat);
            self.lemma_units_zero(my as nat);
            if mx < my {
                self.lemma_units_increase(mx as nat, my as nat);
            }
            if my < mx {
                self.lemma_units_increase(my as nat, mx as nat);
            }
        }
        if sx == sy {
            mx == my
        } else {
            mx == 0 && my == 0
        }
    }

    /// Whether the first of two patterns is the smaller number.
    pub fn is_less(&self, x: u64, y: u64) -> (r: bool)
        requires
            self.wf(),
            self.holds(x as nat),
            self.holds(y as nat),
        ensures
            r == self.precedes(x as nat, y as nat),
    {
        let (sx, mx) = self.split(x);
        let (sy, my) = self.split(y);
        let inf: u64 = self.infinite();
        if mx > inf || my > inf {
            return false;
        }
        proof {
            self.lemma_units_zero(mx as nat);
            self.lemma_units_zero(my as nat);
            if mx < my {
                self.lemma_units_increase(mx as nat, my as nat);
            }
            if my < mx {
                self.lemma_units_increase(my as nat, mx as nat);
            }
        }
        if sx {
            if sy {
                mx > my
            } else {
                mx != 0 || my != 0
            }
        } else {
            if sy {
                false
            } else {
                mx < my
            }
        }
    }
}

} // verus!
