use crate::bits::exp2_small;
use crate::format::Format;
use vstd::arithmetic::power2::pow2;
use vstd::prelude::*;

verus! {

impl Format {
    /// The pattern with the sign bit flipped.
    pub open spec fn negate(self, x: nat) -> nat {
        if self.is_negative(x) {
            (x - self.sign_bit()) as nat
        } else {
            x + self.sign_bit()
        }
    }

    /// Ordinary addition: the exact sum rounded once to nearest, ties to
    /// even. A NaN operand and the sum of opposite infinities give the
    /// canonical NaN; an exact zero sum is `+0.0` unless both operands are
    /// `-0.0`.
    pub open spec fn ieee_add(self, x: nat, y: nat) -> nat {
        let sx = self.is_negative(x);
        let sy = self.is_negative(y);
        let mx = self.magnitude(x);
        let my = self.magnitude(y);
        if self.is_nan(x) || self.is_nan(y) {
            self.quiet_nan()
        } else if self.is_infinite(x) {
            if self.is_infinite(y) && sx != sy {
                self.quiet_nan()
            } else {
                x
            }
        } else if self.is_infinite(y) {
            y
        } else if sx == sy {
            self.with_sign(sx, self.sum(mx, my))
        } else if mx == my {
            0
        } else if mx > my {
            self.with_sign(sx, self.difference(mx, my))
        } else {
            self.with_sign(sy, self.difference(my, mx))
        }
    }

    /// Ordinary subtraction: the sum with the second operand negated.
    pub open spec fn ieee_sub(self, x: nat, y: nat) -> nat {
        self.ieee_add(x, self.negate(y))
    }

    /// Ordinary multiplication: the exact product rounded once. A NaN
    /// operand and zero times infinity give the canonical NaN.
    pub open spec fn ieee_mul(self, x: nat, y: nat) -> nat {
        let negative = self.is_negative(x) != self.is_negative(y);
        if self.is_nan(x) || self.is_nan(y) {
            self.quiet_nan()
        } else if self.is_infinite(x) || self.is_infinite(y) {
            if self.is_zero(x) || self.is_zero(y) {
                self.quiet_nan()
            } else {
                self.with_sign(negative, self.infinity())
            }
        } else {
            self.with_sign(negative, self.product(self.magnitude(x), self.magnitude(y)))
        }
    }

    /// Ordinary division: the exact quotient rounded once. A nonzero finite
    /// number over zero is an infinity; a NaN operand, zero over zero and
    /// infinity over infinity give the canonical NaN.
    pub open spec fn ieee_div(self, x: nat, y: nat) -> nat {
        let negative = self.is_negative(x) != self.is_negative(y);
        if self.is_nan(x) || self.is_nan(y) {
            self.quiet_nan()
        } else if self.is_infinite(x) {
            if self.is_infinite(y) {
                self.quiet_nan()
            } else {
                self.with_sign(negative, self.infinity())
            }
        } else if self.is_infinite(y) {
            self.with_sign(negative, 0)
        } else if self.is_zero(y) {
            if self.is_zero(x) {
                self.quiet_nan()
            } else {
                self.with_sign(negative, self.infinity())
            }
        } else {
            self.with_sign(negative, self.quotient(self.magnitude(x), self.magnitude(y)))
        }
    }

    /// Ordinary remainder: what is left of the first operand after taking
    /// away the second a whole number of times, towards zero; it has the
    /// sign of the first operand and is exact. A NaN operand, an infinite
    /// first operand and a zero second operand give the canonical NaN.
    pub open spec fn ieee_rem(self, x: nat, y: nat) -> nat {
        if self.is_nan(x) || self.is_nan(y) || self.is_infinite(x) || self.is_zero(y) {
            self.quiet_nan()
        } else if self.is_infinite(y) {
            x
        } else {
            self.with_sign(
                self.is_negative(x),
                self.remainder(self.magnitude(x), self.magnitude(y)),
            )
        }
    }

    /// The sign and the magnitude of a pattern.
    pub fn split(&self, x: u64) -> (parts: (bool, u64))
        requires
            self.wf(),
            self.holds(x as nat),
        ensures
            parts.0 == self.is_negative(x as nat),
            parts.1 == self.magnitude(x as nat),
            parts.1 < self.sign_bit(),
            x == self.with_sign(parts.0, parts.1 as nat),
    {
        proof {
            self.lemma_sizes();
        }
        let sign: u64 = exp2_small(self.frac_bits + self.exp_bits);
        if x >= sign {
            proof {
                vstd::arithmetic::div_mod::lemma_mod_sub_multiples_vanish(x as int, sign as int);
                vstd::arithmetic::div_mod::lemma_small_mod((x - sign) as nat, sign as nat);
            }
            (true, x - sign)
        } else {
            proof {
                vstd::arithmetic::div_mod::lemma_small_mod(x as nat, sign as nat);
            }
            (false, x)
        }
    }

    /// The pattern with the given sign and magnitude.
    pub fn join(&self, negative: bool, m: u64) -> (x: u64)
        requires
            self.wf(),
            m < self.sign_bit(),
        ensures
            x == self.with_sign(negative, m as nat),
            self.holds(x as nat),
            self.is_negative(x as nat) == negative,
            self.magnitude(x as nat) == m,
    {
        proof {
            self.lemma_sizes();
            self.lemma_with_sign(negative, m as nat);
        }
        if negative {
            exp2_small(self.frac_bits + self.exp_bits) + m
        } else {
            m
        }
    }

    /// A pattern put together from a sign and a magnitude has that sign
    /// and that magnitude.
    pub proof fn lemma_with_sign(self, negative: bool, m: nat)
        requires
            self.wf(),
            m < self.sign_bit(),
        ensures
            self.holds(self.with_sign(negative, m)),
            self.is_negative(self.with_sign(negative, m)) == negative,
            self.magnitude(self.with_sign(negative, m)) == m,
    {
        let sign = self.sign_bit();
        self.lemma_sizes();
        vstd::arithmetic::div_mod::lemma_small_mod(m, sign);
        if negative {
            vstd::arithmetic::div_mod::lemma_mod_sub_multiples_vanish(
                (sign + m) as int,
                sign as int,
            );
        }
    }

    /// The canonical quiet NaN.
    pub fn nan(&self) -> (x: u64)
        requires
            self.wf(),
        ensures
            x == self.quiet_nan(),
            self.is_nan(x as nat),
            self.holds(x as nat),
    {
        proof {
            self.lemma_sizes();
            vstd::arithmetic::div_mod::lemma_small_mod(self.quiet_nan(), self.sign_bit());
        }
        let limit: u64 = exp2_small(self.exp_bits) - 2;
        (limit + 1) * exp2_small(self.frac_bits) + exp2_small(self.frac_bits - 1)
    }

    /// The magnitude of the infinities.
    pub fn infinite(&self) -> (m: u64)
        requires
            self.wf(),
        ensures
            m == self.infinity(),
            m < self.sign_bit(),
    {
        proof {
            self.lemma_sizes();
        }
        let limit: u64 = exp2_small(self.exp_bits) - 2;
        (limit + 1) * exp2_small(self.frac_bits)
    }

    /// The ordinary sum of two patterns.
    pub fn ordinary_add(&self, x: u64, y: u64) -> (r: u64)
        requires
            self.wf(),
            self.holds(x as nat),
            self.holds(y as nat),
        ensures
            r == self.ieee_add(x as nat, y as nat),
            self.holds(r as nat),
    {
        proof {
            self.lemma_sizes();
        }
        let (sx, mx) = self.split(x);
        let (sy, my) = self.split(y);
        let inf: u64 = self.infinite();
        if mx > inf || my > inf {
            self.nan()
        } else if mx == inf {
            if my == inf && sx != sy {
                self.nan()
            } else {
                x
            }
        } else if my == inf {
            y
        } else if sx == sy {
            let m = if mx >= my {
                self.accumulate(mx, my, false)
            } else {
                self.accumulate(my, mx, false)
            };
            self.join(sx, m)
        } else if mx == my {
            0
        } else if mx > my {
            let m = self.accumulate(mx, my, true);
            self.join(sx, m)
        } else {
            let m = self.accumulate(my, mx, true);
            self.join(sy, m)
        }
    }

    /// The pattern with its sign bit flipped.
    pub fn flip(&self, x: u64) -> (r: u64)
        requires
            self.wf(),
            self.holds(x as nat),
        ensures
            r == self.negate(x as nat),
            self.holds(r as nat),
    {
        proof {
            self.lemma_sizes();
        }
        let sign: u64 = exp2_small(self.frac_bits + self.exp_bits);
        if x >= sign {
            x - sign
        } else {
            x + sign
        }
    }

    /// The ordinary difference of two patterns.
    pub fn ordinary_sub(&self, x: u64, y: u64) -> (r: u64)
        requires
            self.wf(),
            self.holds(x as nat),
            self.holds(y as nat),
        ensures
            r == self.ieee_sub(x as nat, y as nat),
            self.holds(r as nat),
    {
        let negated = self.flip(y);
        self.ordinary_add(x, negated)
    }

    /// The ordinary product of two patterns.
    pub fn ordinary_mul(&self, x: u64, y: u64) -> (r: u64)
        requires
            self.wf(),
            self.holds(x as nat),
            self.holds(y as nat),
        ensures
            r == self.ieee_mul(x as nat, y as nat),
            self.holds(r as nat),
    {
        proof {
            self.lemma_sizes();
        }
        let (sx, mx) = self.split(x);
        let (sy, my) = self.split(y);
        let inf: u64 = self.infinite();
        let negative = sx != sy;
        if mx > inf || my > inf {
            self.nan()
        } else if mx == inf || my == inf {
            if mx == 0 || my == 0 {
                self.nan()
            } else {
                self.join(negative, inf)
            }
        } else {
            let m = self.multiply(mx, my);
            self.join(negative, m)
        }
    }

    /// The ordinary quotient of two patterns.
    pub fn ordinary_div(&self, x: u64, y: u64) -> (r: u64)
        requires
            self.wf(),
            self.holds(x as nat),
            self.holds(y as nat),
        ensures
            r == self.ieee_div(x as nat, y as nat),
            self.holds(r as nat),
    {
        proof {
            self.lemma_sizes();
        }
        let (sx, mx) = self.split(x);
        let (sy, my) = self.split(y);
        let inf: u64 = self.infinite();
        let negative = sx != sy;
        if mx > inf || my > inf {
            self.nan()
        } else if mx == inf {
            if my == inf {
                self.nan()
            } else {
                self.join(negative, inf)
            }
        } else if my == inf {
            self.join(negative, 0)
        } else if my == 0 {
            if mx == 0 {
                self.nan()
            } else {
                self.join(negative, inf)
            }
        } else {
            let m = self.divide(mx, my);
            self.join(negative, m)
        }
    }

    /// The ordinary remainder of two patterns.
    pub fn ordinary_rem(&self, x: u64, y: u64) -> (r: u64)
        requires
            self.wf(),
            self.holds(x as nat),
            self.holds(y as nat),
        ensures
            r == self.ieee_rem(x as nat, y as nat),
            self.holds(r as nat),
    {
        proof {
            self.lemma_sizes();
        }
        let (sx, mx) = self.split(x);
        let (sy, my) = self.split(y);
        let inf: u64 = self.infinite();
        if mx > inf || my > inf || mx == inf || my == 0 {
            self.nan()
        } else if my == inf {
            x
        } else {
            let m = self.reduce(mx, my);
            self.join(sx, m)
        }
    }
}

} // verus!
