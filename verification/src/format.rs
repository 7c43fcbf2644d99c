use vstd::arithmetic::power2::pow2;
use vstd::prelude::*;

verus! {

/// The shape of a binary interchange format: a sign bit above an exponent
/// field of `exp_bits` bits above a fraction field of `frac_bits` bits.
///
/// Bit patterns are read as natural numbers. The *magnitude* of a pattern
/// is the pattern without its sign bit.
#[derive(Clone, Copy, Debug)]
pub struct Format {
    pub frac_bits: u32,
    pub exp_bits: u32,
}

/// The single-precision format.
pub open spec fn binary32() -> Format {
    Format { frac_bits: 23, exp_bits: 8 }
}

/// The double-precision format.
pub open spec fn binary64() -> Format {
    Format { frac_bits: 52, exp_bits: 11 }
}

impl Format {
    /// The formats this library computes with.
    pub open spec fn wf(self) -> bool {
        1 <= self.frac_bits <= 52 && 2 <= self.exp_bits <= 11
    }

    /// The weight of the lowest exponent bit, which is also the weight of
    /// the implicit leading bit of a normal significand.
    pub open spec fn hidden(self) -> nat {
        pow2(self.frac_bits as nat)
    }

    /// The weight of the sign bit.
    pub open spec fn sign_bit(self) -> nat {
        pow2((self.frac_bits + self.exp_bits) as nat)
    }

    /// The magnitude of the infinities: all exponent bits set, fraction zero.
    pub open spec fn infinity(self) -> nat {
        (pow2(self.exp_bits as nat) - 1) as nat * self.hidden()
    }

    /// The exponent bias.
    pub open spec fn bias(self) -> nat {
        (pow2((self.exp_bits - 1) as nat) - 1) as nat
    }

    /// The pattern of `1.0`.
    pub open spec fn one(self) -> nat {
        self.bias() * self.hidden()
    }

    /// The pattern of the canonical quiet NaN: positive, with only the top
    /// fraction bit set.
    pub open spec fn quiet_nan(self) -> nat {
        self.infinity() + pow2((self.frac_bits - 1) as nat)
    }

    /// Whether `x` is a pattern of this format.
    pub open spec fn holds(self, x: nat) -> bool {
        x < 2 * self.sign_bit()
    }

    /// The pattern without its sign bit.
    pub open spec fn magnitude(self, x: nat) -> nat {
        x % self.sign_bit()
    }

    /// Whether the sign bit is set. This holds of `-0.0`, of negative
    /// infinity and of half of the NaNs too.
    pub open spec fn is_negative(self, x: nat) -> bool {
        x >= self.sign_bit()
    }

    /// The pattern with magnitude `m` and the sign bit set iff `negative`.
    pub open spec fn with_sign(self, negative: bool, m: nat) -> nat {
        if negative {
            self.sign_bit() + m
        } else {
            m
        }
    }

    /// Whether the pattern is a NaN: exponent all ones, fraction nonzero.
    pub open spec fn is_nan(self, x: nat) -> bool {
        self.magnitude(x) > self.infinity()
    }

    /// Whether the pattern is one of the two infinities.
    pub open spec fn is_infinite(self, x: nat) -> bool {
        self.magnitude(x) == self.infinity()
    }

    /// Whether the pattern is a zero, a subnormal or a normal number.
    pub open spec fn is_finite(self, x: nat) -> bool {
        self.magnitude(x) < self.infinity()
    }

    /// Whether the pattern is one of the two zeros.
    pub open spec fn is_zero(self, x: nat) -> bool {
        self.magnitude(x) == 0
    }
}

} // verus!
