use crate::format::binary64;
use crate::format::Format;
use crate::wrapper::Fast;
use core::ops::Neg;
use vstd::arithmetic::power2::lemma2_to64;
use vstd::arithmetic::power2::lemma2_to64_rest;
use vstd::prelude::*;
use vstd::std_specs::ops::NegSpecImpl;

verus! {

/// The sign bit of a double-precision pattern.
pub const SIGN_BIT: u64 = 0x8000_0000_0000_0000;

/// All bits of a double-precision pattern but the sign bit.
pub const MAGNITUDE_MASK: u64 = 0x7fff_ffff_ffff_ffff;

/// The pattern of double-precision positive infinity.
pub const INFINITY: u64 = 0x7ff0_0000_0000_0000;

/// The pattern of double-precision negative infinity.
pub const NEG_INFINITY: u64 = 0xfff0_0000_0000_0000;

/// The pattern of the canonical double-precision quiet NaN.
pub const NAN: u64 = 0x7ff8_0000_0000_0000;

/// The double-precision pattern of `1.0`.
pub const ONE: u64 = 0x3ff0_0000_0000_0000;

/// The constants above are the landmarks of the format, and every value
/// of `u64` is a pattern of it.
pub proof fn lemma_landmarks()
    ensures
        binary64().wf(),
        binary64().hidden() == 0x10_0000_0000_0000,
        binary64().sign_bit() == SIGN_BIT,
        binary64().infinity() == INFINITY,
        binary64().quiet_nan() == NAN,
        binary64().one() == ONE,
        binary64().bias() == 1023,
        forall|x: u64| #[trigger] binary64().holds(x as nat),
{
    lemma2_to64();
    lemma2_to64_rest();
}

/// The double-precision format.
pub fn format() -> (f: Format)
    ensures
        f == binary64(),
        f.wf(),
{
    Format { frac_bits: 52, exp_bits: 11 }
}

/// Whether a pattern is a finite number.
pub open spec fn finite(x: u64) -> bool {
    binary64().is_finite(x as nat)
}

/// The ordinary sum of two patterns.
pub open spec fn ieee_add(x: u64, y: u64) -> u64 {
    binary64().ieee_add(x as nat, y as nat) as u64
}

/// The ordinary difference of two patterns.
pub open spec fn ieee_sub(x: u64, y: u64) -> u64 {
    binary64().ieee_sub(x as nat, y as nat) as u64
}

/// The ordinary product of two patterns.
pub open spec fn ieee_mul(x: u64, y: u64) -> u64 {
    binary64().ieee_mul(x as nat, y as nat) as u64
}

/// The ordinary quotient of two patterns.
pub open spec fn ieee_div(x: u64, y: u64) -> u64 {
    binary64().ieee_div(x as nat, y as nat) as u64
}

/// The ordinary remainder of two patterns.
pub open spec fn ieee_rem(x: u64, y: u64) -> u64 {
    binary64().ieee_rem(x as nat, y as nat) as u64
}

/// The fused multiply-add `x * y + z` of three patterns.
pub open spec fn ieee_fma(x: u64, y: u64, z: u64) -> u64 {
    binary64().ieee_fma(x as nat, y as nat, z as nat) as u64
}

/// The ordinary square root of a pattern.
pub open spec fn ieee_sqrt(x: u64) -> u64 {
    binary64().ieee_sqrt(x as nat) as u64
}

/// The number whose logarithm the inverse hyperbolic sine is:
/// `x + sqrt(x * x + 1)` in ordinary arithmetic.
pub open spec fn asinh_argument(x: u64) -> u64 {
    ieee_add(x, ieee_sqrt(ieee_add(ieee_mul(x, x), ONE)))
}

/// The number whose logarithm the inverse hyperbolic cosine is:
/// `x + sqrt(x * x - 1)` in ordinary arithmetic.
pub open spec fn acosh_argument(x: u64) -> u64 {
    ieee_add(x, ieee_sqrt(ieee_sub(ieee_mul(x, x), ONE)))
}

/// Ordinary addition of two patterns, defined for every pair.
pub fn ordinary_add(x: u64, y: u64) -> (r: u64)
    ensures
        r == ieee_add(x, y),
        r == binary64().ieee_add(x as nat, y as nat),
{
    proof {
        lemma_landmarks();
    }
    format().ordinary_add(x, y)
}

/// Ordinary subtraction of two patterns, defined for every pair.
pub fn ordinary_sub(x: u64, y: u64) -> (r: u64)
    ensures
        r == ieee_sub(x, y),
        r == binary64().ieee_sub(x as nat, y as nat),
{
    proof {
        lemma_landmarks();
    }
    format().ordinary_sub(x, y)
}

/// Ordinary multiplication of two patterns, defined for every pair.
pub fn ordinary_mul(x: u64, y: u64) -> (r: u64)
    ensures
        r == ieee_mul(x, y),
        r == binary64().ieee_mul(x as nat, y as nat),
{
    proof {
        lemma_landmarks();
    }
    format().ordinary_mul(x, y)
}

/// Ordinary division of two patterns, defined for every pair.
pub fn ordinary_div(x: u64, y: u64) -> (r: u64)
    ensures
        r == ieee_div(x, y),
        r == binary64().ieee_div(x as nat, y as nat),
{
    proof {
        lemma_landmarks();
    }
    format().ordinary_div(x, y)
}

/// Ordinary remainder of two patterns, defined for every pair.
pub fn ordinary_rem(x: u64, y: u64) -> (r: u64)
    ensures
        r == ieee_rem(x, y),
        r == binary64().ieee_rem(x as nat, y as nat),
{
    proof {
        lemma_landmarks();
    }
    format().ordinary_rem(x, y)
}

/// The fused multiply-add `x * y + z`, rounded once and defined for every
/// three patterns.
pub fn ordinary_fma(x: u64, y: u64, z: u64) -> (r: u64)
    ensures
        r == ieee_fma(x, y, z),
        r == binary64().ieee_fma(x as nat, y as nat, z as nat),
{
    proof {
        lemma_landmarks();
    }
    format().fused(x, y, z)
}

/// The ordinary square root of a pattern, defined for every pattern.
pub fn ordinary_sqrt(x: u64) -> (r: u64)
    ensures
        r == ieee_sqrt(x),
        r == binary64().ieee_sqrt(x as nat),
{
    proof {
        lemma_landmarks();
    }
    format().sqrt(x)
}

/// Whether two patterns are equal as numbers: neither is a NaN and the
/// values are the same, so that the two zeros are equal.
pub fn is_equal(x: u64, y: u64) -> (r: bool)
    ensures
        r == binary64().equals(x as nat, y as nat),
{
    proof {
        lemma_landmarks();
    }
    format().is_equal(x, y)
}

/// Whether the first of two patterns is the smaller number; false where
/// either is a NaN.
pub fn is_less(x: u64, y: u64) -> (r: bool)
    ensures
        r == binary64().precedes(x as nat, y as nat),
{
    proof {
        lemma_landmarks();
    }
    format().is_less(x, y)
}

impl Fast<u64> {
    /// Whether the two held values are equal as numbers.
    pub open spec fn equals(self, other: Self) -> bool {
        binary64().equals(self.0 as nat, other.0 as nat)
    }

    /// Whether the held value is the smaller number of the two.
    pub open spec fn precedes(self, other: Self) -> bool {
        binary64().precedes(self.0 as nat, other.0 as nat)
    }

    /// Whether the two held values cannot be ordered: one is a NaN.
    pub open spec fn unordered(self, other: Self) -> bool {
        binary64().is_nan(self.0 as nat) || binary64().is_nan(other.0 as nat)
    }

    /// Whether the held pattern is a NaN.
    pub fn is_nan(self) -> (r: bool)
        ensures
            r == binary64().is_nan(self.0 as nat),
    {
        proof {
            lemma_landmarks();
            let x = self.0;
            assert(x & 0x7fff_ffff_ffff_ffff == x % 0x8000_0000_0000_0000) by (bit_vector);
        }
        self.0 & MAGNITUDE_MASK > INFINITY
    }

    /// Whether the held pattern is a finite number: no NaN and no
    /// infinity. The relaxed operators take finite operands only.
    pub fn is_finite(self) -> (r: bool)
        ensures
            r == finite(self.0),
    {
        proof {
            lemma_landmarks();
            let x = self.0;
            assert(x & 0x7fff_ffff_ffff_ffff == x % 0x8000_0000_0000_0000) by (bit_vector);
        }
        self.0 & MAGNITUDE_MASK < INFINITY
    }

    /// The magnitude: the sign bit cleared, every other bit kept, so that
    /// a NaN keeps its payload.
    pub fn abs(self) -> (r: Self)
        ensures
            r.0 == binary64().magnitude(self.0 as nat),
            !binary64().is_negative(r.0 as nat),
    {
        proof {
            lemma_landmarks();
            let x = self.0;
            assert(x & 0x7fff_ffff_ffff_ffff == x % 0x8000_0000_0000_0000) by (bit_vector);
            assert(x & 0x7fff_ffff_ffff_ffff < 0x8000_0000_0000_0000) by (bit_vector);
        }
        Fast(self.0 & MAGNITUDE_MASK)
    }

    /// The magnitude of `self` with the sign of `y`.
    pub fn copysign(self, y: Self) -> (r: Self)
        ensures
            r.0 == binary64().with_sign(
                binary64().is_negative(y.0 as nat),
                binary64().magnitude(self.0 as nat),
            ),
    {
        proof {
            lemma_landmarks();
            let x = self.0;
            let s = y.0;
            assert(x & 0x7fff_ffff_ffff_ffff == x % 0x8000_0000_0000_0000) by (bit_vector);
            let m = x & 0x7fff_ffff_ffff_ffff;
            let t = s & 0x8000_0000_0000_0000;
            assert(m < 0x8000_0000_0000_0000) by (bit_vector)
                requires
                    m == x & 0x7fff_ffff_ffff_ffff,
            ;
            assert(t == (if s >= 0x8000_0000_0000_0000u64 {
                0x8000_0000_0000_0000u64
            } else {
                0u64
            })) by (bit_vector)
                requires
                    t == s & 0x8000_0000_0000_0000,
            ;
            assert(m | t == m + t) by (bit_vector)
                requires
                    m < 0x8000_0000_0000_0000,
                    t == 0 || t == 0x8000_0000_0000_0000,
            ;
        }
        Fast((self.0 & MAGNITUDE_MASK) | (y.0 & SIGN_BIT))
    }

    /// The canonical NaN for a NaN, and otherwise `1.0` with the sign of
    /// `self`: `-1.0` for `-0.0` too.
    pub fn signum(self) -> (r: Self)
        ensures
            r.0 == if binary64().is_nan(self.0 as nat) {
                binary64().quiet_nan()
            } else {
                binary64().with_sign(binary64().is_negative(self.0 as nat), binary64().one())
            },
    {
        if self.is_nan() {
            proof {
                lemma_landmarks();
            }
            Fast(NAN)
        } else {
            proof {
                lemma_landmarks();
                let s = self.0;
                let t = s & 0x8000_0000_0000_0000;
                assert(t == (if s >= 0x8000_0000_0000_0000u64 {
                    0x8000_0000_0000_0000u64
                } else {
                    0u64
                })) by (bit_vector)
                    requires
                        t == s & 0x8000_0000_0000_0000,
                ;
                assert(0x3ff0_0000_0000_0000 | t == 0x3ff0_0000_0000_0000 + t) by (bit_vector)
                    requires
                        t == 0 || t == 0x8000_0000_0000_0000,
                ;
            }
            Fast(ONE | (self.0 & SIGN_BIT))
        }
    }

    /// The largest whole number that is not above the held value. A NaN
    /// and the infinities come back unchanged.
    pub fn floor(self) -> (r: Self)
        ensures
            r.0 == binary64().ieee_floor(self.0 as nat),
    {
        proof {
            lemma_landmarks();
        }
        Fast(format().floor(self.0))
    }

    /// The smallest whole number that is not below the held value. A NaN
    /// and the infinities come back unchanged.
    pub fn ceil(self) -> (r: Self)
        ensures
            r.0 == binary64().ieee_ceil(self.0 as nat),
    {
        proof {
            lemma_landmarks();
        }
        Fast(format().ceil(self.0))
    }

    /// The whole number nearest to the held value, and the one away from
    /// zero where two are equally near. A NaN and the infinities come back
    /// unchanged.
    pub fn round(self) -> (r: Self)
        ensures
            r.0 == binary64().ieee_round(self.0 as nat),
    {
        proof {
            lemma_landmarks();
        }
        Fast(format().round_away(self.0))
    }

    /// The held value without its fraction. A NaN and the infinities come
    /// back unchanged.
    pub fn trunc(self) -> (r: Self)
        ensures
            r.0 == binary64().ieee_trunc(self.0 as nat),
    {
        proof {
            lemma_landmarks();
        }
        Fast(format().truncate(self.0))
    }

    /// The fraction of the held value: the value less its whole part, by
    /// ordinary subtraction.
    pub fn fract(self) -> (r: Self)
        ensures
            r.0 == binary64().ieee_sub(self.0 as nat, binary64().ieee_trunc(self.0 as nat)),
    {
        Fast(ordinary_sub(self.0, self.trunc().0))
    }

    /// The logarithm of the held value to the given base: the natural
    /// logarithm of the one over that of the other, by ordinary division.
    /// The caller supplies the natural logarithm as `ln`.
    pub fn log<L: Fn(Self) -> Self>(self, base: Self, ln: L) -> (r: Self)
        requires
            ln.requires((self,)),
            ln.requires((base,)),
        ensures
            exists|top: Self, bottom: Self|
                ln.ensures((self,), top) && ln.ensures((base,), bottom) && r.0 == ieee_div(
                    top.0,
                    bottom.0,
                ),
    {
        let top = ln(self);
        let bottom = ln(base);
        Fast(ordinary_div(top.0, bottom.0))
    }

    /// The sine and the cosine of the held value, each computed on its own
    /// by the function that the caller supplies for it.
    pub fn sin_cos<S: Fn(Self) -> Self, C: Fn(Self) -> Self>(self, sin: S, cos: C) -> (r: (
        Self,
        Self,
    ))
        requires
            sin.requires((self,)),
            cos.requires((self,)),
        ensures
            sin.ensures((self,), r.0),
            cos.ensures((self,), r.1),
    {
        (sin(self), cos(self))
    }

    /// The fused multiply-add `self * a + b`: the exact product plus `b`,
    /// rounded once. This is no relaxed operation.
    pub fn mul_add(self, a: Self, b: Self) -> (r: Self)
        ensures
            r.0 == binary64().ieee_fma(self.0 as nat, a.0 as nat, b.0 as nat),
    {
        Fast(ordinary_fma(self.0, a.0, b.0))
    }

    /// The square root, correctly rounded: the canonical NaN below zero,
    /// and the held value itself for a zero, positive infinity and a NaN.
    pub fn sqrt(self) -> (r: Self)
        ensures
            r.0 == binary64().ieee_sqrt(self.0 as nat),
    {
        Fast(ordinary_sqrt(self.0))
    }

    /// The inverse hyperbolic sine: negative infinity for negative
    /// infinity, and otherwise `ln(x + sqrt(x * x + 1))`, its argument put
    /// together by ordinary arithmetic. The caller supplies the natural
    /// logarithm, which is asked once, for the logarithm of
    /// [`asinh_argument`].
    pub fn asinh<L: Fn(Self) -> Self>(self, ln: L) -> (r: Self)
        requires
            self.0 != NEG_INFINITY ==> ln.requires((Fast(asinh_argument(self.0)),)),
        ensures
            self.0 == NEG_INFINITY ==> r == self,
            self.0 != NEG_INFINITY ==> ln.ensures((Fast(asinh_argument(self.0)),), r),
    {
        if self.0 == NEG_INFINITY {
            self
        } else {
            let square = ordinary_mul(self.0, self.0);
            let root = ordinary_sqrt(ordinary_add(square, ONE));
            ln(Fast(ordinary_add(self.0, root)))
        }
    }

    /// The inverse hyperbolic cosine: the canonical NaN below one, and
    /// otherwise `ln(x + sqrt(x * x - 1))`, its argument put together by
    /// ordinary arithmetic. The caller supplies the natural logarithm,
    /// which is asked once, for the logarithm of [`acosh_argument`].
    pub fn acosh<L: Fn(Self) -> Self>(self, ln: L) -> (r: Self)
        requires
            !binary64().precedes(self.0 as nat, binary64().one()) ==> ln.requires(
                (Fast(acosh_argument(self.0)),),
            ),
        ensures
            binary64().precedes(self.0 as nat, binary64().one()) ==> r.0 == NAN,
            !binary64().precedes(self.0 as nat, binary64().one()) ==> ln.ensures(
                (Fast(acosh_argument(self.0)),),
                r,
            ),
    {
        proof {
            lemma_landmarks();
        }
        if is_less(self.0, ONE) {
            Fast(NAN)
        } else {
            let square = ordinary_mul(self.0, self.0);
            let root = ordinary_sqrt(ordinary_sub(square, ONE));
            ln(Fast(ordinary_add(self.0, root)))
        }
    }

    /// Positive zero, the additive identity.
    pub fn zero() -> (r: Self)
        ensures
            r.0 == 0,
            binary64().is_zero(r.0 as nat),
            !binary64().is_negative(r.0 as nat),
    {
        proof {
            lemma_landmarks();
        }
        Fast(0)
    }

    /// Whether the held pattern is one of the two zeros.
    pub fn is_zero(&self) -> (r: bool)
        ensures
            r == binary64().is_zero(self.0 as nat),
    {
        proof {
            lemma_landmarks();
            let x = self.0;
            assert(x & 0x7fff_ffff_ffff_ffff == x % 0x8000_0000_0000_0000) by (bit_vector);
        }
        self.0 & MAGNITUDE_MASK == 0
    }
}

impl Neg for Fast<u64> {
    type Output = Fast<u64>;

    /// The pattern with the sign bit flipped and every other bit kept.
    /// This is no relaxed operation: it is defined for every pattern.
    fn neg(self) -> (r: Fast<u64>) {
        proof {
            lemma_landmarks();
            let x = self.0;
            assert(x ^ 0x8000_0000_0000_0000 == (if x >= 0x8000_0000_0000_0000u64 {
                x - 0x8000_0000_0000_0000u64
            } else {
                x + 0x8000_0000_0000_0000u64
            })) by (bit_vector);
        }
        Fast(self.0 ^ SIGN_BIT)
    }
}

impl NegSpecImpl for Fast<u64> {
    open spec fn obeys_neg_spec() -> bool {
        true
    }

    open spec fn neg_req(self) -> bool {
        true
    }

    open spec fn neg_spec(self) -> Fast<u64> {
        Fast(binary64().negate(self.0 as nat) as u64)
    }
}

impl Default for Fast<u64> {
    /// Positive zero.
    fn default() -> (r: Fast<u64>)
        ensures
            r.0 == 0,
    {
        Fast(0)
    }
}

} // verus!
