use crate::bits::bit_length;
use crate::bits::exp2;
use crate::bits::exp2_small;
use crate::format::Format;
use crate::rounding::lemma_pow2_mono;
use vstd::arithmetic::power2::lemma_pow2_adds;
use vstd::arithmetic::power2::lemma_pow2_pos;
use vstd::arithmetic::power2::lemma_pow2_unfold;
use vstd::arithmetic::power2::pow2;
use vstd::prelude::*;

verus! {

impl Format {
    /// The magnitude of the product of two finite magnitudes: the exact
    /// product of the two values, rounded once.
    pub open spec fn product(self, a: nat, b: nat) -> nat {
        self.round(self.units(a) * self.units(b), pow2(self.unit_exp()))
    }

    /// The exponent `s` for which `1.0` is `2^s` units.
    pub fn unit_exponent(&self) -> (s: u32)
        requires
            self.wf(),
        ensures
            s == self.unit_exp(),
            s <= 1074,
    {
        proof {
            self.lemma_sizes();
        }
        let half: u64 = exp2_small(self.exp_bits - 1);
        proof {
            lemma_pow2_pos((self.exp_bits - 1) as nat);
        }
        (half as u32 - 2) + self.frac_bits
    }

    /// The product of two finite magnitudes.
    pub fn multiply(&self, a: u64, b: u64) -> (m: u64)
        requires
            self.wf(),
            a < self.infinity(),
            b < self.infinity(),
        ensures
            m == self.product(a as nat, b as nat),
            m <= self.infinity(),
    {
        let (qa, ka) = self.unpack(a);
        let (qb, kb) = self.unpack(b);
        let s: u32 = self.unit_exponent();
        proof {
            self.lemma_sizes();
            lemma_pow2_unfold((self.frac_bits + 1) as nat);
            lemma_pow2_adds((self.frac_bits + 1) as nat, (self.frac_bits + 1) as nat);
            lemma_pow2_mono((2 * self.frac_bits + 2) as nat, 120);
            assert(qa * qb < pow2((self.frac_bits + 1) as nat) * pow2((self.frac_bits + 1) as nat))
                by (nonlinear_arith)
                requires
                    qa < pow2((self.frac_bits + 1) as nat),
                    qb < pow2((self.frac_bits + 1) as nat),
            ;
            crate::bits::lemma_pow2_fits(120);
        }
        let n: u128 = (qa as u128) * (qb as u128);
        let e: i64 = ka as i64 + kb as i64 - s as i64;
        let m = self.round_pack(n, e);
        proof {
            let ua = self.units(a as nat);
            let ub = self.units(b as nat);
            let unit = pow2(s as nat);
            lemma_pow2_pos(s as nat);
            lemma_pow2_adds(ka as nat, kb as nat);
            assert(ua * ub == n * pow2((ka + kb) as nat)) by (nonlinear_arith)
                requires
                    ua == qa * pow2(ka as nat),
                    ub == qb * pow2(kb as nat),
                    n == qa * qb,
                    pow2(ka as nat) * pow2(kb as nat) == pow2((ka + kb) as nat),
            ;
            if e >= 0 {
                lemma_pow2_adds(e as nat, s as nat);
                assert((n as nat * pow2(e as nat)) * unit == (ua * ub) * 1) by (nonlinear_arith)
                    requires
                        ua * ub == n * pow2((ka + kb) as nat),
                        pow2(e as nat) * unit == pow2((ka + kb) as nat),
                ;
                self.lemma_round_ratio(n as nat * pow2(e as nat), 1, ua * ub, unit);
            } else {
                lemma_pow2_adds((ka + kb) as nat, (-e) as nat);
                lemma_pow2_pos((-e) as nat);
                assert(n * unit == (ua * ub) * pow2((-e) as nat)) by (nonlinear_arith)
                    requires
                        ua * ub == n * pow2((ka + kb) as nat),
                        pow2((ka + kb) as nat) * pow2((-e) as nat) == unit,
                ;
                self.lemma_round_ratio(n as nat, pow2((-e) as nat), ua * ub, unit);
            }
        }
        m
    }
}

impl Format {
    /// The magnitude of the sum of two finite magnitudes of one sign: the
    /// exact sum of the two values, rounded once.
    pub open spec fn sum(self, a: nat, b: nat) -> nat {
        self.round(self.units(a) + self.units(b), 1)
    }

    /// The magnitude of the difference of two finite magnitudes, the larger
    /// first: the exact difference of the two values, rounded once.
    pub open spec fn difference(self, a: nat, b: nat) -> nat {
        self.round((self.units(a) - self.units(b)) as nat, 1)
    }

    /// The sum of two finite magnitudes, or their difference, the larger
    /// one first.
    pub fn accumulate(&self, a: u64, b: u64, subtract: bool) -> (m: u64)
        requires
            self.wf(),
            b <= a < self.infinity(),
        ensures
            m == if subtract {
                self.difference(a as nat, b as nat)
            } else {
                self.sum(a as nat, b as nat)
            },
            m <= self.infinity(),
    {
        proof {
            self.lemma_sizes();
            self.lemma_parts(a as nat);
            self.lemma_parts(b as nat);
            if b < a {
                self.lemma_units_increase(b as nat, a as nat);
            }
            crate::bits::lemma_pow2_fits(120);
        }
        if b == 0 {
            proof {
                vstd::arithmetic::power2::lemma2_to64();
                assert(self.units(0) == 0) by (nonlinear_arith)
                    requires
                        self.units(0) == 0 * pow2(0),
                ;
                self.lemma_round_exact(a as nat);
            }
            return a;
        }
        let p: u32 = self.frac_bits;
        let (qa, ka) = self.unpack(a);
        let (qb, kb) = self.unpack(b);
        let gap: u32 = ka - kb;
        let ghost ua = self.units(a as nat);
        let ghost ub = self.units(b as nat);
        proof {
            lemma_pow2_unfold((p + 1) as nat);
            lemma_pow2_pos(kb as nat);
            lemma_pow2_pos(gap as nat);
            lemma_pow2_adds(gap as nat, kb as nat);
        }
        if gap <= p + 2 {
            proof {
                lemma_pow2_adds((p + 1) as nat, gap as nat);
                lemma_pow2_mono((p + 1 + gap) as nat, 107);
                lemma_pow2_mono(107, 120);
                lemma_pow2_unfold(108);
                lemma_pow2_mono(108, 120);
                lemma_pow2_mono((p + 1) as nat, 107);
                assert(qa * pow2(gap as nat) < pow2((p + 1) as nat) * pow2(gap as nat))
                    by (nonlinear_arith)
                    requires
                        qa < pow2((p + 1) as nat),
                        pow2(gap as nat) > 0,
                ;
            }
            let wide: u128 = (qa as u128) * exp2(gap);
            proof {
                assert(wide * pow2(kb as nat) == ua) by (nonlinear_arith)
                    requires
                        wide == qa * pow2(gap as nat),
                        ua == qa * pow2(ka as nat),
                        pow2(gap as nat) * pow2(kb as nat) == pow2(ka as nat),
                ;
                assert(wide >= qb) by (nonlinear_arith)
                    requires
                        wide * pow2(kb as nat) == ua,
                        ub == qb * pow2(kb as nat),
                        ub <= ua,
                        pow2(kb as nat) > 0,
                ;
            }
            let n: u128 = if subtract {
                wide - qb as u128
            } else {
                wide + qb as u128
            };
            proof {
                if subtract {
                    assert(n * pow2(kb as nat) == ua - ub) by (nonlinear_arith)
                        requires
                            n == wide - qb,
                            wide * pow2(kb as nat) == ua,
                            ub == qb * pow2(kb as nat),
                    ;
                } else {
                    assert(n * pow2(kb as nat) == ua + ub) by (nonlinear_arith)
                        requires
                            n == wide + qb,
                            wide * pow2(kb as nat) == ua,
                            ub == qb * pow2(kb as nat),
                    ;
                }
            }
            self.round_pack(n, kb as i64)
        } else {
            // The smaller value is below a quarter of the spacing at the
            // larger one: one odd bit three places down stands for it.
            let c: u64 = if subtract {
                4 * qa - 1
            } else {
                4 * qa
            };
            let e: i64 = ka as i64 - 3;
            proof {
                let en = (ka - 3) as nat;
                let d = pow2(en);
                let exact: nat = if subtract {
                    (ua - ub) as nat
                } else {
                    ua + ub
                };
                lemma_pow2_pos(en);
                lemma_pow2_adds(3, en);
                lemma_pow2_adds(1, en);
                vstd::arithmetic::power2::lemma2_to64();
                lemma_pow2_adds((p + 1) as nat, kb as nat);
                lemma_pow2_mono((p + 1 + kb) as nat, (ka - 2) as nat);
                assert(ub > 0) by (nonlinear_arith)
                    requires
                        ub == qb * pow2(kb as nat),
                        qb > 0,
                        pow2(kb as nat) > 0,
                ;
                assert(ub < 2 * d) by (nonlinear_arith)
                    requires
                        ub == qb * pow2(kb as nat),
                        qb < pow2((p + 1) as nat),
                        pow2(kb as nat) > 0,
                        pow2((p + 1) as nat) * pow2(kb as nat) <= 2 * d,
                ;
                assert(ua == 8 * qa * d) by (nonlinear_arith)
                    requires
                        ua == qa * pow2(ka as nat),
                        pow2(ka as nat) == 8 * d,
                ;
                assert(2 * c * d < exact && exact < (2 * c + 2) * d) by (nonlinear_arith)
                    requires
                        ua == 8 * qa * d,
                        0 < ub < 2 * d,
                        subtract ==> c == 4 * qa - 1 && exact == ua - ub,
                        !subtract ==> c == 4 * qa && exact == ua + ub,
                ;
                self.lemma_round_sticky(exact, d, c as nat, e as int);
                assert(exact * d * 1 == exact * d) by (nonlinear_arith);
                self.lemma_round_ratio(exact * d, d, exact, 1);
                lemma_pow2_mono((p + 4) as nat, 120);
                lemma_pow2_adds((p + 1) as nat, 3);
            }
            self.round_pack(2 * (c as u128) + 1, e)
        }
    }
}

impl Format {
    /// The magnitude of the quotient of two finite magnitudes, the divisor
    /// not zero: the exact quotient of the two values, rounded once.
    pub open spec fn quotient(self, a: nat, b: nat) -> nat {
        self.round(self.units(a) * pow2(self.unit_exp()), self.units(b))
    }

    /// A nonzero significand moved up until its leading bit is the
    /// implicit one, and by how many places it moved.
    pub fn normalize(&self, q: u64) -> (parts: (u64, u32))
        requires
            self.wf(),
            0 < q < 2 * self.hidden(),
        ensures
            parts.0 == q * pow2(parts.1 as nat),
            self.hidden() <= parts.0 < 2 * self.hidden(),
            parts.1 <= self.frac_bits,
    {
        let p: u32 = self.frac_bits;
        let len: u32 = bit_length(q as u128);
        proof {
            self.lemma_sizes();
            lemma_pow2_unfold((p + 1) as nat);
            if len > p + 1 {
                lemma_pow2_mono((p + 1) as nat, (len - 1) as nat);
            }
        }
        let up: u32 = p + 1 - len;
        proof {
            lemma_pow2_adds(len as nat, up as nat);
            lemma_pow2_adds((len - 1) as nat, up as nat);
            lemma_pow2_pos(up as nat);
            assert(q * pow2(up as nat) < pow2(len as nat) * pow2(up as nat)) by (nonlinear_arith)
                requires
                    q < pow2(len as nat),
                    pow2(up as nat) > 0,
            ;
            assert(q * pow2(up as nat) >= pow2((len - 1) as nat) * pow2(up as nat))
                by (nonlinear_arith)
                requires
                    q >= pow2((len - 1) as nat),
                    pow2(up as nat) > 0,
            ;
        }
        (q * exp2_small(up), up)
    }

    /// The quotient of two finite magnitudes, the divisor not zero.
    pub fn divide(&self, a: u64, b: u64) -> (m: u64)
        requires
            self.wf(),
            a < self.infinity(),
            0 < b < self.infinity(),
        ensures
            m == self.quotient(a as nat, b as nat),
            m <= self.infinity(),
    {
        let ghost ua = self.units(a as nat);
        let ghost ub = self.units(b as nat);
        let ghost unit = pow2(self.unit_exp());
        proof {
            self.lemma_sizes();
            self.lemma_parts(a as nat);
            self.lemma_parts(b as nat);
            self.lemma_parts(0);
            self.lemma_units_increase(0, b as nat);
            vstd::arithmetic::power2::lemma2_to64();
            assert(self.units(0) == 0) by (nonlinear_arith)
                requires
                    self.units(0) == 0 * pow2(0),
            ;
            crate::bits::lemma_pow2_fits(120);
        }
        if a == 0 {
            proof {
                assert(0 * unit == 0);
                self.lemma_round_zero(ub);
            }
            return 0;
        }
        let p: u32 = self.frac_bits;
        let (qa, ka) = self.unpack(a);
        let (qb, kb) = self.unpack(b);
        let (na, la) = self.normalize(qa);
        let (nb, lb) = self.normalize(qb);
        let s: u32 = self.unit_exponent();
        let ghost h = self.hidden();
        let ghost eight = pow2((p + 3) as nat);
        proof {
            lemma_pow2_adds(p as nat, (p + 3) as nat);
            lemma_pow2_adds((p + 1) as nat, (p + 3) as nat);
            lemma_pow2_unfold((p + 1) as nat);
            lemma_pow2_unfold((p + 4) as nat);
            lemma_pow2_adds(p as nat, (p + 4) as nat);
            lemma_pow2_adds((p + 1) as nat, (p + 2) as nat);
            lemma_pow2_unfold((p + 3) as nat);
            lemma_pow2_mono((2 * p + 4) as nat, 120);
            lemma_pow2_mono((p + 5) as nat, 120);
            lemma_pow2_unfold((p + 5) as nat);
            lemma_pow2_pos((p + 3) as nat);
            assert(na * eight < 2 * h * eight) by (nonlinear_arith)
                requires
                    na < 2 * h,
                    eight > 0,
            ;
            assert(na * eight >= h * eight) by (nonlinear_arith)
                requires
                    na >= h,
                    eight > 0,
            ;
        }
        let num: u128 = (na as u128) * exp2(p + 3);
        let whole: u128 = num / (nb as u128);
        let rest: u128 = num % (nb as u128);
        let e: i64 = (ka as i64 + s as i64 + lb as i64) - (la as i64 + p as i64 + 3 + kb as i64);
        proof {
            vstd::arithmetic::div_mod::lemma_fundamental_div_mod(num as int, nb as int);
            vstd::arithmetic::div_mod::lemma_mod_bound(num as int, nb as int);
            // The quotient of the two significands has p + 3 or p + 4 bits.
            assert(whole >= pow2((p + 2) as nat)) by (nonlinear_arith)
                requires
                    num == nb * whole + rest,
                    rest < nb,
                    nb < 2 * h,
                    num >= h * eight,
                    eight == 2 * pow2((p + 2) as nat),
                    h > 0,
            ;
            assert(whole < pow2((p + 4) as nat)) by (nonlinear_arith)
                requires
                    num == nb * whole + rest,
                    rest >= 0,
                    nb >= h,
                    num < 2 * h * eight,
                    pow2((p + 4) as nat) == 2 * eight,
                    h > 0,
            ;
            // The value of num / nb, scaled, is the quotient of the values.
            let x1 = (la + p + 3 + kb) as nat;
            let x2 = (ka + s + lb) as nat;
            lemma_pow2_adds(la as nat, (p + 3) as nat);
            lemma_pow2_adds((la + p + 3) as nat, kb as nat);
            lemma_pow2_adds(ka as nat, s as nat);
            lemma_pow2_adds((ka + s) as nat, lb as nat);
            let both = qa as nat * qb as nat;
            assert(num * ub == both * pow2(x1)) by (nonlinear_arith)
                requires
                    num == na * eight,
                    na == qa * pow2(la as nat),
                    ub == qb * pow2(kb as nat),
                    pow2(x1) == pow2(la as nat) * eight * pow2(kb as nat),
                    both == qa * qb,
            ;
            assert((ua * unit) * nb == both * pow2(x2)) by (nonlinear_arith)
                requires
                    ua == qa * pow2(ka as nat),
                    nb == qb * pow2(lb as nat),
                    pow2(x2) == pow2(ka as nat) * unit * pow2(lb as nat),
                    both == qa * qb,
            ;
            assert(num * ub * pow2(x2) == (ua * unit) * nb * pow2(x1)) by (nonlinear_arith)
                requires
                    num * ub == both * pow2(x1),
                    (ua * unit) * nb == both * pow2(x2),
            ;
            if rest == 0 {
                assert(num == whole * nb) by (nonlinear_arith)
                    requires
                        num == nb * whole + rest,
                        rest == 0,
                ;
                self.lemma_round_quotient_is(num as nat, nb as nat, x1, ua * unit, ub, x2);
                self.lemma_round_quotient_whole(whole as nat, nb as nat, e as int);
            } else {
                lemma_pow2_unfold(x1 + 1);
                assert((2 * num) * ub * pow2(x2) == (ua * unit) * nb * pow2(x1 + 1))
                    by (nonlinear_arith)
                    requires
                        num * ub * pow2(x2) == (ua * unit) * nb * pow2(x1),
                        pow2(x1 + 1) == 2 * pow2(x1),
                ;
                self.lemma_round_quotient_is(
                    (2 * num) as nat,
                    nb as nat,
                    x1 + 1,
                    ua * unit,
                    ub,
                    x2,
                );
                assert(2 * whole * nb < 2 * num && 2 * num < (2 * whole + 2) * nb)
                    by (nonlinear_arith)
                    requires
                        num == nb * whole + rest,
                        0 < rest < nb,
                ;
                lemma_pow2_mono((p + 1) as nat, (p + 2) as nat);
                self.lemma_round_sticky((2 * num) as nat, nb as nat, whole as nat, e - 1);
            }
        }
        if rest == 0 {
            self.round_pack(whole, e)
        } else {
            self.round_pack(2 * whole + 1, e - 1)
        }
    }
}

impl Format {
    /// The magnitude of the remainder of two finite magnitudes, the divisor
    /// not zero: the exact remainder of the two values. It is always a
    /// value of the format, so this rounding changes nothing.
    pub open spec fn remainder(self, a: nat, b: nat) -> nat {
        self.round(self.units(a) % self.units(b), 1)
    }

    /// The remainder of two finite magnitudes, the divisor not zero.
    pub fn reduce(&self, a: u64, b: u64) -> (m: u64)
        requires
            self.wf(),
            a < self.infinity(),
            0 < b < self.infinity(),
        ensures
            m == self.remainder(a as nat, b as nat),
            m <= self.infinity(),
    {
        let ghost ua = self.units(a as nat);
        let ghost ub = self.units(b as nat);
        proof {
            self.lemma_sizes();
            self.lemma_parts(a as nat);
            self.lemma_parts(b as nat);
            self.lemma_parts(0);
            self.lemma_units_increase(0, b as nat);
            crate::bits::lemma_pow2_fits(120);
        }
        if a < b {
            proof {
                self.lemma_units_increase(a as nat, b as nat);
                vstd::arithmetic::div_mod::lemma_small_mod(ua, ub);
                self.lemma_round_exact(a as nat);
            }
            return a;
        }
        proof {
            if b < a {
                self.lemma_units_increase(b as nat, a as nat);
            }
        }
        let (qa, ka) = self.unpack(a);
        let (qb, kb) = self.unpack(b);
        let gap: u32 = ka - kb;
        proof {
            vstd::arithmetic::power2::lemma2_to64();
            assert(qa * pow2(0) == qa) by (nonlinear_arith)
                requires
                    pow2(0) == 1,
            ;
            vstd::arithmetic::div_mod::lemma_mod_bound(qa as int, qb as int);
        }
        let mut r: u64 = qa % qb;
        let mut i: u32 = 0;
        while i < gap
            invariant
                i <= gap,
                0 < qb < 0x20_0000_0000_0000,
                r < qb,
                r == (qa * pow2(i as nat)) % (qb as int),
            decreases gap - i,
        {
            proof {
                let x = qa * pow2(i as nat);
                lemma_pow2_unfold((i + 1) as nat);
                vstd::arithmetic::div_mod::lemma_mul_mod_noop_right(2, x as int, qb as int);
                vstd::arithmetic::div_mod::lemma_mod_bound(2 * x, qb as int);
                assert(qa * pow2((i + 1) as nat) == 2 * x) by (nonlinear_arith)
                    requires
                        x == qa * pow2(i as nat),
                        pow2((i + 1) as nat) == 2 * pow2(i as nat),
                ;
            }
            r = (2 * r) % qb;
            i = i + 1;
        }
        proof {
            let w = pow2(kb as nat);
            let x = qa * pow2(gap as nat);
            lemma_pow2_pos(kb as nat);
            lemma_pow2_pos(gap as nat);
            lemma_pow2_adds(gap as nat, kb as nat);
            assert(x >= 0) by (nonlinear_arith)
                requires
                    x == qa * pow2(gap as nat),
                    pow2(gap as nat) > 0,
            ;
            vstd::arithmetic::div_mod::lemma_truncate_middle(x as int, w as int, qb as int);
            assert(w * x == ua) by (nonlinear_arith)
                requires
                    x == qa * pow2(gap as nat),
                    ua == qa * pow2(ka as nat),
                    pow2(gap as nat) * w == pow2(ka as nat),
            ;
            assert(w * qb == ub) by (nonlinear_arith)
                requires
                    ub == qb * w,
            ;
            assert(r * w == w * r) by (nonlinear_arith);
            assert(ua % ub == r * pow2(kb as nat));
            lemma_pow2_unfold((self.frac_bits + 1) as nat);
            lemma_pow2_mono((self.frac_bits + 1) as nat, 120);
        }
        self.round_pack(r as u128, kb as i64)
    }
}

} // verus!
