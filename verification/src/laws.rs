use crate::format::Format;
use crate::integral::Whole;
use crate::rounding::lemma_pow2_mono;
use vstd::arithmetic::power2::lemma_pow2_adds;
use vstd::arithmetic::power2::lemma_pow2_pos;
use vstd::arithmetic::power2::lemma_pow2_unfold;
use vstd::arithmetic::power2::pow2;
use vstd::prelude::*;

verus! {

impl Format {
    /// Negation is total and touches the sign bit only: the magnitude,
    /// and with it the payload of a NaN, stays, the sign flips, and two
    /// negations give the pattern back.
    pub proof fn law_negation(self, x: nat)
        requires
            self.wf(),
            self.holds(x),
        ensures
            self.holds(self.negate(x)),
            self.magnitude(self.negate(x)) == self.magnitude(x),
            self.is_negative(self.negate(x)) != self.is_negative(x),
            self.is_nan(self.negate(x)) == self.is_nan(x),
            self.negate(self.negate(x)) == x,
    {
        let sign = self.sign_bit();
        self.lemma_sizes();
        if x >= sign {
            vstd::arithmetic::div_mod::lemma_mod_sub_multiples_vanish(x as int, sign as int);
        } else {
            vstd::arithmetic::div_mod::lemma_mod_add_multiples_vanish(x as int, sign as int);
        }
    }

    /// Positive zero is the additive identity: added to a finite number it
    /// gives a number equal to it, and the very same pattern unless the
    /// number is `-0.0`.
    pub proof fn law_zero_is_identity(self, x: nat)
        requires
            self.wf(),
            self.holds(x),
            self.is_finite(x),
        ensures
            self.equals(self.ieee_add(x, 0), x),
            self.equals(self.ieee_add(0, x), x),
            x != self.sign_bit() ==> self.ieee_add(x, 0) == x && self.ieee_add(0, x) == x,
    {
        let sign = self.sign_bit();
        let m = self.magnitude(x);
        self.lemma_sizes();
        vstd::arithmetic::div_mod::lemma_small_mod(0, sign);
        vstd::arithmetic::div_mod::lemma_mod_bound(x as int, sign as int);
        if x >= sign {
            vstd::arithmetic::div_mod::lemma_mod_sub_multiples_vanish(x as int, sign as int);
            vstd::arithmetic::div_mod::lemma_small_mod((x - sign) as nat, sign);
        } else {
            vstd::arithmetic::div_mod::lemma_small_mod(x, sign);
        }
        self.lemma_units_zero(0);
        self.lemma_units_zero(m);
        self.lemma_round_exact(m);
        self.lemma_with_sign(self.is_negative(x), m);
        assert(self.units(m) + self.units(0) == self.units(m));
        assert((self.units(m) - self.units(0)) as nat == self.units(m));
    }

    /// Addition and multiplication do not depend on the order of their
    /// operands.
    pub proof fn law_commutative(self, x: nat, y: nat)
        requires
            self.wf(),
            self.holds(x),
            self.holds(y),
        ensures
            self.ieee_add(x, y) == self.ieee_add(y, x),
            self.ieee_mul(x, y) == self.ieee_mul(y, x),
    {
        let a = self.units(self.magnitude(x));
        let b = self.units(self.magnitude(y));
        assert(a + b == b + a);
        assert(a * b == b * a) by (nonlinear_arith);
        self.lemma_sizes();
        vstd::arithmetic::div_mod::lemma_mod_bound(x as int, self.sign_bit() as int);
        vstd::arithmetic::div_mod::lemma_mod_bound(y as int, self.sign_bit() as int);
        if self.is_infinite(x) && self.is_infinite(y) && self.is_negative(x) == self.is_negative(
            y,
        ) {
            vstd::arithmetic::div_mod::lemma_fundamental_div_mod(x as int, self.sign_bit() as int);
            vstd::arithmetic::div_mod::lemma_fundamental_div_mod(y as int, self.sign_bit() as int);
            if self.is_negative(x) {
                vstd::arithmetic::div_mod::lemma_mod_sub_multiples_vanish(
                    x as int,
                    self.sign_bit() as int,
                );
                vstd::arithmetic::div_mod::lemma_mod_sub_multiples_vanish(
                    y as int,
                    self.sign_bit() as int,
                );
                vstd::arithmetic::div_mod::lemma_small_mod(
                    (x - self.sign_bit()) as nat,
                    self.sign_bit(),
                );
                vstd::arithmetic::div_mod::lemma_small_mod(
                    (y - self.sign_bit()) as nat,
                    self.sign_bit(),
                );
            } else {
                vstd::arithmetic::div_mod::lemma_small_mod(x, self.sign_bit());
                vstd::arithmetic::div_mod::lemma_small_mod(y, self.sign_bit());
            }
        }
    }

    /// The remainder is exact: its value is the remainder of the two
    /// values, and it is finite.
    pub proof fn law_remainder_is_exact(self, a: nat, b: nat)
        requires
            self.wf(),
            a < self.infinity(),
            0 < b < self.infinity(),
        ensures
            self.remainder(a, b) < self.infinity(),
            self.units(self.remainder(a, b)) == self.units(a) % self.units(b),
    {
        let ua = self.units(a);
        let ub = self.units(b);
        let p = self.frac_bits as nat;
        self.lemma_sizes();
        self.lemma_parts(a);
        self.lemma_parts(b);
        self.lemma_units_zero(b);
        if a < b {
            self.lemma_units_increase(a, b);
            vstd::arithmetic::div_mod::lemma_small_mod(ua, ub);
            self.lemma_round_exact(a);
        } else {
            if b < a {
                self.lemma_units_increase(b, a);
            }
            let qa = self.significand(a);
            let qb = self.significand(b);
            let ka = self.binade(a);
            let kb = self.binade(b);
            let gap = (ka - kb) as nat;
            let w = pow2(kb);
            let x = qa * pow2(gap);
            lemma_pow2_pos(kb);
            lemma_pow2_pos(gap);
            lemma_pow2_adds(gap, kb);
            assert(qb > 0) by (nonlinear_arith)
                requires
                    ub == qb * w,
                    ub > 0,
            ;
            assert(x >= 0) by (nonlinear_arith)
                requires
                    x == qa * pow2(gap),
                    pow2(gap) > 0,
            ;
            vstd::arithmetic::div_mod::lemma_truncate_middle(x as int, w as int, qb as int);
            vstd::arithmetic::div_mod::lemma_mod_bound(x as int, qb as int);
            assert(w * x == ua) by (nonlinear_arith)
                requires
                    x == qa * pow2(gap),
                    ua == qa * pow2(ka),
                    pow2(gap) * w == pow2(ka),
            ;
            assert(w * qb == ub) by (nonlinear_arith)
                requires
                    ub == qb * w,
            ;
            let r = (x % qb) as nat;
            assert(r * w == w * r) by (nonlinear_arith);
            assert(ua % ub == r * w);
            // r * 2^kb is below the value of b, which is in range.
            lemma_pow2_adds(p + 1, kb);
            lemma_pow2_mono(p + 1 + kb, p + self.limit());
            lemma_pow2_unfold(p + 1);
            assert(r * w < pow2(p + 1) * w) by (nonlinear_arith)
                requires
                    r < qb,
                    qb < 2 * self.hidden(),
                    pow2(p + 1) == 2 * self.hidden(),
                    w > 0,
            ;
            self.lemma_round_scaled_exact(r, kb);
            assert(self.round_scaled(r, kb as int) == self.round(r * w, 1));
        }
    }
}

/// The distance between two numbers.
pub open spec fn distance(a: int, b: int) -> int {
    if a >= b {
        a - b
    } else {
        b - a
    }
}

/// Where `f` steps are within half a step of `n`, no whole number of steps
/// is nearer to `n`.
pub proof fn lemma_steps_away(n: nat, step: nat, f: nat, g: nat)
    requires
        step > 0,
        (2 * f - 1) * step <= 2 * n,
        2 * n <= (2 * f + 1) * step,
    ensures
        distance((f * step) as int, n as int) <= distance((g * step) as int, n as int),
{
    if g >= f + 1 {
        assert(g * step >= (f + 1) * step) by (nonlinear_arith)
            requires
                g >= f + 1,
                step > 0,
        ;
        assert((f + 1) * step == f * step + step) by (nonlinear_arith);
        assert((2 * f + 1) * step == 2 * (f * step) + step) by (nonlinear_arith);
        assert((2 * f - 1) * step == 2 * (f * step) - step) by (nonlinear_arith);
    } else if g + 1 <= f {
        assert(g * step <= (f - 1) * step) by (nonlinear_arith)
            requires
                g <= f - 1,
                step > 0,
        ;
        assert((f - 1) * step == f * step - step) by (nonlinear_arith);
        assert((2 * f + 1) * step == 2 * (f * step) + step) by (nonlinear_arith);
        assert((2 * f - 1) * step == 2 * (f * step) - step) by (nonlinear_arith);
    }
}

impl Format {
    /// Rounding goes to a nearest value: where `n / d` rounds to a finite
    /// magnitude, no finite magnitude has a value nearer to `n / d`.
    pub proof fn law_round_is_nearest(self, n: nat, d: nat, other: nat)
        requires
            self.wf(),
            d > 0,
            self.round(n, d) < self.infinity(),
            other < self.infinity(),
        ensures
            distance((self.units(self.round(n, d)) * d) as int, n as int) <= distance(
                (self.units(other) * d) as int,
                n as int,
            ),
    {
        let h = self.hidden();
        let p = self.frac_bits as nat;
        let k = self.binade_of(n, d, 0);
        let step = d * pow2(k);
        let f = crate::rounding::nearest_even(n, step);
        let r = self.round(n, d);
        self.lemma_sizes();
        self.lemma_binade_bounds(n, d, 0);
        lemma_pow2_pos(k);
        assert(step > 0) by (nonlinear_arith)
            requires
                step == d * pow2(k),
                d > 0,
                pow2(k) > 0,
        ;
        crate::rounding::lemma_nearest_even_close(n, step);
        assert(r == k * h + f);
        // The result is still in range, so the binade is not the last one.
        assert(k < self.limit()) by {
            if k >= self.limit() {
                if k > 0 {
                    lemma_pow2_unfold(k);
                    assert(n >= h * step) by (nonlinear_arith)
                        requires
                            n >= d * (2 * h * pow2((k - 1) as nat)),
                            pow2(k) == 2 * pow2((k - 1) as nat),
                            step == d * pow2(k),
                    ;
                    crate::rounding::lemma_nearest_even_lower(n, step, h);
                }
                assert(k * h + f >= (self.limit() + 1) * h) by (nonlinear_arith)
                    requires
                        k >= self.limit(),
                        f >= h,
                ;
            }
        }
        assert(n < 2 * h * step) by (nonlinear_arith)
            requires
                n < d * (2 * h * pow2(k)),
                step == d * pow2(k),
        ;
        assert(f <= 2 * h) by (nonlinear_arith)
            requires
                (2 * f - 1) * step <= 2 * n,
                n < 2 * h * step,
                step > 0,
        ;
        if k > 0 {
            lemma_pow2_unfold(k);
            assert(n >= h * step) by (nonlinear_arith)
                requires
                    n >= d * (2 * h * pow2((k - 1) as nat)),
                    pow2(k) == 2 * pow2((k - 1) as nat),
                    step == d * pow2(k),
            ;
            crate::rounding::lemma_nearest_even_lower(n, step, h);
        }
        // The value of the result is f steps.
        assert(self.units(r) * d == f * step) by {
            if f < 2 * h {
                self.lemma_compose(k, f);
                assert((f * pow2(k)) * d == f * step) by (nonlinear_arith)
                    requires
                        step == d * pow2(k),
                ;
            } else {
                assert(r == (k + 1) * h + h) by (nonlinear_arith)
                    requires
                        r == k * h + f,
                        f == 2 * h,
                ;
                assert(k + 1 < self.limit()) by {
                    if k + 1 >= self.limit() {
                        assert((k + 1) * h + h >= (self.limit() + 1) * h) by (nonlinear_arith)
                            requires
                                k + 1 >= self.limit(),
                                h > 0,
                        ;
                    }
                }
                self.lemma_compose(k + 1, h);
                lemma_pow2_unfold(k + 1);
                assert((h * pow2(k + 1)) * d == f * step) by (nonlinear_arith)
                    requires
                        step == d * pow2(k),
                        pow2(k + 1) == 2 * pow2(k),
                        f == 2 * h,
                ;
            }
        }
        // The other magnitude: in a lower binade, in this one, or above.
        self.lemma_parts(other);
        let ko = self.binade(other);
        let qo = self.significand(other);
        let uo = self.units(other);
        lemma_pow2_pos(ko);
        if ko == k {
            assert(uo * d == qo * step) by (nonlinear_arith)
                requires
                    uo == qo * pow2(k),
                    step == d * pow2(k),
            ;
            lemma_steps_away(n, step, f, qo);
        } else if ko < k {
            lemma_pow2_mono(ko + 1, k);
            lemma_pow2_unfold(ko + 1);
            assert(uo * d <= h * step) by (nonlinear_arith)
                requires
                    uo == qo * pow2(ko),
                    qo < 2 * h,
                    2 * pow2(ko) <= pow2(k),
                    step == d * pow2(k),
                    d > 0,
                    h > 0,
                    pow2(ko) > 0,
            {
                assert(uo <= h * pow2(k));
            }
            lemma_steps_away(n, step, f, h);
        } else {
            lemma_pow2_mono(k + 1, ko);
            lemma_pow2_unfold(k + 1);
            assert(uo * d >= 2 * h * step) by (nonlinear_arith)
                requires
                    uo == qo * pow2(ko),
                    qo >= h,
                    2 * pow2(k) <= pow2(ko),
                    step == d * pow2(k),
                    d > 0,
                    h > 0,
            {
                assert(uo >= h * pow2(ko));
                assert(h * pow2(ko) >= h * (2 * pow2(k)));
            }
            lemma_steps_away(n, step, f, 2 * h);
        }
    }

    /// Making a finite number whole is exact: the result is finite and its
    /// value is the whole number aimed at. This holds of every format
    /// whose fraction is no wider than its bias, as the single-precision
    /// and the double-precision one are.
    pub proof fn law_whole_is_exact(self, m: nat, how: Whole)
        requires
            self.wf(),
            self.frac_bits <= self.bias(),
            m < self.infinity(),
        ensures
            self.integral(m, how) < self.infinity(),
            self.units(self.integral(m, how)) == self.whole_of(m, how) * self.unit(),
    {
        let p = self.frac_bits as nat;
        let s = self.unit_exp();
        let h = self.hidden();
        let unit = self.unit();
        let u = self.units(m);
        let q = self.significand(m);
        let k = self.binade(m);
        self.lemma_sizes();
        self.lemma_parts(m);
        lemma_pow2_pos(s);
        lemma_pow2_pos(k);
        if k >= s {
            let w = q * pow2((k - s) as nat);
            lemma_pow2_adds((k - s) as nat, s);
            lemma_pow2_pos((k - s) as nat);
            assert(u == w * unit) by (nonlinear_arith)
                requires
                    u == q * pow2(k),
                    w == q * pow2((k - s) as nat),
                    pow2((k - s) as nat) * unit == pow2(k),
            ;
            assert(w >= 0) by (nonlinear_arith)
                requires
                    w == q * pow2((k - s) as nat),
                    pow2((k - s) as nat) > 0,
            ;
            vstd::arithmetic::div_mod::lemma_div_multiples_vanish(w as int, unit as int);
            vstd::arithmetic::div_mod::lemma_mod_multiples_basic(w as int, unit as int);
            assert(w * unit == unit * w) by (nonlinear_arith);
            assert(self.whole_of(m, how) == w);
            self.lemma_round_exact(m);
        } else {
            let shift = (s - k) as nat;
            let below = u / unit;
            let w = self.whole_of(m, how);
            lemma_pow2_adds(k, shift);
            lemma_pow2_pos(shift);
            lemma_pow2_mono(1, shift);
            vstd::arithmetic::power2::lemma2_to64();
            vstd::arithmetic::div_mod::lemma_div_multiples_vanish_quotient(
                pow2(k) as int,
                q as int,
                pow2(shift) as int,
            );
            assert(pow2(k) * q == u) by (nonlinear_arith)
                requires
                    u == q * pow2(k),
            ;
            assert(below == q / pow2(shift));
            vstd::arithmetic::div_mod::lemma_fundamental_div_mod(q as int, pow2(shift) as int);
            vstd::arithmetic::div_mod::lemma_mod_bound(q as int, pow2(shift) as int);
            assert(below < h) by (nonlinear_arith)
                requires
                    q == pow2(shift) * below + q % pow2(shift),
                    q % pow2(shift) >= 0,
                    q < 2 * h,
                    pow2(shift) >= 2,
                    below >= 0,
            ;
            assert(w <= h);
            // The limit is twice the bias, so 1.0 times 2^p is in range.
            lemma_pow2_unfold(self.exp_bits as nat);
            assert(self.limit() == 2 * self.bias());
            lemma_pow2_adds(p, s);
            lemma_pow2_mono(p + s + 1, p + self.limit());
            lemma_pow2_unfold(p + s + 1);
            lemma_pow2_pos(p + s);
            assert(w * unit <= h * unit) by (nonlinear_arith)
                requires
                    w <= h,
                    unit > 0,
            ;
            self.lemma_round_scaled_exact(w, s);
            assert(self.round_scaled(w, s as int) == self.round(w * unit, 1));
        }
    }
}

/// The size of a number without its sign.
pub open spec fn size(a: int) -> nat {
    if a >= 0 {
        a as nat
    } else {
        (-a) as nat
    }
}

impl Format {
    /// The sum of two finite numbers is their exact sum rounded once: its
    /// magnitude is what the size of the exact sum rounds to, and it has
    /// the sign of the exact sum where that is not zero.
    pub proof fn law_sum_is_rounded(self, x: nat, y: nat)
        requires
            self.wf(),
            self.holds(x),
            self.holds(y),
            self.is_finite(x),
            self.is_finite(y),
        ensures
            self.holds(self.ieee_add(x, y)),
            self.magnitude(self.ieee_add(x, y)) == self.round(
                size(self.signed_units(x) + self.signed_units(y)),
                1,
            ),
            self.signed_units(x) + self.signed_units(y) != 0 ==> self.is_negative(
                self.ieee_add(x, y),
            ) == (self.signed_units(x) + self.signed_units(y) < 0),
    {
        let sign = self.sign_bit();
        let mx = self.magnitude(x);
        let my = self.magnitude(y);
        self.lemma_sizes();
        vstd::arithmetic::div_mod::lemma_mod_bound(x as int, sign as int);
        vstd::arithmetic::div_mod::lemma_mod_bound(y as int, sign as int);
        self.lemma_units_zero(mx);
        self.lemma_units_zero(my);
        if mx < my {
            self.lemma_units_increase(mx, my);
        }
        if my < mx {
            self.lemma_units_increase(my, mx);
        }
        self.lemma_round_zero(1);
        vstd::arithmetic::div_mod::lemma_small_mod(0, sign);
        let exact = size(self.signed_units(x) + self.signed_units(y));
        let r = self.round(exact, 1);
        assert(r <= self.infinity());
        self.lemma_with_sign(true, r);
        self.lemma_with_sign(false, r);
    }

    /// The difference of two finite numbers is their exact difference
    /// rounded once.
    pub proof fn law_difference_is_rounded(self, x: nat, y: nat)
        requires
            self.wf(),
            self.holds(x),
            self.holds(y),
            self.is_finite(x),
            self.is_finite(y),
        ensures
            self.holds(self.ieee_sub(x, y)),
            self.magnitude(self.ieee_sub(x, y)) == self.round(
                size(self.signed_units(x) - self.signed_units(y)),
                1,
            ),
            self.signed_units(x) - self.signed_units(y) != 0 ==> self.is_negative(
                self.ieee_sub(x, y),
            ) == (self.signed_units(x) - self.signed_units(y) < 0),
    {
        self.law_negation(y);
        self.law_sum_is_rounded(x, self.negate(y));
    }

    /// The product of two finite numbers is their exact product rounded
    /// once, negative where exactly one of the two is.
    pub proof fn law_product_is_rounded(self, x: nat, y: nat)
        requires
            self.wf(),
            self.holds(x),
            self.holds(y),
            self.is_finite(x),
            self.is_finite(y),
        ensures
            self.holds(self.ieee_mul(x, y)),
            self.magnitude(self.ieee_mul(x, y)) == self.round(
                self.units(self.magnitude(x)) * self.units(self.magnitude(y)),
                self.unit(),
            ),
            self.is_negative(self.ieee_mul(x, y)) == (self.is_negative(x) != self.is_negative(y)),
    {
        self.lemma_sizes();
        let r = self.product(self.magnitude(x), self.magnitude(y));
        assert(r <= self.infinity());
        self.lemma_with_sign(self.is_negative(x) != self.is_negative(y), r);
    }

    /// The quotient of two finite numbers, the second not zero, is their
    /// exact quotient rounded once, negative where exactly one of the two
    /// is.
    pub proof fn law_quotient_is_rounded(self, x: nat, y: nat)
        requires
            self.wf(),
            self.holds(x),
            self.holds(y),
            self.is_finite(x),
            self.is_finite(y),
            !self.is_zero(y),
        ensures
            self.holds(self.ieee_div(x, y)),
            self.magnitude(self.ieee_div(x, y)) == self.round(
                self.units(self.magnitude(x)) * self.unit(),
                self.units(self.magnitude(y)),
            ),
            self.is_negative(self.ieee_div(x, y)) == (self.is_negative(x) != self.is_negative(y)),
    {
        self.lemma_sizes();
        let r = self.quotient(self.magnitude(x), self.magnitude(y));
        assert(r <= self.infinity());
        self.lemma_with_sign(self.is_negative(x) != self.is_negative(y), r);
    }

    /// The remainder of two finite numbers, the second not zero, is exact:
    /// its value is the remainder of the two values, and it has the sign
    /// of the first number.
    pub proof fn law_remainder_of_numbers(self, x: nat, y: nat)
        requires
            self.wf(),
            self.holds(x),
            self.holds(y),
            self.is_finite(x),
            self.is_finite(y),
            !self.is_zero(y),
        ensures
            self.holds(self.ieee_rem(x, y)),
            self.is_finite(self.ieee_rem(x, y)),
            self.units(self.magnitude(self.ieee_rem(x, y))) == self.units(self.magnitude(x))
                % self.units(self.magnitude(y)),
            self.is_negative(self.ieee_rem(x, y)) == self.is_negative(x),
    {
        self.lemma_sizes();
        self.law_remainder_is_exact(self.magnitude(x), self.magnitude(y));
        let r = self.remainder(self.magnitude(x), self.magnitude(y));
        self.lemma_with_sign(self.is_negative(x), r);
    }
}

/// Of two numbers that are not negative, the larger has the larger square.
pub proof fn lemma_squares(a: nat, b: nat)
    requires
        a <= b,
    ensures
        a * a <= b * b,
{
    assert(a * a <= b * b) by (nonlinear_arith)
        requires
            0 <= a <= b,
    ;
}

impl Format {
    /// The square root goes to a nearest value: where the root of `big`
    /// is found below the last binade, the true square root is not beyond
    /// the middle between the result and any other finite magnitude. The
    /// middle `(a + b) / 2` is compared with the root by squares.
    pub proof fn law_root_is_nearest(self, big: nat, other: nat)
        requires
            self.wf(),
            self.root_binade(big, 0) + 1 < self.limit(),
            other < self.infinity(),
        ensures
            self.root(big) < self.infinity(),
            self.units(other) > self.units(self.root(big)) ==> 4 * big <= (self.units(
                self.root(big),
            ) + self.units(other)) * (self.units(self.root(big)) + self.units(other)),
            self.units(other) < self.units(self.root(big)) ==> 4 * big >= (self.units(
                self.root(big),
            ) + self.units(other)) * (self.units(self.root(big)) + self.units(other)),
    {
        let h = self.hidden();
        let k = self.root_binade(big, 0);
        let w = pow2(k);
        let four = w * w;
        let y = 4 * big / four;
        let t = crate::root::isqrt(y);
        let f = (t + 1) / 2;
        let r = self.root(big);
        self.lemma_sizes();
        self.lemma_root_binade_bounds(big, 0);
        lemma_pow2_pos(k);
        assert(four > 0) by (nonlinear_arith)
            requires
                four == w * w,
                w > 0,
        ;
        crate::root::lemma_isqrt(y);
        vstd::arithmetic::div_mod::lemma_fundamental_div_mod((4 * big) as int, four as int);
        vstd::arithmetic::div_mod::lemma_mod_bound((4 * big) as int, four as int);
        // (t * w)^2 <= 4 big < ((t + 1) * w)^2
        let rest = (4 * big) % four;
        assert((t * w) * (t * w) == (t * t) * four) by (nonlinear_arith)
            requires
                four == w * w,
        ;
        assert((t * t) * four <= y * four) by (nonlinear_arith)
            requires
                t * t <= y,
                four > 0,
        ;
        assert(y * four == four * y) by (nonlinear_arith);
        assert((t * w) * (t * w) <= 4 * big);
        assert(((t + 1) * w) * ((t + 1) * w) == ((t + 1) * (t + 1)) * four) by (nonlinear_arith)
            requires
                four == w * w,
        ;
        assert(((t + 1) * (t + 1)) * four >= (y + 1) * four) by (nonlinear_arith)
            requires
                y + 1 <= (t + 1) * (t + 1),
                four > 0,
        ;
        assert((y + 1) * four == four * y + four) by (nonlinear_arith);
        assert(4 * big < ((t + 1) * w) * ((t + 1) * w));
        // The whole root is below 4h, and at least 2h above the first binade.
        let top = 2 * h * w;
        assert(t < 4 * h) by {
            if t >= 4 * h {
                assert(t * w >= 2 * top) by (nonlinear_arith)
                    requires
                        t >= 4 * h,
                        top == 2 * h * w,
                        w > 0,
                ;
                lemma_squares(2 * top, t * w);
                assert((2 * top) * (2 * top) == 4 * (top * top)) by (nonlinear_arith);
            }
        }
        if k > 0 {
            lemma_pow2_unfold(k);
            let low = 2 * h * pow2((k - 1) as nat);
            assert(2 * low == top) by (nonlinear_arith)
                requires
                    low == 2 * h * pow2((k - 1) as nat),
                    top == 2 * h * w,
                    w == 2 * pow2((k - 1) as nat),
            ;
            assert(t + 1 > 2 * h) by {
                if t + 1 <= 2 * h {
                    assert((t + 1) * w <= top) by (nonlinear_arith)
                        requires
                            t + 1 <= 2 * h,
                            top == 2 * h * w,
                            w > 0,
                    ;
                    lemma_squares((t + 1) * w, top);
                    assert(top * top == 4 * (low * low)) by (nonlinear_arith)
                        requires
                            2 * low == top,
                    ;
                }
            }
        }
        assert(f <= 2 * h);
        assert(k > 0 ==> f >= h);
        // The value of the result is f * w.
        let ur = self.units(r);
        assert(r < self.infinity() && ur == f * w) by {
            if f < 2 * h {
                self.lemma_compose(k, f);
            } else {
                assert(r == (k + 1) * h + h) by (nonlinear_arith)
                    requires
                        r == k * h + f,
                        f == 2 * h,
                ;
                self.lemma_compose(k + 1, h);
                lemma_pow2_unfold(k + 1);
                assert(h * pow2(k + 1) == f * w) by (nonlinear_arith)
                    requires
                        pow2(k + 1) == 2 * w,
                        f == 2 * h,
                ;
            }
        }
        // The bracket around f.
        let above = (2 * f + 1) * w;
        assert(4 * big < above * above) by {
            assert((t + 1) * w <= above) by (nonlinear_arith)
                requires
                    t + 1 <= 2 * f + 1,
                    above == (2 * f + 1) * w,
                    w > 0,
            ;
            lemma_squares((t + 1) * w, above);
        }
        let below: nat = if f >= 1 {
            ((2 * f - 1) * w) as nat
        } else {
            0
        };
        assert(below * below <= 4 * big) by {
            if f >= 1 {
                assert(below <= t * w) by (nonlinear_arith)
                    requires
                        2 * f - 1 <= t,
                        below == (2 * f - 1) * w,
                        w > 0,
                ;
                lemma_squares(below, t * w);
            } else {
                assert(0 * 0 == 0);
            }
        }
        // The other magnitude: in a lower binade, in this one, or above.
        self.lemma_parts(other);
        let ko = self.binade(other);
        let qo = self.significand(other);
        let uo = self.units(other);
        lemma_pow2_pos(ko);
        if ko == k {
            if qo > f {
                assert(ur + uo >= above) by (nonlinear_arith)
                    requires
                        ur == f * w,
                        uo == qo * w,
                        qo >= f + 1,
                        above == (2 * f + 1) * w,
                        w > 0,
                ;
                lemma_squares(above, ur + uo);
                assert(uo > ur) by (nonlinear_arith)
                    requires
                        ur == f * w,
                        uo == qo * w,
                        qo >= f + 1,
                        w > 0,
                ;
            } else if qo < f {
                assert(ur + uo <= below) by (nonlinear_arith)
                    requires
                        ur == f * w,
                        uo == qo * w,
                        qo + 1 <= f,
                        below == (2 * f - 1) * w,
                        w > 0,
                ;
                lemma_squares(ur + uo, below);
                assert(uo < ur) by (nonlinear_arith)
                    requires
                        ur == f * w,
                        uo == qo * w,
                        qo + 1 <= f,
                        w > 0,
                ;
            } else {
                assert(uo == ur);
            }
        } else if ko < k {
            lemma_pow2_mono(ko + 1, k);
            lemma_pow2_unfold(ko + 1);
            assert(uo < h * w) by (nonlinear_arith)
                requires
                    uo == qo * pow2(ko),
                    qo < 2 * h,
                    2 * pow2(ko) <= w,
                    h > 0,
                    pow2(ko) > 0,
            ;
            assert(ur >= h * w) by (nonlinear_arith)
                requires
                    ur == f * w,
                    f >= h,
                    w > 0,
            ;
            if f > h {
                assert(ur + uo <= below) by (nonlinear_arith)
                    requires
                        ur == f * w,
                        uo < h * w,
                        f >= h + 1,
                        below == (2 * f - 1) * w,
                        w > 0,
                ;
                lemma_squares(ur + uo, below);
            } else {
                lemma_pow2_unfold(k);
                let low = 2 * h * pow2((k - 1) as nat);
                assert(ur + uo <= 2 * low) by (nonlinear_arith)
                    requires
                        ur == f * w,
                        f == h,
                        uo < h * w,
                        low == 2 * h * pow2((k - 1) as nat),
                        w == 2 * pow2((k - 1) as nat),
                ;
                lemma_squares(ur + uo, 2 * low);
                assert((2 * low) * (2 * low) == 4 * (low * low)) by (nonlinear_arith);
            }
        } else {
            lemma_pow2_mono(k + 1, ko);
            lemma_pow2_unfold(k + 1);
            // The other value is a multiple of 2w, and at least 2h * w.
            let m = qo * pow2((ko - k - 1) as nat);
            lemma_pow2_adds((ko - k - 1) as nat, k + 1);
            lemma_pow2_pos((ko - k - 1) as nat);
            assert(uo == m * (2 * w)) by (nonlinear_arith)
                requires
                    uo == qo * pow2(ko),
                    m == qo * pow2((ko - k - 1) as nat),
                    pow2((ko - k - 1) as nat) * pow2(k + 1) == pow2(ko),
                    pow2(k + 1) == 2 * w,
            ;
            if uo > ur {
                assert(ur + uo >= above) by (nonlinear_arith)
                    requires
                        ur == f * w,
                        uo == m * (2 * w),
                        uo > ur,
                        above == (2 * f + 1) * w,
                        w > 0,
                {
                    // 2m > f, so 2m >= f + 1.
                    assert(2 * m >= f + 1) by {
                        if 2 * m <= f {
                            assert((2 * m) * w <= f * w);
                        }
                    }
                    assert(uo == (2 * m) * w);
                    assert((2 * m) * w >= (f + 1) * w);
                }
                lemma_squares(above, ur + uo);
            }
            assert(uo >= ur) by (nonlinear_arith)
                requires
                    uo == qo * pow2(ko),
                    qo >= h,
                    pow2(ko) >= 2 * w,
                    ur == f * w,
                    f <= 2 * h,
                    w > 0,
                    h > 0,
            {
                assert(qo * pow2(ko) >= h * (2 * w));
                assert(f * w <= (2 * h) * w);
            }
        }
    }
}

impl Format {
    /// Ties go to even: where `n / d` is exactly half way between two
    /// neighbouring magnitudes of its binade, it rounds to the one whose
    /// pattern is even.
    pub proof fn law_round_ties_to_even(self, n: nat, d: nat, g: nat)
        requires
            self.wf(),
            d > 0,
            2 * n == (2 * g + 1) * (d * pow2(self.binade_of(n, d, 0))),
            self.round(n, d) < self.infinity(),
        ensures
            self.round(n, d) % 2 == 0,
            self.round(n, d) == self.binade_of(n, d, 0) * self.hidden() + g || self.round(n, d)
                == self.binade_of(n, d, 0) * self.hidden() + g + 1,
    {
        let k = self.binade_of(n, d, 0);
        let h = self.hidden();
        let step = d * pow2(k);
        self.lemma_sizes();
        lemma_pow2_pos(k);
        lemma_pow2_unfold(self.frac_bits as nat);
        assert(step > 0) by (nonlinear_arith)
            requires
                step == d * pow2(k),
                d > 0,
                pow2(k) > 0,
        ;
        crate::rounding::lemma_nearest_even_tie(n, step, g);
        let half = pow2((self.frac_bits - 1) as nat);
        assert(k * h == 2 * (k * half)) by (nonlinear_arith)
            requires
                h == 2 * half,
        ;
    }
}

impl Format {
    /// The square root of a finite number above zero is a nearest value:
    /// it is finite, and the true root is not beyond the middle between
    /// it and any other finite magnitude.
    pub proof fn law_sqrt_is_nearest(self, x: nat, other: nat)
        requires
            self.wf(),
            0 < x < self.infinity(),
            other < self.infinity(),
        ensures
            self.ieee_sqrt(x) == self.root(self.units(x) * self.unit()),
            self.ieee_sqrt(x) < self.infinity(),
            self.units(other) > self.units(self.ieee_sqrt(x)) ==> 4 * (self.units(x) * self.unit())
                <= (self.units(self.ieee_sqrt(x)) + self.units(other)) * (self.units(
                self.ieee_sqrt(x),
            ) + self.units(other)),
            self.units(other) < self.units(self.ieee_sqrt(x)) ==> 4 * (self.units(x) * self.unit())
                >= (self.units(self.ieee_sqrt(x)) + self.units(other)) * (self.units(
                self.ieee_sqrt(x),
            ) + self.units(other)),
    {
        let p = self.frac_bits as nat;
        let s = self.unit_exp();
        let h = self.hidden();
        let big = self.units(x) * self.unit();
        let lim = self.limit();
        self.lemma_sizes();
        vstd::arithmetic::div_mod::lemma_small_mod(x, self.sign_bit());
        self.lemma_parts(x);
        let q = self.significand(x);
        let k = self.binade(x);
        // The value is below 2^(p + limit) units, and the unit is at most
        // 2^(p + limit - 2): the root is below the last binade but one.
        lemma_pow2_unfold(self.exp_bits as nat);
        assert(lim == 2 * self.bias());
        lemma_pow2_unfold(p + 1);
        lemma_pow2_adds(p + 1, k);
        lemma_pow2_mono(p + 1 + k, p + lim);
        lemma_pow2_pos(k);
        lemma_pow2_pos(s);
        assert(self.units(x) < pow2(p + 1) * pow2(k)) by (nonlinear_arith)
            requires
                self.units(x) == q * pow2(k),
                q < pow2(p + 1),
                pow2(k) > 0,
        ;
        lemma_pow2_mono(s, (p + lim - 2) as nat);
        lemma_pow2_adds(p + lim, (p + lim - 2) as nat);
        let edge = 2 * h * pow2((lim - 2) as nat);
        self.lemma_binade_end((lim - 2) as nat);
        lemma_pow2_adds(p + 1 + (lim - 2) as nat, p + 1 + (lim - 2) as nat);
        assert(big < pow2(p + lim) * pow2((p + lim - 2) as nat)) by (nonlinear_arith)
            requires
                big == self.units(x) * pow2(s),
                self.units(x) < pow2(p + lim),
                0 < pow2(s) <= pow2((p + lim - 2) as nat),
        ;
        assert(big < edge * edge);
        self.lemma_root_binade_bounds(big, 0);
        let found = self.root_binade(big, 0);
        if found + 1 >= lim {
            let low = 2 * h * pow2((found - 1) as nat);
            lemma_pow2_mono((lim - 2) as nat, (found - 1) as nat);
            assert(edge <= low) by (nonlinear_arith)
                requires
                    edge == 2 * h * pow2((lim - 2) as nat),
                    low == 2 * h * pow2((found - 1) as nat),
                    pow2((lim - 2) as nat) <= pow2((found - 1) as nat),
                    h > 0,
            ;
            lemma_squares(edge, low);
        }
        self.law_root_is_nearest(big, other);
    }

    /// Ordinary order is a strict order on the patterns that are no NaN,
    /// with the two zeros in one place: a value does not precede itself,
    /// precedence carries over, and of two values one precedes the other
    /// or they are equal.
    pub proof fn law_order(self, x: nat, y: nat, z: nat)
        ensures
            !self.precedes(x, x),
            self.precedes(x, y) && self.precedes(y, z) ==> self.precedes(x, z),
            !self.is_nan(x) && !self.is_nan(y) ==> self.precedes(x, y) || self.precedes(y, x)
                || self.equals(x, y),
            !(self.precedes(x, y) && self.equals(x, y)),
            self.is_nan(x) ==> !self.equals(x, x) && !self.equals(x, y) && !self.precedes(x, y)
                && !self.precedes(y, x),
    {
    }
}

} // verus!
