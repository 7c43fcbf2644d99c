use crate::format::Format;
use vstd::arithmetic::div_mod::lemma_div_multiples_vanish_quotient;
use vstd::arithmetic::div_mod::lemma_fundamental_div_mod;
use vstd::arithmetic::div_mod::lemma_mod_bound;
use vstd::arithmetic::div_mod::lemma_truncate_middle;
use vstd::arithmetic::div_mod::lemma_div_is_ordered;
use vstd::arithmetic::div_mod::lemma_div_multiples_vanish;
use vstd::arithmetic::power2::lemma_pow2_adds;
use vstd::arithmetic::power2::lemma_pow2_pos;
use vstd::arithmetic::power2::lemma_pow2_strictly_increases;
use vstd::arithmetic::power2::lemma_pow2_unfold;
use vstd::arithmetic::power2::pow2;
use vstd::prelude::*;

verus! {

/// The quotient `n / d` rounded to the nearest integer, a tie going to the
/// even neighbour.
pub open spec fn nearest_even(n: nat, d: nat) -> nat
    recommends
        d > 0,
{
    let f = n / d;
    let r = n % d;
    if 2 * r < d || (2 * r == d && f % 2 == 0) {
        f
    } else {
        f + 1
    }
}

impl Format {
    /// The first binade index that no finite magnitude has.
    pub open spec fn limit(self) -> nat {
        (pow2(self.exp_bits as nat) - 2) as nat
    }

    /// The binade of a magnitude: 0 for the subnormals and the first normal
    /// binade, which share one spacing, and one more for each doubling.
    pub open spec fn binade(self, m: nat) -> nat {
        if m < 2 * self.hidden() {
            0
        } else {
            (m / self.hidden() - 1) as nat
        }
    }

    /// The significand of a magnitude, the implicit leading bit included.
    pub open spec fn significand(self, m: nat) -> nat {
        (m - self.binade(m) * self.hidden()) as nat
    }

    /// The value of a finite magnitude, counted in units of the smallest
    /// subnormal: the significand times two to the binade.
    pub open spec fn units(self, m: nat) -> nat {
        self.significand(m) * pow2(self.binade(m))
    }

    /// The exponent `s` for which `1.0` is `2^s` units.
    pub open spec fn unit_exp(self) -> nat {
        (self.bias() - 1 + self.frac_bits) as nat
    }

    /// The least binade index from `from` on, and at most `limit()`, below
    /// whose upper end the quotient `n / d` lies.
    pub open spec fn binade_of(self, n: nat, d: nat, from: nat) -> nat
        decreases self.limit() - from,
    {
        if from >= self.limit() || n < d * (2 * self.hidden() * pow2(from)) {
            from
        } else {
            self.binade_of(n, d, from + 1)
        }
    }

    /// The magnitude nearest to `n / d` units: round to nearest, ties to the
    /// even significand, and to infinity from the overflow threshold on.
    pub open spec fn round(self, n: nat, d: nat) -> nat
        recommends
            d > 0,
    {
        let k = self.binade_of(n, d, 0);
        let m = k * self.hidden() + nearest_even(n, d * pow2(k));
        if m >= self.infinity() {
            self.infinity()
        } else {
            m
        }
    }

    /// The magnitude nearest to `n * 2^e` units.
    pub open spec fn round_scaled(self, n: nat, e: int) -> nat {
        if e >= 0 {
            self.round(n * pow2(e as nat), 1)
        } else {
            self.round(n, pow2((-e) as nat))
        }
    }
}

/// A quotient strictly inside the bracket around `f` rounds to `f`.
pub proof fn lemma_nearest_even_inside(n: nat, d: nat, f: nat)
    requires
        d > 0,
        (2 * f - 1) * d < 2 * n,
        2 * n < (2 * f + 1) * d,
    ensures
        nearest_even(n, d) == f,
{
    let q = n / d;
    let r = n % d;
    lemma_fundamental_div_mod(n as int, d as int);
    lemma_mod_bound(n as int, d as int);
    assert(q <= f) by (nonlinear_arith)
        requires
            n == d * q + r,
            0 <= r,
            d > 0,
            2 * n < (2 * f + 1) * d,
    ;
    assert(q >= f - 1) by (nonlinear_arith)
        requires
            n == d * q + r,
            r < d,
            d > 0,
            (2 * f - 1) * d < 2 * n,
    ;
    if q == f {
        assert(2 * r < d) by (nonlinear_arith)
            requires
                n == d * q + r,
                q == f,
                2 * n < (2 * f + 1) * d,
        ;
    } else {
        assert(2 * r > d) by (nonlinear_arith)
            requires
                n == d * q + r,
                q == f - 1,
                (2 * f - 1) * d < 2 * n,
        ;
    }
}

/// A quotient exactly half way between `f` and `f + 1` rounds to the even
/// one of the two.
pub proof fn lemma_nearest_even_tie(n: nat, d: nat, f: nat)
    requires
        d > 0,
        2 * n == (2 * f + 1) * d,
    ensures
        nearest_even(n, d) == if f % 2 == 0 {
            f
        } else {
            f + 1
        },
{
    let q = n / d;
    let r = n % d;
    lemma_fundamental_div_mod(n as int, d as int);
    lemma_mod_bound(n as int, d as int);
    assert(q <= f) by (nonlinear_arith)
        requires
            n == d * q + r,
            0 <= r,
            d > 0,
            2 * n == (2 * f + 1) * d,
    ;
    assert(q >= f) by (nonlinear_arith)
        requires
            n == d * q + r,
            r < d,
            d > 0,
            2 * n == (2 * f + 1) * d,
    ;
    assert(2 * r == d) by (nonlinear_arith)
        requires
            n == d * q + r,
            q == f,
            2 * n == (2 * f + 1) * d,
    ;
}

/// What `nearest_even` returns lies within half a step of the quotient.
pub proof fn lemma_nearest_even_close(n: nat, d: nat)
    requires
        d > 0,
    ensures
        (2 * nearest_even(n, d) - 1) * d <= 2 * n,
        2 * n <= (2 * nearest_even(n, d) + 1) * d,
{
    let q = n / d;
    let r = n % d;
    let f = nearest_even(n, d);
    lemma_fundamental_div_mod(n as int, d as int);
    lemma_mod_bound(n as int, d as int);
    if f == q {
        assert((2 * f - 1) * d <= 2 * n && 2 * n <= (2 * f + 1) * d) by (nonlinear_arith)
            requires
                n == d * q + r,
                f == q,
                0 <= r,
                2 * r <= d,
                d > 0,
        ;
    } else {
        assert((2 * f - 1) * d <= 2 * n && 2 * n <= (2 * f + 1) * d) by (nonlinear_arith)
            requires
                n == d * q + r,
                f == q + 1,
                r < d,
                2 * r >= d,
                d > 0,
        ;
    }
}

/// Rounding a quotient does not depend on a common factor of its terms.
pub proof fn lemma_nearest_even_scale(n: nat, d: nat, c: nat)
    requires
        d > 0,
        c > 0,
    ensures
        nearest_even(c * n, c * d) == nearest_even(n, d),
{
    lemma_div_multiples_vanish_quotient(c as int, n as int, d as int);
    lemma_truncate_middle(n as int, c as int, d as int);
    let r = n % d;
    lemma_mod_bound(n as int, d as int);
    assert((c * n) % (c * d) == c * r);
    assert((2 * (c * r) < c * d) == (2 * r < d)) by (nonlinear_arith)
        requires
            c > 0,
    ;
    assert((2 * (c * r) == c * d) == (2 * r == d)) by (nonlinear_arith)
        requires
            c > 0,
    ;
}

/// Two equal quotients round alike.
pub proof fn lemma_nearest_even_ratio(n1: nat, d1: nat, n2: nat, d2: nat)
    requires
        d1 > 0,
        d2 > 0,
        n1 * d2 == n2 * d1,
    ensures
        nearest_even(n1, d1) == nearest_even(n2, d2),
{
    lemma_nearest_even_scale(n1, d1, d2);
    lemma_nearest_even_scale(n2, d2, d1);
    assert(d2 * n1 == d1 * n2) by (nonlinear_arith)
        requires
            n1 * d2 == n2 * d1,
    ;
    assert(d2 * d1 == d1 * d2) by (nonlinear_arith);
}

/// A quotient that is a whole number rounds to itself.
pub proof fn lemma_nearest_even_whole(f: nat, d: nat)
    requires
        d > 0,
    ensures
        nearest_even(f * d, d) == f,
{
    assert((2 * f - 1) * d < 2 * (f * d) && 2 * (f * d) < (2 * f + 1) * d) by (nonlinear_arith)
        requires
            d > 0,
    ;
    lemma_nearest_even_inside(f * d, d, f);
}

/// Rounding never goes below the whole part of the quotient.
pub proof fn lemma_nearest_even_lower(n: nat, d: nat, c: nat)
    requires
        d > 0,
        n >= c * d,
    ensures
        nearest_even(n, d) >= c,
{
    lemma_div_is_ordered((c * d) as int, n as int, d as int);
    lemma_div_multiples_vanish(c as int, d as int);
    assert(c * d == d * c) by (nonlinear_arith);
}

/// Powers of two grow with their exponents.
pub proof fn lemma_pow2_mono(a: nat, b: nat)
    requires
        a <= b,
    ensures
        pow2(a) <= pow2(b),
        pow2(a) > 0,
{
    lemma_pow2_pos(a);
    if a < b {
        lemma_pow2_strictly_increases(a, b);
    }
}

impl Format {
    /// The upper end of binade `k`, in units.
    pub proof fn lemma_binade_end(self, k: nat)
        ensures
            2 * self.hidden() * pow2(k) == pow2(self.frac_bits as nat + 1 + k),
            self.hidden() * pow2(k) == pow2(self.frac_bits as nat + k),
            self.hidden() > 0,
    {
        lemma_pow2_adds(self.frac_bits as nat, k);
        lemma_pow2_unfold(self.frac_bits as nat + 1 + k);
        lemma_pow2_pos(self.frac_bits as nat);
        assert(2 * self.hidden() * pow2(k) == 2 * (self.hidden() * pow2(k))) by (nonlinear_arith);
    }

    /// The search for the binade of `n / d` ends at `k` when the quotient
    /// lies in binade `k`, or at or beyond the last one.
    pub proof fn lemma_binade_of(self, n: nat, d: nat, from: nat, k: nat)
        requires
            d > 0,
            from <= k <= self.limit(),
            k < self.limit() ==> n < d * (2 * self.hidden() * pow2(k)),
            k > 0 ==> n >= d * (2 * self.hidden() * pow2((k - 1) as nat)),
        ensures
            self.binade_of(n, d, from) == k,
        decreases k - from,
    {
        if from < k {
            lemma_pow2_mono(from, (k - 1) as nat);
            lemma_pow2_pos(self.frac_bits as nat);
            let h = self.hidden();
            let lo = pow2(from);
            let hi = pow2((k - 1) as nat);
            assert(d * (2 * h * lo) <= d * (2 * h * hi)) by (nonlinear_arith)
                requires
                    lo <= hi,
                    h > 0,
                    d > 0,
            ;
            self.lemma_binade_of(n, d, from + 1, k);
        }
    }

    /// The search for the binade depends on the quotient alone.
    pub proof fn lemma_binade_of_ratio(self, n1: nat, d1: nat, n2: nat, d2: nat, from: nat)
        requires
            d1 > 0,
            d2 > 0,
            n1 * d2 == n2 * d1,
        ensures
            self.binade_of(n1, d1, from) == self.binade_of(n2, d2, from),
        decreases self.limit() - from,
    {
        if from < self.limit() {
            let b = 2 * self.hidden() * pow2(from);
            assert((n1 < d1 * b) == (n2 < d2 * b)) by (nonlinear_arith)
                requires
                    d1 > 0,
                    d2 > 0,
                    n1 * d2 == n2 * d1,
            {
                assert((n1 < d1 * b) == (n1 * d2 < d1 * b * d2));
                assert((n2 < d2 * b) == (n2 * d1 < d2 * b * d1));
                assert(d1 * b * d2 == d2 * b * d1);
            }
            if !(n1 < d1 * b) {
                self.lemma_binade_of_ratio(n1, d1, n2, d2, from + 1);
            }
        }
    }

    /// Rounding depends on the quotient alone.
    pub proof fn lemma_round_ratio(self, n1: nat, d1: nat, n2: nat, d2: nat)
        requires
            d1 > 0,
            d2 > 0,
            n1 * d2 == n2 * d1,
        ensures
            self.round(n1, d1) == self.round(n2, d2),
    {
        self.lemma_binade_of_ratio(n1, d1, n2, d2, 0);
        let k = self.binade_of(n1, d1, 0);
        let w = pow2(k);
        lemma_pow2_pos(k);
        assert(n1 * (d2 * w) == n2 * (d1 * w)) by (nonlinear_arith)
            requires
                n1 * d2 == n2 * d1,
        ;
        assert(d1 * w > 0 && d2 * w > 0) by (nonlinear_arith)
            requires
                d1 > 0,
                d2 > 0,
                w > 0,
        ;
        lemma_nearest_even_ratio(n1, d1 * w, n2, d2 * w);
    }

    /// Where `n * 2^e` lies in binade `k`, rounding it is rounding `n` at
    /// the spacing of that binade.
    pub proof fn lemma_round_scaled_in(self, n: nat, e: int, len: nat, k: nat, q: nat)
        requires
            self.wf(),
            len >= 1,
            pow2((len - 1) as nat) <= n < pow2(len),
            k == if len + e - (self.frac_bits + 1) > 0 {
                len + e - (self.frac_bits + 1)
            } else {
                0
            },
            k < self.limit(),
            k <= e ==> q == n * pow2((e - k) as nat),
            k > e ==> q == nearest_even(n, pow2((k - e) as nat)),
        ensures
            self.round_scaled(n, e) == if k * self.hidden() + q >= self.infinity() {
                self.infinity()
            } else {
                k * self.hidden() + q
            },
    {
        let p = self.frac_bits as nat;
        let h = self.hidden();
        let top = 2 * h * pow2(k);
        self.lemma_binade_end(k);
        lemma_pow2_pos(k);
        if e >= 0 {
            let en = e as nat;
            let big = n * pow2(en);
            lemma_pow2_adds(len, en);
            lemma_pow2_adds((len - 1) as nat, en);
            lemma_pow2_pos(en);
            lemma_pow2_mono(len + en, p + 1 + k);
            assert(big < pow2(len) * pow2(en)) by (nonlinear_arith)
                requires
                    big == n * pow2(en),
                    n < pow2(len),
                    pow2(en) > 0,
            ;
            assert(big >= pow2((len - 1) as nat) * pow2(en)) by (nonlinear_arith)
                requires
                    big == n * pow2(en),
                    n >= pow2((len - 1) as nat),
                    pow2(en) > 0,
            ;
            assert(1 * top == top);
            if k > 0 {
                self.lemma_binade_end((k - 1) as nat);
                assert(1 * (2 * h * pow2((k - 1) as nat)) == 2 * h * pow2((k - 1) as nat));
                lemma_pow2_unfold(p + 1 + (k - 1) as nat);
            }
            self.lemma_binade_of(big, 1, 0, k);
            assert(1 * pow2(k) == pow2(k));
            if k <= e {
                lemma_pow2_adds((e - k) as nat, k);
                assert(big == q * pow2(k)) by (nonlinear_arith)
                    requires
                        big == n * pow2(en),
                        q == n * pow2((e - k) as nat),
                        pow2((e - k) as nat) * pow2(k) == pow2(en),
                ;
                lemma_nearest_even_whole(q, pow2(k));
            } else {
                let sh = (k - e) as nat;
                lemma_pow2_adds(en, sh);
                lemma_pow2_pos(sh);
                assert(big * pow2(sh) == n * pow2(k)) by (nonlinear_arith)
                    requires
                        big == n * pow2(en),
                        pow2(en) * pow2(sh) == pow2(k),
                ;
                lemma_nearest_even_ratio(big, pow2(k), n, pow2(sh));
            }
        } else {
            let d = pow2((-e) as nat);
            let sh = (k - e) as nat;
            lemma_pow2_pos((-e) as nat);
            lemma_pow2_adds((-e) as nat, p + 1 + k);
            lemma_pow2_adds((-e) as nat, k);
            lemma_pow2_mono(len, (-e) as nat + p + 1 + k);
            if k > 0 {
                self.lemma_binade_end((k - 1) as nat);
                lemma_pow2_unfold(p + 1 + (k - 1) as nat);
                lemma_pow2_adds((-e) as nat, p + k);
                assert(d * (2 * h * pow2((k - 1) as nat)) == d * pow2(p + k)) by (nonlinear_arith)
                    requires
                        2 * h * pow2((k - 1) as nat) == pow2(p + k),
                ;
            }
            assert(d * top == d * pow2(p + 1 + k)) by (nonlinear_arith)
                requires
                    top == pow2(p + 1 + k),
            ;
            self.lemma_binade_of(n, d, 0, k);
        }
    }

    /// A product `n * 2^e` at or beyond the last binade rounds to infinity.
    pub proof fn lemma_round_scaled_over(self, n: nat, e: int, len: nat)
        requires
            self.wf(),
            len >= 1,
            pow2((len - 1) as nat) <= n,
            len + e - (self.frac_bits + 1) >= self.limit(),
        ensures
            self.round_scaled(n, e) == self.infinity(),
    {
        let p = self.frac_bits as nat;
        let h = self.hidden();
        let k = self.limit();
        vstd::arithmetic::power2::lemma2_to64();
        lemma_pow2_mono(2, self.exp_bits as nat);
        assert(k >= 2);
        self.lemma_binade_end((k - 1) as nat);
        self.lemma_binade_end(k);
        lemma_pow2_unfold(p + 1 + (k - 1) as nat);
        lemma_pow2_pos(k);
        // The value is at least 2^(p + k) units.
        let (big, d) = if e >= 0 {
            (n * pow2(e as nat), 1nat)
        } else {
            (n, pow2((-e) as nat))
        };
        assert(d > 0 && big >= d * pow2(p + k)) by {
            if e >= 0 {
                let en = e as nat;
                lemma_pow2_adds((len - 1) as nat, en);
                lemma_pow2_pos(en);
                lemma_pow2_mono(p + k, (len - 1) as nat + en);
                assert(big >= pow2((len - 1) as nat) * pow2(en)) by (nonlinear_arith)
                    requires
                        big == n * pow2(en),
                        n >= pow2((len - 1) as nat),
                        pow2(en) > 0,
                ;
            } else {
                lemma_pow2_pos((-e) as nat);
                lemma_pow2_adds((-e) as nat, p + k);
                lemma_pow2_mono((-e) as nat + p + k, (len - 1) as nat);
            }
        }
        assert(d * (2 * h * pow2((k - 1) as nat)) == d * pow2(p + k)) by (nonlinear_arith)
            requires
                2 * h * pow2((k - 1) as nat) == pow2(p + k),
        ;
        self.lemma_binade_of(big, d, 0, k);
        assert(d * pow2(p + k) == h * (d * pow2(k))) by (nonlinear_arith)
            requires
                h * pow2(k) == pow2(p + k),
        ;
        assert(d * pow2(k) > 0) by (nonlinear_arith)
            requires
                d > 0,
                pow2(k) > 0,
        ;
        lemma_nearest_even_lower(big, d * pow2(k), h);
        let q = nearest_even(big, d * pow2(k));
        assert(k * h + q >= self.infinity()) by (nonlinear_arith)
            requires
                q >= h,
                k == pow2(self.exp_bits as nat) - 2,
                self.infinity() == (pow2(self.exp_bits as nat) - 1) * h,
        ;
    }
    /// Nothing rounds to zero.
    pub proof fn lemma_round_scaled_zero(self, e: int)
        requires
            self.wf(),
        ensures
            self.round_scaled(0, e) == 0,
    {
        self.lemma_sizes();
        let d = if e >= 0 {
            1nat
        } else {
            pow2((-e) as nat)
        };
        if e < 0 {
            lemma_pow2_pos((-e) as nat);
        } else {
            assert(0 * pow2(e as nat) == 0);
        }
        vstd::arithmetic::power2::lemma2_to64();
        assert(d * (2 * self.hidden() * pow2(0)) > 0) by (nonlinear_arith)
            requires
                d > 0,
                self.hidden() > 0,
                pow2(0) == 1,
        ;
        assert(self.binade_of(0, d, 0) == 0);
        assert(d * pow2(0) == d);
        vstd::arithmetic::div_mod::lemma_basic_div(0, d as int);
        lemma_small_mod_zero(d);
        assert(self.infinity() > 0) by (nonlinear_arith)
            requires
                self.infinity() == (self.limit() + 1) * self.hidden(),
                self.hidden() > 0,
                self.limit() >= 2,
        ;
    }
}

/// Zero leaves no remainder.
pub proof fn lemma_small_mod_zero(d: nat)
    requires
        d > 0,
    ensures
        0nat % d == 0,
        0nat / d == 0,
{
    vstd::arithmetic::div_mod::lemma_small_mod(0, d);
    vstd::arithmetic::div_mod::lemma_basic_div(0, d as int);
}

/// A bit length for every positive number.
pub proof fn bit_length_of(n: nat) -> (len: nat)
    requires
        n > 0,
    ensures
        len >= 1,
        pow2((len - 1) as nat) <= n < pow2(len),
    decreases n,
{
    vstd::arithmetic::power2::lemma2_to64();
    if n == 1 {
        1
    } else {
        let below = bit_length_of(n / 2);
        lemma_pow2_unfold(below);
        lemma_pow2_unfold(below + 1);
        below + 1
    }
}

impl Format {
    /// The magnitude nearest to `(n / d) * 2^e` units.
    pub open spec fn round_quotient(self, n: nat, d: nat, e: int) -> nat {
        if e >= 0 {
            self.round(n * pow2(e as nat), d)
        } else {
            self.round(n, d * pow2((-e) as nat))
        }
    }

    /// How a magnitude up to infinity splits into binade and significand.
    pub proof fn lemma_parts(self, m: nat)
        requires
            self.wf(),
            m <= self.infinity(),
        ensures
            self.binade(m) <= self.limit(),
            m < self.infinity() ==> self.binade(m) < self.limit(),
            m == self.binade(m) * self.hidden() + self.significand(m),
            self.significand(m) < 2 * self.hidden(),
            self.binade(m) > 0 ==> self.significand(m) >= self.hidden(),
            self.binade(m) == 0 ==> self.significand(m) == m,
            m >= 2 * self.hidden() ==> self.binade(m) + 1 == m / self.hidden(),
    {
        self.lemma_sizes();
        let h = self.hidden();
        if m >= 2 * h {
            let ex = m / h;
            let r = m % h;
            lemma_fundamental_div_mod(m as int, h as int);
            lemma_mod_bound(m as int, h as int);
            assert(ex >= 2 && ex <= self.limit() + 1) by (nonlinear_arith)
                requires
                    m == h * ex + r,
                    0 <= r < h,
                    m >= 2 * h,
                    m <= (self.limit() + 1) * h,
            ;
            if m < self.infinity() {
                assert(ex < self.limit() + 1) by (nonlinear_arith)
                    requires
                        m == h * ex + r,
                        0 <= r,
                        h > 0,
                        m < (self.limit() + 1) * h,
                ;
            }
            assert((ex - 1) * h == h * ex - h) by (nonlinear_arith);
        } else {
            assert(0 * h == 0);
        }
    }

    /// Larger magnitudes have larger values.
    pub proof fn lemma_units_increase(self, a: nat, b: nat)
        requires
            self.wf(),
            a < b <= self.infinity(),
        ensures
            self.units(a) < self.units(b),
            self.binade(a) <= self.binade(b),
    {
        self.lemma_parts(a);
        self.lemma_parts(b);
        self.lemma_sizes();
        let h = self.hidden();
        let ka = self.binade(a);
        let kb = self.binade(b);
        let qa = self.significand(a);
        let qb = self.significand(b);
        lemma_pow2_pos(ka);
        lemma_pow2_pos(kb);
        assert(ka <= kb) by {
            if a >= 2 * h {
                lemma_div_is_ordered(a as int, b as int, h as int);
            }
        }
        if ka == kb {
            assert(qa * pow2(ka) < qb * pow2(kb)) by (nonlinear_arith)
                requires
                    qa < qb,
                    ka == kb,
                    pow2(ka) > 0,
            ;
        } else {
            lemma_pow2_mono(ka + 1, kb);
            lemma_pow2_unfold(ka + 1);
            assert(qa * pow2(ka) < qb * pow2(kb)) by (nonlinear_arith)
                requires
                    qa < 2 * h,
                    qb >= h,
                    h > 0,
                    2 * pow2(ka) <= pow2(kb),
                    pow2(ka) > 0,
            ;
        }
    }

    /// A finite magnitude is what its own value rounds to.
    pub proof fn lemma_round_exact(self, m: nat)
        requires
            self.wf(),
            m < self.infinity(),
        ensures
            self.round(self.units(m), 1) == m,
    {
        self.lemma_parts(m);
        let h = self.hidden();
        let k = self.binade(m);
        let q = self.significand(m);
        let n = self.units(m);
        lemma_pow2_pos(k);
        assert(n < 1 * (2 * h * pow2(k))) by (nonlinear_arith)
            requires
                n == q * pow2(k),
                q < 2 * h,
                pow2(k) > 0,
        ;
        if k > 0 {
            lemma_pow2_unfold(k);
            assert(n >= 1 * (2 * h * pow2((k - 1) as nat))) by (nonlinear_arith)
                requires
                    n == q * pow2(k),
                    q >= h,
                    pow2(k) == 2 * pow2((k - 1) as nat),
            ;
        }
        self.lemma_binade_of(n, 1, 0, k);
        assert(1 * pow2(k) == pow2(k));
        lemma_nearest_even_whole(q, pow2(k));
    }

    /// A quotient at or beyond the last binade rounds to infinity.
    pub proof fn lemma_round_over(self, n: nat, d: nat)
        requires
            self.wf(),
            d > 0,
            n >= d * pow2(self.frac_bits as nat + self.limit()),
        ensures
            self.round(n, d) == self.infinity(),
    {
        let p = self.frac_bits as nat;
        let h = self.hidden();
        let k = self.limit();
        self.lemma_sizes();
        self.lemma_binade_end((k - 1) as nat);
        self.lemma_binade_end(k);
        lemma_pow2_unfold(p + 1 + (k - 1) as nat);
        lemma_pow2_pos(k);
        assert(d * (2 * h * pow2((k - 1) as nat)) == d * pow2(p + k)) by (nonlinear_arith)
            requires
                2 * h * pow2((k - 1) as nat) == pow2(p + k),
        ;
        self.lemma_binade_of(n, d, 0, k);
        assert(d * pow2(p + k) == h * (d * pow2(k))) by (nonlinear_arith)
            requires
                h * pow2(k) == pow2(p + k),
        ;
        assert(d * pow2(k) > 0) by (nonlinear_arith)
            requires
                d > 0,
                pow2(k) > 0,
        ;
        lemma_nearest_even_lower(n, d * pow2(k), h);
        let q = nearest_even(n, d * pow2(k));
        assert(k * h + q >= self.infinity()) by (nonlinear_arith)
            requires
                q >= h,
                self.infinity() == (k + 1) * h,
        ;
    }

    /// A quotient strictly between an even number `2c` and the next even
    /// number rounds as the odd number between them does, once `c` has two
    /// bits more than a significand: one odd bit stands for all that was
    /// cut off.
    pub proof fn lemma_round_sticky(self, n: nat, d: nat, c: nat, e: int)
        requires
            self.wf(),
            d > 0,
            c >= pow2(self.frac_bits as nat + 1),
            2 * c * d < n < (2 * c + 2) * d,
        ensures
            self.round_quotient(n, d, e) == self.round_scaled(2 * c + 1, e),
    {
        let p = self.frac_bits as nat;
        let h = self.hidden();
        let odd = 2 * c + 1;
        let len = bit_length_of(odd);
        self.lemma_sizes();
        // The odd number has at least p + 3 bits, and its even neighbours
        // are within the same powers of two.
        lemma_pow2_unfold(p + 2);
        if len < p + 3 {
            lemma_pow2_mono(len, p + 2);
        }
        lemma_pow2_unfold(len);
        lemma_pow2_unfold((len - 1) as nat);
        let low = pow2((len - 1) as nat);
        let high = pow2(len);
        assert(low <= 2 * c && 2 * c + 2 <= high);
        assert(low * d < n) by (nonlinear_arith)
            requires
                low <= 2 * c,
                2 * c * d < n,
                d > 0,
        ;
        assert(n < high * d) by (nonlinear_arith)
            requires
                2 * c + 2 <= high,
                n < (2 * c + 2) * d,
                d > 0,
        ;
        let big = if e >= 0 {
            n * pow2(e as nat)
        } else {
            n
        };
        let den = if e >= 0 {
            d
        } else {
            d * pow2((-e) as nat)
        };
        let scale = if e >= 0 {
            pow2(e as nat)
        } else {
            pow2((-e) as nat)
        };
        lemma_pow2_pos(if e >= 0 {
            e as nat
        } else {
            (-e) as nat
        });
        assert(den > 0) by (nonlinear_arith)
            requires
                d > 0,
                scale > 0,
                den == d || den == d * scale,
        ;
        let t = len + e - (p + 1);
        if t >= self.limit() {
            self.lemma_round_scaled_over(odd, e, len);
            if e >= 0 {
                lemma_pow2_adds((len - 1) as nat, e as nat);
                lemma_pow2_mono(p + self.limit(), (len - 1) as nat + e as nat);
                assert(big >= den * pow2(p + self.limit())) by (nonlinear_arith)
                    requires
                        big == n * scale,
                        den == d,
                        low * d < n,
                        low * scale >= pow2(p + self.limit()),
                        scale > 0,
                        d > 0,
                ;
            } else {
                lemma_pow2_adds((-e) as nat, p + self.limit());
                lemma_pow2_mono((-e) as nat + p + self.limit(), (len - 1) as nat);
                assert(big >= den * pow2(p + self.limit())) by (nonlinear_arith)
                    requires
                        big == n,
                        den == d * scale,
                        low * d < n,
                        scale * pow2(p + self.limit()) <= low,
                        d > 0,
                ;
            }
            self.lemma_round_over(big, den);
        } else {
            let k: nat = if t > 0 {
                t as nat
            } else {
                0
            };
            let sh = (k - e) as nat;
            assert(sh >= 2);
            let f = nearest_even(odd, pow2(sh));
            self.lemma_round_scaled_in(odd, e, len, k, f);
            lemma_pow2_pos(sh);
            lemma_pow2_pos(k);
            lemma_nearest_even_close(odd, pow2(sh));
            lemma_pow2_unfold(sh);
            lemma_pow2_unfold((sh - 1) as nat);
            let g = pow2((sh - 2) as nat);
            lemma_pow2_pos((sh - 2) as nat);
            // Between the even ends of the bracket around f.
            let lower = (2 * f - 1) * g;
            let upper = (2 * f + 1) * g;
            assert(2 * lower <= 2 * c && 2 * c + 2 <= 2 * upper) by {
                assert((2 * f - 1) * pow2(sh) == 4 * lower) by (nonlinear_arith)
                    requires
                        pow2(sh) == 4 * g,
                        lower == (2 * f - 1) * g,
                ;
                assert((2 * f + 1) * pow2(sh) == 4 * upper) by (nonlinear_arith)
                    requires
                        pow2(sh) == 4 * g,
                        upper == (2 * f + 1) * g,
                ;
            }
            assert(2 * lower * d < n && n < 2 * upper * d) by (nonlinear_arith)
                requires
                    2 * lower <= 2 * c,
                    2 * c + 2 <= 2 * upper,
                    2 * c * d < n,
                    n < (2 * c + 2) * d,
                    d > 0,
            ;
            self.lemma_binade_end(k);
            if k > 0 {
                self.lemma_binade_end((k - 1) as nat);
                lemma_pow2_unfold(p + 1 + (k - 1) as nat);
            }
            if e >= 0 {
                let en = e as nat;
                lemma_pow2_adds(len, en);
                lemma_pow2_adds((len - 1) as nat, en);
                lemma_pow2_mono(len + en, p + 1 + k);
                lemma_pow2_adds(sh, en);
                assert(big < den * (2 * h * pow2(k))) by (nonlinear_arith)
                    requires
                        big == n * scale,
                        den == d,
                        n < high * d,
                        high * scale <= 2 * h * pow2(k),
                        scale > 0,
                        d > 0,
                ;
                if k > 0 {
                    assert(big >= den * (2 * h * pow2((k - 1) as nat))) by (nonlinear_arith)
                        requires
                            big == n * scale,
                            den == d,
                            low * d < n,
                            low * scale == 2 * h * pow2((k - 1) as nat),
                            scale > 0,
                            d > 0,
                    ;
                }
                self.lemma_binade_of(big, den, 0, k);
                let width = den * pow2(k);
                assert((2 * f - 1) * width < 2 * big && 2 * big < (2 * f + 1) * width)
                    by (nonlinear_arith)
                    requires
                        big == n * scale,
                        width == d * pow2(k),
                        pow2(k) == 4 * g * scale,
                        lower == (2 * f - 1) * g,
                        upper == (2 * f + 1) * g,
                        2 * lower * d < n,
                        n < 2 * upper * d,
                        scale > 0,
                {
                    assert((2 * f - 1) * width == (2 * lower * d) * (2 * scale));
                    assert((2 * f + 1) * width == (2 * upper * d) * (2 * scale));
                    assert(2 * big == n * (2 * scale));
                }
                assert(width > 0) by (nonlinear_arith)
                    requires
                        width == d * pow2(k),
                        d > 0,
                        pow2(k) > 0,
                ;
                lemma_nearest_even_inside(big, width, f);
            } else {
                let en = (-e) as nat;
                lemma_pow2_adds(en, p + 1 + k);
                lemma_pow2_mono(len, en + p + 1 + k);
                lemma_pow2_adds(en, k);
                assert(big < den * (2 * h * pow2(k))) by (nonlinear_arith)
                    requires
                        big == n,
                        den == d * scale,
                        n < high * d,
                        high <= scale * (2 * h * pow2(k)),
                        d > 0,
                ;
                if k > 0 {
                    lemma_pow2_adds(en, p + k);
                    assert(big >= den * (2 * h * pow2((k - 1) as nat))) by (nonlinear_arith)
                        requires
                            big == n,
                            den == d * scale,
                            low * d < n,
                            low == scale * (2 * h * pow2((k - 1) as nat)),
                            d > 0,
                    ;
                }
                self.lemma_binade_of(big, den, 0, k);
                let width = den * pow2(k);
                assert((2 * f - 1) * width < 2 * big && 2 * big < (2 * f + 1) * width)
                    by (nonlinear_arith)
                    requires
                        big == n,
                        width == d * scale * pow2(k),
                        scale * pow2(k) == 4 * g,
                        lower == (2 * f - 1) * g,
                        upper == (2 * f + 1) * g,
                        2 * lower * d < n,
                        n < 2 * upper * d,
                {
                    assert(width == d * (4 * g));
                    assert((2 * f - 1) * width == 2 * (2 * lower * d));
                    assert((2 * f + 1) * width == 2 * (2 * upper * d));
                }
                assert(width > 0) by (nonlinear_arith)
                    requires
                        width == den * pow2(k),
                        den > 0,
                        pow2(k) > 0,
                ;
                lemma_nearest_even_inside(big, width, f);
            }
        }
    }
}

impl Format {
    /// A zero quotient rounds to zero.
    pub proof fn lemma_round_zero(self, d: nat)
        requires
            self.wf(),
            d > 0,
        ensures
            self.round(0, d) == 0,
    {
        self.lemma_sizes();
        vstd::arithmetic::power2::lemma2_to64();
        assert(d * (2 * self.hidden() * pow2(0)) > 0) by (nonlinear_arith)
            requires
                d > 0,
                self.hidden() > 0,
                pow2(0) == 1,
        ;
        assert(self.binade_of(0, d, 0) == 0);
        assert(d * pow2(0) == d);
        lemma_small_mod_zero(d);
        assert(self.infinity() > 0) by (nonlinear_arith)
            requires
                self.infinity() == (self.limit() + 1) * self.hidden(),
                self.hidden() > 0,
                self.limit() >= 2,
        ;
    }

    /// A scaled quotient rounds as any quotient of the same value does.
    pub proof fn lemma_round_quotient_is(
        self,
        n: nat,
        d: nat,
        x1: nat,
        big_n: nat,
        big_d: nat,
        x2: nat,
    )
        requires
            d > 0,
            big_d > 0,
            n * big_d * pow2(x2) == big_n * d * pow2(x1),
        ensures
            self.round_quotient(n, d, x2 - x1) == self.round(big_n, big_d),
    {
        let e = x2 - x1;
        lemma_pow2_pos(x1);
        lemma_pow2_pos(x2);
        if e >= 0 {
            let w = pow2(e as nat);
            lemma_pow2_adds(x1, e as nat);
            assert((n * w) * big_d == big_n * d) by (nonlinear_arith)
                requires
                    n * big_d * pow2(x2) == big_n * d * pow2(x1),
                    pow2(x2) == pow2(x1) * w,
                    pow2(x1) > 0,
            {
                assert(((n * w) * big_d) * pow2(x1) == (big_n * d) * pow2(x1));
            }
            self.lemma_round_ratio(n * w, d, big_n, big_d);
        } else {
            let w = pow2((-e) as nat);
            lemma_pow2_adds(x2, (-e) as nat);
            lemma_pow2_pos((-e) as nat);
            assert(n * big_d == big_n * (d * w)) by (nonlinear_arith)
                requires
                    n * big_d * pow2(x2) == big_n * d * pow2(x1),
                    pow2(x1) == pow2(x2) * w,
                    pow2(x2) > 0,
            {
                assert((n * big_d) * pow2(x2) == (big_n * (d * w)) * pow2(x2));
            }
            assert(d * w > 0) by (nonlinear_arith)
                requires
                    d > 0,
                    w > 0,
            ;
            self.lemma_round_ratio(n, d * w, big_n, big_d);
        }
    }

    /// A quotient that is a whole number rounds as that number does.
    pub proof fn lemma_round_quotient_whole(self, whole: nat, d: nat, e: int)
        requires
            d > 0,
        ensures
            self.round_quotient(whole * d, d, e) == self.round_scaled(whole, e),
    {
        if e >= 0 {
            let w = pow2(e as nat);
            assert((whole * d * w) * 1 == (whole * w) * d) by (nonlinear_arith);
            self.lemma_round_ratio(whole * d * w, d, whole * w, 1);
        } else {
            let w = pow2((-e) as nat);
            lemma_pow2_pos((-e) as nat);
            assert((whole * d) * w == whole * (d * w)) by (nonlinear_arith);
            assert(d * w > 0) by (nonlinear_arith)
                requires
                    d > 0,
                    w > 0,
            ;
            self.lemma_round_ratio(whole * d, d * w, whole, w);
        }
    }
}

impl Format {
    /// A binade and a significand that fit it make the magnitude that has
    /// them.
    pub proof fn lemma_compose(self, k: nat, q: nat)
        requires
            self.wf(),
            k < self.limit(),
            q < 2 * self.hidden(),
            k > 0 ==> q >= self.hidden(),
        ensures
            k * self.hidden() + q < self.infinity(),
            self.binade(k * self.hidden() + q) == k,
            self.significand(k * self.hidden() + q) == q,
            self.units(k * self.hidden() + q) == q * pow2(k),
    {
        self.lemma_sizes();
        let h = self.hidden();
        let m = k * h + q;
        assert(m < (self.limit() + 1) * h) by (nonlinear_arith)
            requires
                m == k * h + q,
                q < 2 * h,
                k + 1 <= self.limit(),
        ;
        if k > 0 {
            assert(m == h * (k + 1) + (q - h)) by (nonlinear_arith)
                requires
                    m == k * h + q,
            ;
            vstd::arithmetic::div_mod::lemma_fundamental_div_mod_converse(
                m as int,
                h as int,
                (k + 1) as int,
                (q - h) as int,
            );
            assert(m >= 2 * h) by (nonlinear_arith)
                requires
                    m == k * h + q,
                    k >= 1,
                    q >= h,
                    h > 0,
            ;
        } else {
            assert(0 * h == 0);
        }
    }

    /// A number of at most as many bits as a significand, times a power of
    /// two, is a value of the format as long as it is in range: rounding
    /// it changes nothing.
    pub proof fn lemma_round_scaled_exact(self, n: nat, e: nat)
        requires
            self.wf(),
            n < 2 * self.hidden(),
            n * pow2(e) < pow2(self.frac_bits as nat + self.limit()),
        ensures
            self.round_scaled(n, e as int) < self.infinity(),
            self.units(self.round_scaled(n, e as int)) == n * pow2(e),
    {
        let p = self.frac_bits as nat;
        let h = self.hidden();
        self.lemma_sizes();
        lemma_pow2_pos(e);
        if n == 0 {
            self.lemma_round_scaled_zero(e as int);
            self.lemma_compose(0, 0);
            assert(0 * h + 0 == 0);
            assert(0 * pow2(e) == 0);
            assert(0 * pow2(0) == 0);
        } else {
            let len = bit_length_of(n);
            lemma_pow2_unfold(p + 1);
            if len > p + 1 {
                lemma_pow2_mono(p + 1, (len - 1) as nat);
            }
            lemma_pow2_adds((len - 1) as nat, e);
            assert(n * pow2(e) >= pow2((len - 1) as nat) * pow2(e)) by (nonlinear_arith)
                requires
                    n >= pow2((len - 1) as nat),
                    pow2(e) > 0,
            ;
            if len - 1 + e >= p + self.limit() {
                lemma_pow2_mono(p + self.limit(), (len - 1) as nat + e);
            }
            let t = len + e - (p + 1);
            let k: nat = if t > 0 {
                t as nat
            } else {
                0
            };
            let up = (e - k) as nat;
            let q = n * pow2(up);
            self.lemma_round_scaled_in(n, e as int, len, k, q);
            lemma_pow2_pos(up);
            lemma_pow2_adds(len, up);
            lemma_pow2_adds((len - 1) as nat, up);
            lemma_pow2_mono(len + up, p + 1);
            assert(q < pow2(len) * pow2(up)) by (nonlinear_arith)
                requires
                    q == n * pow2(up),
                    n < pow2(len),
                    pow2(up) > 0,
            ;
            assert(q >= pow2((len - 1) as nat) * pow2(up)) by (nonlinear_arith)
                requires
                    q == n * pow2(up),
                    n >= pow2((len - 1) as nat),
                    pow2(up) > 0,
            ;
            self.lemma_compose(k, q);
            lemma_pow2_adds(up, k);
            assert(q * pow2(k) == n * pow2(e)) by (nonlinear_arith)
                requires
                    q == n * pow2(up),
                    pow2(up) * pow2(k) == pow2(e),
            ;
        }
    }
}

impl Format {
    /// Where the search for the binade ends, the quotient lies in that
    /// binade, or at or beyond the last one.
    pub proof fn lemma_binade_bounds(self, n: nat, d: nat, from: nat)
        requires
            d > 0,
            from <= self.limit(),
            from > 0 ==> n >= d * (2 * self.hidden() * pow2((from - 1) as nat)),
        ensures
            from <= self.binade_of(n, d, from) <= self.limit(),
            self.binade_of(n, d, from) < self.limit() ==> n < d * (2 * self.hidden() * pow2(
                self.binade_of(n, d, from),
            )),
            self.binade_of(n, d, from) > 0 ==> n >= d * (2 * self.hidden() * pow2(
                (self.binade_of(n, d, from) - 1) as nat,
            )),
        decreases self.limit() - from,
    {
        if from < self.limit() && !(n < d * (2 * self.hidden() * pow2(from))) {
            self.lemma_binade_bounds(n, d, from + 1);
        }
    }
}

} // verus!
