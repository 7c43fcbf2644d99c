use crate::bits::exp2;
use crate::bits::exp2_small;
use crate::format::Format;
use crate::rounding::lemma_pow2_mono;
use vstd::arithmetic::power2::lemma_pow2_adds;
use vstd::arithmetic::power2::lemma_pow2_pos;
use vstd::arithmetic::power2::lemma_pow2_unfold;
use vstd::arithmetic::power2::pow2;
use vstd::prelude::*;

verus! {

/// The whole part of the square root of `n`.
pub open spec fn isqrt(n: nat) -> nat
    decreases n,
{
    if n == 0 {
        0
    } else {
        let r = 2 * isqrt(n / 4);
        if (r + 1) * (r + 1) <= n {
            r + 1
        } else {
            r
        }
    }
}

/// The whole part of the square root is the number whose square is not
/// above `n` while the square of the next number is.
pub proof fn lemma_isqrt(n: nat)
    ensures
        isqrt(n) * isqrt(n) <= n < (isqrt(n) + 1) * (isqrt(n) + 1),
    decreases n,
{
    if n > 0 {
        let r0 = isqrt(n / 4);
        lemma_isqrt(n / 4);
        let r = 2 * r0;
        assert(r * r <= n && n < (r + 2) * (r + 2)) by (nonlinear_arith)
            requires
                r == 2 * r0,
                r0 * r0 <= n / 4,
                n / 4 < (r0 + 1) * (r0 + 1),
                4 * (n / 4) <= n < 4 * (n / 4) + 4,
        ;
        let s = isqrt(n);
        if (r + 1) * (r + 1) <= n {
            assert(s == r + 1);
            assert((s + 1) * (s + 1) == (r + 2) * (r + 2)) by (nonlinear_arith)
                requires
                    s == r + 1,
            ;
        } else {
            assert(s == r);
        }
    } else {
        assert(isqrt(0) == 0);
        assert(0 * 0 <= 0 && 0 < (0 + 1) * (0 + 1)) by (nonlinear_arith);
    }
}

/// There is one such number only.
pub proof fn lemma_isqrt_is(n: nat, t: nat)
    requires
        t * t <= n < (t + 1) * (t + 1),
    ensures
        isqrt(n) == t,
{
    lemma_isqrt(n);
    let s = isqrt(n);
    if s < t {
        assert((s + 1) * (s + 1) <= t * t) by (nonlinear_arith)
            requires
                s + 1 <= t,
        ;
    }
    if t < s {
        assert((t + 1) * (t + 1) <= s * s) by (nonlinear_arith)
            requires
                t + 1 <= s,
        ;
    }
}

/// The whole part of the square root of `y`.
pub fn whole_root(y: u128) -> (t: u64)
    requires
        y < pow2(126),
    ensures
        t == isqrt(y as nat),
        t * t <= y < (t + 1) * (t + 1),
{
    let mut t: u64 = 0;
    let mut bit: u32 = 63;
    proof {
        lemma_pow2_adds(63, 63);
        crate::bits::lemma_pow2_fits(63);
        crate::bits::lemma_pow2_fits(126);
    }
    while bit > 0
        invariant
            bit <= 63,
            t + pow2(bit as nat) <= pow2(63),
            t * t <= y < (t + pow2(bit as nat)) * (t + pow2(bit as nat)),
            pow2(63) <= u64::MAX,
        decreases bit,
    {
        bit = bit - 1;
        let step: u64 = exp2_small(bit);
        proof {
            lemma_pow2_unfold((bit + 1) as nat);
            lemma_pow2_pos(bit as nat);
            assert((t + step) * (t + step) < pow2(63) * pow2(63)) by (nonlinear_arith)
                requires
                    0 <= t + step < pow2(63),
            ;
            lemma_pow2_adds(63, 63);
            crate::bits::lemma_pow2_fits(126);
        }
        let candidate: u128 = (t + step) as u128;
        if candidate * candidate <= y {
            t = t + step;
        }
    }
    proof {
        vstd::arithmetic::power2::lemma2_to64();
        lemma_isqrt_is(y as nat, t as nat);
    }
    t
}

impl Format {
    /// The least binade index from `from` on, and at most `limit()`, below
    /// whose upper end the square root of `big` lies.
    pub open spec fn root_binade(self, big: nat, from: nat) -> nat
        decreases self.limit() - from,
    {
        if from >= self.limit() || big < (2 * self.hidden() * pow2(from)) * (2 * self.hidden()
            * pow2(from)) {
            from
        } else {
            self.root_binade(big, from + 1)
        }
    }

    /// The magnitude nearest to the square root of `big`, a number of
    /// squared units: in the binade of the root, the significand nearest
    /// to it, and the upper one where the root is half way between two.
    pub open spec fn root(self, big: nat) -> nat {
        let k = self.root_binade(big, 0);
        k * self.hidden() + (isqrt(4 * big / (pow2(k) * pow2(k))) + 1) / 2
    }

    /// The ordinary square root: correctly rounded for the positive finite
    /// numbers, the canonical NaN below zero, and the pattern itself for
    /// the zeros, positive infinity and the NaNs.
    pub open spec fn ieee_sqrt(self, x: nat) -> nat {
        if self.is_nan(x) || self.is_zero(x) {
            x
        } else if self.is_negative(x) {
            self.quiet_nan()
        } else if self.is_infinite(x) {
            x
        } else {
            self.root(self.units(x) * self.unit())
        }
    }

    /// The search for the binade of a square root ends at `k` when the
    /// root lies in binade `k`.
    pub proof fn lemma_root_binade(self, big: nat, from: nat, k: nat)
        requires
            self.wf(),
            from <= k < self.limit(),
            big < (2 * self.hidden() * pow2(k)) * (2 * self.hidden() * pow2(k)),
            k > 0 ==> big >= (2 * self.hidden() * pow2((k - 1) as nat)) * (2 * self.hidden()
                * pow2((k - 1) as nat)),
        ensures
            self.root_binade(big, from) == k,
        decreases k - from,
    {
        if from < k {
            lemma_pow2_mono(from, (k - 1) as nat);
            self.lemma_sizes();
            let h = self.hidden();
            let lo = 2 * h * pow2(from);
            let hi = 2 * h * pow2((k - 1) as nat);
            assert(lo <= hi) by (nonlinear_arith)
                requires
                    lo == 2 * h * pow2(from),
                    hi == 2 * h * pow2((k - 1) as nat),
                    pow2(from) <= pow2((k - 1) as nat),
                    h > 0,
            ;
            assert(lo * lo <= hi * hi) by (nonlinear_arith)
                requires
                    0 <= lo <= hi,
            ;
            self.lemma_root_binade(big, from + 1, k);
        }
    }

    /// The square root of a finite magnitude that is not zero.
    pub fn square_root(&self, m: u64) -> (r: u64)
        requires
            self.wf(),
            0 < m < self.infinity(),
        ensures
            r == self.root(self.units(m as nat) * self.unit()),
            r < self.infinity(),
    {
        let p: u32 = self.frac_bits;
        let s: u32 = self.unit_exponent();
        let (q, k0) = self.unpack(m);
        let ghost u = self.units(m as nat);
        let ghost h = self.hidden();
        proof {
            self.lemma_sizes();
            self.lemma_parts(m as nat);
            lemma_pow2_unfold(self.exp_bits as nat);
            assert(self.limit() == 2 * self.bias());
        }
        let (nq, up) = self.normalize(q);
        // The value times the unit is nq * 2^e.
        let e: u32 = k0 + s - up;
        let k: u32 = if e <= p + 1 {
            0
        } else {
            (e - p) / 2
        };
        let x: u32 = e + 2 - 2 * k;
        let ghost big = u * self.unit();
        proof {
            lemma_pow2_adds(k0 as nat, s as nat);
            lemma_pow2_adds(up as nat, e as nat);
            lemma_pow2_pos(up as nat);
            lemma_pow2_pos(e as nat);
            assert(big * pow2(up as nat) == nq * pow2(e as nat) * pow2(up as nat))
                by (nonlinear_arith)
                requires
                    big == u * pow2(s as nat),
                    u == q * pow2(k0 as nat),
                    nq == q * pow2(up as nat),
                    pow2(k0 as nat) * pow2(s as nat) == pow2(up as nat) * pow2(e as nat),
            ;
            assert(big == nq * pow2(e as nat)) by (nonlinear_arith)
                requires
                    big * pow2(up as nat) == nq * pow2(e as nat) * pow2(up as nat),
                    pow2(up as nat) > 0,
            ;
            // The root lies in binade k.
            let top = 2 * h * pow2(k as nat);
            self.lemma_binade_end(k as nat);
            lemma_pow2_adds((p + 1 + k) as nat, (p + 1 + k) as nat);
            lemma_pow2_adds((p + 1) as nat, e as nat);
            lemma_pow2_unfold((p + 1) as nat);
            lemma_pow2_mono((p + 1 + e) as nat, (2 * p + 2 + 2 * k) as nat);
            assert(big < pow2((p + 1) as nat) * pow2(e as nat)) by (nonlinear_arith)
                requires
                    big == nq * pow2(e as nat),
                    nq < pow2((p + 1) as nat),
                    pow2(e as nat) > 0,
            ;
            assert(big < top * top);
            if k > 0 {
                let low = 2 * h * pow2((k - 1) as nat);
                self.lemma_binade_end((k - 1) as nat);
                lemma_pow2_adds((p + k) as nat, (p + k) as nat);
                lemma_pow2_adds(p as nat, e as nat);
                lemma_pow2_mono((2 * p + 2 * k) as nat, (p + e) as nat);
                assert(big >= pow2(p as nat) * pow2(e as nat)) by (nonlinear_arith)
                    requires
                        big == nq * pow2(e as nat),
                        nq >= pow2(p as nat),
                        pow2(e as nat) > 0,
                ;
                assert(big >= low * low);
            }
            self.lemma_root_binade(big, 0, k as nat);
            // Four times the value, over four to the k, is nq * 2^x.
            let four = pow2(k as nat) * pow2(k as nat);
            lemma_pow2_adds(k as nat, k as nat);
            lemma_pow2_adds(x as nat, (2 * k) as nat);
            lemma_pow2_adds(2, e as nat);
            vstd::arithmetic::power2::lemma2_to64();
            lemma_pow2_pos((2 * k) as nat);
            lemma_pow2_pos(x as nat);
            let y = nq * pow2(x as nat);
            assert(4 * big == y * four) by (nonlinear_arith)
                requires
                    big == nq * pow2(e as nat),
                    y == nq * pow2(x as nat),
                    pow2(x as nat) * four == 4 * pow2(e as nat),
            ;
            assert(y >= 0) by (nonlinear_arith)
                requires
                    y == nq * pow2(x as nat),
                    pow2(x as nat) > 0,
            ;
            vstd::arithmetic::div_mod::lemma_div_multiples_vanish(y as int, four as int);
            assert(y * four == four * y) by (nonlinear_arith);
            assert(4 * big / four == y);
            // Sizes.
            lemma_pow2_adds((p + 1) as nat, x as nat);
            lemma_pow2_mono((p + 1 + x) as nat, (2 * p + 4) as nat);
            lemma_pow2_mono((2 * p + 4) as nat, 126);
            crate::bits::lemma_pow2_fits(126);
            assert(y < pow2((p + 1) as nat) * pow2(x as nat)) by (nonlinear_arith)
                requires
                    y == nq * pow2(x as nat),
                    nq < pow2((p + 1) as nat),
                    pow2(x as nat) > 0,
            ;
        }
        let y: u128 = (nq as u128) * exp2(x);
        let t: u64 = whole_root(y);
        proof {
            lemma_pow2_adds((p + 2) as nat, (p + 2) as nat);
            lemma_pow2_unfold((p + 2) as nat);
            lemma_pow2_unfold((p + 1) as nat);
            assert(t < pow2((p + 2) as nat)) by (nonlinear_arith)
                requires
                    t * t <= y,
                    y < pow2((p + 2) as nat) * pow2((p + 2) as nat),
                    t >= 0,
                    pow2((p + 2) as nat) > 0,
            {
                if t >= pow2((p + 2) as nat) {
                    assert(t * t >= pow2((p + 2) as nat) * pow2((p + 2) as nat));
                }
            }
            assert(k * h + 2 * h < (self.limit() + 1) * h) by (nonlinear_arith)
                requires
                    k + 2 < self.limit() + 1,
                    h > 0,
            ;
        }
        (k as u64) * exp2_small(p) + (t + 1) / 2
    }

    /// The ordinary square root of a pattern.
    pub fn sqrt(&self, x: u64) -> (r: u64)
        requires
            self.wf(),
            self.holds(x as nat),
        ensures
            r == self.ieee_sqrt(x as nat),
            self.holds(r as nat),
    {
        proof {
            self.lemma_sizes();
        }
        let (negative, m) = self.split(x);
        let inf: u64 = self.infinite();
        if m > inf || m == 0 {
            x
        } else if negative {
            self.nan()
        } else if m == inf {
            x
        } else {
            proof {
                vstd::arithmetic::div_mod::lemma_small_mod(x as nat, self.sign_bit());
            }
            self.square_root(m)
        }
    }
}

impl Format {
    /// Where the search for the binade of a square root ends, the root
    /// lies in that binade, or at or beyond the last one.
    pub proof fn lemma_root_binade_bounds(self, big: nat, from: nat)
        requires
            from <= self.limit(),
            from > 0 ==> big >= (2 * self.hidden() * pow2((from - 1) as nat)) * (2 * self.hidden()
                * pow2((from - 1) as nat)),
        ensures
            from <= self.root_binade(big, from) <= self.limit(),
            self.root_binade(big, from) < self.limit() ==> big < (2 * self.hidden() * pow2(
                self.root_binade(big, from),
            )) * (2 * self.hidden() * pow2(self.root_binade(big, from))),
            self.root_binade(big, from) > 0 ==> big >= (2 * self.hidden() * pow2(
                (self.root_binade(big, from) - 1) as nat,
            )) * (2 * self.hidden() * pow2((self.root_binade(big, from) - 1) as nat)),
        decreases self.limit() - from,
    {
        if from < self.limit() && !(big < (2 * self.hidden() * pow2(from)) * (2 * self.hidden()
            * pow2(from))) {
            self.lemma_root_binade_bounds(big, from + 1);
        }
    }
}

} // verus!
