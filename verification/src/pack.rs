use crate::bits::bit_length;
use crate::bits::exp2;
use crate::bits::exp2_small;
use crate::bits::lemma_pow2_fits;
use crate::format::Format;
use crate::rounding::lemma_pow2_mono;
use crate::rounding::nearest_even;
use vstd::arithmetic::div_mod::lemma_basic_div;
use vstd::arithmetic::div_mod::lemma_fundamental_div_mod;
use vstd::arithmetic::div_mod::lemma_mod_bound;
use vstd::arithmetic::div_mod::lemma_small_mod;
use vstd::arithmetic::power2::lemma2_to64;
use vstd::arithmetic::power2::lemma2_to64_rest;
use vstd::arithmetic::power2::lemma_pow2_adds;
use vstd::arithmetic::power2::lemma_pow2_pos;
use vstd::arithmetic::power2::lemma_pow2_unfold;
use vstd::arithmetic::power2::pow2;
use vstd::prelude::*;

verus! {

impl Format {
    /// The sizes of the landmarks of a format that this library computes
    /// with: they all fit in 64 bits with room to spare.
    pub proof fn lemma_sizes(self)
        requires
            self.wf(),
        ensures
            2 <= self.hidden() <= 0x10_0000_0000_0000,
            4 <= pow2(self.exp_bits as nat) <= 2048,
            2 <= self.limit() <= 2046,
            self.infinity() == (self.limit() + 1) * self.hidden(),
            self.infinity() < 0x8000_0000_0000_0000,
            self.sign_bit() == pow2(self.exp_bits as nat) * self.hidden(),
            self.sign_bit() <= 0x8000_0000_0000_0000,
            self.infinity() < self.quiet_nan() < self.sign_bit(),
            1 <= self.bias() <= 1023,
            self.unit_exp() <= 1074,
            self.one() < self.infinity(),
    {
        lemma2_to64();
        lemma2_to64_rest();
        lemma_pow2_mono(1, self.frac_bits as nat);
        lemma_pow2_mono(self.frac_bits as nat, 52);
        lemma_pow2_mono(2, self.exp_bits as nat);
        lemma_pow2_mono(self.exp_bits as nat, 11);
        lemma_pow2_mono(1, (self.exp_bits - 1) as nat);
        lemma_pow2_mono((self.exp_bits - 1) as nat, 10);
        lemma_pow2_adds(self.exp_bits as nat, self.frac_bits as nat);
        lemma_pow2_unfold(self.frac_bits as nat);
        lemma_pow2_unfold(self.exp_bits as nat);
        lemma_pow2_pos((self.frac_bits - 1) as nat);
        let h = self.hidden();
        let x = pow2(self.exp_bits as nat);
        let b = self.bias();
        assert(x * h <= 2048 * 0x10_0000_0000_0000) by (nonlinear_arith)
            requires
                0 <= x <= 2048,
                0 <= h <= 0x10_0000_0000_0000,
        ;
        assert((x - 1) * h == x * h - h && (x - 1) * h + h / 2 < x * h) by (nonlinear_arith)
            requires
                h >= 2,
        ;
        assert(b * h < (x - 1) * h) by (nonlinear_arith)
            requires
                b < x - 1,
                h > 0,
        ;
    }

    /// The significand and the binade of a finite magnitude.
    pub fn unpack(&self, m: u64) -> (parts: (u64, u32))
        requires
            self.wf(),
            m < self.infinity(),
        ensures
            parts.0 == self.significand(m as nat),
            parts.1 == self.binade(m as nat),
            parts.0 < 2 * self.hidden(),
            parts.1 < self.limit(),
            parts.1 > 0 ==> parts.0 >= self.hidden(),
            parts.0 * pow2(parts.1 as nat) == self.units(m as nat),
    {
        proof {
            self.lemma_sizes();
        }
        let h: u64 = exp2_small(self.frac_bits);
        if m < 2 * h {
            proof {
                lemma2_to64();
            }
            (m, 0)
        } else {
            let ex: u64 = m / h;
            proof {
                lemma_fundamental_div_mod(m as int, h as int);
                lemma_mod_bound(m as int, h as int);
                let r = m as int % h as int;
                assert(ex >= 2 && ex < self.limit() + 1) by (nonlinear_arith)
                    requires
                        m == h * ex + r,
                        0 <= r < h,
                        m >= 2 * h,
                        m < (self.limit() + 1) * h,
                ;
                assert((ex - 1) * h == h * ex - h && (ex - 1) * h >= 0) by (nonlinear_arith)
                    requires
                        ex >= 2,
                        h > 0,
                ;
            }
            (m - (ex - 1) * h, (ex - 1) as u32)
        }
    }

    /// The magnitude nearest to `n * 2^e` units.
    pub fn round_pack(&self, n: u128, e: i64) -> (m: u64)
        requires
            self.wf(),
            n < pow2(120),
            -8192 <= e <= 8192,
        ensures
            m == self.round_scaled(n as nat, e as int),
            m <= self.infinity(),
    {
        proof {
            self.lemma_sizes();
        }
        let p: u32 = self.frac_bits;
        let h: u64 = exp2_small(p);
        let limit: u64 = exp2_small(self.exp_bits) - 2;
        let inf: u64 = (limit + 1) * h;
        if n == 0 {
            proof {
                self.lemma_round_scaled_zero(e as int);
            }
            return 0;
        }
        let len: u32 = bit_length(n);
        proof {
            if len > 120 {
                lemma_pow2_mono(120, (len - 1) as nat);
            }
        }
        let t: i64 = len as i64 + e - (p as i64 + 1);
        if t >= limit as i64 {
            proof {
                self.lemma_round_scaled_over(n as nat, e as int, len as nat);
            }
            return inf;
        }
        let k: i64 = if t > 0 {
            t
        } else {
            0
        };
        let q: u64;
        if k <= e {
            let amount: u32 = (e - k) as u32;
            proof {
                lemma_pow2_mono(len as nat, (p + 1) as nat);
                lemma_pow2_adds(len as nat, amount as nat);
                lemma_pow2_mono((len + amount) as nat, (p + 1) as nat);
                lemma_pow2_unfold((p + 1) as nat);
                lemma_pow2_pos(amount as nat);
                lemma_pow2_fits(amount as nat);
                assert(n * pow2(amount as nat) < pow2(len as nat) * pow2(amount as nat))
                    by (nonlinear_arith)
                    requires
                        n < pow2(len as nat),
                        pow2(amount as nat) > 0,
                ;
            }
            q = (n as u64) * exp2_small(amount);
        } else if k - e > len as i64 {
            proof {
                let sh = (k - e) as nat;
                lemma_pow2_mono(len as nat, (sh - 1) as nat);
                lemma_pow2_unfold(sh);
                lemma_basic_div(n as int, pow2(sh) as int);
                lemma_small_mod(n as nat, pow2(sh));
            }
            q = 0;
        } else {
            let sh: u32 = (k - e) as u32;
            let pw: u128 = exp2(sh);
            proof {
                lemma_pow2_pos(sh as nat);
            }
            let f: u128 = n / pw;
            let r: u128 = n % pw;
            let half: u128 = pw / 2;
            proof {
                lemma_pow2_unfold(sh as nat);
                lemma_pow2_pos((sh - 1) as nat);
                assert(half == pow2((sh - 1) as nat));
                // The whole part has at most p + 1 bits.
                lemma_pow2_adds(sh as nat, (len - sh) as nat);
                lemma_pow2_mono((len - sh) as nat, (p + 1) as nat);
                lemma_pow2_unfold((p + 1) as nat);
                lemma_fundamental_div_mod(n as int, pw as int);
                lemma_mod_bound(n as int, pw as int);
                assert(f < pow2((len - sh) as nat)) by (nonlinear_arith)
                    requires
                        n == pw * f + r,
                        0 <= r,
                        pw > 0,
                        n < pw * pow2((len - sh) as nat),
                ;
            }
            let up: bool = r > half || (r == half && f % 2 == 1);
            q = if up {
                (f + 1) as u64
            } else {
                f as u64
            };
            assert(q == nearest_even(n as nat, pw as nat));
        }
        proof {
            self.lemma_round_scaled_in(n as nat, e as int, len as nat, k as nat, q as nat);
            assert(k * h <= 2046 * 0x10_0000_0000_0000) by (nonlinear_arith)
                requires
                    0 <= k <= 2046,
                    0 <= h <= 0x10_0000_0000_0000,
            ;
        }
        let m: u64 = (k as u64) * h + q;
        if m >= inf {
            inf
        } else {
            m
        }
    }
}

} // verus!
