use crate::bits::exp2_small;
use crate::format::Format;
use crate::rounding::lemma_pow2_mono;
use vstd::arithmetic::div_mod::lemma_basic_div;
use vstd::arithmetic::div_mod::lemma_div_multiples_vanish;
use vstd::arithmetic::div_mod::lemma_div_multiples_vanish_quotient;
use vstd::arithmetic::div_mod::lemma_fundamental_div_mod;
use vstd::arithmetic::div_mod::lemma_mod_bound;
use vstd::arithmetic::div_mod::lemma_mod_multiples_basic;
use vstd::arithmetic::div_mod::lemma_small_mod;
use vstd::arithmetic::div_mod::lemma_truncate_middle;
use vstd::arithmetic::power2::lemma_pow2_adds;
use vstd::arithmetic::power2::lemma_pow2_pos;
use vstd::arithmetic::power2::lemma_pow2_unfold;
use vstd::arithmetic::power2::pow2;
use vstd::prelude::*;

verus! {

/// How a number with a fraction is made whole.
#[derive(Clone, Copy, Debug)]
pub enum Whole {
    /// Drop the fraction.
    Down,
    /// Go to the next whole number where there is a fraction.
    Up,
    /// Go to the nearer whole number, and up from half way on.
    Nearest,
}

impl Format {
    /// How many units make `1.0`.
    pub open spec fn unit(self) -> nat {
        pow2(self.unit_exp())
    }

    /// The magnitude of the whole number `w`.
    pub open spec fn whole(self, w: nat) -> nat {
        self.round(w * self.unit(), 1)
    }

    /// The whole number that the value of the finite magnitude `m` is made
    /// into.
    pub open spec fn whole_of(self, m: nat, how: Whole) -> nat {
        let below = self.units(m) / self.unit();
        let rest = self.units(m) % self.unit();
        match how {
            Whole::Down => below,
            Whole::Up => if rest == 0 {
                below
            } else {
                below + 1
            },
            Whole::Nearest => if 2 * rest >= self.unit() {
                below + 1
            } else {
                below
            },
        }
    }

    /// A finite magnitude made whole.
    pub open spec fn integral(self, m: nat, how: Whole) -> nat {
        self.whole(self.whole_of(m, how))
    }

    /// The pattern rounded toward zero to a whole number. A NaN and the
    /// infinities come back unchanged, and the sign is kept.
    pub open spec fn ieee_trunc(self, x: nat) -> nat {
        if !self.is_finite(x) {
            x
        } else {
            self.with_sign(self.is_negative(x), self.integral(self.magnitude(x), Whole::Down))
        }
    }

    /// The pattern rounded toward negative infinity to a whole number.
    pub open spec fn ieee_floor(self, x: nat) -> nat {
        if !self.is_finite(x) {
            x
        } else if self.is_negative(x) {
            self.with_sign(true, self.integral(self.magnitude(x), Whole::Up))
        } else {
            self.integral(self.magnitude(x), Whole::Down)
        }
    }

    /// The pattern rounded toward positive infinity to a whole number.
    pub open spec fn ieee_ceil(self, x: nat) -> nat {
        if !self.is_finite(x) {
            x
        } else if self.is_negative(x) {
            self.with_sign(true, self.integral(self.magnitude(x), Whole::Down))
        } else {
            self.integral(self.magnitude(x), Whole::Up)
        }
    }

    /// The pattern rounded to the nearest whole number, half way cases
    /// away from zero.
    pub open spec fn ieee_round(self, x: nat) -> nat {
        if !self.is_finite(x) {
            x
        } else {
            self.with_sign(
                self.is_negative(x),
                self.integral(self.magnitude(x), Whole::Nearest),
            )
        }
    }

    /// A finite magnitude made whole.
    pub fn make_whole(&self, m: u64, how: Whole) -> (r: u64)
        requires
            self.wf(),
            m < self.infinity(),
        ensures
            r == self.integral(m as nat, how),
            r <= self.infinity(),
    {
        let p: u32 = self.frac_bits;
        let s: u32 = self.unit_exponent();
        let (q, k) = self.unpack(m);
        let ghost u = self.units(m as nat);
        let ghost unit = self.unit();
        proof {
            self.lemma_sizes();
            lemma_pow2_pos(s as nat);
            lemma_pow2_pos(k as nat);
            lemma_pow2_unfold((p + 1) as nat);
        }
        if k >= s {
            proof {
                // The value is a whole number already.
                let w = q * pow2((k - s) as nat);
                lemma_pow2_adds((k - s) as nat, s as nat);
                assert(u == w * unit) by (nonlinear_arith)
                    requires
                        u == q * pow2(k as nat),
                        w == q * pow2((k - s) as nat),
                        pow2((k - s) as nat) * unit == pow2(k as nat),
                ;
                lemma_pow2_pos((k - s) as nat);
                assert(w >= 0) by (nonlinear_arith)
                    requires
                        w == q * pow2((k - s) as nat),
                        pow2((k - s) as nat) > 0,
                ;
                lemma_div_multiples_vanish(w as int, unit as int);
                lemma_mod_multiples_basic(w as int, unit as int);
                assert(w * unit == unit * w) by (nonlinear_arith);
                assert(self.whole_of(m as nat, how) == w);
                self.lemma_round_exact(m as nat);
            }
            return m;
        }
        let shift: u32 = s - k;
        let below: u64;
        let rest: bool;
        let half: bool;
        proof {
            lemma_pow2_adds(k as nat, shift as nat);
            lemma_pow2_pos(shift as nat);
            lemma_div_multiples_vanish_quotient(
                pow2(k as nat) as int,
                q as int,
                pow2(shift as nat) as int,
            );
            lemma_truncate_middle(q as int, pow2(k as nat) as int, pow2(shift as nat) as int);
            assert(pow2(k as nat) * q == u) by (nonlinear_arith)
                requires
                    u == q * pow2(k as nat),
            ;
            assert(u / unit == q as nat / pow2(shift as nat));
            assert(u % unit == pow2(k as nat) * (q as nat % pow2(shift as nat)));
        }
        if shift >= 64 {
            proof {
                lemma_pow2_mono((p + 2) as nat, shift as nat);
                lemma_pow2_unfold((p + 2) as nat);
                lemma_basic_div(q as int, pow2(shift as nat) as int);
                lemma_small_mod(q as nat, pow2(shift as nat));
                assert(2 * (pow2(k as nat) * q) < pow2(k as nat) * pow2(shift as nat))
                    by (nonlinear_arith)
                    requires
                        2 * q < pow2(shift as nat),
                        pow2(k as nat) > 0,
                ;
                assert((pow2(k as nat) * q == 0) == (q == 0)) by (nonlinear_arith)
                    requires
                        pow2(k as nat) > 0,
                        q >= 0,
                ;
            }
            below = 0;
            rest = q != 0;
            half = false;
        } else {
            let pw: u64 = exp2_small(shift);
            below = q / pw;
            let fr: u64 = q % pw;
            proof {
                lemma_fundamental_div_mod(q as int, pw as int);
                lemma_mod_bound(q as int, pw as int);
            }
            rest = fr != 0;
            half = fr >= pw - fr;
            proof {
                assert((pow2(k as nat) * fr == 0) == (fr == 0)) by (nonlinear_arith)
                    requires
                        pow2(k as nat) > 0,
                        fr >= 0,
                ;
                assert((2 * (pow2(k as nat) * fr) >= pow2(k as nat) * pw) == (2 * fr >= pw))
                    by (nonlinear_arith)
                    requires
                        pow2(k as nat) > 0,
                ;
                assert(below <= q) by (nonlinear_arith)
                    requires
                        q == pw * below + fr,
                        fr >= 0,
                        pw >= 1,
                        below >= 0,
                ;
            }
        }
        let w: u64 = match how {
            Whole::Down => below,
            Whole::Up => if rest {
                below + 1
            } else {
                below
            },
            Whole::Nearest => if half {
                below + 1
            } else {
                below
            },
        };
        proof {
            assert(w == self.whole_of(m as nat, how));
            lemma_pow2_mono((p + 2) as nat, 120);
            lemma_pow2_unfold((p + 2) as nat);
        }
        self.round_pack(w as u128, s as i64)
    }

    /// The pattern made whole, toward zero.
    pub fn truncate(&self, x: u64) -> (r: u64)
        requires
            self.wf(),
            self.holds(x as nat),
        ensures
            r == self.ieee_trunc(x as nat),
            self.holds(r as nat),
    {
        proof {
            self.lemma_sizes();
        }
        let (negative, m) = self.split(x);
        if m >= self.infinite() {
            x
        } else {
            let w = self.make_whole(m, Whole::Down);
            self.join(negative, w)
        }
    }

    /// The pattern made whole, toward negative infinity.
    pub fn floor(&self, x: u64) -> (r: u64)
        requires
            self.wf(),
            self.holds(x as nat),
        ensures
            r == self.ieee_floor(x as nat),
            self.holds(r as nat),
    {
        proof {
            self.lemma_sizes();
        }
        let (negative, m) = self.split(x);
        if m >= self.infinite() {
            x
        } else if negative {
            let w = self.make_whole(m, Whole::Up);
            self.join(true, w)
        } else {
            self.make_whole(m, Whole::Down)
        }
    }

    /// The pattern made whole, toward positive infinity.
    pub fn ceil(&self, x: u64) -> (r: u64)
        requires
            self.wf(),
            self.holds(x as nat),
        ensures
            r == self.ieee_ceil(x as nat),
            self.holds(r as nat),
    {
        proof {
            self.lemma_sizes();
        }
        let (negative, m) = self.split(x);
        if m >= self.infinite() {
            x
        } else if negative {
            let w = self.make_whole(m, Whole::Down);
            self.join(true, w)
        } else {
            self.make_whole(m, Whole::Up)
        }
    }

    /// The pattern made whole, to the nearest and away from zero half way.
    pub fn round_away(&self, x: u64) -> (r: u64)
        requires
            self.wf(),
            self.holds(x as nat),
        ensures
            r == self.ieee_round(x as nat),
            self.holds(r as nat),
    {
        proof {
            self.lemma_sizes();
        }
        let (negative, m) = self.split(x);
        if m >= self.infinite() {
            x
        } else {
            let w = self.make_whole(m, Whole::Nearest);
            self.join(negative, w)
        }
    }
}

} // verus!
