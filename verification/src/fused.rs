use crate::bits::bit_length;
use crate::bits::exp2;
use crate::format::Format;
use crate::laws::size;
use crate::rounding::lemma_pow2_mono;
use vstd::arithmetic::div_mod::lemma_basic_div;
use vstd::arithmetic::div_mod::lemma_fundamental_div_mod;
use vstd::arithmetic::div_mod::lemma_mod_bound;
use vstd::arithmetic::div_mod::lemma_small_mod;
use vstd::arithmetic::power2::lemma_pow2_adds;
use vstd::arithmetic::power2::lemma_pow2_pos;
use vstd::arithmetic::power2::lemma_pow2_unfold;
use vstd::arithmetic::power2::pow2;
use vstd::prelude::*;

verus! {

/// The number `n * 2^from` written at the exponent `to`: moved up exactly
/// where `to` is the lower exponent, and else cut off, with a mark that
/// says whether anything but zeros was cut off.
pub fn align(n: u128, from: i64, to: i64) -> (r: (u128, bool))
    requires
        -16384 <= from <= 16384,
        -16384 <= to <= 16384,
        from >= to ==> n * pow2((from - to) as nat) < pow2(120),
    ensures
        from >= to ==> r.0 == n * pow2((from - to) as nat) && !r.1,
        from < to ==> r.0 == n as nat / pow2((to - from) as nat) && r.1 == (n as nat % pow2(
            (to - from) as nat,
        ) != 0),
{
    if n == 0 {
        proof {
            if from < to {
                lemma_pow2_pos((to - from) as nat);
                crate::rounding::lemma_small_mod_zero(pow2((to - from) as nat));
            } else {
                assert(0 * pow2((from - to) as nat) == 0);
            }
        }
        (0, false)
    } else if from >= to {
        proof {
            let up = (from - to) as nat;
            crate::bits::lemma_pow2_fits(120);
            if up >= 120 {
                lemma_pow2_mono(120, up);
                assert(n * pow2(up) >= pow2(up)) by (nonlinear_arith)
                    requires
                        n >= 1,
                        pow2(up) > 0,
                ;
            }
        }
        let up: u32 = (from - to) as u32;
        (n * exp2(up), false)
    } else if to - from >= 128 {
        proof {
            let down = (to - from) as nat;
            lemma_pow2_mono(128, down);
            vstd::arithmetic::power2::lemma2_to64();
            lemma_pow2_adds(64, 64);
            lemma_basic_div(n as int, pow2(down) as int);
            lemma_small_mod(n as nat, pow2(down));
        }
        (0, true)
    } else {
        let pw: u128 = exp2((to - from) as u32);
        proof {
            lemma_pow2_pos((to - from) as nat);
        }
        (n / pw, n % pw != 0)
    }
}

/// By how much both terms of a sum are lifted so that the exponent `e`
/// they are written at is not negative.
pub open spec fn lift(e: int) -> nat {
    if e < 0 {
        (-e) as nat
    } else {
        0
    }
}

/// The exponent that lifted terms are written at.
pub open spec fn base(e: int) -> nat {
    if e < 0 {
        0
    } else {
        e as nat
    }
}

/// The exponent at which two terms that reach up to `tx` and `ty` are
/// added: `2p + 6` places below the higher of the two.
pub open spec fn meet(tx: nat, ty: nat, p: nat) -> int {
    if tx >= ty {
        tx - (2 * p + 6)
    } else {
        ty - (2 * p + 6)
    }
}

/// What `align` cuts off `n * 2^from` at the exponent `e`.
pub open spec fn cut_off(n: nat, from: nat, e: int) -> nat {
    if from >= e {
        0
    } else {
        (n % pow2((e - from) as nat)) * pow2(from)
    }
}

impl Format {
    /// The fused multiply-add `x * y + z`: the exact product plus the
    /// third operand, rounded once. A NaN operand, zero times infinity and
    /// an infinite product plus the opposite infinity give the canonical
    /// NaN; an exact zero result is `+0.0` unless the product and the
    /// third operand are both negative zeros.
    pub open spec fn ieee_fma(self, x: nat, y: nat, z: nat) -> nat {
        let negative = self.is_negative(x) != self.is_negative(y);
        let exact = self.fused_units(x, y, z);
        if self.is_nan(x) || self.is_nan(y) || self.is_nan(z) {
            self.quiet_nan()
        } else if self.is_infinite(x) || self.is_infinite(y) {
            if self.is_zero(x) || self.is_zero(y) || (self.is_infinite(z) && self.is_negative(z)
                != negative) {
                self.quiet_nan()
            } else {
                self.with_sign(negative, self.infinity())
            }
        } else if self.is_infinite(z) {
            z
        } else if exact == 0 {
            if negative == self.is_negative(z) {
                self.with_sign(negative, 0)
            } else {
                0
            }
        } else {
            self.with_sign(exact < 0, self.round(size(exact), self.unit()))
        }
    }

    /// The exact value of `x * y + z` for finite patterns, in units of one
    /// unit-th of a unit: the product of the two signed values plus the
    /// third signed value times the unit.
    pub open spec fn fused_units(self, x: nat, y: nat, z: nat) -> int {
        self.signed_units(x) * self.signed_units(y) + self.signed_units(z) * self.unit()
    }

    /// The magnitude nearest to `(wide * 2^up + third * unit) / unit`, or
    /// to the difference of the two terms, where `wide * 2^up` is a
    /// product of two values and `third` a value, neither of them zero;
    /// and whether the second term is the larger one, and whether the
    /// first is.
    pub fn combine(&self, wide: u128, up: u32, third: u64, subtract: bool) -> (r: (
        u64,
        bool,
        bool,
    ))
        requires
            self.wf(),
            0 < wide < pow2(2 * self.frac_bits as nat + 2),
            up <= 2 * self.limit(),
            0 < third < self.infinity(),
        ensures
            r.0 <= self.infinity(),
            r.1 == (wide as nat * pow2(up as nat) < self.units(third as nat) * self.unit()),
            r.2 == (wide as nat * pow2(up as nat) > self.units(third as nat) * self.unit()),
            !subtract ==> r.0 == self.round(
                wide as nat * pow2(up as nat) + self.units(third as nat) * self.unit(),
                self.unit(),
            ),
            subtract ==> r.0 == self.round(
                size(wide as nat * pow2(up as nat) - self.units(third as nat) * self.unit()),
                self.unit(),
            ),
    {
        let p: u32 = self.frac_bits;
        let s: u32 = self.unit_exponent();
        let (qc, kc) = self.unpack(third);
        let ghost x: nat = wide as nat * pow2(up as nat);
        let ghost y: nat = self.units(third as nat) * self.unit();
        proof {
            self.lemma_sizes();
            self.lemma_units_zero(third as nat);
            lemma_pow2_unfold((p + 1) as nat);
            lemma_pow2_mono((p + 1) as nat, 120);
            lemma_pow2_mono((2 * p + 2) as nat, 120);
            crate::bits::lemma_pow2_fits(120);
            lemma_pow2_pos(kc as nat);
            assert(qc > 0) by (nonlinear_arith)
                requires
                    self.units(third as nat) == qc * pow2(kc as nat),
                    self.units(third as nat) > 0,
            ;
            lemma_pow2_adds(kc as nat, s as nat);
            assert(y == qc * pow2((kc + s) as nat)) by (nonlinear_arith)
                requires
                    y == self.units(third as nat) * self.unit(),
                    self.units(third as nat) == qc * pow2(kc as nat),
                    pow2(kc as nat) * self.unit() == pow2((kc + s) as nat),
            ;
        }
        let from_x: i64 = up as i64;
        let from_y: i64 = kc as i64 + s as i64;
        let len_x: u32 = bit_length(wide);
        let len_y: u32 = bit_length(qc as u128);
        proof {
            if len_x > 2 * p + 2 {
                lemma_pow2_mono((2 * p + 2) as nat, (len_x - 1) as nat);
            }
            if len_y > p + 1 {
                lemma_pow2_mono((p + 1) as nat, (len_y - 1) as nat);
            }
        }
        let top_x: i64 = from_x + len_x as i64;
        let top_y: i64 = from_y + len_y as i64;
        let top: i64 = if top_x >= top_y {
            top_x
        } else {
            top_y
        };
        let e: i64 = top - (2 * (p as i64) + 6);
        proof {
            if from_x >= e {
                self.lemma_aligned_fits(wide as nat, len_x as nat, from_x as int, top as int);
            }
            if from_y >= e {
                self.lemma_aligned_fits(qc as nat, len_y as nat, from_y as int, top as int);
            }
        }
        let (mx, cut_x) = align(wide, from_x, e);
        let (my, cut_y) = align(qc as u128, from_y, e);
        let ghost rx = cut_off(wide as nat, up as nat, e as int);
        let ghost ry = cut_off(qc as nat, (kc + s) as nat, e as int);
        proof {
            self.lemma_terms(
                wide as nat,
                up as nat,
                len_x as nat,
                qc as nat,
                (kc + s) as nat,
                len_y as nat,
                mx as nat,
                my as nat,
            );
        }
        let y_larger: bool = my > mx || (my == mx && cut_y);
        let sticky: bool = cut_x || cut_y;
        let m: u128 = if !subtract {
            mx + my
        } else if y_larger {
            if cut_x {
                my - mx - 1
            } else {
                my - mx
            }
        } else {
            if cut_y {
                mx - my - 1
            } else {
                mx - my
            }
        };
        proof {
            self.lemma_combined(x, y, e as int, mx as nat, rx, my as nat, ry, subtract, m as nat);
        }
        let r: u64 = if sticky {
            self.round_pack(2 * m + 1, e - s as i64 - 1)
        } else {
            self.round_pack(m, e - s as i64)
        };
        (r, y_larger, mx > my || (mx == my && cut_x))
    }

    /// What `combine` hands to the rounding is the sum or the difference
    /// of the two terms.
    pub proof fn lemma_combined(
        self,
        x: nat,
        y: nat,
        e: int,
        mx: nat,
        rx: nat,
        my: nat,
        ry: nat,
        subtract: bool,
        m: nat,
    )
        requires
            self.wf(),
            x * pow2(lift(e)) == mx * pow2(base(e)) + rx,
            y * pow2(lift(e)) == my * pow2(base(e)) + ry,
            rx < pow2(base(e)),
            ry < pow2(base(e)),
            rx == 0 || ry == 0,
            rx > 0 ==> my > mx,
            ry > 0 ==> mx > my,
            rx > 0 || ry > 0 ==> m >= pow2(self.frac_bits as nat + 1),
            !subtract ==> m == mx + my,
            subtract && (my > mx || (my == mx && ry > 0)) ==> m == my - mx - (if rx > 0 {
                1int
            } else {
                0int
            }),
            subtract && !(my > mx || (my == mx && ry > 0)) ==> m == mx - my - (if ry > 0 {
                1int
            } else {
                0int
            }),
        ensures
            (my > mx || (my == mx && ry > 0)) == (x < y),
            (mx > my || (mx == my && rx > 0)) == (x > y),
            self.round(
                if subtract {
                    size(x - y)
                } else {
                    x + y
                },
                self.unit(),
            ) == if rx > 0 || ry > 0 {
                self.round_scaled(2 * m + 1, e - self.unit_exp() - 1)
            } else {
                self.round_scaled(m, e - self.unit_exp())
            },
    {
        let a = lift(e);
        let b = base(e);
        let f = pow2(a);
        let g = pow2(b);
        let s = self.unit_exp();
        let unit = self.unit();
        let sticky = rx > 0 || ry > 0;
        let y_larger = my > mx || (my == mx && ry > 0);
        let n: nat = if subtract {
            size(x - y)
        } else {
            x + y
        };
        lemma_pow2_pos(a);
        lemma_pow2_pos(b);
        lemma_pow2_pos(s);
        if my > mx {
            assert(my * g >= (mx + 1) * g) by (nonlinear_arith)
                requires
                    my >= mx + 1,
                    g > 0,
            ;
            assert((mx + 1) * g == mx * g + g) by (nonlinear_arith);
            assert(y * f > x * f);
            assert(y > x) by (nonlinear_arith)
                requires
                    y * f > x * f,
                    f > 0,
            ;
        } else if mx > my {
            assert(mx * g >= (my + 1) * g) by (nonlinear_arith)
                requires
                    mx >= my + 1,
                    g > 0,
            ;
            assert((my + 1) * g == my * g + g) by (nonlinear_arith);
            assert(x * f > y * f);
            assert(x > y) by (nonlinear_arith)
                requires
                    x * f > y * f,
                    f > 0,
            ;
        } else {
            assert(x * f == y * f);
            assert(x == y) by (nonlinear_arith)
                requires
                    x * f == y * f,
                    f > 0,
            ;
        }
        assert(y_larger == (x < y));
        // n * f lies at m * g, or strictly between m * g and the next.
        let over: int = if sticky {
            if subtract {
                g - rx - ry
            } else {
                (rx + ry) as int
            }
        } else {
            0
        };
        assert(n * f == m * g + over) by {
            assert((x + y) * f == x * f + y * f) by (nonlinear_arith);
            assert((x - y) * f == x * f - y * f) by (nonlinear_arith);
            assert((y - x) * f == y * f - x * f) by (nonlinear_arith);
            assert((mx + my) * g == mx * g + my * g) by (nonlinear_arith);
            assert((my - mx) * g == my * g - mx * g) by (nonlinear_arith);
            assert((mx - my) * g == mx * g - my * g) by (nonlinear_arith);
            assert((my - mx - 1) * g == my * g - mx * g - g) by (nonlinear_arith);
            assert((mx - my - 1) * g == mx * g - my * g - g) by (nonlinear_arith);
        }
        let x1 = a + s;
        let x2 = b;
        lemma_pow2_adds(a, s);
        assert((n * f) * unit * pow2(x2) == n * g * pow2(x1)) by (nonlinear_arith)
            requires
                pow2(x1) == f * unit,
                pow2(x2) == g,
        ;
        assert(x2 - x1 == e - s);
        if sticky {
            lemma_pow2_unfold(x1 + 1);
            assert((2 * (n * f)) * unit * pow2(x2) == n * g * pow2(x1 + 1)) by (nonlinear_arith)
                requires
                    (n * f) * unit * pow2(x2) == n * g * pow2(x1),
                    pow2(x1 + 1) == 2 * pow2(x1),
            ;
            self.lemma_round_quotient_is(2 * (n * f), g, x1 + 1, n, unit, x2);
            assert(2 * m * g < 2 * (n * f) && 2 * (n * f) < (2 * m + 2) * g) by (nonlinear_arith)
                requires
                    n * f == m * g + over,
                    0 < over < g,
            ;
            self.lemma_round_sticky(2 * (n * f), g, m, e - s - 1);
        } else {
            self.lemma_round_quotient_is(n * f, g, x1, n, unit, x2);
            assert(n * f == m * g);
            self.lemma_round_quotient_whole(m, g, e - s);
        }
    }

    /// What `combine` knows of its two terms once they are aligned: each
    /// is its aligned part plus what was cut off, at most one of them was
    /// cut, and that one is far smaller than the other.
    pub proof fn lemma_terms(
        self,
        nx: nat,
        fx: nat,
        lx: nat,
        ny: nat,
        fy: nat,
        ly: nat,
        mx: nat,
        my: nat,
    )
        requires
            self.wf(),
            1 <= lx <= 2 * self.frac_bits + 2,
            1 <= ly <= 2 * self.frac_bits + 2,
            pow2((lx - 1) as nat) <= nx < pow2(lx),
            pow2((ly - 1) as nat) <= ny < pow2(ly),
            fx >= meet(fx + lx, fy + ly, self.frac_bits as nat) ==> mx == nx * pow2(
                (fx - meet(fx + lx, fy + ly, self.frac_bits as nat)) as nat,
            ),
            fx < meet(fx + lx, fy + ly, self.frac_bits as nat) ==> mx == nx / pow2(
                (meet(fx + lx, fy + ly, self.frac_bits as nat) - fx) as nat,
            ),
            fy >= meet(fx + lx, fy + ly, self.frac_bits as nat) ==> my == ny * pow2(
                (fy - meet(fx + lx, fy + ly, self.frac_bits as nat)) as nat,
            ),
            fy < meet(fx + lx, fy + ly, self.frac_bits as nat) ==> my == ny / pow2(
                (meet(fx + lx, fy + ly, self.frac_bits as nat) - fy) as nat,
            ),
        ensures
            ({
                let e = meet(fx + lx, fy + ly, self.frac_bits as nat);
                let rx = cut_off(nx, fx, e);
                let ry = cut_off(ny, fy, e);
                &&& (nx * pow2(fx)) * pow2(lift(e)) == mx * pow2(base(e)) + rx
                &&& (ny * pow2(fy)) * pow2(lift(e)) == my * pow2(base(e)) + ry
                &&& rx < pow2(base(e))
                &&& ry < pow2(base(e))
                &&& fx >= e ==> rx == 0
                &&& fy >= e ==> ry == 0
                &&& fx < e ==> (rx > 0) == (nx % pow2((e - fx) as nat) != 0)
                &&& fy < e ==> (ry > 0) == (ny % pow2((e - fy) as nat) != 0)
                &&& rx == 0 || ry == 0
                &&& rx > 0 ==> my > mx + pow2(self.frac_bits as nat + 1)
                &&& ry > 0 ==> mx > my + pow2(self.frac_bits as nat + 1)
                &&& 2 * (mx + my) + 1 < pow2(120)
            }),
    {
        let p = self.frac_bits as nat;
        let top: int = if fx + lx >= fy + ly {
            (fx + lx) as int
        } else {
            (fy + ly) as int
        };
        let e = meet(fx + lx, fy + ly, p);
        let width = 2 * p + 6;
        assert(e == top - width);
        self.lemma_aligned(nx, fx, e, mx);
        self.lemma_aligned(ny, fy, e, my);
        self.lemma_aligned_sizes(nx, lx, fx as int, top, mx);
        self.lemma_aligned_sizes(ny, ly, fy as int, top, my);
        lemma_pow2_adds((2 * p + 2) as nat, 3);
        vstd::arithmetic::power2::lemma2_to64();
        lemma_pow2_mono(p + 1, 2 * p + 2);
        lemma_pow2_unfold(width);
        lemma_pow2_unfold(width + 1);
        lemma_pow2_unfold(width + 2);
        lemma_pow2_mono(width + 2, 120);
    }

    /// A term `n * 2^from`, lifted, is what `align` makes of it at the
    /// exponent `e`, at the base, plus what was cut off.
    pub proof fn lemma_aligned(self, n: nat, from: nat, e: int, m: nat)
        requires
            from >= e ==> m == n * pow2((from - e) as nat),
            from < e ==> m == n / pow2((e - from) as nat),
        ensures
            (n * pow2(from)) * pow2(lift(e)) == m * pow2(base(e)) + cut_off(n, from, e),
            cut_off(n, from, e) < pow2(base(e)),
            from >= e ==> cut_off(n, from, e) == 0,
            from < e ==> (cut_off(n, from, e) > 0) == (n % pow2((e - from) as nat) != 0),
    {
        let a = lift(e);
        let b = base(e);
        lemma_pow2_pos(a);
        lemma_pow2_pos(b);
        lemma_pow2_pos(from);
        if from >= e {
            let sh = (from - e) as nat;
            lemma_pow2_adds(from, a);
            lemma_pow2_adds(sh, b);
            assert((n * pow2(from)) * pow2(a) == (n * pow2(sh)) * pow2(b)) by (nonlinear_arith)
                requires
                    pow2(from) * pow2(a) == pow2(sh) * pow2(b),
            ;
        } else {
            let down = (e - from) as nat;
            let w = pow2(down);
            lemma_pow2_pos(down);
            lemma_pow2_adds(down, from);
            vstd::arithmetic::power2::lemma2_to64();
            lemma_fundamental_div_mod(n as int, w as int);
            lemma_mod_bound(n as int, w as int);
            let rest = n % w;
            let scale = pow2(from);
            assert(a == 0 && b == e);
            assert(pow2(b) == w * scale);
            assert(n * scale == m * (w * scale) + rest * scale) by (nonlinear_arith)
                requires
                    n == w * m + rest,
            ;
            assert((n * scale) * 1 == n * scale);
            assert(rest * scale < w * scale) by (nonlinear_arith)
                requires
                    0 <= rest < w,
                    scale > 0,
            ;
            assert((rest * scale > 0) == (rest > 0)) by (nonlinear_arith)
                requires
                    rest >= 0,
                    scale > 0,
            ;
        }
    }

    /// A term that does not reach beyond `top` can be written at the
    /// exponent `top - (2p + 6)` in fewer than 120 bits.
    pub proof fn lemma_aligned_fits(self, n: nat, len: nat, from: int, top: int)
        requires
            self.wf(),
            n < pow2(len),
            from + len <= top,
            from >= top - (2 * self.frac_bits + 6),
        ensures
            n * pow2((from - (top - (2 * self.frac_bits + 6))) as nat) < pow2(120),
    {
        let width = (2 * self.frac_bits + 6) as nat;
        let sh = (from - (top - width)) as nat;
        lemma_pow2_pos(sh);
        lemma_pow2_adds(len, sh);
        lemma_pow2_mono(len + sh, width);
        lemma_pow2_mono(width, 120);
        assert(n * pow2(sh) < pow2(len) * pow2(sh)) by (nonlinear_arith)
            requires
                n < pow2(len),
                pow2(sh) > 0,
        ;
    }

    /// How large an aligned term is: below `2^(2p + 6)` always; from
    /// `2^(2p + 5)` on where the term reaches the top; and below
    /// `2^(2p + 2)` where bits of it were cut off, which happens only to a
    /// term that ends below the top.
    pub proof fn lemma_aligned_sizes(self, n: nat, len: nat, from: int, top: int, m: nat)
        requires
            self.wf(),
            len >= 1,
            len <= 2 * self.frac_bits + 2,
            pow2((len - 1) as nat) <= n < pow2(len),
            from >= 0,
            from + len <= top,
            from >= top - (2 * self.frac_bits + 6) ==> m == n * pow2(
                (from - (top - (2 * self.frac_bits + 6))) as nat,
            ),
            from < top - (2 * self.frac_bits + 6) ==> m == n / pow2(
                ((top - (2 * self.frac_bits + 6)) - from) as nat,
            ),
        ensures
            m < pow2((2 * self.frac_bits + 6) as nat),
            from + len == top ==> from >= top - (2 * self.frac_bits + 6) && m >= pow2(
                (2 * self.frac_bits + 5) as nat,
            ),
            from < top - (2 * self.frac_bits + 6) ==> m < pow2((2 * self.frac_bits + 2) as nat),
    {
        let width = (2 * self.frac_bits + 6) as nat;
        let e = top - width;
        if from >= e {
            let sh = (from - e) as nat;
            lemma_pow2_pos(sh);
            lemma_pow2_adds(len, sh);
            lemma_pow2_adds((len - 1) as nat, sh);
            lemma_pow2_mono(len + sh, width);
            assert(m < pow2(len) * pow2(sh)) by (nonlinear_arith)
                requires
                    m == n * pow2(sh),
                    n < pow2(len),
                    pow2(sh) > 0,
            ;
            assert(m >= pow2((len - 1) as nat) * pow2(sh)) by (nonlinear_arith)
                requires
                    m == n * pow2(sh),
                    n >= pow2((len - 1) as nat),
                    pow2(sh) > 0,
            ;
        } else {
            let down = (e - from) as nat;
            lemma_pow2_pos(down);
            lemma_fundamental_div_mod(n as int, pow2(down) as int);
            lemma_mod_bound(n as int, pow2(down) as int);
            lemma_pow2_mono(len, (2 * self.frac_bits + 2) as nat);
            lemma_pow2_mono((2 * self.frac_bits + 2) as nat, width);
            let rest = n % pow2(down);
            assert(m <= n) by (nonlinear_arith)
                requires
                    n == pow2(down) * m + rest,
                    rest >= 0,
                    pow2(down) >= 1,
                    m >= 0,
            ;
        }
    }
}

impl Format {
    /// The fused multiply-add of three patterns.
    pub fn fused(&self, x: u64, y: u64, z: u64) -> (r: u64)
        requires
            self.wf(),
            self.holds(x as nat),
            self.holds(y as nat),
            self.holds(z as nat),
        ensures
            r == self.ieee_fma(x as nat, y as nat, z as nat),
            self.holds(r as nat),
    {
        proof {
            self.lemma_sizes();
        }
        let (sx, mx) = self.split(x);
        let (sy, my) = self.split(y);
        let (sz, mz) = self.split(z);
        let inf: u64 = self.infinite();
        let negative: bool = sx != sy;
        if mx > inf || my > inf || mz > inf {
            return self.nan();
        }
        if mx == inf || my == inf {
            if mx == 0 || my == 0 || (mz == inf && sz != negative) {
                return self.nan();
            }
            return self.join(negative, inf);
        }
        if mz == inf {
            return z;
        }
        let (qa, ka) = self.unpack(mx);
        let (qb, kb) = self.unpack(my);
        let ghost ua = self.units(mx as nat);
        let ghost ub = self.units(my as nat);
        let ghost uc = self.units(mz as nat);
        let ghost unit = self.unit();
        let ghost first: nat = ua * ub;
        let ghost second: nat = uc * unit;
        proof {
            let p = self.frac_bits as nat;
            self.lemma_units_zero(mx as nat);
            self.lemma_units_zero(my as nat);
            self.lemma_units_zero(mz as nat);
            lemma_pow2_pos(self.unit_exp());
            lemma_pow2_unfold(p + 1);
            lemma_pow2_adds(p + 1, p + 1);
            lemma_pow2_mono(2 * p + 2, 120);
            crate::bits::lemma_pow2_fits(120);
            assert(qa * qb < pow2(p + 1) * pow2(p + 1)) by (nonlinear_arith)
                requires
                    qa < pow2(p + 1),
                    qb < pow2(p + 1),
            ;
            lemma_pow2_adds(ka as nat, kb as nat);
            assert(first == (qa * qb) * pow2((ka + kb) as nat)) by (nonlinear_arith)
                requires
                    first == ua * ub,
                    ua == qa * pow2(ka as nat),
                    ub == qb * pow2(kb as nat),
                    pow2(ka as nat) * pow2(kb as nat) == pow2((ka + kb) as nat),
            ;
            assert((first == 0) == (ua == 0 || ub == 0)) by (nonlinear_arith)
                requires
                    first == ua * ub,
                    ua >= 0,
                    ub >= 0,
            ;
            assert((second == 0) == (uc == 0)) by (nonlinear_arith)
                requires
                    second == uc * unit,
                    unit > 0,
                    uc >= 0,
            ;
            self.lemma_fused_units(x as nat, y as nat, z as nat);
        }
        let wide: u128 = (qa as u128) * (qb as u128);
        if mx == 0 || my == 0 {
            if mz == 0 {
                if negative == sz {
                    self.join(negative, 0)
                } else {
                    0
                }
            } else {
                proof {
                    assert(second * 1 == uc * unit) by (nonlinear_arith)
                        requires
                            second == uc * unit,
                    ;
                    self.lemma_round_ratio(second, unit, uc, 1);
                    self.lemma_round_exact(mz as nat);
                }
                z
            }
        } else if mz == 0 {
            let m = self.multiply(mx, my);
            self.join(negative, m)
        } else {
            proof {
                assert(wide > 0) by (nonlinear_arith)
                    requires
                        first == wide * pow2((ka + kb) as nat),
                        first > 0,
                ;
            }
            let (m, second_larger, first_larger) = self.combine(
                wide,
                ka + kb,
                mz,
                negative != sz,
            );
            if negative == sz {
                self.join(negative, m)
            } else if second_larger {
                self.join(sz, m)
            } else if first_larger {
                self.join(negative, m)
            } else {
                proof {
                    self.lemma_round_zero(unit);
                }
                0
            }
        }
    }

    /// The exact value of a fused multiply-add of finite patterns is the
    /// product of the two values, negative where exactly one of the two
    /// patterns is, plus or minus the third value times the unit.
    pub proof fn lemma_fused_units(self, x: nat, y: nat, z: nat)
        ensures
            self.fused_units(x, y, z) == (if self.is_negative(x) != self.is_negative(y) {
                -(self.units(self.magnitude(x)) * self.units(self.magnitude(y)))
            } else {
                self.units(self.magnitude(x)) * self.units(self.magnitude(y)) as int
            }) + (if self.is_negative(z) {
                -(self.units(self.magnitude(z)) * self.unit())
            } else {
                self.units(self.magnitude(z)) * self.unit() as int
            }),
    {
        let a = self.units(self.magnitude(x)) as int;
        let b = self.units(self.magnitude(y)) as int;
        let c = self.units(self.magnitude(z)) as int;
        let u = self.unit() as int;
        assert((-a) * (-b) == a * b) by (nonlinear_arith);
        assert((-a) * b == -(a * b)) by (nonlinear_arith);
        assert(a * (-b) == -(a * b)) by (nonlinear_arith);
        assert((-c) * u == -(c * u)) by (nonlinear_arith);
    }
}

} // verus!
