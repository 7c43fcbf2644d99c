use vstd::arithmetic::div_mod::lemma_div_denominator;
use vstd::arithmetic::power2::lemma2_to64;
use vstd::arithmetic::power2::lemma_pow2_pos;
use vstd::arithmetic::power2::lemma_pow2_strictly_increases;
use vstd::arithmetic::power2::lemma_pow2_unfold;
use vstd::arithmetic::power2::pow2;
use vstd::prelude::*;

verus! {

/// Shifting one to the left by `s` places gives the power of two.
pub proof fn lemma_shl_is_pow2(s: u32)
    requires
        s < 128,
    ensures
        (1u128 << s) == pow2(s as nat),
    decreases s,
{
    if s == 0 {
        assert((1u128 << 0u32) == 1) by (bit_vector);
        lemma2_to64();
    } else {
        let t = (s - 1) as u32;
        lemma_shl_is_pow2(t);
        assert((1u128 << s) == 2 * (1u128 << t)) by (bit_vector)
            requires
                0 < s < 128,
                t == s - 1,
        ;
        lemma_pow2_unfold(s as nat);
    }
}

/// A power of two with an exponent below 128 fits in 128 bits, and one
/// with an exponent below 64 in 64 bits.
pub proof fn lemma_pow2_fits(s: nat)
    ensures
        s < 128 ==> pow2(s) <= u128::MAX,
        s < 64 ==> pow2(s) <= u64::MAX,
{
    if s < 128 {
        lemma_shl_is_pow2(s as u32);
    }
    if s < 64 {
        lemma_shl_is_pow2(s as u32);
        lemma_shl_is_pow2(64);
        lemma_pow2_strictly_increases(s, 64);
        assert((1u128 << 64u32) == 0x1_0000_0000_0000_0000) by (bit_vector);
    }
}

/// Two to the power `s`.
pub fn exp2(s: u32) -> (r: u128)
    requires
        s < 128,
    ensures
        r == pow2(s as nat),
{
    proof {
        lemma_shl_is_pow2(s);
    }
    1u128 << s
}

/// Two to the power `s`, in 64 bits.
pub fn exp2_small(s: u32) -> (r: u64)
    requires
        s < 64,
    ensures
        r == pow2(s as nat),
{
    proof {
        lemma_pow2_fits(s as nat);
    }
    let wide: u128 = exp2(s);
    wide as u64
}

/// The number of bits needed to write `n`: 0 for 0, and otherwise the `len`
/// with `2^(len - 1) <= n < 2^len`.
pub fn bit_length(n: u128) -> (len: u32)
    ensures
        len <= 128,
        n == 0 <==> len == 0,
        n < pow2(len as nat),
        len > 0 ==> pow2((len - 1) as nat) <= n,
{
    let mut len: u32 = 0;
    let mut rest: u128 = n;
    proof {
        lemma2_to64();
    }
    while rest > 0
        invariant
            len <= 128,
            rest == n as nat / pow2(len as nat),
            n == 0 <==> (len == 0 && rest == 0),
            len > 0 ==> pow2((len - 1) as nat) <= n,
            len == 128 ==> rest == 0,
        decreases rest,
    {
        proof {
            lemma_pow2_pos(len as nat);
            lemma_pow2_unfold((len + 1) as nat);
            lemma_div_denominator(n as int, pow2(len as nat) as int, 2);
            // rest >= 1 says that n reaches pow2(len).
            vstd::arithmetic::div_mod::lemma_fundamental_div_mod(n as int, pow2(len as nat) as int);
            vstd::arithmetic::div_mod::lemma_mod_bound(n as int, pow2(len as nat) as int);
            assert(pow2(len as nat) <= n) by (nonlinear_arith)
                requires
                    n == pow2(len as nat) * (n as nat / pow2(len as nat)) + (n as nat % pow2(
                        len as nat,
                    )),
                    n as nat / pow2(len as nat) >= 1,
                    (n as nat % pow2(len as nat)) >= 0,
                    pow2(len as nat) > 0,
            ;
            if len == 127 {
                lemma_pow2_fits(127);
                lemma_shl_is_pow2(127);
                assert((1u128 << 127u32) == 0x8000_0000_0000_0000_0000_0000_0000_0000u128)
                    by (bit_vector);
                assert(n as nat / pow2(128) == 0) by (nonlinear_arith)
                    requires
                        n <= u128::MAX,
                        pow2(128) == 2 * pow2(127),
                        pow2(127) == 0x8000_0000_0000_0000_0000_0000_0000_0000u128,
                ;
            }
        }
        rest = rest / 2;
        len = len + 1;
    }
    proof {
        lemma_pow2_pos(len as nat);
        vstd::arithmetic::div_mod::lemma_fundamental_div_mod(n as int, pow2(len as nat) as int);
        vstd::arithmetic::div_mod::lemma_mod_bound(n as int, pow2(len as nat) as int);
    }
    len
}

} // verus!
