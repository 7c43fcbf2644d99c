use crate::double::finite;
use crate::double::ieee_add;
use crate::double::ieee_mul;
use crate::double::ordinary_add;
use crate::wrapper::Fast;
use vstd::prelude::*;

verus! {

/// The sum of the first `n` double-precision patterns of `xs`, added up in
/// order from positive zero.
pub open spec fn sum_of(xs: Seq<u64>, n: nat) -> u64
    decreases n,
{
    if n == 0 {
        0
    } else {
        ieee_add(sum_of(xs, (n - 1) as nat), xs[n - 1])
    }
}

/// Whether relaxed addition can add up the first `n` patterns of `xs`:
/// each of them is finite, and so is the sum before it.
pub open spec fn summable(xs: Seq<u64>, n: nat) -> bool {
    forall|i: nat| i < n ==> finite(xs[i as int]) && finite(#[trigger] sum_of(xs, i))
}

/// The dot product of the first `n` patterns of `xs` and `ys`: the
/// products added up in order from positive zero.
pub open spec fn dot_of(xs: Seq<u64>, ys: Seq<u64>, n: nat) -> u64
    decreases n,
{
    if n == 0 {
        0
    } else {
        ieee_add(dot_of(xs, ys, (n - 1) as nat), ieee_mul(xs[n - 1], ys[n - 1]))
    }
}

/// Whether relaxed arithmetic can form the dot product of the first `n`
/// patterns of `xs` and `ys`: the factors are finite, and so are each
/// product and the sum before it.
pub open spec fn dottable(xs: Seq<u64>, ys: Seq<u64>, n: nat) -> bool {
    forall|i: nat|
        i < n ==> finite(xs[i as int]) && finite(ys[i as int]) && finite(
            ieee_mul(xs[i as int], ys[i as int]),
        ) && finite(#[trigger] dot_of(xs, ys, i))
}

/// The sum of the patterns by relaxed addition, in order.
pub fn fast_sum(xs: &[u64]) -> (total: u64)
    requires
        summable(xs@, xs@.len()),
    ensures
        total == sum_of(xs@, xs@.len()),
{
    let mut acc: Fast<u64> = Fast(0);
    let mut i: usize = 0;
    while i < xs.len()
        invariant
            i <= xs@.len(),
            acc.0 == sum_of(xs@, i as nat),
            summable(xs@, xs@.len()),
        decreases xs@.len() - i,
    {
        assert(finite(sum_of(xs@, i as nat)));
        acc = acc + Fast(xs[i]);
        i = i + 1;
    }
    acc.get()
}

/// The dot product of the two slices, as far as the shorter one goes, by
/// relaxed multiplication and addition, in order.
pub fn fast_dot(xs: &[u64], ys: &[u64]) -> (total: u64)
    requires
        dottable(xs@, ys@, if xs@.len() <= ys@.len() {
            xs@.len()
        } else {
            ys@.len()
        }),
    ensures
        total == dot_of(xs@, ys@, if xs@.len() <= ys@.len() {
            xs@.len()
        } else {
            ys@.len()
        }),
{
    let n: usize = if xs.len() <= ys.len() {
        xs.len()
    } else {
        ys.len()
    };
    let mut acc: Fast<u64> = Fast(0);
    let mut i: usize = 0;
    while i < n
        invariant
            i <= n,
            n <= xs@.len(),
            n <= ys@.len(),
            acc.0 == dot_of(xs@, ys@, i as nat),
            dottable(xs@, ys@, n as nat),
        decreases n - i,
    {
        assert(finite(dot_of(xs@, ys@, i as nat)));
        acc = acc + Fast(xs[i]) * Fast(ys[i]);
        i = i + 1;
    }
    acc.get()
}

/// The sum of the patterns by ordinary addition, in order: defined for
/// every slice, and what [`fast_sum`] gives wherever that may be called.
pub fn regular_sum(xs: &[u64]) -> (total: u64)
    ensures
        total == sum_of(xs@, xs@.len()),
{
    let mut acc: u64 = 0;
    let mut i: usize = 0;
    while i < xs.len()
        invariant
            i <= xs@.len(),
            acc == sum_of(xs@, i as nat),
        decreases xs@.len() - i,
    {
        acc = ordinary_add(acc, xs[i]);
        i = i + 1;
    }
    acc
}

} // verus!
