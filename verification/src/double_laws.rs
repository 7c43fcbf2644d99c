use crate::double::finite;
use crate::double::ieee_add;
use crate::double::ieee_sub;
use crate::double::ieee_mul;
use crate::double::ieee_div;
use crate::double::ieee_rem;
use crate::double::lemma_landmarks;
use crate::format::binary64;
use crate::wrapper::Fast;
use vstd::prelude::*;
use vstd::std_specs::ops::AddSpec;
use vstd::std_specs::ops::SubSpec;
use vstd::std_specs::ops::MulSpec;
use vstd::std_specs::ops::DivSpec;
use vstd::std_specs::ops::RemSpec;
use vstd::std_specs::ops::NegSpec;

verus! {

/// A lone relaxed operation changes nothing: on finite operands each of
/// the five relaxed operators is owed, and gives, what ordinary arithmetic
/// gives.
pub proof fn law_relaxed_is_ordinary(a: u64, b: u64)
    requires
        finite(a),
        finite(b),
    ensures
        <Fast<u64> as AddSpec<Fast<u64>>>::add_req(Fast(a), Fast(b)),
        <Fast<u64> as AddSpec<Fast<u64>>>::add_spec(Fast(a), Fast(b)) == Fast(ieee_add(a, b)),
        ieee_add(a, b) == binary64().ieee_add(a as nat, b as nat),
        <Fast<u64> as SubSpec<Fast<u64>>>::sub_req(Fast(a), Fast(b)),
        <Fast<u64> as SubSpec<Fast<u64>>>::sub_spec(Fast(a), Fast(b)) == Fast(ieee_sub(a, b)),
        ieee_sub(a, b) == binary64().ieee_sub(a as nat, b as nat),
        <Fast<u64> as MulSpec<Fast<u64>>>::mul_req(Fast(a), Fast(b)),
        <Fast<u64> as MulSpec<Fast<u64>>>::mul_spec(Fast(a), Fast(b)) == Fast(ieee_mul(a, b)),
        ieee_mul(a, b) == binary64().ieee_mul(a as nat, b as nat),
        <Fast<u64> as DivSpec<Fast<u64>>>::div_req(Fast(a), Fast(b)),
        <Fast<u64> as DivSpec<Fast<u64>>>::div_spec(Fast(a), Fast(b)) == Fast(ieee_div(a, b)),
        ieee_div(a, b) == binary64().ieee_div(a as nat, b as nat),
        <Fast<u64> as RemSpec<Fast<u64>>>::rem_req(Fast(a), Fast(b)),
        <Fast<u64> as RemSpec<Fast<u64>>>::rem_spec(Fast(a), Fast(b)) == Fast(ieee_rem(a, b)),
        ieee_rem(a, b) == binary64().ieee_rem(a as nat, b as nat),
{
    lemma_landmarks();
    let f = binary64();
    let (x, y) = (a as nat, b as nat);
    assert(f.holds(x) && f.holds(y));
    f.law_sum_is_rounded(x, y);
    f.law_difference_is_rounded(x, y);
    f.law_product_is_rounded(x, y);
    f.lemma_sizes();
    vstd::arithmetic::div_mod::lemma_mod_bound(x as int, f.sign_bit() as int);
    vstd::arithmetic::div_mod::lemma_mod_bound(y as int, f.sign_bit() as int);
    f.lemma_with_sign(f.is_negative(x) != f.is_negative(y), f.infinity());
    f.lemma_with_sign(f.is_negative(x) != f.is_negative(y), 0);
    if !f.is_zero(y) {
        f.law_quotient_is_rounded(x, y);
        f.law_remainder_of_numbers(x, y);
    }
}

/// The shape of the operands does not matter: wrapped with wrapped,
/// wrapped with bare and bare with wrapped ask the same of their operands
/// and give the same wrapped result, for each of the five operators.
pub proof fn law_operand_shapes(a: u64, b: u64)
    ensures
        <Fast<u64> as AddSpec<Fast<u64>>>::add_req(Fast(a), Fast(b)) == (finite(a) && finite(b)),
        <Fast<u64> as AddSpec<u64>>::add_req(Fast(a), b) == (finite(a) && finite(b)),
        <u64 as AddSpec<Fast<u64>>>::add_req(a, Fast(b)) == (finite(a) && finite(b)),
        <Fast<u64> as AddSpec<Fast<u64>>>::add_spec(Fast(a), Fast(b)) == Fast(ieee_add(a, b)),
        <Fast<u64> as AddSpec<u64>>::add_spec(Fast(a), b) == Fast(ieee_add(a, b)),
        <u64 as AddSpec<Fast<u64>>>::add_spec(a, Fast(b)) == Fast(ieee_add(a, b)),
        <Fast<u64> as SubSpec<Fast<u64>>>::sub_req(Fast(a), Fast(b)) == (finite(a) && finite(b)),
        <Fast<u64> as SubSpec<u64>>::sub_req(Fast(a), b) == (finite(a) && finite(b)),
        <u64 as SubSpec<Fast<u64>>>::sub_req(a, Fast(b)) == (finite(a) && finite(b)),
        <Fast<u64> as SubSpec<Fast<u64>>>::sub_spec(Fast(a), Fast(b)) == Fast(ieee_sub(a, b)),
        <Fast<u64> as SubSpec<u64>>::sub_spec(Fast(a), b) == Fast(ieee_sub(a, b)),
        <u64 as SubSpec<Fast<u64>>>::sub_spec(a, Fast(b)) == Fast(ieee_sub(a, b)),
        <Fast<u64> as MulSpec<Fast<u64>>>::mul_req(Fast(a), Fast(b)) == (finite(a) && finite(b)),
        <Fast<u64> as MulSpec<u64>>::mul_req(Fast(a), b) == (finite(a) && finite(b)),
        <u64 as MulSpec<Fast<u64>>>::mul_req(a, Fast(b)) == (finite(a) && finite(b)),
        <Fast<u64> as MulSpec<Fast<u64>>>::mul_spec(Fast(a), Fast(b)) == Fast(ieee_mul(a, b)),
        <Fast<u64> as MulSpec<u64>>::mul_spec(Fast(a), b) == Fast(ieee_mul(a, b)),
        <u64 as MulSpec<Fast<u64>>>::mul_spec(a, Fast(b)) == Fast(ieee_mul(a, b)),
        <Fast<u64> as DivSpec<Fast<u64>>>::div_req(Fast(a), Fast(b)) == (finite(a) && finite(b)),
        <Fast<u64> as DivSpec<u64>>::div_req(Fast(a), b) == (finite(a) && finite(b)),
        <u64 as DivSpec<Fast<u64>>>::div_req(a, Fast(b)) == (finite(a) && finite(b)),
        <Fast<u64> as DivSpec<Fast<u64>>>::div_spec(Fast(a), Fast(b)) == Fast(ieee_div(a, b)),
        <Fast<u64> as DivSpec<u64>>::div_spec(Fast(a), b) == Fast(ieee_div(a, b)),
        <u64 as DivSpec<Fast<u64>>>::div_spec(a, Fast(b)) == Fast(ieee_div(a, b)),
        <Fast<u64> as RemSpec<Fast<u64>>>::rem_req(Fast(a), Fast(b)) == (finite(a) && finite(b)),
        <Fast<u64> as RemSpec<u64>>::rem_req(Fast(a), b) == (finite(a) && finite(b)),
        <u64 as RemSpec<Fast<u64>>>::rem_req(a, Fast(b)) == (finite(a) && finite(b)),
        <Fast<u64> as RemSpec<Fast<u64>>>::rem_spec(Fast(a), Fast(b)) == Fast(ieee_rem(a, b)),
        <Fast<u64> as RemSpec<u64>>::rem_spec(Fast(a), b) == Fast(ieee_rem(a, b)),
        <u64 as RemSpec<Fast<u64>>>::rem_spec(a, Fast(b)) == Fast(ieee_rem(a, b)),
{
}

/// Negation is total, flips the sign bit and keeps every other bit, the
/// payload of a NaN included; negating twice gives the value back.
pub proof fn law_negation(x: u64)
    ensures
        <Fast<u64> as NegSpec>::neg_req(Fast(x)),
        <Fast<u64> as NegSpec>::neg_spec(Fast(x)).0 == binary64().negate(x as nat),
        binary64().magnitude(binary64().negate(x as nat)) == binary64().magnitude(x as nat),
        binary64().is_negative(binary64().negate(x as nat)) != binary64().is_negative(x as nat),
        binary64().is_nan(binary64().negate(x as nat)) == binary64().is_nan(x as nat),
        <Fast<u64> as NegSpec>::neg_spec(<Fast<u64> as NegSpec>::neg_spec(Fast(x))) == Fast(x),
{
    lemma_landmarks();
    binary64().law_negation(x as nat);
    binary64().law_negation(binary64().negate(x as nat));
}

} // verus!
