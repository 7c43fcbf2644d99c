use crate::single::finite;
use crate::single::ieee_add;
use crate::single::ieee_sub;
use crate::single::ieee_mul;
use crate::single::ieee_div;
use crate::single::ieee_rem;
use crate::single::lemma_landmarks;
use crate::format::binary32;
use crate::wrapper::Fast;
use vstd::prelude::*;
use vstd::std_specs::ops::AddSpec;
use vstd::std_specs::ops::SubSpec;
use vstd::std_specs::ops::MulSpec;
use vstd::std_specs::ops::DivSpec;
use vstd::std_specs::ops::RemSpec;
use vstd::std_specs::ops::NegSpec;

verus! {

/// A lone relaxed operation changes nothing: on finite operands each of
/// the five relaxed operators is owed, and gives, what ordinary arithmetic
/// gives.
pub proof fn law_relaxed_is_ordinary(a: u32, b: u32)
    requires
        finite(a),
        finite(b),
    ensures
        <Fast<u32> as AddSpec<Fast<u32>>>::add_req(Fast(a), Fast(b)),
        <Fast<u32> as AddSpec<Fast<u32>>>::add_spec(Fast(a), Fast(b)) == Fast(ieee_add(a, b)),
        ieee_add(a, b) == binary32().ieee_add(a as nat, b as nat),
        <Fast<u32> as SubSpec<Fast<u32>>>::sub_req(Fast(a), Fast(b)),
        <Fast<u32> as SubSpec<Fast<u32>>>::sub_spec(Fast(a), Fast(b)) == Fast(ieee_sub(a, b)),
        ieee_sub(a, b) == binary32().ieee_sub(a as nat, b as nat),
        <Fast<u32> as MulSpec<Fast<u32>>>::mul_req(Fast(a), Fast(b)),
        <Fast<u32> as MulSpec<Fast<u32>>>::mul_spec(Fast(a), Fast(b)) == Fast(ieee_mul(a, b)),
        ieee_mul(a, b) == binary32().ieee_mul(a as nat, b as nat),
        <Fast<u32> as DivSpec<Fast<u32>>>::div_req(Fast(a), Fast(b)),
        <Fast<u32> as DivSpec<Fast<u32>>>::div_spec(Fast(a), Fast(b)) == Fast(ieee_div(a, b)),
        ieee_div(a, b) == binary32().ieee_div(a as nat, b as nat),
        <Fast<u32> as RemSpec<Fast<u32>>>::rem_req(Fast(a), Fast(b)),
        <Fast<u32> as RemSpec<Fast<u32>>>::rem_spec(Fast(a), Fast(b)) == Fast(ieee_rem(a, b)),
        ieee_rem(a, b) == binary32().ieee_rem(a as nat, b as nat),
{
    lemma_landmarks();
    let f = binary32();
    let (x, y) = (a as nat, b as nat);
    assert(f.holds(x) && f.holds(y));
    f.law_sum_is_rounded(x, y);
    f.law_difference_is_rounded(x, y);
    f.law_product_is_rounded(x, y);
    f.lemma_sizes();
    vstd::arithmetic::div_mod::lemma_mod_bound(x as int, f.sign_bit() as int);
    vstd::arithmetic::div_mod::lemma_mod_bound(y as int, f.sign_bit() as int);
    f.lemma_with_sign(f.is_negative(x) != f.is_negative(y), f.infinity());
    f.lemma_with_sign(f.is_negative(x) != f.is_negative(y), 0);
    if !f.is_zero(y) {
        f.law_quotient_is_rounded(x, y);
        f.law_remainder_of_numbers(x, y);
    }
}

/// The shape of the operands does not matter: wrapped with wrapped,
/// wrapped with bare and bare with wrapped ask the same of their operands
/// and give the same wrapped result, for each of the five operators.
pub proof fn law_operand_shapes(a: u32, b: u32)
    ensures
        <Fast<u32> as AddSpec<Fast<u32>>>::add_req(Fast(a), Fast(b)) == (finite(a) && finite(b)),
        <Fast<u32> as AddSpec<u32>>::add_req(Fast(a), b) == (finite(a) && finite(b)),
        <u32 as AddSpec<Fast<u32>>>::add_req(a, Fast(b)) == (finite(a) && finite(b)),
        <Fast<u32> as AddSpec<Fast<u32>>>::add_spec(Fast(a), Fast(b)) == Fast(ieee_add(a, b)),
        <Fast<u32> as AddSpec<u32>>::add_spec(Fast(a), b) == Fast(ieee_add(a, b)),
        <u32 as AddSpec<Fast<u32>>>::add_spec(a, Fast(b)) == Fast(ieee_add(a, b)),
        <Fast<u32> as SubSpec<Fast<u32>>>::sub_req(Fast(a), Fast(b)) == (finite(a) && finite(b)),
        <Fast<u32> as SubSpec<u32>>::sub_req(Fast(a), b) == (finite(a) && finite(b)),
        <u32 as SubSpec<Fast<u32>>>::sub_req(a, Fast(b)) == (finite(a) && finite(b)),
        <Fast<u32> as SubSpec<Fast<u32>>>::sub_spec(Fast(a), Fast(b)) == Fast(ieee_sub(a, b)),
        <Fast<u32> as SubSpec<u32>>::sub_spec(Fast(a), b) == Fast(ieee_sub(a, b)),
        <u32 as SubSpec<Fast<u32>>>::sub_spec(a, Fast(b)) == Fast(ieee_sub(a, b)),
        <Fast<u32> as MulSpec<Fast<u32>>>::mul_req(Fast(a), Fast(b)) == (finite(a) && finite(b)),
        <Fast<u32> as MulSpec<u32>>::mul_req(Fast(a), b) == (finite(a) && finite(b)),
        <u32 as MulSpec<Fast<u32>>>::mul_req(a, Fast(b)) == (finite(a) && finite(b)),
        <Fast<u32> as MulSpec<Fast<u32>>>::mul_spec(Fast(a), Fast(b)) == Fast(ieee_mul(a, b)),
        <Fast<u32> as MulSpec<u32>>::mul_spec(Fast(a), b) == Fast(ieee_mul(a, b)),
        <u32 as MulSpec<Fast<u32>>>::mul_spec(a, Fast(b)) == Fast(ieee_mul(a, b)),
        <Fast<u32> as DivSpec<Fast<u32>>>::div_req(Fast(a), Fast(b)) == (finite(a) && finite(b)),
        <Fast<u32> as DivSpec<u32>>::div_req(Fast(a), b) == (finite(a) && finite(b)),
        <u32 as DivSpec<Fast<u32>>>::div_req(a, Fast(b)) == (finite(a) && finite(b)),
        <Fast<u32> as DivSpec<Fast<u32>>>::div_spec(Fast(a), Fast(b)) == Fast(ieee_div(a, b)),
        <Fast<u32> as DivSpec<u32>>::div_spec(Fast(a), b) == Fast(ieee_div(a, b)),
        <u32 as DivSpec<Fast<u32>>>::div_spec(a, Fast(b)) == Fast(ieee_div(a, b)),
        <Fast<u32> as RemSpec<Fast<u32>>>::rem_req(Fast(a), Fast(b)) == (finite(a) && finite(b)),
        <Fast<u32> as RemSpec<u32>>::rem_req(Fast(a), b) == (finite(a) && finite(b)),
        <u32 as RemSpec<Fast<u32>>>::rem_req(a, Fast(b)) == (finite(a) && finite(b)),
        <Fast<u32> as RemSpec<Fast<u32>>>::rem_spec(Fast(a), Fast(b)) == Fast(ieee_rem(a, b)),
        <Fast<u32> as RemSpec<u32>>::rem_spec(Fast(a), b) == Fast(ieee_rem(a, b)),
        <u32 as RemSpec<Fast<u32>>>::rem_spec(a, Fast(b)) == Fast(ieee_rem(a, b)),
{
}

/// Negation is total, flips the sign bit and keeps every other bit, the
/// payload of a NaN included; negating twice gives the value back.
pub proof fn law_negation(x: u32)
    ensures
        <Fast<u32> as NegSpec>::neg_req(Fast(x)),
        <Fast<u32> as NegSpec>::neg_spec(Fast(x)).0 == binary32().negate(x as nat),
        binary32().magnitude(binary32().negate(x as nat)) == binary32().magnitude(x as nat),
        binary32().is_negative(binary32().negate(x as nat)) != binary32().is_negative(x as nat),
        binary32().is_nan(binary32().negate(x as nat)) == binary32().is_nan(x as nat),
        <Fast<u32> as NegSpec>::neg_spec(<Fast<u32> as NegSpec>::neg_spec(Fast(x))) == Fast(x),
{
    lemma_landmarks();
    binary32().law_negation(x as nat);
    binary32().law_negation(binary32().negate(x as nat));
}

} // verus!
