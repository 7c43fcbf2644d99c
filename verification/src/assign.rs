use crate::wrapper::Fast;
use core::ops::Add;
use core::ops::AddAssign;
use core::ops::Div;
use core::ops::DivAssign;
use core::ops::Mul;
use core::ops::MulAssign;
use core::ops::Rem;
use core::ops::RemAssign;
use core::ops::Sub;
use core::ops::SubAssign;
use vstd::prelude::*;
use vstd::std_specs::ops::AddSpec;
use vstd::std_specs::ops::DivSpec;
use vstd::std_specs::ops::MulSpec;
use vstd::std_specs::ops::RemSpec;
use vstd::std_specs::ops::SubSpec;

verus! {

impl<F, Rhs> AddAssign<Rhs> for Fast<F> where Fast<F>: Add<Rhs, Output = Fast<F>> + Copy {
    /// `x += y` is `x = x + y`, whatever the shape of `y`.
    fn add_assign(&mut self, rhs: Rhs)
        requires
            AddSpec::add_req(*old(self), rhs),
        ensures
            <Fast<F> as AddSpec<Rhs>>::obeys_add_spec() ==> *final(self) == AddSpec::add_spec(
                *old(self),
                rhs,
            ),
    {
        *self = *self + rhs
    }
}

impl<F, Rhs> SubAssign<Rhs> for Fast<F> where Fast<F>: Sub<Rhs, Output = Fast<F>> + Copy {
    /// `x -= y` is `x = x - y`, whatever the shape of `y`.
    fn sub_assign(&mut self, rhs: Rhs)
        requires
            SubSpec::sub_req(*old(self), rhs),
        ensures
            <Fast<F> as SubSpec<Rhs>>::obeys_sub_spec() ==> *final(self) == SubSpec::sub_spec(
                *old(self),
                rhs,
            ),
    {
        *self = *self - rhs
    }
}

impl<F, Rhs> MulAssign<Rhs> for Fast<F> where Fast<F>: Mul<Rhs, Output = Fast<F>> + Copy {
    /// `x *= y` is `x = x * y`, whatever the shape of `y`.
    fn mul_assign(&mut self, rhs: Rhs)
        requires
            MulSpec::mul_req(*old(self), rhs),
        ensures
            <Fast<F> as MulSpec<Rhs>>::obeys_mul_spec() ==> *final(self) == MulSpec::mul_spec(
                *old(self),
                rhs,
            ),
    {
        *self = *self * rhs
    }
}

impl<F, Rhs> DivAssign<Rhs> for Fast<F> where Fast<F>: Div<Rhs, Output = Fast<F>> + Copy {
    /// `x /= y` is `x = x / y`, whatever the shape of `y`.
    fn div_assign(&mut self, rhs: Rhs)
        requires
            DivSpec::div_req(*old(self), rhs),
        ensures
            <Fast<F> as DivSpec<Rhs>>::obeys_div_spec() ==> *final(self) == DivSpec::div_spec(
                *old(self),
                rhs,
            ),
    {
        *self = *self / rhs
    }
}

impl<F, Rhs> RemAssign<Rhs> for Fast<F> where Fast<F>: Rem<Rhs, Output = Fast<F>> + Copy {
    /// `x %= y` is `x = x % y`, whatever the shape of `y`.
    fn rem_assign(&mut self, rhs: Rhs)
        requires
            RemSpec::rem_req(*old(self), rhs),
        ensures
            <Fast<F> as RemSpec<Rhs>>::obeys_rem_spec() ==> *final(self) == RemSpec::rem_spec(
                *old(self),
                rhs,
            ),
    {
        *self = *self % rhs
    }
}

} // verus!
