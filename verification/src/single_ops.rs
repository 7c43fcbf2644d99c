use crate::single::finite;
use crate::single::ieee_add;
use crate::single::ieee_sub;
use crate::single::ieee_mul;
use crate::single::ieee_div;
use crate::single::ieee_rem;
use crate::single::ordinary_add;
use crate::single::ordinary_sub;
use crate::single::ordinary_mul;
use crate::single::ordinary_div;
use crate::single::ordinary_rem;
use crate::wrapper::Fast;
use core::ops::Add;
use core::ops::Sub;
use core::ops::Mul;
use core::ops::Div;
use core::ops::Rem;
use vstd::prelude::*;
use vstd::std_specs::ops::AddSpecImpl;
use vstd::std_specs::ops::SubSpecImpl;
use vstd::std_specs::ops::MulSpecImpl;
use vstd::std_specs::ops::DivSpecImpl;
use vstd::std_specs::ops::RemSpecImpl;

verus! {

impl Add<u32> for Fast<u32> {
    type Output = Fast<u32>;

    /// Relaxed addition, a wrapped value `+` a bare pattern. Both operands
    /// must be finite; the result is then the ordinary sum.
    fn add(self, rhs: u32) -> (r: Fast<u32>) {
        Fast(ordinary_add(self.0, rhs))
    }
}

impl AddSpecImpl<u32> for Fast<u32> {
    open spec fn obeys_add_spec() -> bool {
        true
    }

    open spec fn add_req(self, rhs: u32) -> bool {
        finite(self.0) && finite(rhs)
    }

    open spec fn add_spec(self, rhs: u32) -> Fast<u32> {
        Fast(ieee_add(self.0, rhs))
    }
}

impl Add<Fast<u32>> for u32 {
    type Output = Fast<u32>;

    /// Relaxed addition, a bare pattern `+` a wrapped value. Both operands
    /// must be finite; the result is then the ordinary sum, wrapped.
    fn add(self, rhs: Fast<u32>) -> (r: Fast<u32>) {
        Fast(self) + rhs.0
    }
}

impl AddSpecImpl<Fast<u32>> for u32 {
    open spec fn obeys_add_spec() -> bool {
        true
    }

    open spec fn add_req(self, rhs: Fast<u32>) -> bool {
        finite(self) && finite(rhs.0)
    }

    open spec fn add_spec(self, rhs: Fast<u32>) -> Fast<u32> {
        Fast(ieee_add(self, rhs.0))
    }
}

impl Add for Fast<u32> {
    type Output = Fast<u32>;

    /// Relaxed addition of two wrapped values. Both operands must be finite;
    /// the result is then the ordinary sum.
    fn add(self, rhs: Fast<u32>) -> (r: Fast<u32>) {
        self + rhs.0
    }
}

impl AddSpecImpl for Fast<u32> {
    open spec fn obeys_add_spec() -> bool {
        true
    }

    open spec fn add_req(self, rhs: Fast<u32>) -> bool {
        finite(self.0) && finite(rhs.0)
    }

    open spec fn add_spec(self, rhs: Fast<u32>) -> Fast<u32> {
        Fast(ieee_add(self.0, rhs.0))
    }
}

impl Sub<u32> for Fast<u32> {
    type Output = Fast<u32>;

    /// Relaxed subtraction, a wrapped value `-` a bare pattern. Both operands
    /// must be finite; the result is then the ordinary difference.
    fn sub(self, rhs: u32) -> (r: Fast<u32>) {
        Fast(ordinary_sub(self.0, rhs))
    }
}

impl SubSpecImpl<u32> for Fast<u32> {
    open spec fn obeys_sub_spec() -> bool {
        true
    }

    open spec fn sub_req(self, rhs: u32) -> bool {
        finite(self.0) && finite(rhs)
    }

    open spec fn sub_spec(self, rhs: u32) -> Fast<u32> {
        Fast(ieee_sub(self.0, rhs))
    }
}

impl Sub<Fast<u32>> for u32 {
    type Output = Fast<u32>;

    /// Relaxed subtraction, a bare pattern `-` a wrapped value. Both operands
    /// must be finite; the result is then the ordinary difference, wrapped.
    fn sub(self, rhs: Fast<u32>) -> (r: Fast<u32>) {
        Fast(self) - rhs.0
    }
}

impl SubSpecImpl<Fast<u32>> for u32 {
    open spec fn obeys_sub_spec() -> bool {
        true
    }

    open spec fn sub_req(self, rhs: Fast<u32>) -> bool {
        finite(self) && finite(rhs.0)
    }

    open spec fn sub_spec(self, rhs: Fast<u32>) -> Fast<u32> {
        Fast(ieee_sub(self, rhs.0))
    }
}

impl Sub for Fast<u32> {
    type Output = Fast<u32>;

    /// Relaxed subtraction of two wrapped values. Both operands must be finite;
    /// the result is then the ordinary difference.
    fn sub(self, rhs: Fast<u32>) -> (r: Fast<u32>) {
        self - rhs.0
    }
}

impl SubSpecImpl for Fast<u32> {
    open spec fn obeys_sub_spec() -> bool {
        true
    }

    open spec fn sub_req(self, rhs: Fast<u32>) -> bool {
        finite(self.0) && finite(rhs.0)
    }

    open spec fn sub_spec(self, rhs: Fast<u32>) -> Fast<u32> {
        Fast(ieee_sub(self.0, rhs.0))
    }
}

impl Mul<u32> for Fast<u32> {
    type Output = Fast<u32>;

    /// Relaxed multiplication, a wrapped value `*` a bare pattern. Both operands
    /// must be finite; the result is then the ordinary product.
    fn mul(self, rhs: u32) -> (r: Fast<u32>) {
        Fast(ordinary_mul(self.0, rhs))
    }
}

impl MulSpecImpl<u32> for Fast<u32> {
    open spec fn obeys_mul_spec() -> bool {
        true
    }

    open spec fn mul_req(self, rhs: u32) -> bool {
        finite(self.0) && finite(rhs)
    }

    open spec fn mul_spec(self, rhs: u32) -> Fast<u32> {
        Fast(ieee_mul(self.0, rhs))
    }
}

impl Mul<Fast<u32>> for u32 {
    type Output = Fast<u32>;

    /// Relaxed multiplication, a bare pattern `*` a wrapped value. Both operands
    /// must be finite; the result is then the ordinary product, wrapped.
    fn mul(self, rhs: Fast<u32>) -> (r: Fast<u32>) {
        Fast(self) * rhs.0
    }
}

impl MulSpecImpl<Fast<u32>> for u32 {
    open spec fn obeys_mul_spec() -> bool {
        true
    }

    open spec fn mul_req(self, rhs: Fast<u32>) -> bool {
        finite(self) && finite(rhs.0)
    }

    open spec fn mul_spec(self, rhs: Fast<u32>) -> Fast<u32> {
        Fast(ieee_mul(self, rhs.0))
    }
}

impl Mul for Fast<u32> {
    type Output = Fast<u32>;

    /// Relaxed multiplication of two wrapped values. Both operands must be finite;
    /// the result is then the ordinary product.
    fn mul(self, rhs: Fast<u32>) -> (r: Fast<u32>) {
        self * rhs.0
    }
}

impl MulSpecImpl for Fast<u32> {
    open spec fn obeys_mul_spec() -> bool {
        true
    }

    open spec fn mul_req(self, rhs: Fast<u32>) -> bool {
        finite(self.0) && finite(rhs.0)
    }

    open spec fn mul_spec(self, rhs: Fast<u32>) -> Fast<u32> {
        Fast(ieee_mul(self.0, rhs.0))
    }
}

impl Div<u32> for Fast<u32> {
    type Output = Fast<u32>;

    /// Relaxed division, a wrapped value `/` a bare pattern. Both operands
    /// must be finite; the result is then the ordinary quotient.
    fn div(self, rhs: u32) -> (r: Fast<u32>) {
        Fast(ordinary_div(self.0, rhs))
    }
}

impl DivSpecImpl<u32> for Fast<u32> {
    open spec fn obeys_div_spec() -> bool {
        true
    }

    open spec fn div_req(self, rhs: u32) -> bool {
        finite(self.0) && finite(rhs)
    }

    open spec fn div_spec(self, rhs: u32) -> Fast<u32> {
        Fast(ieee_div(self.0, rhs))
    }
}

impl Div<Fast<u32>> for u32 {
    type Output = Fast<u32>;

    /// Relaxed division, a bare pattern `/` a wrapped value. Both operands
    /// must be finite; the result is then the ordinary quotient, wrapped.
    fn div(self, rhs: Fast<u32>) -> (r: Fast<u32>) {
        Fast(self) / rhs.0
    }
}

impl DivSpecImpl<Fast<u32>> for u32 {
    open spec fn obeys_div_spec() -> bool {
        true
    }

    open spec fn div_req(self, rhs: Fast<u32>) -> bool {
        finite(self) && finite(rhs.0)
    }

    open spec fn div_spec(self, rhs: Fast<u32>) -> Fast<u32> {
        Fast(ieee_div(self, rhs.0))
    }
}

impl Div for Fast<u32> {
    type Output = Fast<u32>;

    /// Relaxed division of two wrapped values. Both operands must be finite;
    /// the result is then the ordinary quotient.
    fn div(self, rhs: Fast<u32>) -> (r: Fast<u32>) {
        self / rhs.0
    }
}

impl DivSpecImpl for Fast<u32> {
    open spec fn obeys_div_spec() -> bool {
        true
    }

    open spec fn div_req(self, rhs: Fast<u32>) -> bool {
        finite(self.0) && finite(rhs.0)
    }

    open spec fn div_spec(self, rhs: Fast<u32>) -> Fast<u32> {
        Fast(ieee_div(self.0, rhs.0))
    }
}

impl Rem<u32> for Fast<u32> {
    type Output = Fast<u32>;

    /// Relaxed remainder, a wrapped value `%` a bare pattern. Both operands
    /// must be finite; the result is then the ordinary remainder.
    fn rem(self, rhs: u32) -> (r: Fast<u32>) {
        Fast(ordinary_rem(self.0, rhs))
    }
}

impl RemSpecImpl<u32> for Fast<u32> {
    open spec fn obeys_rem_spec() -> bool {
        true
    }

    open spec fn rem_req(self, rhs: u32) -> bool {
        finite(self.0) && finite(rhs)
    }

    open spec fn rem_spec(self, rhs: u32) -> Fast<u32> {
        Fast(ieee_rem(self.0, rhs))
    }
}

impl Rem<Fast<u32>> for u32 {
    type Output = Fast<u32>;

    /// Relaxed remainder, a bare pattern `%` a wrapped value. Both operands
    /// must be finite; the result is then the ordinary remainder, wrapped.
    fn rem(self, rhs: Fast<u32>) -> (r: Fast<u32>) {
        Fast(self) % rhs.0
    }
}

impl RemSpecImpl<Fast<u32>> for u32 {
    open spec fn obeys_rem_spec() -> bool {
        true
    }

    open spec fn rem_req(self, rhs: Fast<u32>) -> bool {
        finite(self) && finite(rhs.0)
    }

    open spec fn rem_spec(self, rhs: Fast<u32>) -> Fast<u32> {
        Fast(ieee_rem(self, rhs.0))
    }
}

impl Rem for Fast<u32> {
    type Output = Fast<u32>;

    /// Relaxed remainder of two wrapped values. Both operands must be finite;
    /// the result is then the ordinary remainder.
    fn rem(self, rhs: Fast<u32>) -> (r: Fast<u32>) {
        self % rhs.0
    }
}

impl RemSpecImpl for Fast<u32> {
    open spec fn obeys_rem_spec() -> bool {
        true
    }

    open spec fn rem_req(self, rhs: Fast<u32>) -> bool {
        finite(self.0) && finite(rhs.0)
    }

    open spec fn rem_spec(self, rhs: Fast<u32>) -> Fast<u32> {
        Fast(ieee_rem(self.0, rhs.0))
    }
}

} // verus!
