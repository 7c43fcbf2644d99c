use crate::double::finite;
use crate::double::ieee_add;
use crate::double::ieee_sub;
use crate::double::ieee_mul;
use crate::double::ieee_div;
use crate::double::ieee_rem;
use crate::double::ordinary_add;
use crate::double::ordinary_sub;
use crate::double::ordinary_mul;
use crate::double::ordinary_div;
use crate::double::ordinary_rem;
use crate::wrapper::Fast;
use core::ops::Add;
use core::ops::Sub;
use core::ops::Mul;
use core::ops::Div;
use core::ops::Rem;
use vstd::prelude::*;
use vstd::std_specs::ops::AddSpecImpl;
use vstd::std_specs::ops::SubSpecImpl;
use vstd::std_specs::ops::MulSpecImpl;
use vstd::std_specs::ops::DivSpecImpl;
use vstd::std_specs::ops::RemSpecImpl;

verus! {

impl Add<u64> for Fast<u64> {
    type Output = Fast<u64>;

    /// Relaxed addition, a wrapped value `+` a bare pattern. Both operands
    /// must be finite; the result is then the ordinary sum.
    fn add(self, rhs: u64) -> (r: Fast<u64>) {
        Fast(ordinary_add(self.0, rhs))
    }
}

impl AddSpecImpl<u64> for Fast<u64> {
    open spec fn obeys_add_spec() -> bool {
        true
    }

    open spec fn add_req(self, rhs: u64) -> bool {
        finite(self.0) && finite(rhs)
    }

    open spec fn add_spec(self, rhs: u64) -> Fast<u64> {
        Fast(ieee_add(self.0, rhs))
    }
}

impl Add<Fast<u64>> for u64 {
    type Output = Fast<u64>;

    /// Relaxed addition, a bare pattern `+` a wrapped value. Both operands
    /// must be finite; the result is then the ordinary sum, wrapped.
    fn add(self, rhs: Fast<u64>) -> (r: Fast<u64>) {
        Fast(self) + rhs.0
    }
}

impl AddSpecImpl<Fast<u64>> for u64 {
    open spec fn obeys_add_spec() -> bool {
        true
    }

    open spec fn add_req(self, rhs: Fast<u64>) -> bool {
        finite(self) && finite(rhs.0)
    }

    open spec fn add_spec(self, rhs: Fast<u64>) -> Fast<u64> {
        Fast(ieee_add(self, rhs.0))
    }
}

impl Add for Fast<u64> {
    type Output = Fast<u64>;

    /// Relaxed addition of two wrapped values. Both operands must be finite;
    /// the result is then the ordinary sum.
    fn add(self, rhs: Fast<u64>) -> (r: Fast<u64>) {
        self + rhs.0
    }
}

impl AddSpecImpl for Fast<u64> {
    open spec fn obeys_add_spec() -> bool {
        true
    }

    open spec fn add_req(self, rhs: Fast<u64>) -> bool {
        finite(self.0) && finite(rhs.0)
    }

    open spec fn add_spec(self, rhs: Fast<u64>) -> Fast<u64> {
        Fast(ieee_add(self.0, rhs.0))
    }
}

impl Sub<u64> for Fast<u64> {
    type Output = Fast<u64>;

    /// Relaxed subtraction, a wrapped value `-` a bare pattern. Both operands
    /// must be finite; the result is then the ordinary difference.
    fn sub(self, rhs: u64) -> (r: Fast<u64>) {
        Fast(ordinary_sub(self.0, rhs))
    }
}

impl SubSpecImpl<u64> for Fast<u64> {
    open spec fn obeys_sub_spec() -> bool {
        true
    }

    open spec fn sub_req(self, rhs: u64) -> bool {
        finite(self.0) && finite(rhs)
    }

    open spec fn sub_spec(self, rhs: u64) -> Fast<u64> {
        Fast(ieee_sub(self.0, rhs))
    }
}

impl Sub<Fast<u64>> for u64 {
    type Output = Fast<u64>;

    /// Relaxed subtraction, a bare pattern `-` a wrapped value. Both operands
    /// must be finite; the result is then the ordinary difference, wrapped.
    fn sub(self, rhs: Fast<u64>) -> (r: Fast<u64>) {
        Fast(self) - rhs.0
    }
}

impl SubSpecImpl<Fast<u64>> for u64 {
    open spec fn obeys_sub_spec() -> bool {
        true
    }

    open spec fn sub_req(self, rhs: Fast<u64>) -> bool {
        finite(self) && finite(rhs.0)
    }

    open spec fn sub_spec(self, rhs: Fast<u64>) -> Fast<u64> {
        Fast(ieee_sub(self, rhs.0))
    }
}

impl Sub for Fast<u64> {
    type Output = Fast<u64>;

    /// Relaxed subtraction of two wrapped values. Both operands must be finite;
    /// the result is then the ordinary difference.
    fn sub(self, rhs: Fast<u64>) -> (r: Fast<u64>) {
        self - rhs.0
    }
}

impl SubSpecImpl for Fast<u64> {
    open spec fn obeys_sub_spec() -> bool {
        true
    }

    open spec fn sub_req(self, rhs: Fast<u64>) -> bool {
        finite(self.0) && finite(rhs.0)
    }

    open spec fn sub_spec(self, rhs: Fast<u64>) -> Fast<u64> {
        Fast(ieee_sub(self.0, rhs.0))
    }
}

impl Mul<u64> for Fast<u64> {
    type Output = Fast<u64>;

    /// Relaxed multiplication, a wrapped value `*` a bare pattern. Both operands
    /// must be finite; the result is then the ordinary product.
    fn mul(self, rhs: u64) -> (r: Fast<u64>) {
        Fast(ordinary_mul(self.0, rhs))
    }
}

impl MulSpecImpl<u64> for Fast<u64> {
    open spec fn obeys_mul_spec() -> bool {
        true
    }

    open spec fn mul_req(self, rhs: u64) -> bool {
        finite(self.0) && finite(rhs)
    }

    open spec fn mul_spec(self, rhs: u64) -> Fast<u64> {
        Fast(ieee_mul(self.0, rhs))
    }
}

impl Mul<Fast<u64>> for u64 {
    type Output = Fast<u64>;

    /// Relaxed multiplication, a bare pattern `*` a wrapped value. Both operands
    /// must be finite; the result is then the ordinary product, wrapped.
    fn mul(self, rhs: Fast<u64>) -> (r: Fast<u64>) {
        Fast(self) * rhs.0
    }
}

impl MulSpecImpl<Fast<u64>> for u64 {
    open spec fn obeys_mul_spec() -> bool {
        true
    }

    open spec fn mul_req(self, rhs: Fast<u64>) -> bool {
        finite(self) && finite(rhs.0)
    }

    open spec fn mul_spec(self, rhs: Fast<u64>) -> Fast<u64> {
        Fast(ieee_mul(self, rhs.0))
    }
}

impl Mul for Fast<u64> {
    type Output = Fast<u64>;

    /// Relaxed multiplication of two wrapped values. Both operands must be finite;
    /// the result is then the ordinary product.
    fn mul(self, rhs: Fast<u64>) -> (r: Fast<u64>) {
        self * rhs.0
    }
}

impl MulSpecImpl for Fast<u64> {
    open spec fn obeys_mul_spec() -> bool {
        true
    }

    open spec fn mul_req(self, rhs: Fast<u64>) -> bool {
        finite(self.0) && finite(rhs.0)
    }

    open spec fn mul_spec(self, rhs: Fast<u64>) -> Fast<u64> {
        Fast(ieee_mul(self.0, rhs.0))
    }
}

impl Div<u64> for Fast<u64> {
    type Output = Fast<u64>;

    /// Relaxed division, a wrapped value `/` a bare pattern. Both operands
    /// must be finite; the result is then the ordinary quotient.
    fn div(self, rhs: u64) -> (r: Fast<u64>) {
        Fast(ordinary_div(self.0, rhs))
    }
}

impl DivSpecImpl<u64> for Fast<u64> {
    open spec fn obeys_div_spec() -> bool {
        true
    }

    open spec fn div_req(self, rhs: u64) -> bool {
        finite(self.0) && finite(rhs)
    }

    open spec fn div_spec(self, rhs: u64) -> Fast<u64> {
        Fast(ieee_div(self.0, rhs))
    }
}

impl Div<Fast<u64>> for u64 {
    type Output = Fast<u64>;

    /// Relaxed division, a bare pattern `/` a wrapped value. Both operands
    /// must be finite; the result is then the ordinary quotient, wrapped.
    fn div(self, rhs: Fast<u64>) -> (r: Fast<u64>) {
        Fast(self) / rhs.0
    }
}

impl DivSpecImpl<Fast<u64>> for u64 {
    open spec fn obeys_div_spec() -> bool {
        true
    }

    open spec fn div_req(self, rhs: Fast<u64>) -> bool {
        finite(self) && finite(rhs.0)
    }

    open spec fn div_spec(self, rhs: Fast<u64>) -> Fast<u64> {
        Fast(ieee_div(self, rhs.0))
    }
}

impl Div for Fast<u64> {
    type Output = Fast<u64>;

    /// Relaxed division of two wrapped values. Both operands must be finite;
    /// the result is then the ordinary quotient.
    fn div(self, rhs: Fast<u64>) -> (r: Fast<u64>) {
        self / rhs.0
    }
}

impl DivSpecImpl for Fast<u64> {
    open spec fn obeys_div_spec() -> bool {
        true
    }

    open spec fn div_req(self, rhs: Fast<u64>) -> bool {
        finite(self.0) && finite(rhs.0)
    }

    open spec fn div_spec(self, rhs: Fast<u64>) -> Fast<u64> {
        Fast(ieee_div(self.0, rhs.0))
    }
}

impl Rem<u64> for Fast<u64> {
    type Output = Fast<u64>;

    /// Relaxed remainder, a wrapped value `%` a bare pattern. Both operands
    /// must be finite; the result is then the ordinary remainder.
    fn rem(self, rhs: u64) -> (r: Fast<u64>) {
        Fast(ordinary_rem(self.0, rhs))
    }
}

impl RemSpecImpl<u64> for Fast<u64> {
    open spec fn obeys_rem_spec() -> bool {
        true
    }

    open spec fn rem_req(self, rhs: u64) -> bool {
        finite(self.0) && finite(rhs)
    }

    open spec fn rem_spec(self, rhs: u64) -> Fast<u64> {
        Fast(ieee_rem(self.0, rhs))
    }
}

impl Rem<Fast<u64>> for u64 {
    type Output = Fast<u64>;

    /// Relaxed remainder, a bare pattern `%` a wrapped value. Both operands
    /// must be finite; the result is then the ordinary remainder, wrapped.
    fn rem(self, rhs: Fast<u64>) -> (r: Fast<u64>) {
        Fast(self) % rhs.0
    }
}

impl RemSpecImpl<Fast<u64>> for u64 {
    open spec fn obeys_rem_spec() -> bool {
        true
    }

    open spec fn rem_req(self, rhs: Fast<u64>) -> bool {
        finite(self) && finite(rhs.0)
    }

    open spec fn rem_spec(self, rhs: Fast<u64>) -> Fast<u64> {
        Fast(ieee_rem(self, rhs.0))
    }
}

impl Rem for Fast<u64> {
    type Output = Fast<u64>;

    /// Relaxed remainder of two wrapped values. Both operands must be finite;
    /// the result is then the ordinary remainder.
    fn rem(self, rhs: Fast<u64>) -> (r: Fast<u64>) {
        self % rhs.0
    }
}

impl RemSpecImpl for Fast<u64> {
    open spec fn obeys_rem_spec() -> bool {
        true
    }

    open spec fn rem_req(self, rhs: Fast<u64>) -> bool {
        finite(self.0) && finite(rhs.0)
    }

    open spec fn rem_spec(self, rhs: Fast<u64>) -> Fast<u64> {
        Fast(ieee_rem(self.0, rhs.0))
    }
}

} // verus!
