//! The arithmetic operators on complex numbers, and between a complex and a
//! real number in either order.

use vstd::prelude::*;
use core::ops::Neg;
use crate::binary64::Double;
use crate::complex::Complex;

verus! {

impl Complex {
    /// The sum, part by part.
    pub open spec fn spec_add(self, rhs: Complex) -> Complex {
        Complex { re: self.re.spec_add(rhs.re), im: self.im.spec_add(rhs.im) }
    }

    /// The sum with a real number: only the real part changes.
    pub open spec fn spec_add_real(self, rhs: Double) -> Complex {
        Complex { re: self.re.spec_add(rhs), im: self.im }
    }

    /// A real number plus `self`: only the real part changes.
    pub open spec fn spec_add_to_real(self, lhs: Double) -> Complex {
        Complex { re: lhs.spec_add(self.re), im: self.im }
    }

    /// The difference, part by part.
    pub open spec fn spec_sub(self, rhs: Complex) -> Complex {
        Complex { re: self.re.spec_sub(rhs.re), im: self.im.spec_sub(rhs.im) }
    }

    /// The difference with a real number: only the real part changes.
    pub open spec fn spec_sub_real(self, rhs: Double) -> Complex {
        Complex { re: self.re.spec_sub(rhs), im: self.im }
    }

    /// A real number less `self`: the imaginary part changes sign.
    pub open spec fn spec_sub_from_real(self, lhs: Double) -> Complex {
        Complex { re: lhs.spec_sub(self.re), im: self.im.spec_neg() }
    }

    /// The product `(ac - bd) + (ad + bc)*I` of `a + b*I` and `c + d*I`.
    pub open spec fn spec_mul(self, rhs: Complex) -> Complex {
        Complex {
            re: self.re.spec_mul(rhs.re).spec_sub(self.im.spec_mul(rhs.im)),
            im: self.re.spec_mul(rhs.im).spec_add(self.im.spec_mul(rhs.re)),
        }
    }

    /// Both parts scaled by a real factor on the right.
    pub open spec fn spec_mul_real(self, rhs: Double) -> Complex {
        Complex { re: self.re.spec_mul(rhs), im: self.im.spec_mul(rhs) }
    }

    /// Both parts scaled by a real factor on the left.
    pub open spec fn spec_mul_by_real(self, lhs: Double) -> Complex {
        Complex { re: lhs.spec_mul(self.re), im: lhs.spec_mul(self.im) }
    }

    /// The squared magnitude `re*re + im*im`.
    pub open spec fn spec_norm_sqr(self) -> Double {
        self.re.spec_mul(self.re).spec_add(self.im.spec_mul(self.im))
    }

    /// Both parts divided by a real divisor.
    pub open spec fn spec_div_real(self, rhs: Double) -> Complex {
        Complex { re: self.re.spec_div(rhs), im: self.im.spec_div(rhs) }
    }

    /// The quotient by `rhs`: the product with the conjugate of `rhs`, over
    /// the squared magnitude of `rhs`.
    pub open spec fn spec_div(self, rhs: Complex) -> Complex {
        Complex {
            re: self.re.spec_mul(rhs.re).spec_add(self.im.spec_mul(rhs.im)).spec_div(
                rhs.spec_norm_sqr(),
            ),
            im: self.im.spec_mul(rhs.re).spec_sub(self.re.spec_mul(rhs.im)).spec_div(
                rhs.spec_norm_sqr(),
            ),
        }
    }

    /// A real number divided by `self`.
    pub open spec fn spec_div_into_real(self, lhs: Double) -> Complex {
        Complex {
            re: lhs.spec_mul(self.re).spec_div(self.spec_norm_sqr()),
            im: lhs.spec_mul(self.im).spec_neg().spec_div(self.spec_norm_sqr()),
        }
    }

    /// The squared magnitude `re*re + im*im`, the denominator of a quotient.
    pub fn norm_sqr(&self) -> (r: Double)
        ensures
            r == self.spec_norm_sqr(),
    {
        self.re * self.re + self.im * self.im
    }
}

impl core::ops::Neg for Complex {
    type Output = Complex;

    fn neg(self) -> (r: Complex)
        ensures
            r == self.spec_neg(),
    {
        Complex { re: self.re.neg(), im: self.im.neg() }
    }
}

impl vstd::std_specs::ops::NegSpecImpl for Complex {
    open spec fn obeys_neg_spec() -> bool {
        true
    }

    open spec fn neg_req(self) -> bool {
        true
    }

    open spec fn neg_spec(self) -> Complex {
        self.spec_neg()
    }
}

impl PartialEq for Complex {
    fn eq(&self, other: &Complex) -> (r: bool)
    {
        self.re == other.re && self.im == other.im
    }
}

impl vstd::std_specs::cmp::PartialEqSpecImpl for Complex {
    open spec fn obeys_eq_spec() -> bool {
        true
    }

    open spec fn eq_spec(&self, other: &Complex) -> bool {
        self.ieee_eq(*other)
    }
}

impl core::ops::Add<Complex> for Complex {
    type Output = Complex;

    fn add(self, rhs: Complex) -> (r: Complex)
        ensures
            r == self.spec_add(rhs),
    {
        Complex { re: self.re + rhs.re, im: self.im + rhs.im }
    }
}

impl vstd::std_specs::ops::AddSpecImpl<Complex> for Complex {
    open spec fn obeys_add_spec() -> bool {
        true
    }

    open spec fn add_req(self, rhs: Complex) -> bool {
        true
    }

    open spec fn add_spec(self, rhs: Complex) -> Complex {
        self.spec_add(rhs)
    }
}

impl core::ops::Add<Double> for Complex {
    type Output = Complex;

    fn add(self, rhs: Double) -> (r: Complex)
        ensures
            r == self.spec_add_real(rhs),
    {
        Complex { re: self.re + rhs, im: self.im }
    }
}

impl vstd::std_specs::ops::AddSpecImpl<Double> for Complex {
    open spec fn obeys_add_spec() -> bool {
        true
    }

    open spec fn add_req(self, rhs: Double) -> bool {
        true
    }

    open spec fn add_spec(self, rhs: Double) -> Complex {
        self.spec_add_real(rhs)
    }
}

impl core::ops::Add<Complex> for Double {
    type Output = Complex;

    fn add(self, rhs: Complex) -> (r: Complex)
        ensures
            r == rhs.spec_add_to_real(self),
    {
        Complex { re: self + rhs.re, im: rhs.im }
    }
}

impl vstd::std_specs::ops::AddSpecImpl<Complex> for Double {
    open spec fn obeys_add_spec() -> bool {
        true
    }

    open spec fn add_req(self, rhs: Complex) -> bool {
        true
    }

    open spec fn add_spec(self, rhs: Complex) -> Complex {
        rhs.spec_add_to_real(self)
    }
}

impl core::ops::Sub<Complex> for Complex {
    type Output = Complex;

    fn sub(self, rhs: Complex) -> (r: Complex)
        ensures
            r == self.spec_sub(rhs),
    {
        Complex { re: self.re - rhs.re, im: self.im - rhs.im }
    }
}

impl vstd::std_specs::ops::SubSpecImpl<Complex> for Complex {
    open spec fn obeys_sub_spec() -> bool {
        true
    }

    open spec fn sub_req(self, rhs: Complex) -> bool {
        true
    }

    open spec fn sub_spec(self, rhs: Complex) -> Complex {
        self.spec_sub(rhs)
    }
}

impl core::ops::Sub<Double> for Complex {
    type Output = Complex;

    fn sub(self, rhs: Double) -> (r: Complex)
        ensures
            r == self.spec_sub_real(rhs),
    {
        Complex { re: self.re - rhs, im: self.im }
    }
}

impl vstd::std_specs::ops::SubSpecImpl<Double> for Complex {
    open spec fn obeys_sub_spec() -> bool {
        true
    }

    open spec fn sub_req(self, rhs: Double) -> bool {
        true
    }

    open spec fn sub_spec(self, rhs: Double) -> Complex {
        self.spec_sub_real(rhs)
    }
}

impl core::ops::Sub<Complex> for Double {
    type Output = Complex;

    /// The subtraction reaches the imaginary part too: its sign flips.
    fn sub(self, rhs: Complex) -> (r: Complex)
        ensures
            r == rhs.spec_sub_from_real(self),
    {
        Complex { re: self - rhs.re, im: rhs.im.neg() }
    }
}

impl vstd::std_specs::ops::SubSpecImpl<Complex> for Double {
    open spec fn obeys_sub_spec() -> bool {
        true
    }

    open spec fn sub_req(self, rhs: Complex) -> bool {
        true
    }

    open spec fn sub_spec(self, rhs: Complex) -> Complex {
        rhs.spec_sub_from_real(self)
    }
}

impl core::ops::Mul<Complex> for Complex {
    type Output = Complex;

    fn mul(self, rhs: Complex) -> (r: Complex)
        ensures
            r == self.spec_mul(rhs),
    {
        Complex {
            re: self.re * rhs.re - self.im * rhs.im,
            im: self.re * rhs.im + self.im * rhs.re,
        }
    }
}

impl vstd::std_specs::ops::MulSpecImpl<Complex> for Complex {
    open spec fn obeys_mul_spec() -> bool {
        true
    }

    open spec fn mul_req(self, rhs: Complex) -> bool {
        true
    }

    open spec fn mul_spec(self, rhs: Complex) -> Complex {
        self.spec_mul(rhs)
    }
}

impl core::ops::Mul<Double> for Complex {
    type Output = Complex;

    fn mul(self, rhs: Double) -> (r: Complex)
        ensures
            r == self.spec_mul_real(rhs),
    {
        Complex { re: self.re * rhs, im: self.im * rhs }
    }
}

impl vstd::std_specs::ops::MulSpecImpl<Double> for Complex {
    open spec fn obeys_mul_spec() -> bool {
        true
    }

    open spec fn mul_req(self, rhs: Double) -> bool {
        true
    }

    open spec fn mul_spec(self, rhs: Double) -> Complex {
        self.spec_mul_real(rhs)
    }
}

impl core::ops::Mul<Complex> for Double {
    type Output = Complex;

    fn mul(self, rhs: Complex) -> (r: Complex)
        ensures
            r == rhs.spec_mul_by_real(self),
    {
        Complex { re: self * rhs.re, im: self * rhs.im }
    }
}

impl vstd::std_specs::ops::MulSpecImpl<Complex> for Double {
    open spec fn obeys_mul_spec() -> bool {
        true
    }

    open spec fn mul_req(self, rhs: Complex) -> bool {
        true
    }

    open spec fn mul_spec(self, rhs: Complex) -> Complex {
        rhs.spec_mul_by_real(self)
    }
}

impl core::ops::Div<Double> for Complex {
    type Output = Complex;

    /// `(a + b*I) / c` is `(a/c) + (b/c)*I`.
    fn div(self, rhs: Double) -> (r: Complex)
        ensures
            r == self.spec_div_real(rhs),
    {
        Complex { re: self.re / rhs, im: self.im / rhs }
    }
}

impl vstd::std_specs::ops::DivSpecImpl<Double> for Complex {
    open spec fn obeys_div_spec() -> bool {
        true
    }

    open spec fn div_req(self, rhs: Double) -> bool {
        true
    }

    open spec fn div_spec(self, rhs: Double) -> Complex {
        self.spec_div_real(rhs)
    }
}

impl core::ops::Div<Complex> for Complex {
    type Output = Complex;

    /// Makes the denominator real by multiplying both operands by the
    /// conjugate of `rhs`.
    fn div(self, rhs: Complex) -> (r: Complex)
        ensures
            r == self.spec_div(rhs),
    {
        Complex {
            re: (self.re * rhs.re + self.im * rhs.im) / rhs.norm_sqr(),
            im: (self.im * rhs.re - self.re * rhs.im) / rhs.norm_sqr(),
        }
    }
}

impl vstd::std_specs::ops::DivSpecImpl<Complex> for Complex {
    open spec fn obeys_div_spec() -> bool {
        true
    }

    open spec fn div_req(self, rhs: Complex) -> bool {
        true
    }

    open spec fn div_spec(self, rhs: Complex) -> Complex {
        self.spec_div(rhs)
    }
}

impl core::ops::Div<Complex> for Double {
    type Output = Complex;

    /// Makes the denominator real, as for two complex numbers.
    fn div(self, rhs: Complex) -> (r: Complex)
        ensures
            r == rhs.spec_div_into_real(self),
    {
        Complex {
            re: (self * rhs.re) / rhs.norm_sqr(),
            im: (self * rhs.im).neg() / rhs.norm_sqr(),
        }
    }
}

impl vstd::std_specs::ops::DivSpecImpl<Complex> for Double {
    open spec fn obeys_div_spec() -> bool {
        true
    }

    open spec fn div_req(self, rhs: Complex) -> bool {
        true
    }

    open spec fn div_spec(self, rhs: Complex) -> Complex {
        rhs.spec_div_into_real(self)
    }
}

} // verus!
