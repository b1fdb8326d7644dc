//! The argument of a complex number, its polar form, and the power,
//! logarithm and exponential that go through them.
//!
//! The argument is meant for `(-pi, pi]`: the negative real axis has pi,
//! not minus pi, and the imaginary axis has half of pi under the sign of
//! the imaginary part. No arctangent, sine, cosine, logarithm or
//! exponential of a real number is computed here: each function takes the
//! ones it rests on from the caller and does the rest.

use vstd::prelude::*;
use core::ops::Neg;
use crate::binary64::{Double, HALF_PI_BITS, PI_BITS};
use crate::complex::Complex;
use crate::laws::lemma_arg_bounded;
use crate::product::lemma_square_sign;
use crate::root::lemma_sqrt_sign;
use crate::sum::lemma_add_sign;

verus! {

/// The polar form `r * exp(I * theta)` of a complex number.
#[derive(Clone, Copy, Debug)]
pub struct Polar {
    /// The magnitude.
    pub r: Double,
    /// The angle from the positive real axis.
    pub theta: Double,
}

/// `t` may be the arctangent of `x`: it has the sign of `x`, is a zero where
/// `x` is one, and is no more than half of pi in magnitude.
pub open spec fn is_arctangent_like(x: Double, t: Double) -> bool {
    &&& t.magnitude_bits() <= HALF_PI_BITS
    &&& t.spec_is_sign_negative() == x.spec_is_sign_negative()
    &&& x.spec_is_zero() ==> t.spec_is_zero()
}

impl Complex {
    /// The quotient `im / re`, whose arctangent is the argument up to the
    /// choice of quadrant.
    pub open spec fn spec_slope(self) -> Double {
        self.im.spec_div(self.re)
    }

    /// The argument, from `principal`, the arctangent of the slope. On the
    /// imaginary axis it is half of pi under the sign of the imaginary
    /// part. Left of that axis pi is added, or subtracted where the
    /// imaginary part is below zero, so that the negative real axis has the
    /// argument pi. Elsewhere, and at zero, it is `principal`.
    pub open spec fn spec_arg(self, principal: Double) -> Double {
        if self.re.spec_is_zero() {
            if self.im.spec_is_above_zero() {
                Double { bits: HALF_PI_BITS }
            } else if self.im.spec_is_below_zero() {
                (Double { bits: HALF_PI_BITS }).spec_neg()
            } else {
                principal
            }
        } else if self.re.spec_is_below_zero() {
            if self.im.spec_is_below_zero() {
                principal.spec_sub(Double { bits: PI_BITS })
            } else {
                principal.spec_add(Double { bits: PI_BITS })
            }
        } else {
            principal
        }
    }

    /// The magnitude: the square root of `re*re + im*im`.
    pub open spec fn spec_abs(self) -> Double {
        self.spec_norm_sqr().spec_sqrt()
    }

    /// The polar form, from `principal`, the arctangent of the slope.
    pub open spec fn spec_polar(self, principal: Double) -> Polar {
        Polar { r: self.spec_abs(), theta: self.spec_arg(principal) }
    }

    /// The power `exp` in polar form: the magnitude `r_pow` beside the
    /// argument times `exp`.
    pub open spec fn spec_pow_polar(self, exp: i32, principal: Double, r_pow: Double) -> Polar {
        self.spec_polar(principal).spec_powi(exp, r_pow)
    }

    /// The natural logarithm on the principal branch: `ln_abs` beside the
    /// argument.
    pub open spec fn spec_ln(self, ln_abs: Double, principal: Double) -> Complex {
        Complex { re: ln_abs, im: self.spec_arg(principal) }
    }

    /// The exponential: the number of magnitude `exp_re` at the angle
    /// `im`, in Cartesian form.
    pub open spec fn spec_exp(self, exp_re: Double, cos_im: Double, sin_im: Double) -> Complex {
        (Polar { r: exp_re, theta: self.im }).spec_cartesian(cos_im, sin_im)
    }

    /// The magnitude is never negative, is positive zero for a zero, and
    /// is a NaN where a part is one.
    pub proof fn lemma_abs_sign(self)
        ensures
            !self.spec_abs().spec_is_sign_negative(),
            self.re.spec_is_zero() && self.im.spec_is_zero() ==> self.spec_abs().bits == 0,
            self.re.spec_is_nan() || self.im.spec_is_nan() ==> self.spec_abs().spec_is_nan(),
    {
        let a = self.re.spec_mul(self.re);
        let b = self.im.spec_mul(self.im);
        lemma_square_sign(self.re);
        lemma_square_sign(self.im);
        lemma_add_sign(a, b);
        lemma_sqrt_sign(a.spec_add(b));
    }

    /// The magnitude (modulus): `(a + b*I).abs()` is the square root of
    /// `a*a + b*b`.
    pub fn abs(&self) -> (r: Double)
        ensures
            r == self.spec_abs(),
            !r.spec_is_sign_negative(),
            self.re.spec_is_zero() && self.im.spec_is_zero() ==> r.bits == 0,
            self.re.spec_is_nan() || self.im.spec_is_nan() ==> r.spec_is_nan(),
    {
        proof {
            self.lemma_abs_sign();
        }
        self.norm_sqr().sqrt()
    }

    /// The polar form: the magnitude and the argument, where `principal`
    /// is the arctangent of `self.slope()`.
    pub fn polar(&self, principal: Double) -> (r: Polar)
        ensures
            r == self.spec_polar(principal),
    {
        Polar { r: self.abs(), theta: self.arg(principal) }
    }

    /// `self` raised to the power `exp`, in polar form, where `principal`
    /// is the arctangent of `self.slope()` and `r_pow` is `self.abs()`
    /// raised to the power `exp`. The steps are the same few whatever the
    /// exponent, where `pow` takes a multiplication for each unit of it;
    /// the angle is rounded once more than there, so that the result,
    /// turned back by `cartesian`, is a little less exact.
    pub fn pow_polar(&self, exp: i32, principal: Double, r_pow: Double) -> (r: Polar)
        ensures
            r == self.spec_pow_polar(exp, principal, r_pow),
    {
        self.polar(principal).powi(exp, r_pow)
    }

    /// The natural logarithm `ln|z| + arg(z)*I` on the principal branch,
    /// where `ln_abs` is the logarithm of `self.abs()` and `principal` the
    /// arctangent of `self.slope()`. At zero nothing is trapped: the
    /// logarithm of the magnitude is then negative infinity, and the
    /// imaginary part is whatever `principal` is.
    pub fn ln(&self, ln_abs: Double, principal: Double) -> (r: Complex)
        ensures
            r == self.spec_ln(ln_abs, principal),
    {
        Complex { re: ln_abs, im: self.arg(principal) }
    }

    /// The exponential `e^re * (cos(im) + sin(im)*I)`, where `exp_re` is
    /// `e` raised to the real part and `cos_im` and `sin_im` are the cosine
    /// and the sine of the imaginary part. An `exp_re` that has overflowed
    /// to infinity gives infinite parts, or a NaN where it meets a zero.
    pub fn exp(&self, exp_re: Double, cos_im: Double, sin_im: Double) -> (r: Complex)
        ensures
            r == self.spec_exp(exp_re, cos_im, sin_im),
    {
        let p: Polar = Polar { r: exp_re, theta: self.im };
        p.cartesian(cos_im, sin_im)
    }

    /// The quotient `im / re`.
    pub fn slope(&self) -> (r: Double)
        ensures
            r == self.spec_slope(),
    {
        self.im / self.re
    }

    /// The argument, the angle from the positive real axis, where
    /// `principal` is the arctangent of `self.slope()`. With such a
    /// `principal` it lies between minus pi and pi.
    pub fn arg(&self, principal: Double) -> (r: Double)
        ensures
            r == self.spec_arg(principal),
            self.is_ordinary() && !self.spec_slope().spec_is_nan() && is_arctangent_like(
                self.spec_slope(),
                principal,
            ) ==> r.magnitude_bits() <= PI_BITS,
    {
        proof {
            if self.is_ordinary() && !self.spec_slope().spec_is_nan() && is_arctangent_like(
                self.spec_slope(),
                principal,
            ) {
                lemma_arg_bounded(*self, principal);
            }
        }
        let pi: Double = Double::from_bits(PI_BITS);
        let half_pi: Double = Double::from_bits(HALF_PI_BITS);
        if self.re.is_zero() {
            if self.im.is_above_zero() {
                half_pi
            } else if self.im.is_below_zero() {
                half_pi.neg()
            } else {
                principal
            }
        } else if self.re.is_below_zero() {
            if self.im.is_below_zero() {
                principal - pi
            } else {
                principal + pi
            }
        } else {
            principal
        }
    }
}

impl Polar {
    /// Equality part by part, as IEEE 754 has it.
    pub open spec fn ieee_eq(self, other: Polar) -> bool {
        self.r.ieee_eq(other.r) && self.theta.ieee_eq(other.theta)
    }

    /// The Cartesian form `r*cos(theta) + r*sin(theta)*I`, from the cosine
    /// and the sine of `theta`.
    pub open spec fn spec_cartesian(self, cos_theta: Double, sin_theta: Double) -> Complex {
        Complex { re: self.r.spec_mul(cos_theta), im: self.r.spec_mul(sin_theta) }
    }

    /// The power `exp` in polar form: the angle times `exp`, beside the
    /// magnitude `r_pow`.
    pub open spec fn spec_powi(self, exp: i32, r_pow: Double) -> Polar {
        Polar { r: r_pow, theta: self.theta.spec_mul(Double::spec_from_int(exp as int)) }
    }

    /// `self` raised to the power `exp`, where `r_pow` is `self.r` raised
    /// to that power: the angle is multiplied by the exponent.
    pub fn powi(&self, exp: i32, r_pow: Double) -> (r: Polar)
        ensures
            r == self.spec_powi(exp, r_pow),
    {
        Polar { r: r_pow, theta: self.theta * Double::from_i32(exp) }
    }

    /// Turns a polar complex number back into the form `a + b*I`, where
    /// `cos_theta` and `sin_theta` are the cosine and the sine of
    /// `self.theta`.
    pub fn cartesian(&self, cos_theta: Double, sin_theta: Double) -> (r: Complex)
        ensures
            r == self.spec_cartesian(cos_theta, sin_theta),
    {
        Complex { re: self.r * cos_theta, im: self.r * sin_theta }
    }
}

impl PartialEq for Polar {
    fn eq(&self, other: &Polar) -> (r: bool)
    {
        self.r == other.r && self.theta == other.theta
    }
}

impl vstd::std_specs::cmp::PartialEqSpecImpl for Polar {
    open spec fn obeys_eq_spec() -> bool {
        true
    }

    open spec fn eq_spec(&self, other: &Polar) -> bool {
        self.ieee_eq(*other)
    }
}

} // verus!
