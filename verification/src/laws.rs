//! Laws of the arithmetic on complex numbers.

use vstd::prelude::*;
use crate::binary64::{Double, HALF_PI_BITS, ONE_BITS, PI_BITS, SIGN_BIT};
use crate::complex::Complex;
use crate::identities;
use crate::polar::is_arctangent_like;

verus! {

/// A number that is not a NaN equals itself.
pub proof fn lemma_eq_reflexive(z: Complex)
    requires
        z.is_ordinary(),
    ensures
        z.ieee_eq(z),
{
}

/// A value with a NaN part equals nothing, itself included.
pub proof fn lemma_nan_equals_nothing(z: Complex, w: Complex)
    requires
        !z.is_ordinary(),
    ensures
        !z.ieee_eq(w),
        !w.ieee_eq(z),
{
}

/// `a + b` and `b + a` are the same value, bit for bit, and for finite `a`
/// and `b` they compare equal.
pub proof fn lemma_add_commutes(a: Complex, b: Complex)
    ensures
        a.spec_add(b) == b.spec_add(a),
        a.is_finite() && b.is_finite() ==> a.spec_add(b).ieee_eq(b.spec_add(a)),
{
    identities::lemma_add_commutes(a.re, b.re);
    identities::lemma_add_commutes(a.im, b.im);
    if a.is_finite() && b.is_finite() {
        identities::lemma_finite_results(a.re, b.re);
        identities::lemma_finite_results(a.im, b.im);
    }
}

/// `a * b` and `b * a` are the same value, bit for bit, and compare equal
/// unless a part of the product is a NaN, as it is where two products of
/// parts overflow to infinities that cancel.
pub proof fn lemma_mul_commutes(a: Complex, b: Complex)
    ensures
        a.spec_mul(b) == b.spec_mul(a),
        a.spec_mul(b).is_ordinary() ==> a.spec_mul(b).ieee_eq(b.spec_mul(a)),
{
    identities::lemma_mul_commutes(a.re, b.re);
    identities::lemma_mul_commutes(a.im, b.im);
    identities::lemma_mul_commutes(a.re, b.im);
    identities::lemma_mul_commutes(a.im, b.re);
    identities::lemma_add_commutes(a.re.spec_mul(b.im), a.im.spec_mul(b.re));
}

/// `a + c` and `c + a`, for a complex `a` and a real `c`, are the same
/// value, bit for bit, and for finite `a` and `c` they compare equal.
pub proof fn lemma_add_real_commutes(a: Complex, c: Double)
    ensures
        a.spec_add_real(c) == a.spec_add_to_real(c),
        a.is_finite() && c.spec_is_finite() ==> a.spec_add_real(c).ieee_eq(
            a.spec_add_to_real(c),
        ),
{
    identities::lemma_add_commutes(a.re, c);
    if a.is_finite() && c.spec_is_finite() {
        identities::lemma_finite_results(a.re, c);
    }
}

/// `a * c` and `c * a`, for a complex `a` and a real `c`, are the same
/// value, bit for bit, and for finite `a` and `c` they compare equal.
pub proof fn lemma_mul_real_commutes(a: Complex, c: Double)
    ensures
        a.spec_mul_real(c) == a.spec_mul_by_real(c),
        a.is_finite() && c.spec_is_finite() ==> a.spec_mul_real(c).ieee_eq(
            a.spec_mul_by_real(c),
        ),
{
    identities::lemma_mul_commutes(a.re, c);
    identities::lemma_mul_commutes(a.im, c);
    if a.is_finite() && c.spec_is_finite() {
        identities::lemma_finite_results(a.re, c);
        identities::lemma_finite_results(a.im, c);
    }
}

/// The conjugate of the conjugate is the number itself, for every number.
pub proof fn lemma_bar_involutive(z: Complex)
    ensures
        z.spec_bar().spec_bar() == z,
        z.is_ordinary() ==> z.spec_bar().spec_bar().ieee_eq(z),
{
}

/// A real factor of one leaves a complex number as it is.
pub proof fn lemma_mul_real_one(z: Complex)
    requires
        z.is_ordinary(),
    ensures
        z.spec_mul_real(Double { bits: ONE_BITS }) == z,
{
    identities::lemma_mul_one(z.re);
    identities::lemma_mul_one(z.im);
}

/// The square of the imaginary unit is minus one.
pub proof fn lemma_i_squared()
    ensures
        ({
            let i = Complex { re: Double { bits: 0 }, im: Double { bits: ONE_BITS } };
            i.spec_mul(i) == (Complex {
                re: Double { bits: (ONE_BITS + SIGN_BIT) as u64 },
                im: Double { bits: 0 },
            })
        }),
{
    let zero = Double { bits: 0 };
    let one = Double { bits: ONE_BITS };
    // The four products of parts: `0 * 0`, `1 * 1`, `0 * 1` and `1 * 0`.
    crate::product::lemma_square_sign(zero);
    identities::lemma_mul_one(one);
    identities::lemma_mul_one(zero);
    identities::lemma_mul_commutes(zero, one);
    // The real part `0 - 1` and the imaginary part `0 + 0`.
    identities::lemma_add_zero(one.spec_neg(), zero);
    identities::lemma_add_commutes(zero, one.spec_neg());
    crate::sum::lemma_add_sign(zero, zero);
}

/// The quotient of a complex number by a real zero has no finite part:
/// each part is infinite, or a NaN where it was zero or a NaN.
pub proof fn lemma_div_real_zero(z: Complex, zero: Double)
    requires
        zero.spec_is_zero(),
    ensures
        !z.spec_div_real(zero).re.spec_is_finite(),
        !z.spec_div_real(zero).im.spec_is_finite(),
{
    reveal(Double::spec_div);
}

/// The quotient by the complex zero has two NaN parts, whatever is
/// divided: nothing is trapped.
pub proof fn lemma_div_zero(a: Complex, zero: Complex)
    requires
        zero.re.spec_is_zero(),
        zero.im.spec_is_zero(),
    ensures
        a.spec_div(zero).re.spec_is_nan(),
        a.spec_div(zero).im.spec_is_nan(),
{
    let den = zero.spec_norm_sqr();
    crate::product::lemma_square_sign(zero.re);
    crate::product::lemma_square_sign(zero.im);
    crate::sum::lemma_add_sign(zero.re.spec_mul(zero.re), zero.im.spec_mul(zero.im));
    assert(den.bits == 0);
    identities::lemma_mul_zero(a.re, zero.re);
    identities::lemma_mul_zero(a.im, zero.im);
    identities::lemma_mul_zero(a.im, zero.re);
    identities::lemma_mul_zero(a.re, zero.im);
    let p = a.re.spec_mul(zero.re);
    let q = a.im.spec_mul(zero.im);
    let r = a.im.spec_mul(zero.re);
    let s = a.re.spec_mul(zero.im);
    identities::lemma_add_zeros(p, q);
    identities::lemma_add_zeros(r, s.spec_neg());
    reveal(Double::spec_div);
}

/// With an arctangent of the slope for `principal`, the argument of a
/// number without a NaN part is a number between minus pi and pi.
pub proof fn lemma_arg_bounded(z: Complex, principal: Double)
    requires
        z.is_ordinary(),
        !z.spec_slope().spec_is_nan(),
        is_arctangent_like(z.spec_slope(), principal),
    ensures
        z.spec_arg(principal).magnitude_bits() <= PI_BITS,
{
    let pi = Double { bits: PI_BITS };
    identities::lemma_quotient_sign(z.im, z.re);
    if !z.re.spec_is_zero() && z.re.spec_is_below_zero() {
        if z.im.spec_is_below_zero() {
            identities::lemma_toward_zero_from_pi(principal, pi.spec_neg());
        } else if z.im.spec_is_zero() {
            identities::lemma_add_zero(pi, principal);
            identities::lemma_add_commutes(pi, principal);
        } else {
            identities::lemma_toward_zero_from_pi(principal, pi);
        }
    }
}

/// On the negative real axis the argument is pi, not zero, whatever the
/// sign of the zero imaginary part.
pub proof fn lemma_arg_negative_real_axis(z: Complex, principal: Double)
    requires
        z.re.spec_is_below_zero(),
        z.im.spec_is_zero(),
        is_arctangent_like(z.spec_slope(), principal),
    ensures
        z.spec_arg(principal).bits == PI_BITS,
{
    let pi = Double { bits: PI_BITS };
    identities::lemma_quotient_sign(z.im, z.re);
    identities::lemma_add_zero(pi, principal);
    identities::lemma_add_commutes(pi, principal);
}

/// On the imaginary axis the argument is half of pi, under the sign of
/// the imaginary part, and on the positive real axis it is zero.
pub proof fn lemma_arg_other_axes(z: Complex, principal: Double)
    requires
        is_arctangent_like(z.spec_slope(), principal),
    ensures
        z.re.spec_is_zero() && z.im.spec_is_above_zero() ==> z.spec_arg(principal).bits
            == HALF_PI_BITS,
        z.re.spec_is_zero() && z.im.spec_is_below_zero() ==> z.spec_arg(principal).bits
            == HALF_PI_BITS + SIGN_BIT,
        z.re.spec_is_above_zero() && z.im.spec_is_zero() ==> z.spec_arg(principal).spec_is_zero(),
{
    if z.re.spec_is_above_zero() && z.im.spec_is_zero() {
        identities::lemma_quotient_sign(z.im, z.re);
    }
}

} // verus!
