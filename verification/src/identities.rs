//! Identities of the arithmetic on binary64 numbers.

use vstd::prelude::*;
use vstd::arithmetic::mul::lemma_mul_is_commutative;
use vstd::arithmetic::power2::{
    pow2,
    lemma_pow2_pos,
    lemma_pow2_adds,
    lemma2_to64,
    lemma2_to64_rest,
};
use crate::binary64::{Double, ONE_BITS, PI_BITS};
use crate::nearest::{lemma_magnitude_monotone, lemma_round_exact, lemma_round_monotone};
use crate::rounding::{round_magnitude, lemma_round_bounded, lemma_round_zero};

verus! {

/// The sum of two binary64 numbers does not depend on their order.
pub proof fn lemma_add_commutes(a: Double, b: Double)
    ensures
        a.spec_add(b) == b.spec_add(a),
{
    reveal(Double::spec_add);
}

/// The product of two binary64 numbers does not depend on their order.
pub proof fn lemma_mul_commutes(a: Double, b: Double)
    ensures
        a.spec_mul(b) == b.spec_mul(a),
{
    reveal(Double::spec_mul);
    lemma_mul_is_commutative(a.magnitude() as int, b.magnitude() as int);
}

/// The sum and the product of two finite numbers are numbers: they may be
/// infinite, and are never a NaN.
pub proof fn lemma_finite_results(a: Double, b: Double)
    requires
        a.spec_is_finite(),
        b.spec_is_finite(),
    ensures
        !a.spec_add(b).spec_is_nan(),
        !a.spec_mul(b).spec_is_nan(),
{
    reveal(Double::spec_add);
    reveal(Double::spec_mul);
    let exact = a.value() + b.value();
    if exact > 0 {
        lemma_round_bounded(exact as nat, 1);
    } else if exact < 0 {
        lemma_round_bounded((-exact) as nat, 1);
    }
    lemma_round_bounded(a.magnitude() * b.magnitude(), pow2(1074));
}

/// Flipping the sign twice gives the number back, a NaN too.
pub proof fn lemma_neg_involutive(a: Double)
    ensures
        a.spec_neg().spec_neg() == a,
{
}

/// The value of one is `2^1074` units.
pub proof fn lemma_one_magnitude()
    ensures
        (Double { bits: ONE_BITS }).magnitude() == pow2(1074),
        (Double { bits: ONE_BITS }).spec_is_finite(),
        !(Double { bits: ONE_BITS }).spec_is_sign_negative(),
{
    let one = Double { bits: ONE_BITS };
    lemma2_to64();
    lemma2_to64_rest();
    assert(one.exponent_field() == 1023);
    assert(one.fraction_field() == 0);
    lemma_pow2_adds(52, 1022);
}

/// One is the unit of multiplication: the product of a number and one is
/// that number, bit for bit, unless the number is a NaN.
pub proof fn lemma_mul_one(x: Double)
    requires
        !x.spec_is_nan(),
    ensures
        x.spec_mul(Double { bits: ONE_BITS }) == x,
{
    reveal(Double::spec_mul);
    lemma_one_magnitude();
    if x.spec_is_finite() {
        lemma_pow2_pos(1074);
        lemma_round_exact(x, pow2(1074));
    }
}

/// The quotient of a number by one is that number, bit for bit, unless the
/// number is a NaN.
pub proof fn lemma_div_one(x: Double)
    requires
        !x.spec_is_nan(),
    ensures
        x.spec_div(Double { bits: ONE_BITS }) == x,
{
    reveal(Double::spec_div);
    lemma_one_magnitude();
    if x.spec_is_finite() {
        lemma_pow2_pos(1074);
        lemma_round_exact(x, pow2(1074));
    }
}

/// Adding a zero changes nothing but the sign of a zero: the sum compares
/// equal to the number, and is the number bit for bit unless it is a zero.
pub proof fn lemma_add_zero(x: Double, zero: Double)
    requires
        !x.spec_is_nan(),
        zero.spec_is_zero(),
    ensures
        x.spec_add(zero).ieee_eq(x),
        !x.spec_is_zero() ==> x.spec_add(zero) == x,
{
    reveal(Double::spec_add);
    if x.spec_is_finite() {
        assert(zero.magnitude() == 0) by (nonlinear_arith)
            requires
                zero.magnitude() == 0 * pow2(0),
        ;
        lemma_round_exact(x, 1);
        assert(x.magnitude() * 1 == x.magnitude()) by (nonlinear_arith);
        if x.spec_is_zero() {
            assert(x.magnitude() == 0) by (nonlinear_arith)
                requires
                    x.magnitude() == 0 * pow2(0),
            ;
        } else {
            lemma_pow2_pos(x.scale());
            assert(x.magnitude() > 0) by (nonlinear_arith)
                requires
                    x.magnitude() == x.significand() * pow2(x.scale()),
                    x.significand() > 0,
                    pow2(x.scale()) > 0,
            ;
        }
    }
}

/// A product with a zero is a zero or a NaN.
pub proof fn lemma_mul_zero(x: Double, zero: Double)
    requires
        zero.spec_is_zero(),
    ensures
        x.spec_mul(zero).spec_is_zero() || x.spec_mul(zero).spec_is_nan(),
{
    reveal(Double::spec_mul);
    if x.spec_is_finite() {
        assert(x.magnitude() * zero.magnitude() == 0) by (nonlinear_arith)
            requires
                zero.magnitude() == 0 * pow2(0),
        ;
        lemma_pow2_pos(1074);
        lemma_round_zero(pow2(1074));
    }
}

/// A sum of zeros and NaNs is a zero or a NaN.
pub proof fn lemma_add_zeros(a: Double, b: Double)
    requires
        a.spec_is_zero() || a.spec_is_nan(),
        b.spec_is_zero() || b.spec_is_nan(),
    ensures
        a.spec_add(b).spec_is_zero() || a.spec_add(b).spec_is_nan(),
{
    reveal(Double::spec_add);
    if a.spec_is_zero() && b.spec_is_zero() {
        assert(a.magnitude() == 0 && b.magnitude() == 0) by (nonlinear_arith)
            requires
                a.magnitude() == 0 * pow2(0),
                b.magnitude() == 0 * pow2(0),
        ;
    }
}

/// A quotient that is not a NaN has the sign that the two signs give, and
/// a zero over a number other than zero is a zero.
pub proof fn lemma_quotient_sign(a: Double, b: Double)
    requires
        !a.spec_is_nan(),
        !b.spec_is_nan(),
    ensures
        !a.spec_div(b).spec_is_nan() ==> a.spec_div(b).spec_is_sign_negative() == (
        a.spec_is_sign_negative() != b.spec_is_sign_negative()),
        a.spec_is_zero() && !b.spec_is_zero() ==> a.spec_div(b).spec_is_zero(),
{
    reveal(Double::spec_div);
    if a.spec_is_finite() && b.spec_is_finite() && !b.spec_is_zero() {
        lemma_round_bounded(a.magnitude() * pow2(1074), b.magnitude());
        if a.spec_is_zero() {
            assert(a.magnitude() * pow2(1074) == 0) by (nonlinear_arith)
                requires
                    a.magnitude() == 0 * pow2(0),
            ;
            lemma_pow2_pos(b.scale());
            assert(b.magnitude() > 0) by (nonlinear_arith)
                requires
                    b.magnitude() == b.significand() * pow2(b.scale()),
                    b.significand() > 0,
                    pow2(b.scale()) > 0,
            ;
            lemma_round_zero(b.magnitude());
        }
    }
}

/// The value of pi, as binary64 has it, is finite and above zero.
pub proof fn lemma_pi_magnitude()
    ensures
        (Double { bits: PI_BITS }).spec_is_finite(),
        (Double { bits: PI_BITS }).magnitude() > 0,
        round_magnitude((Double { bits: PI_BITS }).magnitude(), 1) == PI_BITS,
{
    let pi = Double { bits: PI_BITS };
    assert(pi.exponent_field() == 1024);
    lemma_round_exact(pi, 1);
    assert(pi.magnitude() * 1 == pi.magnitude()) by (nonlinear_arith);
    lemma_pow2_pos(pi.scale());
    assert(pi.magnitude() > 0) by (nonlinear_arith)
        requires
            pi.magnitude() == pi.significand() * pow2(pi.scale()),
            pi.significand() > 0,
            pow2(pi.scale()) > 0,
    ;
}

/// Pi, added to or taken from a number of the other sign that is no
/// larger than pi, gives a number no larger than pi.
pub proof fn lemma_toward_zero_from_pi(t: Double, pi: Double)
    requires
        pi.magnitude_bits() == PI_BITS,
        t.magnitude_bits() <= PI_BITS,
        t.spec_is_sign_negative() != pi.spec_is_sign_negative(),
    ensures
        t.spec_add(pi).magnitude_bits() <= PI_BITS,
{
    reveal(Double::spec_add);
    let unsigned = Double { bits: PI_BITS };
    lemma_pi_magnitude();
    lemma_magnitude_monotone(t, unsigned);
    assert(pi.magnitude() == unsigned.magnitude());
    let gap = (pi.magnitude() - t.magnitude()) as nat;
    lemma_round_monotone(gap, pi.magnitude(), 1);
}

} // verus!
