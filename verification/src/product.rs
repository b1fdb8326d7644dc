//! Multiplication of binary64 numbers.

use vstd::prelude::*;
use vstd::arithmetic::power2::{
    pow2,
    lemma_pow2_pos,
    lemma_pow2_adds,
    lemma_pow2_strictly_increases,
    lemma2_to64_rest,
};
use crate::binary64::{Double, INFINITY_BITS, NAN_BITS};
use crate::rounding::{
    approximates,
    round_magnitude,
    round_scaled,
    lemma_round_bounded,
    lemma_round_zero,
};

verus! {

impl Double {
    /// The product: a NaN where either factor is one or where infinity
    /// meets zero; else the exact product of the two values, rounded, under
    /// the sign that the two signs give.
    #[verifier::opaque]
    pub open spec fn spec_mul(self, rhs: Double) -> Double {
        let negative = self.spec_is_sign_negative() != rhs.spec_is_sign_negative();
        if self.spec_is_nan() || rhs.spec_is_nan() {
            Double { bits: NAN_BITS }
        } else if self.spec_is_infinite() || rhs.spec_is_infinite() {
            if self.spec_is_zero() || rhs.spec_is_zero() {
                Double { bits: NAN_BITS }
            } else {
                Double::compose(negative, INFINITY_BITS)
            }
        } else {
            Double::compose(
                negative,
                round_magnitude(self.magnitude() * rhs.magnitude(), pow2(1074)),
            )
        }
    }
}

/// A square is never negative; it is a NaN of a NaN and positive zero of a
/// zero.
pub proof fn lemma_square_sign(x: Double)
    ensures
        !x.spec_mul(x).spec_is_sign_negative(),
        x.spec_is_nan() ==> x.spec_mul(x).spec_is_nan(),
        x.spec_is_zero() ==> x.spec_mul(x).bits == 0,
{
    reveal(Double::spec_mul);
    lemma_round_bounded(x.magnitude() * x.magnitude(), pow2(1074));
    if x.spec_is_zero() {
        assert(x.magnitude() * x.magnitude() == 0) by (nonlinear_arith)
            requires
                x.magnitude() == 0 * pow2(0),
        ;
        lemma_pow2_pos(1074);
        lemma_round_zero(pow2(1074));
    }
}

/// The product of two significands approximates the product of the two
/// magnitudes exactly.
pub proof fn lemma_product_exact(ma: nat, sa: nat, mb: nat, sb: nat)
    ensures
        approximates(
            ma * mb,
            sa + sb,
            1074,
            false,
            (ma * pow2(sa)) * (mb * pow2(sb)),
            pow2(1074),
        ),
{
    let d = pow2(1074);
    let pa = pow2(sa);
    let pb = pow2(sb);
    lemma_pow2_pos(1074);
    lemma_pow2_pos(sa);
    lemma_pow2_pos(sb);
    lemma_pow2_adds(sa, sb);
    let lo = (ma * mb) * (pow2(sa + sb) * d);
    let x = ((ma * pa) * (mb * pb)) * d;
    assert(lo == x) by (nonlinear_arith)
        requires
            lo == (ma * mb) * (pow2(sa + sb) * d),
            x == ((ma * pa) * (mb * pb)) * d,
            pow2(sa + sb) == pa * pb,
    ;
    assert((ma * mb + 1) * (pow2(sa + sb) * d) > lo) by (nonlinear_arith)
        requires
            lo == (ma * mb) * (pow2(sa + sb) * d),
            pow2(sa + sb) == pa * pb,
            pa > 0,
            pb > 0,
            d > 0,
    ;
}

impl core::ops::Mul<Double> for Double {
    type Output = Double;

    fn mul(self, rhs: Double) -> (r: Double)
        ensures
            r == self.spec_mul(rhs),
    {
        proof {
            reveal(Double::spec_mul);
        }
        let negative: bool = self.is_sign_negative() != rhs.is_sign_negative();
        if self.is_nan() || rhs.is_nan() {
            return Double::nan();
        }
        if self.is_infinite() || rhs.is_infinite() {
            if self.is_zero() || rhs.is_zero() {
                return Double::nan();
            }
            return Double::infinity(negative);
        }
        let (ma, sa) = self.decode();
        let (mb, sb) = rhs.decode();
        proof {
            lemma_product_exact(ma as nat, sa as nat, mb as nat, sb as nat);
            lemma2_to64_rest();
            lemma_pow2_adds(53, 53);
            lemma_pow2_strictly_increases(106, 127);
            assert(ma * mb < pow2(53) * pow2(53)) by (nonlinear_arith)
                requires
                    ma < pow2(53),
                    mb < pow2(53),
            ;
        }
        let m: u128 = (ma as u128) * (mb as u128);
        let bits: u64 = round_scaled(
            m,
            sa + sb,
            1074,
            false,
            Ghost(self.magnitude() * rhs.magnitude()),
            Ghost(pow2(1074)),
        );
        Double::with_sign(negative, bits)
    }
}

impl vstd::std_specs::ops::MulSpecImpl<Double> for Double {
    open spec fn obeys_mul_spec() -> bool {
        true
    }

    open spec fn mul_req(self, rhs: Double) -> bool {
        true
    }

    open spec fn mul_spec(self, rhs: Double) -> Double {
        self.spec_mul(rhs)
    }
}

} // verus!
