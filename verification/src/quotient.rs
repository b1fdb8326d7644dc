//! Division of binary64 numbers.

use vstd::prelude::*;
use vstd::arithmetic::power2::{
    pow2,
    lemma_pow2_pos,
    lemma_pow2_adds,
    lemma_pow2_strictly_increases,
    lemma2_to64,
    lemma2_to64_rest,
};
use vstd::arithmetic::div_mod::{lemma_fundamental_div_mod, lemma_mod_bound};
use crate::binary64::{Double, INFINITY_BITS, NAN_BITS};
use crate::rounding::{approximates, round_magnitude, round_scaled, lemma_round_zero};
use crate::word::{normalize, shift_left, lemma_pow2_127};

verus! {

impl Double {
    /// The quotient: a NaN where either operand is one, where both are
    /// infinite or both are zero; infinity where the dividend is infinite
    /// or the divisor is zero; zero where the divisor is infinite; else the
    /// exact quotient of the two values, rounded. The sign is the one that
    /// the two signs give.
    #[verifier::opaque]
    pub open spec fn spec_div(self, rhs: Double) -> Double {
        let negative = self.spec_is_sign_negative() != rhs.spec_is_sign_negative();
        if self.spec_is_nan() || rhs.spec_is_nan() {
            Double { bits: NAN_BITS }
        } else if self.spec_is_infinite() {
            if rhs.spec_is_infinite() {
                Double { bits: NAN_BITS }
            } else {
                Double::compose(negative, INFINITY_BITS)
            }
        } else if rhs.spec_is_infinite() {
            Double::compose(negative, 0)
        } else if rhs.spec_is_zero() {
            if self.spec_is_zero() {
                Double { bits: NAN_BITS }
            } else {
                Double::compose(negative, INFINITY_BITS)
            }
        } else {
            Double::compose(
                negative,
                round_magnitude(self.magnitude() * pow2(1074), rhs.magnitude()),
            )
        }
    }
}

/// The quotient of two normalized significands, with its remainder,
/// approximates the quotient of the two magnitudes.
pub proof fn lemma_quotient_approximates(
    ma: nat,
    sa: nat,
    za: nat,
    mb: nat,
    sb: nat,
    zb: nat,
    q: nat,
    r: nat,
)
    requires
        mb > 0,
        (ma * pow2(za)) * pow2(74) == q * (mb * pow2(zb)) + r,
        r < mb * pow2(zb),
    ensures
        approximates(
            q,
            sa + zb + 1074,
            sb + za + 74,
            r != 0,
            (ma * pow2(sa)) * pow2(1074),
            mb * pow2(sb),
        ),
{
    let c = (pow2(sa) * pow2(1074)) * pow2(sb);
    let na = ma * pow2(za);
    let nb = mb * pow2(zb);
    let num = na * pow2(74);
    let n = (ma * pow2(sa)) * pow2(1074);
    let d = mb * pow2(sb);
    lemma_pow2_pos(sa);
    lemma_pow2_pos(sb);
    lemma_pow2_pos(1074);
    lemma_pow2_adds(sa, zb);
    lemma_pow2_adds(sa + zb, 1074);
    lemma_pow2_adds(sb, za);
    lemma_pow2_adds(sb + za, 74);
    assert(c > 0) by (nonlinear_arith)
        requires
            c == (pow2(sa) * pow2(1074)) * pow2(sb),
            pow2(sa) > 0,
            pow2(1074) > 0,
            pow2(sb) > 0,
    ;
    assert(d > 0) by (nonlinear_arith)
        requires
            d == mb * pow2(sb),
            mb > 0,
            pow2(sb) > 0,
    ;
    assert(n * pow2(sb + za + 74) == num * c) by (nonlinear_arith)
        requires
            n == (ma * pow2(sa)) * pow2(1074),
            pow2(sb + za + 74) == (pow2(sb) * pow2(za)) * pow2(74),
            num == (ma * pow2(za)) * pow2(74),
            c == (pow2(sa) * pow2(1074)) * pow2(sb),
    ;
    assert(pow2(sa + zb + 1074) * d == nb * c) by (nonlinear_arith)
        requires
            pow2(sa + zb + 1074) == (pow2(sa) * pow2(zb)) * pow2(1074),
            d == mb * pow2(sb),
            nb == mb * pow2(zb),
            c == (pow2(sa) * pow2(1074)) * pow2(sb),
    ;
    assert(q * (nb * c) + r * c == num * c && (q + 1) * (nb * c) == q * (nb * c) + nb * c && (r
        < nb ==> r * c < nb * c) && (r > 0 ==> r * c > 0) && (r == 0 ==> r * c == 0))
        by (nonlinear_arith)
        requires
            num == q * nb + r,
            c > 0,
    ;
}

impl core::ops::Div<Double> for Double {
    type Output = Double;

    fn div(self, rhs: Double) -> (r: Double)
        ensures
            r == self.spec_div(rhs),
    {
        proof {
            reveal(Double::spec_div);
        }
        let negative: bool = self.is_sign_negative() != rhs.is_sign_negative();
        if self.is_nan() || rhs.is_nan() {
            return Double::nan();
        }
        if self.is_infinite() {
            if rhs.is_infinite() {
                return Double::nan();
            }
            return Double::infinity(negative);
        }
        if rhs.is_infinite() {
            return Double::with_sign(negative, 0);
        }
        if rhs.is_zero() {
            if self.is_zero() {
                return Double::nan();
            }
            return Double::infinity(negative);
        }
        let (ma, sa) = self.decode();
        let (mb, sb) = rhs.decode();
        if ma == 0 {
            proof {
                lemma_pow2_pos(sb as nat);
                assert(rhs.magnitude() > 0 && self.magnitude() * pow2(1074) == 0)
                    by (nonlinear_arith)
                    requires
                        rhs.magnitude() == mb * pow2(sb as nat),
                        self.magnitude() == 0 * pow2(sa as nat),
                        mb > 0,
                        pow2(sb as nat) > 0,
                ;
                lemma_round_zero(rhs.magnitude());
            }
            return Double::with_sign(negative, 0);
        }
        let (na, za) = normalize(ma);
        let (nb, zb) = normalize(mb);
        proof {
            // `2^126 <= na * 2^74 < 2^127`, so that the quotient has at least
            // seventy-four bits.
            lemma2_to64();
            lemma2_to64_rest();
            lemma_pow2_127();
            lemma_pow2_adds(53, 74);
            lemma_pow2_adds(52, 74);
            lemma_pow2_adds(73, 53);
            lemma_pow2_strictly_increases(54, 73);
            lemma_pow2_pos(74);
            assert(pow2(52) * pow2(74) <= na * pow2(74) < pow2(53) * pow2(74)) by (nonlinear_arith)
                requires
                    pow2(52) <= na < pow2(53),
                    pow2(74) > 0,
            ;
        }
        let num: u128 = shift_left(na as u128, 74);
        let q: u128 = num / (nb as u128);
        let rem: u128 = num % (nb as u128);
        proof {
            lemma_fundamental_div_mod(num as int, nb as int);
            lemma_mod_bound(num as int, nb as int);
            assert(q >= pow2(73) && q <= num) by (nonlinear_arith)
                requires
                    num == nb * q + rem,
                    0 <= rem < nb,
                    nb < pow2(53),
                    num >= pow2(73) * pow2(53),
                    q >= 0,
            ;
            assert(num == q * nb + rem) by (nonlinear_arith)
                requires
                    num == nb * q + rem,
            ;
            lemma_quotient_approximates(
                ma as nat,
                sa as nat,
                za as nat,
                mb as nat,
                sb as nat,
                zb as nat,
                q as nat,
                rem as nat,
            );
        }
        let bits: u64 = round_scaled(
            q,
            sa + zb + 1074,
            sb + za + 74,
            rem != 0,
            Ghost(self.magnitude() * pow2(1074)),
            Ghost(rhs.magnitude()),
        );
        Double::with_sign(negative, bits)
    }
}

impl vstd::std_specs::ops::DivSpecImpl<Double> for Double {
    open spec fn obeys_div_spec() -> bool {
        true
    }

    open spec fn div_req(self, rhs: Double) -> bool {
        true
    }

    open spec fn div_spec(self, rhs: Double) -> Double {
        self.spec_div(rhs)
    }
}

} // verus!
