//! Addition and subtraction of binary64 numbers.

use vstd::prelude::*;
use vstd::arithmetic::power2::{
    pow2,
    lemma_pow2_pos,
    lemma_pow2_adds,
    lemma_pow2_strictly_increases,
    lemma2_to64,
    lemma2_to64_rest,
};
use crate::binary64::{Double, NAN_BITS};
use crate::rounding::{
    approximates,
    round_magnitude,
    round_scaled,
    lemma_round_bounded,
    lemma_round_zero,
};
use crate::word::{shift_left, lemma_pow2_127};

verus! {

impl Double {
    /// The sum: a NaN where either term is one or where the two infinities
    /// of opposite sign meet; an infinite term where there is one; else the
    /// exact sum of the two values, rounded. An exact sum of zero is
    /// negative only where both terms are.
    #[verifier::opaque]
    pub open spec fn spec_add(self, rhs: Double) -> Double {
        if self.spec_is_nan() || rhs.spec_is_nan() {
            Double { bits: NAN_BITS }
        } else if self.spec_is_infinite() {
            if rhs.spec_is_infinite() && self.bits != rhs.bits {
                Double { bits: NAN_BITS }
            } else {
                self
            }
        } else if rhs.spec_is_infinite() {
            rhs
        } else {
            let exact = self.value() + rhs.value();
            if exact == 0 {
                Double::compose(self.spec_is_sign_negative() && rhs.spec_is_sign_negative(), 0)
            } else if exact > 0 {
                Double::compose(false, round_magnitude(exact as nat, 1))
            } else {
                Double::compose(true, round_magnitude((-exact) as nat, 1))
            }
        }
    }

    /// The difference: the sum with the subtrahend's sign flipped.
    pub open spec fn spec_sub(self, rhs: Double) -> Double {
        self.spec_add(rhs.spec_neg())
    }
}

/// The sum of two numbers that are not negative is not negative; it is a
/// NaN where a term is one, and positive zero of two positive zeros.
pub proof fn lemma_add_sign(a: Double, b: Double)
    requires
        !a.spec_is_sign_negative(),
        !b.spec_is_sign_negative(),
    ensures
        !a.spec_add(b).spec_is_sign_negative(),
        a.spec_is_nan() || b.spec_is_nan() ==> a.spec_add(b).spec_is_nan(),
        a.bits == 0 && b.bits == 0 ==> a.spec_add(b).bits == 0,
{
    reveal(Double::spec_add);
    if a.spec_is_finite() && b.spec_is_finite() {
        let exact = a.value() + b.value();
        if exact > 0 {
            lemma_round_bounded(exact as nat, 1);
        }
        if a.bits == 0 && b.bits == 0 {
            assert(a.magnitude() == 0 && b.magnitude() == 0) by (nonlinear_arith)
                requires
                    a.magnitude() == 0 * pow2(0),
                    b.magnitude() == 0 * pow2(0),
            ;
        }
    }
}

/// A significand at scale `s` approximates its own value exactly.
pub proof fn lemma_aligned_exact(m: nat, s: nat, n: nat)
    requires
        n == m * pow2(s),
    ensures
        approximates(m, s, 0, false, n, 1),
{
    lemma2_to64();
    lemma_pow2_pos(s);
    assert(m * (pow2(s) * 1) == n * pow2(0) && (m + 1) * (pow2(s) * 1) > n * pow2(0))
        by (nonlinear_arith)
        requires
            n == m * pow2(s),
            pow2(0) == 1,
            pow2(s) > 0,
    ;
}

/// A value that lies strictly between `m` and `m + 1` units of `2^s`.
pub proof fn lemma_between_inexact(m: nat, s: nat, n: nat)
    requires
        m * pow2(s) < n < (m + 1) * pow2(s),
    ensures
        approximates(m, s, 0, true, n, 1),
{
    lemma2_to64();
    assert(m * (pow2(s) * 1) == m * pow2(s) && (m + 1) * (pow2(s) * 1) == (m + 1) * pow2(s) && n
        * pow2(0) == n) by (nonlinear_arith)
        requires
            pow2(0) == 1,
    ;
}

/// A significand moved up by no more than 64 places, and another added,
/// fits a 128-bit word.
pub proof fn lemma_wide_fits(m: nat, diff: nat)
    requires
        m < pow2(53),
        diff <= 64,
    ensures
        m * pow2(diff) < pow2(117),
        pow2(117) + pow2(53) < pow2(127),
{
    lemma_pow2_adds(53, 64);
    lemma_pow2_adds(117, 1);
    lemma2_to64();
    lemma_pow2_strictly_increases(53, 117);
    lemma_pow2_strictly_increases(118, 127);
    if diff < 64 {
        lemma_pow2_strictly_increases(diff, 64);
    }
    lemma_pow2_pos(diff);
    assert(m * pow2(diff) < pow2(53) * pow2(64)) by (nonlinear_arith)
        requires
            m < pow2(53),
            0 < pow2(diff) <= pow2(64),
    ;
}

/// Two magnitudes whose scales are `diff` apart, over their common unit.
pub proof fn lemma_align(big: nat, small: nat, diff: nat, s: nat)
    ensures
        big * pow2(diff + s) + small * pow2(s) == (big * pow2(diff) + small) * pow2(s),
        big * pow2(diff + s) - small * pow2(s) == (big * pow2(diff) - small) * pow2(s),
        big * pow2(diff) < small <==> big * pow2(diff + s) < small * pow2(s),
        big * pow2(diff) == small <==> big * pow2(diff + s) == small * pow2(s),
{
    lemma_pow2_adds(diff, s);
    lemma_pow2_pos(s);
    let p = pow2(s) as int;
    let w = (big * pow2(diff)) as int;
    assert(big * pow2(diff + s) == w * p) by (nonlinear_arith)
        requires
            pow2(diff + s) == pow2(diff) * p,
            w == big * pow2(diff),
    ;
    assert(w * p + small * p == (w + small) * p && w * p - small * p == (w - small) * p)
        by (nonlinear_arith);
    crate::rounding::lemma_cancel(w, small as int, p);
    crate::rounding::lemma_cancel(small as int, w, p);
}

/// A small term, more than fifty-five binary places below a normal one,
/// moves the sum off the larger term by less than an eighth of its unit.
pub proof fn lemma_far(big: nat, bs: nat, small: nat, ss: nat)
    requires
        small < pow2(53),
        0 < small,
        ss + 56 <= bs,
    ensures
        0 < small * pow2(ss) < pow2((bs - 3) as nat),
        big * pow2(bs) == (8 * big) * pow2((bs - 3) as nat),
{
    let low = (bs - 3) as nat;
    lemma_pow2_pos(ss);
    lemma_pow2_adds(53, ss);
    lemma_pow2_adds(3, low);
    lemma2_to64();
    if 53 + ss < low {
        lemma_pow2_strictly_increases(53 + ss, low);
    }
    assert(0 < small * pow2(ss) < pow2(53) * pow2(ss)) by (nonlinear_arith)
        requires
            0 < small < pow2(53),
            pow2(ss) > 0,
    ;
    assert(big * pow2(bs) == (8 * big) * pow2(low)) by (nonlinear_arith)
        requires
            pow2(bs) == 8 * pow2(low),
    ;
}

/// The sum of two finite numbers of the same sign `negative`.
fn add_magnitudes(a: Double, b: Double, negative: bool) -> (r: Double)
    requires
        a.spec_is_finite(),
        b.spec_is_finite(),
        a.scale() >= b.scale(),
    ensures
        r == Double::compose(negative, round_magnitude(a.magnitude() + b.magnitude(), 1)),
{
    let (ma, sa) = a.decode();
    let (mb, sb) = b.decode();
    let diff: u32 = sa - sb;
    let ghost n: nat = a.magnitude() + b.magnitude();
    let m: u128;
    let scale: u32;
    let inexact: bool;
    proof {
        lemma2_to64();
        lemma2_to64_rest();
        lemma_pow2_127();
    }
    if diff <= 64 {
        proof {
            lemma_wide_fits(ma as nat, diff as nat);
            lemma_align(ma as nat, mb as nat, diff as nat, sb as nat);
        }
        m = shift_left(ma as u128, diff) + (mb as u128);
        scale = sb;
        inexact = false;
        proof {
            lemma_aligned_exact(m as nat, sb as nat, n);
        }
    } else if mb == 0 {
        m = ma as u128;
        scale = sa;
        inexact = false;
        proof {
            assert(n == ma * pow2(sa as nat)) by (nonlinear_arith)
                requires
                    n == ma * pow2(sa as nat) + 0 * pow2(sb as nat),
            ;
            lemma_aligned_exact(m as nat, sa as nat, n);
        }
    } else {
        m = 8 * (ma as u128);
        scale = sa - 3;
        inexact = true;
        proof {
            lemma_far(ma as nat, sa as nat, mb as nat, sb as nat);
            let unit = pow2(scale as nat);
            assert(m * unit < n < (m + 1) * unit) by (nonlinear_arith)
                requires
                    n == ma * pow2(sa as nat) + mb * pow2(sb as nat),
                    ma * pow2(sa as nat) == m * unit,
                    0 < mb * pow2(sb as nat) < unit,
            ;
            lemma_between_inexact(m as nat, scale as nat, n);
            lemma_pow2_adds(3, 52);
            lemma_pow2_strictly_increases(54, 55);
        }
    }
    let bits: u64 = round_scaled(m, scale, 0, inexact, Ghost(n), Ghost(1));
    Double::with_sign(negative, bits)
}

/// The difference of the magnitudes of two finite numbers, under the sign
/// `negative` where the first is the larger and the opposite sign where
/// the second is; positive zero where they are equal.
fn sub_magnitudes(a: Double, b: Double, negative: bool) -> (r: Double)
    requires
        a.spec_is_finite(),
        b.spec_is_finite(),
        a.scale() >= b.scale(),
    ensures
        r == if a.magnitude() == b.magnitude() {
            Double::compose(false, 0)
        } else if a.magnitude() > b.magnitude() {
            Double::compose(
                negative,
                round_magnitude((a.magnitude() - b.magnitude()) as nat, 1),
            )
        } else {
            Double::compose(
                !negative,
                round_magnitude((b.magnitude() - a.magnitude()) as nat, 1),
            )
        },
{
    let (ma, sa) = a.decode();
    let (mb, sb) = b.decode();
    let diff: u32 = sa - sb;
    let ghost da: nat = a.magnitude();
    let ghost db: nat = b.magnitude();
    proof {
        lemma2_to64();
        lemma2_to64_rest();
        lemma_pow2_127();
    }
    if diff <= 64 {
        proof {
            lemma_wide_fits(ma as nat, diff as nat);
            lemma_align(ma as nat, mb as nat, diff as nat, sb as nat);
        }
        let wide: u128 = shift_left(ma as u128, diff);
        let narrow: u128 = mb as u128;
        if wide == narrow {
            Double::zero()
        } else if wide > narrow {
            let m: u128 = wide - narrow;
            proof {
                lemma_aligned_exact(m as nat, sb as nat, (da - db) as nat);
            }
            let bits: u64 = round_scaled(m, sb, 0, false, Ghost((da - db) as nat), Ghost(1));
            Double::with_sign(negative, bits)
        } else {
            let m: u128 = narrow - wide;
            proof {
                assert((narrow - wide) * pow2(sb as nat) == -((wide - narrow) * pow2(sb as nat)))
                    by (nonlinear_arith);
                lemma_aligned_exact(m as nat, sb as nat, (db - da) as nat);
            }
            let bits: u64 = round_scaled(m, sb, 0, false, Ghost((db - da) as nat), Ghost(1));
            Double::with_sign(!negative, bits)
        }
    } else if mb == 0 {
        proof {
            assert(db == 0) by (nonlinear_arith)
                requires
                    db == 0 * pow2(sb as nat),
            ;
            lemma_pow2_pos(sa as nat);
            assert(da > 0) by (nonlinear_arith)
                requires
                    da == ma * pow2(sa as nat),
                    ma > 0,
                    pow2(sa as nat) > 0,
            ;
            lemma_aligned_exact(ma as nat, sa as nat, da);
        }
        let bits: u64 = round_scaled(ma as u128, sa, 0, false, Ghost(da), Ghost(1));
        Double::with_sign(negative, bits)
    } else {
        let m: u128 = 8 * (ma as u128) - 1;
        let scale: u32 = sa - 3;
        proof {
            lemma_far(ma as nat, sa as nat, mb as nat, sb as nat);
            let unit = pow2(scale as nat);
            assert(m * unit < da - db < (m + 1) * unit && da > db) by (nonlinear_arith)
                requires
                    da == (m + 1) * unit,
                    0 < db < unit,
                    m >= 0,
            ;
            lemma_between_inexact(m as nat, scale as nat, (da - db) as nat);
            lemma_pow2_adds(3, 52);
            lemma_pow2_strictly_increases(54, 55);
        }
        let bits: u64 = round_scaled(m, scale, 0, true, Ghost((da - db) as nat), Ghost(1));
        Double::with_sign(negative, bits)
    }
}

impl core::ops::Add<Double> for Double {
    type Output = Double;

    fn add(self, rhs: Double) -> (r: Double)
        ensures
            r == self.spec_add(rhs),
    {
        proof {
            reveal(Double::spec_add);
        }
        if self.is_nan() || rhs.is_nan() {
            return Double::nan();
        }
        if self.is_infinite() {
            if rhs.is_infinite() && self.bits != rhs.bits {
                return Double::nan();
            }
            return self;
        }
        if rhs.is_infinite() {
            return rhs;
        }
        let negative: bool = self.is_sign_negative();
        let same: bool = negative == rhs.is_sign_negative();
        proof {
            lemma_round_zero(1);
        }
        if self.abs_bits() >= rhs.abs_bits() {
            if same {
                add_magnitudes(self, rhs, negative)
            } else {
                sub_magnitudes(self, rhs, negative)
            }
        } else {
            if same {
                add_magnitudes(rhs, self, negative)
            } else {
                sub_magnitudes(rhs, self, !negative)
            }
        }
    }
}

impl vstd::std_specs::ops::AddSpecImpl<Double> for Double {
    open spec fn obeys_add_spec() -> bool {
        true
    }

    open spec fn add_req(self, rhs: Double) -> bool {
        true
    }

    open spec fn add_spec(self, rhs: Double) -> Double {
        self.spec_add(rhs)
    }
}

impl core::ops::Sub<Double> for Double {
    type Output = Double;

    fn sub(self, rhs: Double) -> (r: Double)
        ensures
            r == self.spec_sub(rhs),
    {
        self + core::ops::Neg::neg(rhs)
    }
}

impl vstd::std_specs::ops::SubSpecImpl<Double> for Double {
    open spec fn obeys_sub_spec() -> bool {
        true
    }

    open spec fn sub_req(self, rhs: Double) -> bool {
        true
    }

    open spec fn sub_spec(self, rhs: Double) -> Double {
        self.spec_sub(rhs)
    }
}

} // verus!
