//! The square root of a binary64 number.

use vstd::prelude::*;
use vstd::arithmetic::power2::{
    pow2,
    lemma_pow2_pos,
    lemma_pow2_adds,
    lemma_pow2_strictly_increases,
    lemma2_to64,
    lemma2_to64_rest,
};
use vstd::arithmetic::div_mod::{lemma_fundamental_div_mod, lemma_fundamental_div_mod_converse};
use crate::binary64::{Double, INFINITY_BITS, NAN_BITS};
use crate::nearest::{lemma_encode_magnitude, lemma_quotient_normal, lemma_ulp_exponent_bounds};
use crate::rounding::{
    approximates,
    encode,
    round_magnitude,
    round_scaled,
    ulp_exponent,
    lemma_quotient_bound,
    lemma_ulp_exponent_unique,
    lemma_ulp_exponent_of_approximation,
    lemma_round_shift_right,
};
use crate::word::{exp2, normalize, shift_left, lemma_pow2_127};

verus! {

/// `q` is the whole part of the square root of `x`.
pub open spec fn is_floor_sqrt(x: nat, q: nat) -> bool {
    q * q <= x < (q + 1) * (q + 1)
}

/// The whole part of the square root of `x`.
pub open spec fn floor_sqrt(x: nat) -> nat {
    choose|q: nat| is_floor_sqrt(x, q)
}

/// The magnitude bits of the binary64 number nearest to the square root of
/// `n`, in units of `2^-1074`: the whole part of the root over its unit in
/// the last place, one more where the root lies above the midpoint to the
/// next number, or on it with an odd quotient.
pub open spec fn round_root(n: nat) -> u64 {
    let root = floor_sqrt(n);
    let k = ulp_exponent(root, 1);
    let q = root / pow2(k);
    let mid = (2 * q + 1) * pow2(k);
    encode(k, q, 4 * n > mid * mid || (4 * n == mid * mid && q % 2 == 1))
}

impl Double {
    /// The square root: a NaN of a NaN and of a number below zero; a zero
    /// or positive infinity unchanged; else the exact root, rounded.
    #[verifier::opaque]
    pub open spec fn spec_sqrt(self) -> Double {
        if self.spec_is_nan() {
            Double { bits: NAN_BITS }
        } else if self.spec_is_zero() {
            self
        } else if self.spec_is_sign_negative() {
            Double { bits: NAN_BITS }
        } else if self.spec_is_infinite() {
            self
        } else {
            Double { bits: round_root(self.magnitude() * pow2(1074)) }
        }
    }
}

/// The root of a number that is not negative is not negative; it is a NaN
/// of a NaN and positive zero of positive zero.
pub proof fn lemma_sqrt_sign(x: Double)
    requires
        !x.spec_is_sign_negative(),
    ensures
        !x.spec_sqrt().spec_is_sign_negative(),
        x.spec_is_nan() ==> x.spec_sqrt().spec_is_nan(),
        x.bits == 0 ==> x.spec_sqrt().bits == 0,
{
    reveal(Double::spec_sqrt);
    let n = x.magnitude() * pow2(1074);
    let root = floor_sqrt(n);
    let k = ulp_exponent(root, 1);
    let q = root / pow2(k);
    let mid = (2 * q + 1) * pow2(k);
    crate::rounding::lemma_encode_bounded(
        k,
        q,
        4 * n > mid * mid || (4 * n == mid * mid && q % 2 == 1),
    );
}

/// Every number has a whole square root.
pub proof fn lemma_floor_sqrt_exists(x: nat)
    ensures
        is_floor_sqrt(x, floor_sqrt(x)),
    decreases x,
{
    if x == 0 {
        assert(is_floor_sqrt(0, 0)) by (nonlinear_arith);
    } else {
        let y = (x - 1) as nat;
        lemma_floor_sqrt_exists(y);
        let q = floor_sqrt(y);
        if x < (q + 1) * (q + 1) {
            assert(is_floor_sqrt(x, q));
        } else {
            assert((q + 1) * (q + 1) < (q + 2) * (q + 2)) by (nonlinear_arith);
            assert(is_floor_sqrt(x, q + 1));
        }
    }
}

/// Squares of natural numbers are ordered as the numbers are.
pub proof fn lemma_square_order(a: nat, b: nat)
    by (nonlinear_arith)
    ensures
        a <= b ==> a * a <= b * b,
        a < b ==> a * a < b * b,
{
}

/// The whole square root is the one number between whose square and the
/// square of the next `x` lies.
pub proof fn lemma_floor_sqrt_unique(x: nat, q: nat)
    requires
        is_floor_sqrt(x, q),
    ensures
        floor_sqrt(x) == q,
{
    let p = floor_sqrt(x);
    if p < q {
        lemma_square_order(p + 1, q);
    } else if q < p {
        lemma_square_order(q + 1, p);
    }
}

/// A finite rounded root is within half a unit in the last place of the
/// root: `n` lies between the squares of the two midpoints beside it.
pub proof fn lemma_root_within_half_unit(n: nat)
    requires
        round_root(n) < INFINITY_BITS,
    ensures
        ({
            let x = Double { bits: round_root(n) };
            let unit = pow2(ulp_exponent(floor_sqrt(n), 1));
            let twice = 2 * x.magnitude();
            &&& x.spec_is_finite()
            &&& 4 * n <= (twice + unit) * (twice + unit)
            &&& twice >= unit ==> (twice - unit) * (twice - unit) <= 4 * n
        }),
{
    let root = floor_sqrt(n);
    let k = ulp_exponent(root, 1);
    let unit = pow2(k);
    let q = root / unit;
    let mid = (2 * q + 1) * unit;
    let up = 4 * n > mid * mid || (4 * n == mid * mid && q % 2 == 1);
    let x = Double { bits: round_root(n) };
    let twice = 2 * x.magnitude();
    lemma_floor_sqrt_exists(n);
    assert(1 * pow2(k) == unit) by (nonlinear_arith)
        requires
            unit == pow2(k),
    ;
    lemma_ulp_exponent_bounds(root, 1);
    lemma_quotient_bound(root, 1, k);
    if k > 0 {
        lemma_quotient_normal(root, 1);
    }
    lemma_encode_magnitude(k, q, up);
    lemma_fundamental_div_mod(root as int, unit as int);
    let below = q * unit;
    let above = (q + 1) * unit;
    assert(below <= root && root + 1 <= above) by (nonlinear_arith)
        requires
            root == unit * q + root % unit,
            0 <= root % unit < unit,
            below == q * unit,
            above == (q + 1) * unit,
    ;
    lemma_square_order(below, root);
    lemma_square_order(root + 1, above);
    if up {
        assert(twice == 2 * above && twice - unit == mid) by (nonlinear_arith)
            requires
                twice == 2 * ((q + 1) * unit),
                above == (q + 1) * unit,
                mid == (2 * q + 1) * unit,
        ;
        assert((twice + unit) * (twice + unit) >= 4 * (above * above)) by (nonlinear_arith)
            requires
                twice == 2 * above,
                unit >= 0,
                above >= 0,
        ;
    } else {
        assert(twice == 2 * below && twice + unit == mid) by (nonlinear_arith)
            requires
                twice == 2 * ((q + 0) * unit),
                below == q * unit,
                mid == (2 * q + 1) * unit,
        ;
        if twice >= unit {
            assert((twice - unit) * (twice - unit) <= 4 * (below * below)) by (nonlinear_arith)
                requires
                    twice == 2 * below,
                    0 <= unit <= twice,
            ;
        }
    }
}

/// The whole part of the square root of `a`, digit by digit.
pub fn integer_sqrt(a: u128) -> (r: u64)
    requires
        a < pow2(112),
    ensures
        r == floor_sqrt(a as nat),
        is_floor_sqrt(a as nat, r as nat),
        r < pow2(56),
{
    let mut r: u128 = 0;
    let mut bit: u32 = 56;
    proof {
        lemma2_to64_rest();
        lemma_pow2_adds(56, 56);
        lemma_pow2_127();
    }
    while bit > 0
        invariant
            bit <= 56,
            r * r <= a,
            a < (r + pow2(bit as nat)) * (r + pow2(bit as nat)),
            r + pow2(bit as nat) <= pow2(56),
            pow2(56) * pow2(56) < pow2(127),
            pow2(127) < u128::MAX,
        decreases bit,
    {
        let ghost wide: nat = pow2(bit as nat);
        bit = bit - 1;
        proof {
            lemma2_to64();
            lemma_pow2_adds(bit as nat, 1);
            lemma_pow2_pos(bit as nat);
            lemma_pow2_strictly_increases(56, 127);
            assert(wide == 2 * pow2(bit as nat));
        }
        let step: u128 = exp2(bit);
        let candidate: u128 = r + step;
        proof {
            assert(candidate + step == r + wide);
            assert(candidate * candidate < pow2(56) * pow2(56)) by (nonlinear_arith)
                requires
                    0 <= candidate < pow2(56),
            ;
        }
        if candidate * candidate <= a {
            r = candidate;
        }
    }
    proof {
        lemma2_to64();
        lemma_floor_sqrt_unique(a as nat, r as nat);
    }
    r as u64
}

/// Rounding the root of `a * 4^h` is rounding a rational that lies on the
/// same side of every midpoint: the whole root `r` of `a` at scale `h`,
/// with half a unit more where the root is not whole.
pub proof fn lemma_round_root(a: nat, r: nat, h: nat, n: nat)
    requires
        is_floor_sqrt(a, r),
        pow2(55) <= r < pow2(56),
        n == a * pow2(2 * h),
    ensures
        a != r * r ==> approximates(r, h, 0, true, (2 * r + 1) * pow2(h), 2) && round_root(n)
            == round_magnitude((2 * r + 1) * pow2(h), 2),
        a == r * r ==> approximates(r, h, 0, false, r * pow2(h), 1) && round_root(n)
            == round_magnitude(r * pow2(h), 1),
{
    let inexact = a != r * r;
    let p = pow2(h);
    let k = h + 3;
    let q = r / 8;
    let rem = r % 8;
    let ns: nat = if inexact {
        (2 * r + 1) * p
    } else {
        r * p
    };
    let ds: nat = if inexact {
        2
    } else {
        1
    };
    lemma2_to64();
    lemma_pow2_pos(h);
    lemma_pow2_adds(h, h);
    lemma_pow2_adds(h, 3);
    lemma_pow2_adds(55, h);
    lemma_pow2_adds(56, h);
    assert(2 * h == h + h);
    // The rational.
    assert(approximates(r, h, 0, inexact, ns, ds)) by {
        if inexact {
            assert(r * (p * 2) < ((2 * r + 1) * p) * 1 && ((2 * r + 1) * p) * 1 < (r + 1) * (p
                * 2)) by (nonlinear_arith)
                requires
                    p > 0,
            ;
        } else {
            assert(r * (p * 1) == (r * p) * 1 && (r * p) * 1 < (r + 1) * (p * 1))
                by (nonlinear_arith)
                requires
                    p > 0,
            ;
        }
    }
    lemma_ulp_exponent_of_approximation(r, h, 0, inexact, ns, ds, 56, k);
    lemma_round_shift_right(r, h, 0, inexact, ns, ds, k, 3);
    // The root.
    let root = floor_sqrt(n);
    lemma_floor_sqrt_exists(n);
    let lo = r * p;
    let hi = (r + 1) * p;
    assert(lo * lo <= n && n < hi * hi) by (nonlinear_arith)
        requires
            lo == r * p,
            hi == (r + 1) * p,
            n == a * (p * p),
            r * r <= a < (r + 1) * (r + 1),
            p > 0,
    ;
    if root < lo {
        lemma_square_order(root + 1, lo);
    }
    if root >= hi {
        lemma_square_order(hi, root);
    }
    assert(lo <= root < hi);
    assert(pow2(55 + h) <= lo && hi <= pow2(56 + h)) by (nonlinear_arith)
        requires
            lo == r * p,
            hi == (r + 1) * p,
            pow2(55) <= r,
            r + 1 <= pow2(56),
            pow2(55 + h) == pow2(55) * p,
            pow2(56 + h) == pow2(56) * p,
            p > 0,
    ;
    assert(1 * pow2(53 + k) == pow2(56 + h) && 1 * pow2(52 + k) == pow2(55 + h));
    lemma_ulp_exponent_unique(root, 1, k);
    let unit = pow2(k);
    let rest = root - q * unit;
    assert(0 <= rest < unit) by (nonlinear_arith)
        requires
            rest == root - q * unit,
            unit == p * 8,
            r == 8 * q + rem,
            0 <= rem < 8,
            r * p <= root < (r + 1) * p,
    ;
    lemma_fundamental_div_mod_converse(root as int, unit as int, q as int, rest);
    assert(root / unit == q);
    let mid = (2 * q + 1) * unit;
    let edge = 8 * q + 4;
    assert(mid * mid == 4 * ((edge * edge) * (p * p)) && 4 * n == 4 * (a * (p * p)))
        by (nonlinear_arith)
        requires
            mid == (2 * q + 1) * unit,
            unit == p * 8,
            edge == 8 * q + 4,
            n == a * (p * p),
    ;
    let pp = p * p;
    assert(pp > 0) by (nonlinear_arith)
        requires
            pp == p * p,
            p > 0,
    ;
    crate::rounding::lemma_cancel(a as int, (edge * edge) as int, pp as int);
    if rem > 4 {
        lemma_square_order(edge + 1, r);
        lemma_square_order(edge, edge + 1);
    } else if rem < 4 {
        lemma_square_order(r + 1, edge);
    }
    assert(r / pow2(3) == q && r % pow2(3) == rem && pow2(2) == 4);
}

impl Double {
    /// The square root, correctly rounded.
    pub fn sqrt(self) -> (r: Double)
        ensures
            r == self.spec_sqrt(),
    {
        proof {
            reveal(Double::spec_sqrt);
        }
        if self.is_nan() {
            return Double::nan();
        }
        if self.is_zero() {
            return self;
        }
        if self.is_sign_negative() {
            return Double::nan();
        }
        if self.is_infinite() {
            return self;
        }
        let (m, s) = self.decode();
        let (nm, z) = normalize(m);
        // The value is `nm * 2^p` units of `2^-2148`, whose root is counted
        // in units of `2^-1074`. The shift `t` leaves an even exponent.
        let p: u32 = s + 1074 - z;
        let t: u32 = if p % 2 == 0 {
            58
        } else {
            59
        };
        let h: u32 = (p - t) / 2;
        let ghost n: nat = self.magnitude() * pow2(1074);
        proof {
            // `2^110 <= nm * 2^t < 2^112`, so that the root has fifty-six bits.
            lemma2_to64();
            lemma2_to64_rest();
            lemma_pow2_127();
            lemma_pow2_adds(52, t as nat);
            lemma_pow2_adds(53, t as nat);
            lemma_pow2_adds(55, 55);
            lemma_pow2_strictly_increases(112, 127);
            if t == 58 {
                lemma_pow2_strictly_increases(111, 112);
            } else {
                lemma_pow2_strictly_increases(110, 111);
            }
            lemma_pow2_pos(t as nat);
            assert(pow2(52) * pow2(t as nat) <= nm * pow2(t as nat) < pow2(53) * pow2(t as nat))
                by (nonlinear_arith)
                requires
                    pow2(52) <= nm < pow2(53),
                    pow2(t as nat) > 0,
            ;
        }
        let a: u128 = shift_left(nm as u128, t);
        let root: u64 = integer_sqrt(a);
        let inexact: bool = (root as u128) * (root as u128) != a;
        proof {
            if root < pow2(55) {
                lemma_square_order((root + 1) as nat, pow2(55));
            }
            lemma_pow2_adds(z as nat, t as nat);
            lemma_pow2_adds((z + t) as nat, (2 * h) as nat);
            lemma_pow2_adds(s as nat, 1074);
            lemma_pow2_strictly_increases(54, 55);
            lemma_pow2_strictly_increases(56, 127);
            assert(z + t + 2 * h == s + 1074);
            assert(n == a * pow2((2 * h) as nat)) by (nonlinear_arith)
                requires
                    n == (m * pow2(s as nat)) * pow2(1074),
                    a == (m * pow2(z as nat)) * pow2(t as nat),
                    (pow2(z as nat) * pow2(t as nat)) * pow2((2 * h) as nat) == pow2(s as nat)
                        * pow2(1074),
            ;
            lemma_round_root(a as nat, root as nat, h as nat, n);
        }
        let ghost ns: nat = if inexact {
            (2 * (root as nat) + 1) * pow2(h as nat)
        } else {
            (root as nat) * pow2(h as nat)
        };
        let ghost ds: nat = if inexact {
            2
        } else {
            1
        };
        let bits: u64 = round_scaled(root as u128, h, 0, inexact, Ghost(ns), Ghost(ds));
        Double { bits }
    }
}

} // verus!
