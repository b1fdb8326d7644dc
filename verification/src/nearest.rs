//! What rounding promises: the result is within half a unit in the last
//! place of the value, and of two numbers as near it is the one whose last
//! bit is clear; a value that is a binary64 number is kept; a larger value
//! never rounds to a smaller number.

use vstd::prelude::*;
use vstd::arithmetic::power2::{
    pow2,
    lemma_pow2_pos,
    lemma_pow2_adds,
    lemma_pow2_unfold,
    lemma_pow2_strictly_increases,
    lemma2_to64,
    lemma2_to64_rest,
};
use vstd::arithmetic::div_mod::{
    lemma_fundamental_div_mod,
    lemma_fundamental_div_mod_converse,
    lemma_mod_bound,
    lemma_div_is_ordered,
};
use crate::binary64::{Double, HIDDEN_BIT, INFINITY_BITS};
use crate::rounding::{
    encode,
    round_magnitude,
    ulp_exponent,
    lemma_ulp_exponent_unique,
    lemma_quotient_bound,
};

verus! {

/// `k` is the unit exponent of `n / d`: the value is below `2^(53 + k)`
/// and, unless `k` is zero, at or above `2^(52 + k)`.
pub proof fn lemma_ulp_exponent_bounds(n: nat, d: nat)
    requires
        d > 0,
    ensures
        n < d * pow2(53 + ulp_exponent(n, d)),
        ulp_exponent(n, d) > 0 ==> n >= d * pow2(52 + ulp_exponent(n, d)),
    decreases n,
{
    let k = ulp_exponent(n, d);
    if n == 0 || n < d * pow2(53) {
        lemma_pow2_pos(53);
        assert(d * pow2(53) > 0) by (nonlinear_arith)
            requires
                d > 0,
                pow2(53) > 0,
        ;
    } else {
        let j = ulp_exponent(n / 2, d);
        lemma_ulp_exponent_bounds(n / 2, d);
        assert(k == j + 1);
        lemma_pow2_unfold(53 + k);
        lemma_pow2_unfold(52 + k);
        assert(d * pow2(53 + k) == 2 * (d * pow2(53 + j))) by (nonlinear_arith)
            requires
                pow2(53 + k) == 2 * pow2(53 + j),
        ;
        if j > 0 {
            assert(d * pow2(52 + k) == 2 * (d * pow2(52 + j))) by (nonlinear_arith)
                requires
                    pow2(52 + k) == 2 * pow2(52 + j),
            ;
        }
    }
}

/// A quotient at a unit exponent above zero has its leading bit set.
pub proof fn lemma_quotient_normal(n: nat, d: nat)
    requires
        d > 0,
        ulp_exponent(n, d) > 0,
    ensures
        n / (d * pow2(ulp_exponent(n, d))) >= HIDDEN_BIT,
{
    let k = ulp_exponent(n, d);
    let unit = d * pow2(k);
    lemma_ulp_exponent_bounds(n, d);
    lemma_pow2_pos(k);
    lemma_pow2_adds(k, 52);
    lemma2_to64();
    lemma2_to64_rest();
    assert(unit > 0 && d * pow2(52 + k) == unit * pow2(52)) by (nonlinear_arith)
        requires
            unit == d * pow2(k),
            pow2(52 + k) == pow2(k) * pow2(52),
            pow2(k) > 0,
            d > 0,
    ;
    lemma_div_is_ordered((unit * pow2(52)) as int, n as int, unit as int);
    vstd::arithmetic::div_mod::lemma_div_multiples_vanish(pow2(52) as int, unit as int);
    assert(unit * pow2(52) == pow2(52) * unit) by (nonlinear_arith);
}

/// The number that `encode` gives, where it is finite, has the magnitude
/// `q` units of `2^k`, and one unit more where `up` holds.
pub proof fn lemma_encode_magnitude(k: nat, q: nat, up: bool)
    requires
        q < 2 * HIDDEN_BIT,
        k > 0 ==> q >= HIDDEN_BIT,
        encode(k, q, up) < INFINITY_BITS,
    ensures
        ({
            let x = Double { bits: encode(k, q, up) };
            let carry: nat = if up {
                1
            } else {
                0
            };
            x.spec_is_finite() && !x.spec_is_sign_negative() && x.magnitude() == (q + carry)
                * pow2(k)
        }),
{
    let carry: nat = if up {
        1
    } else {
        0
    };
    let total = q + carry;
    let bits = encode(k, q, up);
    let x = Double { bits };
    assert(k * HIDDEN_BIT >= 0) by (nonlinear_arith);
    assert(bits == k * HIDDEN_BIT + total);
    assert(k < 2047) by (nonlinear_arith)
        requires
            k * HIDDEN_BIT + total < INFINITY_BITS,
            total >= 0,
            HIDDEN_BIT == 0x0010_0000_0000_0000,
            INFINITY_BITS == 0x7ff0_0000_0000_0000,
    ;
    lemma2_to64();
    if total < HIDDEN_BIT {
        // A subnormal number: the bits are the significand.
        lemma_fundamental_div_mod_converse(bits as int, HIDDEN_BIT as int, k as int, total as int);
        assert(k == 0);
        assert(x.magnitude() == total * pow2(0));
    } else if total < 2 * HIDDEN_BIT {
        // A normal number: the hidden bit steps the exponent field to `k + 1`.
        lemma_fundamental_div_mod_converse(
            bits as int,
            HIDDEN_BIT as int,
            (k + 1) as int,
            total - HIDDEN_BIT,
        );
        assert(x.exponent_field() == k + 1);
        assert(x.significand() == total);
        assert(x.scale() == k);
    } else {
        // The carry has left the significand: `2^52` at the next exponent.
        lemma_fundamental_div_mod_converse(bits as int, HIDDEN_BIT as int, (k + 2) as int, 0);
        assert(x.exponent_field() == k + 2);
        assert(x.significand() == HIDDEN_BIT);
        assert(x.scale() == k + 1);
        lemma_pow2_unfold(k + 1);
        assert(HIDDEN_BIT * pow2(k + 1) == total * pow2(k)) by (nonlinear_arith)
            requires
                total == 2 * HIDDEN_BIT,
                pow2(k + 1) == 2 * pow2(k),
        ;
    }
}

/// A finite result of rounding lies within half a unit in the last place of
/// the value.
pub proof fn lemma_round_within_half_unit(n: nat, d: nat)
    requires
        d > 0,
        round_magnitude(n, d) < INFINITY_BITS,
    ensures
        ({
            let x = Double { bits: round_magnitude(n, d) };
            let unit = d * pow2(ulp_exponent(n, d));
            &&& x.spec_is_finite()
            &&& 2 * (x.magnitude() * d - n) <= unit
            &&& 2 * (n - x.magnitude() * d) <= unit
        }),
{
    let k = ulp_exponent(n, d);
    let unit = d * pow2(k);
    let q = n / unit;
    let r = n % unit;
    let up = 2 * r > unit || (2 * r == unit && q % 2 == 1);
    let x = Double { bits: round_magnitude(n, d) };
    lemma_ulp_exponent_bounds(n, d);
    lemma_quotient_bound(n, d, k);
    if k > 0 {
        lemma_quotient_normal(n, d);
    }
    lemma_encode_magnitude(k, q, up);
    lemma_fundamental_div_mod(n as int, unit as int);
    lemma_mod_bound(n as int, unit as int);
    let carry: nat = if up {
        1
    } else {
        0
    };
    assert(x.magnitude() * d == (q + carry) * unit) by (nonlinear_arith)
        requires
            x.magnitude() == (q + carry) * pow2(k),
            unit == d * pow2(k),
    ;
    assert((q + carry) * unit == unit * q + carry * unit) by (nonlinear_arith);
    assert(carry * unit == if up {
        unit
    } else {
        0
    }) by (nonlinear_arith)
        requires
            carry == if up {
                1nat
            } else {
                0nat
            },
    ;
}

/// A value halfway between two numbers rounds to the one whose last bit is
/// clear.
pub proof fn lemma_round_tie_is_even(n: nat, d: nat)
    requires
        d > 0,
        2 * (n % (d * pow2(ulp_exponent(n, d)))) == d * pow2(ulp_exponent(n, d)),
    ensures
        round_magnitude(n, d) % 2 == 0,
{
    let k = ulp_exponent(n, d);
    let unit = d * pow2(k);
    let q = n / unit;
    // On a tie the carry is the last bit of the quotient, so that the sum
    // of the two is even; the exponent adds a multiple of `2^52`.
    let up = q % 2 == 1;
    let carry: nat = if up {
        1
    } else {
        0
    };
    let half = k * 0x0008_0000_0000_0000;
    lemma_pow2_pos(k);
    assert(unit > 0) by (nonlinear_arith)
        requires
            unit == d * pow2(k),
            d > 0,
            pow2(k) > 0,
    ;
    vstd::arithmetic::div_mod::lemma_div_pos_is_pos(n as int, unit as int);
    assert(k * HIDDEN_BIT == 2 * half && half >= 0) by (nonlinear_arith)
        requires
            HIDDEN_BIT == 0x0010_0000_0000_0000,
            half == k * 0x0008_0000_0000_0000,
    ;
    assert((q + carry) % 2 == 0);
    assert((2 * half + (q + carry)) % 2 == 0);
    assert(round_magnitude(n, d) == encode(k, q, up));
}

/// The value of a finite binary64 number rounds to that number.
pub proof fn lemma_round_exact(x: Double, d: nat)
    requires
        x.spec_is_finite(),
        d > 0,
    ensures
        round_magnitude(x.magnitude() * d, d) == x.magnitude_bits(),
{
    let m = x.significand();
    let k = x.scale();
    let n = x.magnitude() * d;
    let unit = d * pow2(k);
    lemma2_to64();
    lemma2_to64_rest();
    lemma_pow2_pos(k);
    lemma_pow2_adds(k, 53);
    lemma_pow2_adds(k, 52);
    assert(unit > 0 && n == m * unit && d * pow2(53 + k) == unit * pow2(53) && d * pow2(52 + k)
        == unit * pow2(52)) by (nonlinear_arith)
        requires
            n == (m * pow2(k)) * d,
            unit == d * pow2(k),
            pow2(53 + k) == pow2(k) * pow2(53),
            pow2(52 + k) == pow2(k) * pow2(52),
            pow2(k) > 0,
            d > 0,
    ;
    assert(m * unit < unit * pow2(53) && (k > 0 ==> m * unit >= unit * pow2(52)))
        by (nonlinear_arith)
        requires
            m < pow2(53),
            k > 0 ==> m >= pow2(52),
            unit > 0,
    ;
    lemma_ulp_exponent_unique(n, d, k);
    lemma_fundamental_div_mod_converse(n as int, unit as int, m as int, 0);
    assert(k * HIDDEN_BIT <= 2045 * HIDDEN_BIT) by (nonlinear_arith)
        requires
            k <= 2045,
    ;
    // The bits of `x` are its exponent field and its fraction, side by side.
    lemma_fundamental_div_mod(x.magnitude_bits() as int, HIDDEN_BIT as int);
}

/// A whole number below `2^53` is a binary64 number: at the scale of whole
/// numbers it rounds to a finite number of exactly its value.
pub proof fn lemma_round_whole(m: nat)
    requires
        m < pow2(53),
    ensures
        ({
            let x = Double { bits: round_magnitude(m * pow2(1074), 1) };
            x.spec_is_finite() && !x.spec_is_sign_negative() && x.magnitude() == m * pow2(1074)
        }),
{
    let n = m * pow2(1074);
    let k = ulp_exponent(n, 1);
    let unit = 1 * pow2(k);
    lemma2_to64();
    lemma2_to64_rest();
    lemma_pow2_pos(1074);
    lemma_pow2_pos(k);
    lemma_ulp_exponent_bounds(n, 1);
    lemma_quotient_bound(n, 1, k);
    // The unit in the last place is no larger than one.
    if k > 1074 {
        lemma_pow2_adds(53, 1074);
        if 53 + 1074 < 52 + k {
            lemma_pow2_strictly_increases(53 + 1074, 52 + k);
        }
        assert(n < pow2(53) * pow2(1074)) by (nonlinear_arith)
            requires
                n == m * pow2(1074),
                m < pow2(53),
                pow2(1074) > 0,
        ;
        assert(1 * pow2(52 + k) == pow2(52 + k)) by (nonlinear_arith);
        assert(false);
    }
    let t = (1074 - k) as nat;
    lemma_pow2_adds(t, k);
    let q = m * pow2(t);
    assert(n == q * unit + 0) by (nonlinear_arith)
        requires
            n == m * pow2(1074),
            pow2(1074) == pow2(t) * pow2(k),
            unit == 1 * pow2(k),
            q == m * pow2(t),
    ;
    lemma_fundamental_div_mod_converse(n as int, unit as int, q as int, 0);
    if k > 0 {
        lemma_quotient_normal(n, 1);
    }
    assert(k * HIDDEN_BIT + q < INFINITY_BITS) by (nonlinear_arith)
        requires
            k <= 1074,
            q < 2 * HIDDEN_BIT,
            HIDDEN_BIT == 0x0010_0000_0000_0000,
            INFINITY_BITS == 0x7ff0_0000_0000_0000,
    ;
    lemma_encode_magnitude(k, q, false);
    assert((q + 0) * pow2(k) == n) by (nonlinear_arith)
        requires
            n == q * unit + 0,
            unit == 1 * pow2(k),
    ;
}

/// Finite numbers are ordered by magnitude as their magnitude bits are.
pub proof fn lemma_magnitude_monotone(a: Double, b: Double)
    requires
        b.spec_is_finite(),
        a.magnitude_bits() <= b.magnitude_bits(),
    ensures
        a.magnitude() <= b.magnitude(),
{
    let ma = a.significand();
    let mb = b.significand();
    let sa = a.scale();
    let sb = b.scale();
    lemma2_to64();
    lemma2_to64_rest();
    lemma_pow2_pos(sa);
    lemma_pow2_pos(sb);
    if a.exponent_field() == b.exponent_field() {
        assert(ma * pow2(sa) <= mb * pow2(sb)) by (nonlinear_arith)
            requires
                ma <= mb,
                sa == sb,
        ;
    } else if a.exponent_field() == 0 {
        assert(ma * pow2(sa) <= mb * pow2(sb)) by (nonlinear_arith)
            requires
                ma < mb,
                pow2(sa) == 1,
                pow2(sb) >= 1,
        ;
    } else {
        lemma_pow2_adds(sa, 1);
        if sa + 1 < sb {
            lemma_pow2_strictly_increases(sa + 1, sb);
        }
        assert(ma * pow2(sa) <= mb * pow2(sb)) by (nonlinear_arith)
            requires
                ma < 2 * HIDDEN_BIT,
                mb >= HIDDEN_BIT,
                2 * pow2(sa) <= pow2(sb),
                pow2(sa) > 0,
        ;
    }
}

/// A larger value has no smaller unit in the last place.
pub proof fn lemma_ulp_exponent_monotone(a: nat, b: nat, d: nat)
    requires
        d > 0,
        a <= b,
    ensures
        ulp_exponent(a, d) <= ulp_exponent(b, d),
{
    let ka = ulp_exponent(a, d);
    let kb = ulp_exponent(b, d);
    lemma_ulp_exponent_bounds(a, d);
    lemma_ulp_exponent_bounds(b, d);
    if kb < ka {
        if kb + 1 < ka {
            lemma_pow2_strictly_increases(53 + kb, 52 + ka);
        }
        assert(d * pow2(53 + kb) <= d * pow2(52 + ka)) by (nonlinear_arith)
            requires
                pow2(53 + kb) <= pow2(52 + ka),
        ;
    }
}

/// Rounding keeps the order: a larger value does not round to a smaller
/// number.
pub proof fn lemma_round_monotone(a: nat, b: nat, d: nat)
    requires
        d > 0,
        a <= b,
    ensures
        round_magnitude(a, d) <= round_magnitude(b, d),
{
    let ka = ulp_exponent(a, d);
    let kb = ulp_exponent(b, d);
    let ua = d * pow2(ka);
    let ub = d * pow2(kb);
    let qa = a / ua;
    let qb = b / ub;
    lemma_ulp_exponent_monotone(a, b, d);
    lemma_ulp_exponent_bounds(a, d);
    lemma_ulp_exponent_bounds(b, d);
    lemma_quotient_bound(a, d, ka);
    lemma_quotient_bound(b, d, kb);
    lemma2_to64();
    lemma2_to64_rest();
    if ka < kb {
        lemma_quotient_normal(b, d);
        assert(ka * HIDDEN_BIT + 2 * HIDDEN_BIT <= kb * HIDDEN_BIT + HIDDEN_BIT)
            by (nonlinear_arith)
            requires
                ka + 1 <= kb,
        ;
    } else {
        lemma_div_is_ordered(a as int, b as int, ua as int);
        lemma_fundamental_div_mod(a as int, ua as int);
        lemma_fundamental_div_mod(b as int, ua as int);
        assert(qa == qb ==> a % ua <= b % ua) by {
            if qa == qb {
                assert(ua * qa == ua * qb);
            }
        }
    }
    assert(ka * HIDDEN_BIT >= 0 && kb * HIDDEN_BIT >= 0) by (nonlinear_arith);
}

} // verus!
