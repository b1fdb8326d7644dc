//! Rounding a positive rational to the nearest binary64 magnitude, ties to
//! the even significand.

use vstd::prelude::*;
use vstd::arithmetic::power2::{
    pow2,
    lemma_pow2_pos,
    lemma_pow2_unfold,
    lemma_pow2_adds,
    lemma_pow2_strictly_increases,
    lemma2_to64,
    lemma2_to64_rest,
};
use vstd::arithmetic::div_mod::{
    lemma_fundamental_div_mod,
    lemma_fundamental_div_mod_converse,
    lemma_mod_bound,
};
use crate::binary64::{HIDDEN_BIT, INFINITY_BITS};
use crate::word::{bit_length, exp2, shift_left, shift_right, lemma_pow2_127};

verus! {

/// The exponent of the unit in the last place of `n / d`: the least `k` with
/// `n / d < 2^(53 + k)`. Values are counted in units of `2^-1074`, so `k` is
/// zero through the subnormal numbers and the first normal binade.
pub open spec fn ulp_exponent(n: nat, d: nat) -> nat
    decreases n,
{
    if n == 0 || d == 0 || n < d * pow2(53) {
        0
    } else {
        1 + ulp_exponent(n / 2, d)
    }
}

/// The magnitude bits of the binary64 number nearest to `n / d` units of
/// `2^-1074`: the quotient by the unit in the last place, one more where the
/// remainder is over half a unit or is half a unit and the quotient is odd,
/// and infinity where that passes the largest finite number.
pub open spec fn round_magnitude(n: nat, d: nat) -> u64 {
    let k = ulp_exponent(n, d);
    let unit = d * pow2(k);
    let q = n / unit;
    let r = n % unit;
    encode(k, q, 2 * r > unit || (2 * r == unit && q % 2 == 1))
}

/// The magnitude bits for `q` units of `2^k`, one more where `up` holds: the
/// exponent and the significand added, so that a carry out of the
/// significand steps the exponent, and infinity where the sum passes the
/// largest finite number.
pub open spec fn encode(k: nat, q: nat, up: bool) -> u64 {
    let carry: nat = if up {
        1
    } else {
        0
    };
    let encoded = k * HIDDEN_BIT + q + carry;
    if encoded >= INFINITY_BITS {
        INFINITY_BITS
    } else {
        encoded as u64
    }
}

/// `n / d` is `(m + e) * 2^up / 2^down` for some `0 <= e < 1`, and `e` is
/// zero exactly where `inexact` is false.
pub open spec fn approximates(m: nat, up: nat, down: nat, inexact: bool, n: nat, d: nat) -> bool {
    &&& d > 0
    &&& m * (pow2(up) * d) <= n * pow2(down)
    &&& n * pow2(down) < (m + 1) * (pow2(up) * d)
    &&& inexact <==> m * (pow2(up) * d) < n * pow2(down)
}

/// `ulp_exponent(n, d)` is the one `k` that puts `n / d` below `2^(53 + k)`
/// and, unless it is zero, at or above `2^(52 + k)`.
pub proof fn lemma_ulp_exponent_unique(n: nat, d: nat, k: nat)
    requires
        d > 0,
        n < d * pow2(53 + k),
        k > 0 ==> n >= d * pow2(52 + k),
    ensures
        ulp_exponent(n, d) == k,
    decreases k,
{
    if k > 0 {
        let j = (k - 1) as nat;
        let high = d * pow2(52 + k);
        let low = d * pow2(52 + j);
        lemma_pow2_unfold(52 + k);
        lemma_pow2_unfold(53 + k);
        assert(52 + k == 53 + j);
        assert(d * pow2(53 + k) == 2 * high) by (nonlinear_arith)
            requires
                pow2(53 + k) == 2 * pow2(52 + k),
                high == d * pow2(52 + k),
        ;
        assert(high == 2 * low) by (nonlinear_arith)
            requires
                pow2(52 + k) == 2 * pow2(52 + j),
                high == d * pow2(52 + k),
                low == d * pow2(52 + j),
        ;
        if k > 1 {
            lemma_pow2_strictly_increases(53, 52 + k);
        }
        assert(d * pow2(53) <= high) by (nonlinear_arith)
            requires
                pow2(53) <= pow2(52 + k),
                high == d * pow2(52 + k),
        ;
        lemma_ulp_exponent_unique(n / 2, d, j);
    }
}

/// A rounded magnitude is a finite number's or infinity's.
pub proof fn lemma_round_bounded(n: nat, d: nat)
    ensures
        round_magnitude(n, d) <= INFINITY_BITS,
{
    let k = ulp_exponent(n, d);
    let unit = d * pow2(k);
    let q = n / unit;
    let r = n % unit;
    lemma_encode_bounded(k, q, 2 * r > unit || (2 * r == unit && q % 2 == 1));
}

/// Encoded magnitude bits are a finite number's or infinity's.
pub proof fn lemma_encode_bounded(k: nat, q: nat, up: bool)
    ensures
        encode(k, q, up) <= INFINITY_BITS,
{
    assert(k * HIDDEN_BIT >= 0) by (nonlinear_arith);
}

/// Zero rounds to zero.
pub proof fn lemma_round_zero(d: nat)
    requires
        d > 0,
    ensures
        round_magnitude(0, d) == 0,
{
    lemma2_to64();
    assert(d * pow2(0) == d) by (nonlinear_arith)
        requires
            pow2(0) == 1,
    ;
    vstd::arithmetic::div_mod::lemma_basic_div(0, d as int);
    vstd::arithmetic::div_mod::lemma_small_mod(0, d);
}

/// Cancels a positive factor from both sides of an inequality.
pub proof fn lemma_cancel(a: int, b: int, u: int)
    by (nonlinear_arith)
    requires
        u > 0,
    ensures
        a * u <= b * u <==> a <= b,
        a * u < b * u <==> a < b,
{
}

/// The unit in the last place of an approximated value, from the bit
/// length of `m`.
pub proof fn lemma_ulp_exponent_of_approximation(
    m: nat,
    up: nat,
    down: nat,
    inexact: bool,
    n: nat,
    d: nat,
    len: nat,
    k: nat,
)
    requires
        approximates(m, up, down, inexact, n, d),
        len >= 1,
        pow2((len - 1) as nat) <= m < pow2(len),
        k + down + 53 >= len + up,
        k > 0 ==> k + down + 53 == len + up,
    ensures
        ulp_exponent(n, d) == k,
        n < d * pow2(53 + k),
{
    let u = pow2(down) as int;
    let y = (pow2(up) * d) as int;
    let top = pow2(len) as int;
    let bound = (d * pow2(53 + k)) as int;
    lemma_pow2_pos(down);
    lemma_pow2_pos(up);
    lemma_pow2_adds(len, up);
    lemma_pow2_adds(53 + k, down);
    if len + up < 53 + k + down {
        lemma_pow2_strictly_increases(len + up, 53 + k + down);
    }
    assert((m + 1) * y <= bound * u) by (nonlinear_arith)
        requires
            m + 1 <= top,
            y == pow2(up) * d,
            top * pow2(up) <= pow2(53 + k) * u,
            bound == d * pow2(53 + k),
            d > 0,
    ;
    lemma_cancel(n as int, bound, u);
    if k > 0 {
        let floor = (d * pow2(52 + k)) as int;
        let bottom = pow2((len - 1) as nat) as int;
        lemma_pow2_adds((len - 1) as nat, up);
        lemma_pow2_adds(52 + k, down);
        assert((len - 1) as nat + up == 52 + k + down);
        assert(floor * u <= m * y) by (nonlinear_arith)
            requires
                bottom <= m,
                y == pow2(up) * d,
                bottom * pow2(up) == pow2(52 + k) * u,
                floor == d * pow2(52 + k),
                d > 0,
        ;
        lemma_cancel(floor, n as int, u);
    }
    lemma_ulp_exponent_unique(n, d, k);
}

/// Rounding where the unit in the last place is `2^s` times the unit of `m`:
/// the quotient is `m` without its last `s` bits, and those bits, with
/// `inexact`, say on which side of the midpoint the value lies.
pub proof fn lemma_round_shift_right(
    m: nat,
    up: nat,
    down: nat,
    inexact: bool,
    n: nat,
    d: nat,
    k: nat,
    s: nat,
)
    requires
        approximates(m, up, down, inexact, n, d),
        s >= 1,
        k + down == up + s,
    ensures
        ({
            let unit = d * pow2(k);
            let rem = m % pow2(s);
            let half = pow2((s - 1) as nat);
            &&& n / unit == m / pow2(s)
            &&& 2 * (n % unit) > unit <==> rem > half || (rem == half && inexact)
            &&& 2 * (n % unit) == unit <==> rem == half && !inexact
        }),
{
    let u = pow2(down) as int;
    let y = (pow2(up) * d) as int;
    let big = pow2(s) as int;
    let half = pow2((s - 1) as nat) as int;
    let unit = (d * pow2(k)) as int;
    let q = m as int / big;
    let rem = m as int % big;
    let x = (n * pow2(down)) as int;
    lemma_pow2_pos(down);
    lemma_pow2_pos(up);
    lemma_pow2_pos(s);
    lemma_pow2_pos(k);
    lemma_pow2_unfold(s);
    lemma_pow2_adds(k, down);
    lemma_pow2_adds(up, s);
    lemma_fundamental_div_mod(m as int, big);
    lemma_mod_bound(m as int, big);
    assert(y > 0) by (nonlinear_arith)
        requires
            y == pow2(up) * d,
            pow2(up) > 0,
            d > 0,
    ;
    assert(unit > 0) by (nonlinear_arith)
        requires
            unit == d * pow2(k),
            pow2(k) > 0,
            d > 0,
    ;
    // The unit, counted in the units of the approximation.
    assert(unit * u == big * y) by (nonlinear_arith)
        requires
            unit == d * pow2(k),
            y == pow2(up) * d,
            pow2(k) * u == pow2(up) * big,
    ;
    let delta = x - m * y;
    assert((m + 1) * (pow2(up) * d) == m * y + y) by (nonlinear_arith)
        requires
            y == pow2(up) * d,
    ;
    assert(m * (pow2(up) * d) == m * y) by (nonlinear_arith)
        requires
            y == pow2(up) * d,
    ;
    assert(0 <= delta < y);
    // n = q * unit + r, with r * u = rem * y + delta.
    let r = n - q * unit;
    let whole = (big * q) * y;
    assert(r * u == n * u - (q * unit) * u) by (nonlinear_arith)
        requires
            r == n - q * unit,
    ;
    assert((q * unit) * u == whole) by (nonlinear_arith)
        requires
            unit * u == big * y,
            whole == (big * q) * y,
    ;
    assert(m * y == whole + rem * y) by (nonlinear_arith)
        requires
            m == big * q + rem,
            whole == (big * q) * y,
    ;
    assert(r * u == rem * y + delta);
    assert(0 <= r * u < unit * u) by (nonlinear_arith)
        requires
            r * u == rem * y + delta,
            0 <= delta < y,
            0 <= rem < big,
            unit * u == big * y,
    ;
    assert(0 * u == 0);
    lemma_cancel(0, r, u);
    lemma_cancel(r, unit, u);
    lemma_fundamental_div_mod_converse(n as int, unit, q, r);
    assert(n as int / unit == q);
    assert(n as int % unit == r);
    // Twice the remainder against the unit.
    assert((2 * r) * u == 2 * (rem * y + delta)) by (nonlinear_arith)
        requires
            r * u == rem * y + delta,
    ;
    assert(unit * u == 2 * (half * y)) by (nonlinear_arith)
        requires
            unit * u == big * y,
            big == 2 * half,
    ;
    lemma_cancel(unit, 2 * r, u);
    lemma_cancel(2 * r, unit, u);
    if rem > half {
        assert(rem * y + delta > half * y) by (nonlinear_arith)
            requires
                rem > half,
                y > 0,
                delta >= 0,
        ;
    } else if rem < half {
        assert(rem * y + delta < half * y) by (nonlinear_arith)
            requires
                rem < half,
                0 <= delta < y,
        ;
    }
}

/// Rounding where the unit in the last place divides the unit of `m`: the
/// value is a whole number of units in the last place.
pub proof fn lemma_round_shift_left(m: nat, up: nat, down: nat, n: nat, d: nat, k: nat, t: nat)
    requires
        approximates(m, up, down, false, n, d),
        up == down + k + t,
    ensures
        n / (d * pow2(k)) == m * pow2(t),
        n % (d * pow2(k)) == 0,
{
    let u = pow2(down) as int;
    let unit = (d * pow2(k)) as int;
    let q = (m * pow2(t)) as int;
    lemma_pow2_pos(down);
    lemma_pow2_pos(k);
    lemma_pow2_adds(down, k);
    lemma_pow2_adds(down + k, t);
    assert(unit > 0) by (nonlinear_arith)
        requires
            unit == d * pow2(k),
            pow2(k) > 0,
            d > 0,
    ;
    assert(n * u == (q * unit) * u) by (nonlinear_arith)
        requires
            n * u == m * (pow2(up) * d),
            pow2(up) == (u * pow2(k)) * pow2(t),
            unit == d * pow2(k),
            q == m * pow2(t),
    ;
    lemma_cancel(n as int, q * unit, u);
    lemma_cancel(q * unit, n as int, u);
    lemma_fundamental_div_mod_converse(n as int, unit, q, 0);
}

/// A value below `2^53` units in the last place has a quotient below `2^53`.
pub proof fn lemma_quotient_bound(n: nat, d: nat, k: nat)
    requires
        d > 0,
        n < d * pow2(53 + k),
    ensures
        d * pow2(k) > 0,
        0 <= n / (d * pow2(k)) < pow2(53),
        pow2(53) == 2 * HIDDEN_BIT,
{
    let unit = d * pow2(k);
    lemma_pow2_pos(k);
    lemma_pow2_adds(k, 53);
    lemma2_to64();
    lemma2_to64_rest();
    assert(unit > 0 && d * pow2(53 + k) == unit * pow2(53)) by (nonlinear_arith)
        requires
            unit == d * pow2(k),
            pow2(53 + k) == pow2(k) * pow2(53),
            pow2(k) > 0,
            d > 0,
    ;
    vstd::arithmetic::div_mod::lemma_multiply_divide_lt(n as int, unit as int, pow2(53) as int);
    vstd::arithmetic::div_mod::lemma_div_pos_is_pos(n as int, unit as int);
}

/// The magnitude bits of the binary64 number nearest to the value that
/// `m`, `up`, `down` and `inexact` approximate.
pub(crate) fn round_scaled(
    m: u128,
    up: u32,
    down: u32,
    inexact: bool,
    Ghost(n): Ghost<nat>,
    Ghost(d): Ghost<nat>,
) -> (r: u64)
    requires
        approximates(m as nat, up as nat, down as nat, inexact, n, d),
        m < pow2(127),
        inexact ==> m >= pow2(54),
    ensures
        r == round_magnitude(n, d),
        r <= INFINITY_BITS,
{
    if m == 0 {
        proof {
            lemma_pow2_pos(down as nat);
            lemma_pow2_pos(54);
            assert(n == 0) by (nonlinear_arith)
                requires
                    0 * (pow2(up as nat) * d) <= n * pow2(down as nat),
                    !(0 * (pow2(up as nat) * d) < n * pow2(down as nat)),
                    pow2(down as nat) > 0,
            ;
            lemma_round_zero(d);
        }
        return 0;
    }
    let len: u32 = bit_length(m);
    let top: i64 = len as i64 + up as i64 - down as i64;
    let k: i64 = if top > 53 {
        top - 53
    } else {
        0
    };
    proof {
        lemma_ulp_exponent_of_approximation(
            m as nat,
            up as nat,
            down as nat,
            inexact,
            n,
            d,
            len as nat,
            k as nat,
        );
        lemma_quotient_bound(n, d, k as nat);
    }
    if k >= 2047 {
        proof {
            let e = ulp_exponent(n, d);
            assert(e * HIDDEN_BIT >= INFINITY_BITS) by (nonlinear_arith)
                requires
                    e >= 2047,
                    HIDDEN_BIT == 0x0010_0000_0000_0000,
                    INFINITY_BITS == 0x7ff0_0000_0000_0000,
            ;
        }
        return INFINITY_BITS;
    }
    let s: i64 = k + down as i64 - up as i64;
    let q: u128;
    let round_up: bool;
    proof {
        if inexact && len <= 54 {
            if len < 54 {
                lemma_pow2_strictly_increases(len as nat, 54);
            }
        }
    }
    if s <= 0 {
        let t: u32 = (-s) as u32;
        proof {
            lemma_pow2_adds(len as nat, t as nat);
            lemma_pow2_127();
            lemma_pow2_strictly_increases((len + t) as nat, 127);
            lemma_pow2_pos(t as nat);
            assert(m * pow2(t as nat) < pow2((len + t) as nat)) by (nonlinear_arith)
                requires
                    m < pow2(len as nat),
                    pow2((len + t) as nat) == pow2(len as nat) * pow2(t as nat),
                    pow2(t as nat) > 0,
            ;
            lemma_round_shift_left(m as nat, up as nat, down as nat, n, d, k as nat, t as nat);
        }
        q = shift_left(m, t);
        round_up = false;
    } else if s >= 128 {
        proof {
            lemma_round_shift_right(
                m as nat,
                up as nat,
                down as nat,
                inexact,
                n,
                d,
                k as nat,
                s as nat,
            );
            if s > 128 {
                lemma_pow2_strictly_increases(127, (s - 1) as nat);
            }
            lemma_pow2_strictly_increases(127, s as nat);
            vstd::arithmetic::div_mod::lemma_basic_div(m as int, pow2(s as nat) as int);
            vstd::arithmetic::div_mod::lemma_small_mod(m as nat, pow2(s as nat));
        }
        q = 0;
        round_up = false;
    } else {
        let width: u32 = s as u32;
        proof {
            lemma_pow2_pos(width as nat);
        }
        q = shift_right(m, width);
        proof {
            lemma_fundamental_div_mod(m as int, pow2(width as nat) as int);
        }
        let rem: u128 = m - q * exp2(width);
        let half: u128 = exp2(width - 1);
        proof {
            lemma_round_shift_right(
                m as nat,
                up as nat,
                down as nat,
                inexact,
                n,
                d,
                k as nat,
                s as nat,
            );
        }
        round_up = rem > half || (rem == half && (inexact || q % 2 == 1));
    }
    let carry: u64 = if round_up {
        1
    } else {
        0
    };
    proof {
        assert(k * HIDDEN_BIT <= 2046 * HIDDEN_BIT) by (nonlinear_arith)
            requires
                0 <= k <= 2046,
        ;
        let e = ulp_exponent(n, d);
        let unit = d * pow2(e);
        assert(n / unit == q);
        assert(round_up <==> 2 * (n % unit) > unit || (2 * (n % unit) == unit && (n / unit) % 2
            == 1));
        assert(e * HIDDEN_BIT == k * HIDDEN_BIT);
    }
    let encoded: u64 = (k as u64) * HIDDEN_BIT + (q as u64) + carry;
    if encoded >= INFINITY_BITS {
        INFINITY_BITS
    } else {
        encoded
    }
}

} // verus!
