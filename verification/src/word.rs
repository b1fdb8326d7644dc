//! Powers of two, shifts and bit lengths of 128-bit words.

use vstd::prelude::*;
use vstd::arithmetic::power2::{
    pow2,
    lemma_pow2_pos,
    lemma_pow2_unfold,
    lemma_pow2_strictly_increases,
    lemma_pow2_adds,
    lemma2_to64,
    lemma2_to64_rest,
};
use vstd::bits::lemma_u128_shr_is_div;
use crate::binary64::HIDDEN_BIT;

verus! {

/// `2^127` is the largest power of two that a 128-bit word holds.
pub proof fn lemma_pow2_127()
    ensures
        pow2(127) == 0x8000_0000_0000_0000_0000_0000_0000_0000,
{
    lemma2_to64();
    lemma2_to64_rest();
    lemma_pow2_adds(63, 64);
}

/// A one shifted left by `t` places is `2^t`.
pub proof fn lemma_one_shl(t: u32)
    requires
        t < 128,
    ensures
        1u128 << t == pow2(t as nat),
    decreases t,
{
    if t == 0 {
        assert(1u128 << 0u32 == 1) by (bit_vector);
        lemma2_to64();
    } else {
        let p: u32 = (t - 1) as u32;
        lemma_one_shl(p);
        lemma_pow2_unfold(t as nat);
        lemma_pow2_127();
        if p < 127 {
            lemma_pow2_strictly_increases(p as nat, 127);
        }
        assert(1u128 << t == 2 * (1u128 << p)) by (bit_vector)
            requires
                0 < t < 128,
                p == t - 1,
        ;
    }
}

/// `2^t` as a 128-bit word.
pub fn exp2(t: u32) -> (r: u128)
    requires
        t < 128,
    ensures
        r == pow2(t as nat),
{
    proof {
        lemma_one_shl(t);
    }
    1u128 << t
}

/// `x` shifted left by `t` places, where nothing is shifted out.
pub fn shift_left(x: u128, t: u32) -> (r: u128)
    requires
        t < 128,
        x * pow2(t as nat) < pow2(127),
    ensures
        r == x * pow2(t as nat),
{
    proof {
        lemma_pow2_127();
    }
    x * exp2(t)
}

/// `x` shifted right by `s` places: the quotient by `2^s`.
pub fn shift_right(x: u128, s: u32) -> (r: u128)
    requires
        s < 128,
    ensures
        r == x as nat / pow2(s as nat),
{
    proof {
        lemma_u128_shr_is_div(x, s as u128);
        assert(x >> s == x >> (s as u128)) by (bit_vector);
    }
    x >> s
}

/// The number of bits of `x`: the least `len` with `x < 2^len`, found by
/// halving the span in which the leading bit lies.
pub fn bit_length(x: u128) -> (len: u32)
    ensures
        len <= 128,
        x == 0 <==> len == 0,
        x < pow2(len as nat),
        len > 0 ==> pow2((len - 1) as nat) <= x,
{
    if x == 0 {
        proof {
            lemma_pow2_pos(0);
        }
        return 0;
    }
    let mut rest: u128 = x;
    let mut len: u32 = 0;
    let mut span: u32 = 128;
    proof {
        lemma2_to64();
        lemma_pow2_127();
        lemma_pow2_unfold(128);
    }
    while span > 1
        invariant
            span == 1 || span == 2 || span == 4 || span == 8 || span == 16 || span == 32 || span
                == 64 || span == 128,
            len + span <= 128,
            rest == x as nat / pow2(len as nat),
            1 <= rest < pow2(span as nat),
        decreases span,
    {
        let half: u32 = span / 2;
        let edge: u128 = exp2(half);
        proof {
            lemma_pow2_adds(half as nat, half as nat);
            lemma_pow2_pos(half as nat);
        }
        if rest >= edge {
            proof {
                lemma_shift_twice(x as nat, len as nat, half as nat);
                lemma_quotient_below(rest as nat, edge as nat, edge as nat);
            }
            rest = shift_right(rest, half);
            len = len + half;
        }
        span = half;
    }
    proof {
        lemma2_to64();
        lemma_pow2_pos(len as nat);
        lemma_pow2_unfold((len + 1) as nat);
        let p = pow2(len as nat);
        vstd::arithmetic::div_mod::lemma_fundamental_div_mod(x as int, p as int);
        vstd::arithmetic::div_mod::lemma_mod_bound(x as int, p as int);
        assert(rest == 1);
        assert(p * 1 == p) by (nonlinear_arith);
        assert(pow2((len + 1) as nat) == 2 * p);
    }
    len + 1
}

/// Shifts a significand left until its leading bit is the hidden bit.
pub fn normalize(m: u64) -> (r: (u64, u32))
    requires
        0 < m < 2 * HIDDEN_BIT,
    ensures
        r.0 == m * pow2(r.1 as nat),
        HIDDEN_BIT <= r.0 < 2 * HIDDEN_BIT,
        r.1 <= 52,
{
    let len: u32 = bit_length(m as u128);
    proof {
        lemma2_to64();
        lemma2_to64_rest();
        lemma_pow2_127();
        if len > 53 {
            lemma_pow2_strictly_increases(53, (len - 1) as nat);
        }
    }
    let z: u32 = 53 - len;
    proof {
        lemma_pow2_adds(len as nat, z as nat);
        lemma_pow2_adds((len - 1) as nat, z as nat);
        lemma_pow2_pos(z as nat);
        lemma_pow2_strictly_increases(53, 127);
        assert(pow2((len - 1) as nat) * pow2(z as nat) <= m * pow2(z as nat) < pow2(len as nat)
            * pow2(z as nat)) by (nonlinear_arith)
            requires
                pow2((len - 1) as nat) <= m < pow2(len as nat),
                pow2(z as nat) > 0,
        ;
    }
    let wide: u128 = shift_left(m as u128, z);
    (wide as u64, z)
}

/// Dividing by `2^a` and then by `2^b` divides by `2^(a + b)`.
pub proof fn lemma_shift_twice(x: nat, a: nat, b: nat)
    ensures
        (x / pow2(a)) / pow2(b) == x / pow2(a + b),
{
    lemma_pow2_pos(a);
    lemma_pow2_pos(b);
    lemma_pow2_adds(a, b);
    vstd::arithmetic::div_mod::lemma_div_denominator(x as int, pow2(a) as int, pow2(b) as int);
}

/// A number from `p` up to below `p * q` has a quotient by `p` from one up
/// to below `q`.
pub proof fn lemma_quotient_below(x: nat, p: nat, q: nat)
    requires
        p > 0,
        p <= x < p * q,
    ensures
        1 <= x / p < q,
{
    vstd::arithmetic::div_mod::lemma_fundamental_div_mod(x as int, p as int);
    vstd::arithmetic::div_mod::lemma_mod_bound(x as int, p as int);
    let d = x / p;
    assert(1 <= d < q) by (nonlinear_arith)
        requires
            x == p * d + x % p,
            0 <= x % p < p,
            p <= x < p * q,
            p > 0,
    ;
}

} // verus!
