//! Conversion of integers to binary64 numbers.

use vstd::prelude::*;
use vstd::arithmetic::power2::{pow2, lemma_pow2_strictly_increases, lemma2_to64, lemma2_to64_rest};
use crate::binary64::Double;
use crate::nearest::lemma_round_whole;
use crate::rounding::{round_magnitude, round_scaled};
use crate::sum::lemma_aligned_exact;
use crate::word::lemma_pow2_127;

verus! {

impl Double {
    /// The binary64 number nearest to the integer `n`.
    pub open spec fn spec_from_int(n: int) -> Double {
        if n >= 0 {
            Double::compose(false, round_magnitude(n as nat * pow2(1074), 1))
        } else {
            Double::compose(true, round_magnitude((-n) as nat * pow2(1074), 1))
        }
    }

    /// The binary64 number equal to `n`: every 32-bit integer is one.
    pub fn from_i32(n: i32) -> (r: Double)
        ensures
            r == Double::spec_from_int(n as int),
            r.spec_is_finite(),
            r.value() == n * pow2(1074),
            r.spec_is_sign_negative() == (n < 0),
    {
        let negative: bool = n < 0;
        let m: u64 = if negative {
            (-(n as i64)) as u64
        } else {
            n as u64
        };
        proof {
            lemma2_to64();
            lemma2_to64_rest();
            lemma_pow2_127();
            lemma_pow2_strictly_increases(32, 127);
            lemma_pow2_strictly_increases(32, 53);
            lemma_aligned_exact(m as nat, 1074, m as nat * pow2(1074));
            lemma_round_whole(m as nat);
            assert((-n) * pow2(1074) == -(n * pow2(1074))) by (nonlinear_arith);
        }
        let bits: u64 = round_scaled(
            m as u128,
            1074,
            0,
            false,
            Ghost(m as nat * pow2(1074)),
            Ghost(1),
        );
        Double::with_sign(negative, bits)
    }
}

} // verus!
