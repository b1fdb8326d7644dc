//! The IEEE 754 binary64 encoding: one sign bit, eleven exponent bits and
//! fifty-two fraction bits, read as an integer count of units of `2^-1074`.

use vstd::prelude::*;
use vstd::arithmetic::power2::pow2;

verus! {

/// The sign bit, `2^63`.
pub const SIGN_BIT: u64 = 0x8000_0000_0000_0000;

/// The weight of the hidden bit of a significand, `2^52`.
pub const HIDDEN_BIT: u64 = 0x0010_0000_0000_0000;

/// The bits of positive infinity; every larger magnitude is a NaN.
pub const INFINITY_BITS: u64 = 0x7ff0_0000_0000_0000;

/// The bits of the quiet NaN that every invalid operation returns.
pub const NAN_BITS: u64 = 0x7ff8_0000_0000_0000;

/// The bits of `1.0`.
pub const ONE_BITS: u64 = 0x3ff0_0000_0000_0000;

/// The bits of the binary64 number nearest to pi.
pub const PI_BITS: u64 = 0x4009_21fb_5444_2d18;

/// The bits of the binary64 number nearest to half of pi.
pub const HALF_PI_BITS: u64 = 0x3ff9_21fb_5444_2d18;

/// A binary64 number, held as its bit pattern.
#[derive(Clone, Copy, Debug)]
pub struct Double {
    pub bits: u64,
}

impl Double {
    /// The bits without the sign.
    pub open spec fn magnitude_bits(self) -> u64 {
        (self.bits % SIGN_BIT) as u64
    }

    /// The sign bit is set: of a negative number, of negative zero, and
    /// of some NaNs.
    pub open spec fn spec_is_sign_negative(self) -> bool {
        self.bits >= SIGN_BIT
    }

    /// Not a number: the exponent bits all set and a fraction bit too.
    pub open spec fn spec_is_nan(self) -> bool {
        self.magnitude_bits() > INFINITY_BITS
    }

    /// Positive or negative infinity.
    pub open spec fn spec_is_infinite(self) -> bool {
        self.magnitude_bits() == INFINITY_BITS
    }

    /// Neither infinite nor a NaN.
    pub open spec fn spec_is_finite(self) -> bool {
        self.magnitude_bits() < INFINITY_BITS
    }

    /// Positive or negative zero.
    pub open spec fn spec_is_zero(self) -> bool {
        self.magnitude_bits() == 0
    }

    /// The eleven exponent bits.
    pub open spec fn exponent_field(self) -> nat {
        (self.magnitude_bits() / HIDDEN_BIT) as nat
    }

    /// The fifty-two fraction bits.
    pub open spec fn fraction_field(self) -> nat {
        (self.magnitude_bits() % HIDDEN_BIT) as nat
    }

    /// The integer significand: the fraction, with the hidden bit for a
    /// normal number.
    pub open spec fn significand(self) -> nat {
        if self.exponent_field() == 0 {
            self.fraction_field()
        } else {
            HIDDEN_BIT as nat + self.fraction_field()
        }
    }

    /// The power of two by which the significand is scaled, in units of
    /// `2^-1074`.
    pub open spec fn scale(self) -> nat {
        if self.exponent_field() == 0 {
            0
        } else {
            (self.exponent_field() - 1) as nat
        }
    }

    /// The absolute value of a finite number, in units of `2^-1074`.
    pub open spec fn magnitude(self) -> nat
        recommends
            self.spec_is_finite(),
    {
        self.significand() * pow2(self.scale())
    }

    /// The value of a finite number, in units of `2^-1074`.
    pub open spec fn value(self) -> int
        recommends
            self.spec_is_finite(),
    {
        if self.spec_is_sign_negative() {
            -(self.magnitude() as int)
        } else {
            self.magnitude() as int
        }
    }

    /// The number with the sign bit `negative` and the other bits `magnitude_bits`.
    pub open spec fn compose(negative: bool, magnitude_bits: u64) -> Double
        recommends
            magnitude_bits < SIGN_BIT,
    {
        Double { bits: if negative { (magnitude_bits + SIGN_BIT) as u64 } else { magnitude_bits } }
    }

    /// The number with the sign flipped and all other bits kept, a NaN's too.
    pub open spec fn spec_neg(self) -> Double {
        Double::compose(!self.spec_is_sign_negative(), self.magnitude_bits())
    }

    /// The number with the sign cleared and all other bits kept.
    pub open spec fn spec_abs(self) -> Double {
        Double { bits: self.magnitude_bits() }
    }

    /// IEEE equality: no NaN equals anything, and the two zeros are equal.
    pub open spec fn ieee_eq(self, other: Double) -> bool {
        &&& !self.spec_is_nan()
        &&& !other.spec_is_nan()
        &&& (self.bits == other.bits || (self.spec_is_zero() && other.spec_is_zero()))
    }

    /// IEEE order: false where either side is a NaN; the two zeros are not
    /// ordered against each other.
    pub open spec fn ieee_lt(self, other: Double) -> bool {
        &&& !self.spec_is_nan()
        &&& !other.spec_is_nan()
        &&& if self.spec_is_sign_negative() {
            if other.spec_is_sign_negative() {
                self.magnitude_bits() > other.magnitude_bits()
            } else {
                !(self.spec_is_zero() && other.spec_is_zero())
            }
        } else {
            !other.spec_is_sign_negative() && self.magnitude_bits() < other.magnitude_bits()
        }
    }

    /// Below zero: negative, and neither a zero nor a NaN.
    pub open spec fn spec_is_below_zero(self) -> bool {
        self.bits > SIGN_BIT && !self.spec_is_nan()
    }

    /// Above zero: positive, and neither a zero nor a NaN.
    pub open spec fn spec_is_above_zero(self) -> bool {
        0 < self.bits && self.bits <= INFINITY_BITS
    }

    /// The number with the given bit pattern.
    pub fn from_bits(bits: u64) -> (r: Double)
        ensures
            r.bits == bits,
    {
        Double { bits }
    }

    /// The bit pattern.
    pub fn to_bits(self) -> (r: u64)
        ensures
            r == self.bits,
    {
        self.bits
    }

    /// Positive zero.
    pub fn zero() -> (r: Double)
        ensures
            r.bits == 0,
    {
        Double { bits: 0 }
    }

    /// `1.0`.
    pub fn one() -> (r: Double)
        ensures
            r.bits == ONE_BITS,
    {
        Double { bits: ONE_BITS }
    }

    /// The quiet NaN that invalid operations return.
    pub fn nan() -> (r: Double)
        ensures
            r.bits == NAN_BITS,
            r.spec_is_nan(),
    {
        Double { bits: NAN_BITS }
    }

    /// Infinity of the given sign.
    pub fn infinity(negative: bool) -> (r: Double)
        ensures
            r == Double::compose(negative, INFINITY_BITS),
            r.spec_is_infinite(),
            r.spec_is_sign_negative() == negative,
    {
        Double::with_sign(negative, INFINITY_BITS)
    }

    /// Puts a sign on magnitude bits.
    pub fn with_sign(negative: bool, magnitude_bits: u64) -> (r: Double)
        requires
            magnitude_bits < SIGN_BIT,
        ensures
            r == Double::compose(negative, magnitude_bits),
            r.magnitude_bits() == magnitude_bits,
            r.spec_is_sign_negative() == negative,
    {
        if negative {
            Double { bits: magnitude_bits + SIGN_BIT }
        } else {
            Double { bits: magnitude_bits }
        }
    }

    #[verifier::when_used_as_spec(spec_is_sign_negative)]
    pub fn is_sign_negative(self) -> (r: bool)
        ensures
            r == self.spec_is_sign_negative(),
    {
        self.bits >= SIGN_BIT
    }

    /// The bits without the sign.
    pub fn abs_bits(self) -> (r: u64)
        ensures
            r == self.magnitude_bits(),
            r < SIGN_BIT,
    {
        self.bits % SIGN_BIT
    }

    #[verifier::when_used_as_spec(spec_is_nan)]
    pub fn is_nan(self) -> (r: bool)
        ensures
            r == self.spec_is_nan(),
    {
        self.abs_bits() > INFINITY_BITS
    }

    #[verifier::when_used_as_spec(spec_is_infinite)]
    pub fn is_infinite(self) -> (r: bool)
        ensures
            r == self.spec_is_infinite(),
    {
        self.abs_bits() == INFINITY_BITS
    }

    #[verifier::when_used_as_spec(spec_is_finite)]
    pub fn is_finite(self) -> (r: bool)
        ensures
            r == self.spec_is_finite(),
    {
        self.abs_bits() < INFINITY_BITS
    }

    #[verifier::when_used_as_spec(spec_is_zero)]
    pub fn is_zero(self) -> (r: bool)
        ensures
            r == self.spec_is_zero(),
    {
        self.abs_bits() == 0
    }

    #[verifier::when_used_as_spec(spec_is_below_zero)]
    pub fn is_below_zero(self) -> (r: bool)
        ensures
            r == self.spec_is_below_zero(),
            r == self.ieee_lt(Double { bits: 0 }),
    {
        self.bits > SIGN_BIT && !self.is_nan()
    }

    #[verifier::when_used_as_spec(spec_is_above_zero)]
    pub fn is_above_zero(self) -> (r: bool)
        ensures
            r == self.spec_is_above_zero(),
            r == (Double { bits: 0 }).ieee_lt(self),
    {
        0 < self.bits && self.bits <= INFINITY_BITS
    }

    /// The absolute value: the sign bit cleared.
    #[verifier::when_used_as_spec(spec_abs)]
    pub fn abs(self) -> (r: Double)
        ensures
            r == self.spec_abs(),
    {
        Double { bits: self.abs_bits() }
    }

    /// The integer significand and the scale of a finite number.
    pub fn decode(self) -> (r: (u64, u32))
        requires
            self.spec_is_finite(),
        ensures
            r.0 == self.significand(),
            r.1 == self.scale(),
            r.0 < 2 * HIDDEN_BIT,
            r.1 <= 2045,
            r.1 > 0 ==> r.0 >= HIDDEN_BIT,
            r.0 == 0 <==> self.spec_is_zero(),
    {
        let m: u64 = self.abs_bits();
        let e: u64 = m / HIDDEN_BIT;
        let f: u64 = m % HIDDEN_BIT;
        if e == 0 {
            (f, 0)
        } else {
            (f + HIDDEN_BIT, (e - 1) as u32)
        }
    }
}

impl core::ops::Neg for Double {
    type Output = Double;

    /// Flips the sign bit.
    fn neg(self) -> (r: Double)
        ensures
            r == self.spec_neg(),
    {
        Double::with_sign(!self.is_sign_negative(), self.abs_bits())
    }
}

impl vstd::std_specs::ops::NegSpecImpl for Double {
    open spec fn obeys_neg_spec() -> bool {
        true
    }

    open spec fn neg_req(self) -> bool {
        true
    }

    open spec fn neg_spec(self) -> Double {
        self.spec_neg()
    }
}

impl PartialEq for Double {
    /// IEEE equality.
    fn eq(&self, other: &Double) -> (r: bool)
    {
        !self.is_nan() && !other.is_nan() && (self.bits == other.bits || (self.is_zero()
            && other.is_zero()))
    }
}

impl vstd::std_specs::cmp::PartialEqSpecImpl for Double {
    open spec fn obeys_eq_spec() -> bool {
        true
    }

    open spec fn eq_spec(&self, other: &Double) -> bool {
        self.ieee_eq(*other)
    }
}

} // verus!
