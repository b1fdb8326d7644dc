//! Complex numbers in Cartesian form.

use vstd::prelude::*;
use core::ops::Neg;
use crate::binary64::{Double, ONE_BITS};

verus! {

/// A complex number `re + im*I`.
#[derive(Clone, Copy, Debug)]
pub struct Complex {
    pub re: Double,
    pub im: Double,
}

impl Complex {
    /// The conjugate: the imaginary part with its sign flipped.
    pub open spec fn spec_bar(self) -> Complex {
        Complex { re: self.re, im: self.im.spec_neg() }
    }

    /// Both parts with their signs flipped.
    pub open spec fn spec_neg(self) -> Complex {
        Complex { re: self.re.spec_neg(), im: self.im.spec_neg() }
    }

    /// Equality part by part, as IEEE 754 has it: a value with a NaN part
    /// equals nothing, itself included.
    pub open spec fn ieee_eq(self, other: Complex) -> bool {
        self.re.ieee_eq(other.re) && self.im.ieee_eq(other.im)
    }

    /// Neither part is a NaN.
    pub open spec fn is_ordinary(self) -> bool {
        !self.re.spec_is_nan() && !self.im.spec_is_nan()
    }

    /// Both parts are finite.
    pub open spec fn is_finite(self) -> bool {
        self.re.spec_is_finite() && self.im.spec_is_finite()
    }

    /// `self^n` by repeated multiplication from the left: `n - 1`
    /// multiplications for a positive `n`, and `self` for `n` of zero too.
    pub open spec fn power(self, n: nat) -> Complex
        decreases n,
    {
        if n <= 1 {
            self
        } else {
            self.power((n - 1) as nat).spec_mul(self)
        }
    }

    /// The imaginary unit `0 + 1*I`, whose square is `-1`.
    pub fn i() -> (r: Complex)
        ensures
            r.re.bits == 0,
            r.im.bits == ONE_BITS,
    {
        Complex { re: Double::zero(), im: Double::one() }
    }

    /// The number `re + im*I`.
    pub fn new(re: Double, im: Double) -> (r: Complex)
        ensures
            r.re == re,
            r.im == im,
    {
        Complex { re, im }
    }

    /// The real part.
    pub fn re(&self) -> (r: Double)
        ensures
            r == self.re,
    {
        self.re
    }

    /// The imaginary part.
    pub fn im(&self) -> (r: Double)
        ensures
            r == self.im,
    {
        self.im
    }

    /// The complex conjugate: `(a + b*I).bar()` is `a - b*I`.
    pub fn bar(&self) -> (r: Complex)
        ensures
            r == self.spec_bar(),
    {
        Complex { re: self.re, im: self.im.neg() }
    }

    /// The complex conjugate, under its other name.
    pub fn star(&self) -> (r: Complex)
        ensures
            r == self.spec_bar(),
    {
        self.bar()
    }

    /// `self` raised to the power `exp` by `exp - 1` multiplications, so in
    /// time linear in `exp`. An exponent below one gives `self` unchanged.
    pub fn pow(&self, exp: isize) -> (r: Complex)
        ensures
            r == self.power(if exp >= 1 { exp as nat } else { 1 }),
            exp <= 1 ==> r == *self,
    {
        let base: Complex = *self;
        let mut a: Complex = base;
        let mut done: isize = 1;
        while done < exp
            invariant
                1 <= done,
                done <= exp || done == 1,
                a == base.power(done as nat),
            decreases exp - done,
        {
            proof {
                base.lemma_power_step(done as nat);
            }
            a = a * base;
            done = done + 1;
        }
        a
    }

    /// One more multiplication raises the power by one.
    pub proof fn lemma_power_step(self, n: nat)
        requires
            n >= 1,
        ensures
            self.power(n + 1) == self.power(n).spec_mul(self),
    {
    }
}

} // verus!
