//! The text of a complex number, put together from the decimal texts of
//! its parts.

use vstd::prelude::*;
use vstd::string::*;
use crate::complex::Complex;

verus! {

impl Complex {
    /// `<re> + <im>*I` where the sign bit of the imaginary part is clear,
    /// `<re> - <im>*I` where it is set, and a fixed sentence where the
    /// imaginary part is a NaN and so has no sign to show.
    pub open spec fn spec_display(self, re_text: Seq<char>, im_text: Seq<char>) -> Seq<char> {
        if self.im.spec_is_nan() {
            "Complex part is NaN!"@
        } else if self.im.spec_is_sign_negative() {
            re_text + " - "@ + im_text + "*I"@
        } else {
            re_text + " + "@ + im_text + "*I"@
        }
    }

    /// The number in Cartesian form, `a + b*I` or `a - b*I`, where
    /// `re_text` is the text of the real part and `im_text` the text of the
    /// absolute value of the imaginary part.
    pub fn display(&self, re_text: &str, im_text: &str) -> (r: String)
        ensures
            r@ == self.spec_display(re_text@, im_text@),
    {
        if self.im.is_nan() {
            String::from_str("Complex part is NaN!")
        } else {
            let sign: &str = if self.im.is_sign_negative() {
                " - "
            } else {
                " + "
            };
            String::from_str(re_text).concat(sign).concat(im_text).concat("*I")
        }
    }
}

} // verus!
