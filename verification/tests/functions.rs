#![allow(non_snake_case)]

use complex_nums::{Complex, Double, Polar};
use std::f64::consts::PI;

fn r(x: f64) -> Double {
    Double::from_bits(x.to_bits())
}

fn f(d: Double) -> f64 {
    f64::from_bits(d.to_bits())
}

fn c(re: f64, im: f64) -> Complex {
    Complex::new(r(re), r(im))
}

/// The argument, with the machine's arctangent.
fn arg(z: Complex) -> f64 {
    f(z.arg(r(f(z.slope()).atan())))
}

fn polar(z: Complex) -> Polar {
    z.polar(r(f(z.slope()).atan()))
}

fn cartesian(p: Polar) -> Complex {
    p.cartesian(r(f(p.theta).cos()), r(f(p.theta).sin()))
}

/// The power through the polar form, with the machine's power, sine and cosine.
fn powi(z: Complex, exp: i32) -> Complex {
    cartesian(z.pow_polar(exp, r(f(z.slope()).atan()), r(f(z.abs()).powi(exp))))
}

/// The natural logarithm, with the machine's logarithm and arctangent.
fn ln(z: Complex) -> Complex {
    z.ln(r(f(z.abs()).ln()), r(f(z.slope()).atan()))
}

/// The exponential, with the machine's exponential, sine and cosine.
fn exp(z: Complex) -> Complex {
    z.exp(r(f(z.re()).exp()), r(f(z.im()).cos()), r(f(z.im()).sin()))
}

/// The power with a complex exponent, on the principal branch.
fn powc(z: Complex, w: Complex) -> Complex {
    exp(w * ln(z))
}

fn text(z: Complex) -> String {
    z.display(&format!("{}", f(z.re())), &format!("{}", f(z.im().abs())))
}

#[test]
fn test_arg() {
    let I = Complex::i();
    let a = r(1.) + r(0.) * I;
    let b = r(1.) + r(2.) * I;
    let c = r(1.) + I;
    let d = r(2.) + I;
    let e = I;

    // 1st quadrant
    assert_eq!(arg(a), 0.);
    assert!((arg(b) - 2.0_f64.atan()).abs() < 1e-10);
    assert!((arg(c) - PI / 4.).abs() < 1e-10);
    assert!((arg(d) - 0.5_f64.atan()).abs() < 1e-10);
    assert!((arg(e) - PI / 2.).abs() < 1e-10);

    // 2nd quadrant
    assert!((arg(I * a) - PI / 2.).abs() < 1e-10);
    assert!((arg(I * b) - (PI - 0.5_f64.atan())).abs() < 1e-10);
    assert!((arg(I * c) - 3. * PI / 4.).abs() < 1e-10);
    assert!((arg(I * d) - (PI - 2_f64.atan())).abs() < 1e-10);
    assert!((arg(I * e) - PI).abs() < 1e-10);

    // 3rd quadrant
    assert!((arg(I * I * a) - PI).abs() < 1e-10);
    assert!((arg(I * I * b) - (2_f64.atan() - PI)).abs() < 1e-10);
    assert!((arg(I * I * c) - (1_f64.atan() - PI)).abs() < 1e-10);
    assert!((arg(I * I * d) - (0.5_f64.atan() - PI)).abs() < 1e-10);
    assert!((arg(I * I * e) - -0.5 * PI).abs() < 1e-10);

    // 4th quadrant
    assert!((arg(I * I * I * a) - -0.5 * PI).abs() < 1e-10);
    assert!((arg(I * I * I * b) - -0.5_f64.atan()).abs() < 1e-10);
    assert!((arg(I * I * I * c) - -1_f64.atan()).abs() < 1e-10);
    assert!((arg(I * I * I * d) - -2_f64.atan()).abs() < 1e-10);
    assert!((arg(I * I * I * e) - 0.0).abs() < 1e-10);
}

#[test]
fn test_abs() {
    let I = Complex::i();
    let a = r(3.0) + r(4.0) * I;

    assert_eq!(f(a.abs()), 5.0);
}

#[test]
fn test_powi() {
    let I = Complex::i();
    let a = r(3.0) + r(4.0) * I;
    let b = r(-3.) + r(4.) * I;
    let c = r(3.) - r(4.) * I;
    let d = r(-3.) - r(4.) * I;

    assert!(
        f((powi(a, 2) - (r(-7.0) + r(24.0) * I)).re()) < 1e-10
            && f((powi(a, 2) - (r(-7.0) + r(24.0) * I)).im()) < 1e-10
    );
    assert!(
        f((powi(b, 2) - (r(7.0) + r(24.0) * I)).re()) < 1e-10
            && f((powi(b, 2) - (r(7.0) + r(24.0) * I)).im()) < 1e-10
    );
    assert!(
        f((powi(c, 2) - (r(7.0) + r(24.0) * I)).re()) < 1e-10
            && f((powi(c, 2) - (r(7.0) + r(24.0) * I)).im()) < 1e-10
    );
    assert!(
        f((powi(d, 2) - (r(-7.0) + r(24.0) * I)).re()) < 1e-10
            && f((powi(d, 2) - (r(-7.0) + r(24.0) * I)).im()) < 1e-10
    );
}

#[test]
fn test_ln() {
    let I = Complex::i();
    let z = r(3.) + r(4.) * I;

    assert!(
        (f(ln(z).re()) - 1.6094379124341003).abs() < 1e-10
            && (f(ln(z).im()) - 0.927295218002).abs() < 1e-10
    );
}

#[test]
fn test_powc() {
    let I = Complex::i();
    let z = r(3.) - r(4.0) * I;

    assert_eq!(ln(z), r(5_f64.ln()) + I * r((-4_f64 / 3.0).atan()));
}

#[test]
fn pow_squares_exactly() {
    let z = c(3.0, 4.0);
    assert_eq!(z.pow(2), c(-7.0, 24.0));
    assert_eq!(z.pow(3), z * z * z);
    assert_eq!(z.pow(3), c(-117.0, 44.0));
    let w = powi(z, 2);
    assert!((f(w.re()) - -7.0).abs() < 1e-10 && (f(w.im()) - 24.0).abs() < 1e-10);
}

#[test]
fn pow_below_one_gives_the_base() {
    let z = c(3.0, 4.0);
    assert_eq!(z.pow(1), z);
    assert_eq!(z.pow(0), z);
    assert_eq!(z.pow(-5), z);
    assert_eq!(z.pow(isize::MIN), z);
}

#[test]
fn arg_on_the_axes() {
    assert_eq!(arg(c(1.0, 0.0)), 0.0);
    assert_eq!(arg(c(0.0, 1.0)), PI / 2.0);
    assert_eq!(arg(c(-1.0, 0.0)), PI);
    assert_eq!(arg(c(0.0, -1.0)), -PI / 2.0);
    // A real part of negative zero is still on the imaginary axis.
    assert_eq!(arg(c(-0.0, -1.0)), -PI / 2.0);
    assert_eq!(arg(c(-0.0, 1.0)), PI / 2.0);
    // The negative real axis keeps pi whatever the sign of the zero.
    assert_eq!(arg(c(-2.0, -0.0)), PI);
    assert!(arg(c(0.0, 0.0)).is_nan());
    assert!(arg(c(f64::NAN, 1.0)).is_nan());
}

#[test]
fn arg_in_the_quadrants() {
    assert!((arg(c(1.0, 1.0)) - PI / 4.0).abs() < 1e-15);
    assert!((arg(c(-1.0, 1.0)) - 3.0 * PI / 4.0).abs() < 1e-15);
    assert!((arg(c(-1.0, -1.0)) - -3.0 * PI / 4.0).abs() < 1e-15);
    assert!((arg(c(1.0, -1.0)) - -PI / 4.0).abs() < 1e-15);
    let points =
        [(3.0, 4.0), (-3.0, 4.0), (-3.0, -4.0), (3.0, -4.0), (-1e-3, 1e3), (-7.5, -1e-9)];
    for &(re, im) in points.iter() {
        let want = f64::atan2(im, re);
        assert!((arg(c(re, im)) - want).abs() < 1e-12, "{} {}", re, im);
    }
}

#[test]
fn arg_takes_the_arctangent_it_is_given() {
    let pi = r(PI);
    let t = r(0.25);
    // Right of the imaginary axis the arctangent is the argument.
    assert_eq!(c(2.0, 1.0).arg(t).to_bits(), t.to_bits());
    // Left of it pi is added, or subtracted below the real axis.
    assert_eq!(c(-2.0, 1.0).arg(t).to_bits(), (t + pi).to_bits());
    assert_eq!(c(-2.0, -1.0).arg(t).to_bits(), (t - pi).to_bits());
    // On the axis it is not used.
    assert_eq!(f(c(0.0, 3.0).arg(t)), PI / 2.0);
    assert_eq!(f(c(0.0, -3.0).arg(t)), -PI / 2.0);
}

#[test]
fn polar_round_trip() {
    let points = [
        (3.0, 4.0), (-3.0, 4.0), (-3.0, -4.0), (3.0, -4.0),
        (2.0, 0.0), (0.0, 2.0), (-2.0, 0.0), (0.0, -2.0),
        (1e-3, 5e2), (-1.25, 0.75),
    ];
    for &(re, im) in points.iter() {
        let z = c(re, im);
        let back = cartesian(polar(z));
        assert!((f(back.re()) - re).abs() < 1e-10, "{} {}", re, im);
        assert!((f(back.im()) - im).abs() < 1e-10, "{} {}", re, im);
    }
}

#[test]
fn polar_holds_magnitude_and_argument() {
    let z = c(-3.0, 4.0);
    let p = polar(z);
    assert_eq!(f(p.r), 5.0);
    assert_eq!(f(p.theta), arg(z));
    assert_eq!(p, Polar { r: z.abs(), theta: r(arg(z)) });
}

#[test]
fn polar_power_multiplies_the_angle() {
    let p = Polar { r: r(2.0), theta: r(0.75) };
    assert_eq!(p.powi(3, r(8.0)), Polar { r: r(8.0), theta: r(2.25) });
    assert_eq!(p.powi(-2, r(0.25)), Polar { r: r(0.25), theta: r(-1.5) });
    assert_eq!(p.powi(0, r(1.0)).theta.to_bits(), 0);
}

#[test]
fn pow_polar_is_polar_then_power() {
    let z = c(-3.0, 4.0);
    let t = r(f(z.slope()).atan());
    let p = z.pow_polar(3, t, r(125.0));
    assert_eq!(p, z.polar(t).powi(3, r(125.0)));
    assert_eq!(f(p.r), 125.0);
    assert_eq!(f(p.theta), arg(z) * 3.0);
}

#[test]
fn ln_pairs_the_logarithm_with_the_argument() {
    let z = c(-3.0, -4.0);
    let t = r(f(z.slope()).atan());
    let l = z.ln(r(1.25), t);
    assert_eq!(l.re().to_bits(), 1.25f64.to_bits());
    assert_eq!(l.im().to_bits(), z.arg(t).to_bits());
}

#[test]
fn exp_scales_cosine_and_sine() {
    let z = c(2.0, 1.0);
    assert_eq!(z.exp(r(8.0), r(0.5), r(-0.25)), c(4.0, -2.0));
    let w = exp(c(0.0, std::f64::consts::PI));
    assert!((f(w.re()) - -1.0).abs() < 1e-15 && f(w.im()).abs() < 1e-15);
    let big = exp(c(1000.0, 0.0));
    assert!(f(big.re()).is_infinite() && f(big.im()).is_nan());
}

#[test]
fn complex_powers() {
    // A whole exponent agrees with repeated multiplication.
    let z = c(3.0, 4.0);
    let w = powc(z, c(2.0, 0.0));
    assert!((f(w.re()) - -7.0).abs() < 1e-10 && (f(w.im()) - 24.0).abs() < 1e-10);
    // The principal value of i to the power i is e^(-pi/2).
    let i = Complex::i();
    let v = powc(i, i);
    assert!((f(v.re()) - (-std::f64::consts::FRAC_PI_2).exp()).abs() < 1e-15);
    assert!(f(v.im()).abs() < 1e-15);
}

#[test]
fn integers_convert_exactly() {
    for &n in [0, 1, -1, 2, 3, 7, -12345, 1 << 24, i32::MAX, i32::MIN, i32::MIN + 1].iter() {
        assert_eq!(Double::from_i32(n).to_bits(), (n as f64).to_bits(), "{}", n);
    }
}

#[test]
fn cartesian_scales_cosine_and_sine() {
    let p = Polar { r: r(2.0), theta: r(1.0) };
    let z = p.cartesian(r(0.5), r(-0.25));
    assert_eq!(z, c(1.0, -0.5));
}

#[test]
fn abs_is_exact_on_pythagorean_triples() {
    assert_eq!(f(c(3.0, 4.0).abs()), 5.0);
    assert_eq!(f(c(-5.0, 12.0).abs()), 13.0);
    assert_eq!(f(c(8.0, -15.0).abs()), 17.0);
    assert_eq!(f(c(0.0, 0.0).abs()).to_bits(), 0);
    assert_eq!(f(c(-0.0, -0.0).abs()).to_bits(), 0);
    assert!(f(c(f64::NAN, 1.0).abs()).is_nan());
    assert!(f(c(1.0, f64::NAN).abs()).is_nan());
    assert_eq!(f(c(1.0, 1.0).abs()), 2.0_f64.sqrt());
}

#[test]
fn division_by_rationalizing() {
    let q = c(3.0, 4.0) / c(6.0, 7.0);
    assert!((f(q.re()) - 0.5411764705882353).abs() < 1e-10);
    assert!((f(q.im()) - 0.03529411764705882).abs() < 1e-10);
    let z = c(1.0, 2.0) / c(0.0, 0.0);
    assert!(f(z.re()).is_nan() || f(z.re()).is_infinite());
    assert!(f(z.im()).is_nan() || f(z.im()).is_infinite());
}

#[test]
fn ln_and_exp() {
    let z = c(3.0, 4.0);
    let l = ln(z);
    assert!((f(l.re()) - 1.6094379124341003).abs() < 1e-10);
    assert!((f(l.im()) - 0.927295218002).abs() < 1e-10);
    let points = [(3.0, 4.0), (-3.0, 4.0), (-3.0, -4.0), (3.0, -4.0), (0.0, 2.0), (-2.0, 0.0)];
    for &(re, im) in points.iter() {
        let w = exp(ln(c(re, im)));
        assert!((f(w.re()) - re).abs() < 1e-10, "{} {}", re, im);
        assert!((f(w.im()) - im).abs() < 1e-10, "{} {}", re, im);
    }
    let zero = ln(c(0.0, 0.0));
    assert!(f(zero.re()) == f64::NEG_INFINITY);
}

#[test]
fn display_shows_the_sign_once() {
    assert_eq!(text(c(3.0, 4.0)), "3 + 4*I");
    assert_eq!(text(c(3.0, -4.0)), "3 - 4*I");
    assert_eq!(text(c(-1.5, -0.25)), "-1.5 - 0.25*I");
    assert_eq!(text(c(3.0, 0.0)), "3 + 0*I");
    assert_eq!(text(c(3.0, -0.0)), "3 - 0*I");
    assert_eq!(text(c(3.0, f64::NAN)), "Complex part is NaN!");
    assert_eq!(text(c(f64::NAN, 1.0)), "NaN + 1*I");
}

#[test]
fn commuting_operands() {
    let a = c(1.25, -3.5);
    let b = c(-0.1, 7.0);
    let x = r(4.6);
    assert_eq!(a * b, b * a);
    assert_eq!(a + b, b + a);
    assert_eq!(a * x, x * a);
    assert_eq!(a + x, x + a);
    assert_eq!((a * b).re().to_bits(), (b * a).re().to_bits());
    assert_eq!((a * b).im().to_bits(), (b * a).im().to_bits());
}

#[test]
fn conjugate_twice() {
    for &(re, im) in [(3.0, 4.7), (-1.0, -0.0), (0.0, f64::INFINITY)].iter() {
        let z = c(re, im);
        assert_eq!(z.bar().bar(), z);
        assert_eq!(z.bar(), c(re, -im));
        assert_eq!(z.star(), z.bar());
    }
    let n = c(1.0, f64::NAN).bar().bar();
    assert_eq!(n.im().to_bits(), f64::NAN.to_bits());
    assert!(n != n);
}

#[test]
fn mixed_operand_orders() {
    let a = c(2.0, 3.0);
    let b = c(1.5, 7.4);
    let x = r(4.6);
    assert_eq!(a * b, c(-19.200000000000003, 19.3));
    assert_eq!(a * x, c(9.2, 13.799999999999999));
    assert_eq!(x * b, c(6.8999999999999995, 34.04));
    assert_eq!(a + x, c(6.6, 3.0));
    assert_eq!(x + a, c(6.6, 3.0));
    assert_eq!(a + b, c(3.5, 10.4));
    assert_eq!(a - b, c(0.5, -4.4));
    assert_eq!(a - x, c(-2.5999999999999996, 3.0));
    assert_eq!(x - b, c(3.0999999999999996, -7.4));
    assert_eq!(a / b, c(0.44202771443606387, -0.18067005788458165));
    assert_eq!(a / x, c(0.4347826086956522, 0.6521739130434783));
}

#[test]
fn unit_squares_to_minus_one() {
    let i = Complex::i();
    assert_eq!(i.re().to_bits(), 0.0f64.to_bits());
    assert_eq!(i.im().to_bits(), 1.0f64.to_bits());
    assert_eq!(i * i, c(-1.0, 0.0));
}
