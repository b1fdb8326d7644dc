#![allow(non_snake_case)]

use complex_nums::{Complex, Double};

fn r(x: f64) -> Double {
    Double::from_bits(x.to_bits())
}

#[test]
fn test_mul() {
    let I = Complex::i();
    let a = r(2.) + r(2.) * I;
    let b = r(3.0) + r(3.0) * I;
    let c = r(2.5);

    assert_eq!(a * b, r(12.0) * I);
    assert_eq!(b * a, r(12.0) * I);
    assert_eq!(a * c, r(5.0) + r(5.0) * I);
    assert_eq!(c * b, r(7.5) + r(7.5) * I);
}

#[test]
fn test_I() {
    let I = Complex::i();
    let a: Double = r(10.0);

    assert_eq!(a * I, r(10.0) * I);
}

#[test]
fn test_add() {
    let I = Complex::i();
    let a = r(2.0) * I;
    let b = r(1.0) + r(4.0) * I;
    let c = r(3.0);

    assert_eq!(a + c, r(3.0) + r(2.0) * I);
    assert_eq!(c + a, r(3.0) + r(2.0) * I);
    assert_eq!(a + b, r(1.0) + r(6.0) * I);
}

#[test]
fn test_sub() {
    let I = Complex::i();
    let a = r(3.6) + r(12.0) * I;
    let b = r(5.4) + r(2.0) * I;
    let c = r(6.7);

    assert_eq!(a - b, r(-1.8000000000000003) + r(10.0) * I);

    assert_eq!(a - c, r(-3.1) + r(12.0) * I);
    assert_eq!(c - b, r(1.2999999999999998) + r(-2.0) * I);
}

#[test]
fn test_star() {
    let I = Complex::i();
    let a = r(3.0) + r(4.7) * I;

    assert_eq!(a.star(), r(3.0) - r(4.7) * I);
}

#[test]
fn test_div() {
    let I = Complex::i();
    let a = r(3.) + r(4.) * I;
    let b = r(6.) + r(7.) * I;
    let c = r(2.);

    assert_eq!(a / b, r(0.5411764705882353) + I * r(0.03529411764705882));
    assert_eq!(a / c, r(1.5) + I * r(2.));
    assert_eq!(c / b, r(0.1411764705882353) - I * r(0.16470588235294117));
}

#[test]
fn test_neg() {
    let I = Complex::i();
    let a = r(3.) + r(4.) * I;
    let b = r(-2.) + r(3.) * I;
    let c = r(4.) - r(6.) * I;
    let d = r(-1.) - r(6.) * I;

    assert_eq!(-a, r(-3.) - r(4.) * I);
    assert_eq!(-b, r(2.) - r(3.) * I);
    assert_eq!(-c, r(-4.) + r(6.) * I);
    assert_eq!(-d, r(1.) + r(6.) * I);
}
