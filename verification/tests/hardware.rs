use complex_nums::Double;

fn r(x: f64) -> Double {
    Double::from_bits(x.to_bits())
}

fn f(d: Double) -> f64 {
    f64::from_bits(d.to_bits())
}

/// The library's result is the machine's, bit for bit, or both are NaNs.
fn same(got: Double, want: f64) -> bool {
    if want.is_nan() {
        f(got).is_nan()
    } else {
        got.to_bits() == want.to_bits()
    }
}

fn check(op: &str, a: u64, b: u64, got: Double, want: f64) {
    assert!(
        same(got, want),
        "{:#018x} {} {:#018x}: {:#018x} for {:#018x}",
        a,
        op,
        b,
        got.to_bits(),
        want.to_bits()
    );
}

fn check_all(a: u64, b: u64) {
    let (x, y) = (f64::from_bits(a), f64::from_bits(b));
    let (p, q) = (Double::from_bits(a), Double::from_bits(b));
    check("+", a, b, p + q, x + y);
    check("-", a, b, p - q, x - y);
    check("*", a, b, p * q, x * y);
    check("/", a, b, p / q, x / y);
}

struct Lcg(u64);

impl Lcg {
    fn next(&mut self) -> u64 {
        self.0 = self.0.wrapping_mul(6364136223846793005).wrapping_add(1442695040888963407);
        let x = self.0;
        (x ^ (x >> 29)).rotate_left(17) ^ (x >> 7)
    }

    /// A sign and a fraction under an exponent field of zero.
    fn fraction(&mut self) -> u64 {
        let bits = self.next() & 0x800f_ffff_ffff_ffff;
        match self.next() % 4 {
            0 => bits & 0x8000_0000_0000_0000,
            1 => bits | 0x000f_ffff_ffff_ffff,
            2 => bits & (0x8000_0000_0000_0000 | ((1u64 << (self.next() % 53)) - 1)),
            _ => bits,
        }
    }

    /// A bit pattern: any at all, or one with a chosen exponent field.
    fn pattern(&mut self) -> u64 {
        if self.next() % 3 == 0 {
            self.next()
        } else {
            let e = EXPONENTS[(self.next() % EXPONENTS.len() as u64) as usize];
            self.fraction() | (e << 52)
        }
    }
}

const EXPONENTS: [u64; 24] = [
    0, 0, 1, 2, 3, 52, 53, 54, 55, 100, 511, 512, 1021, 1022, 1023, 1024, 1025, 1075, 1076, 1077,
    2044, 2045, 2046, 2047,
];

#[test]
fn sums_match_the_machine() {
    let mut g = Lcg(1);
    for _ in 0..400_000 {
        let (a, b) = (g.pattern(), g.pattern());
        let (x, y) = (f64::from_bits(a), f64::from_bits(b));
        check("+", a, b, Double::from_bits(a) + Double::from_bits(b), x + y);
    }
}

#[test]
fn sums_of_near_exponents_match_the_machine() {
    let mut g = Lcg(2);
    for _ in 0..400_000 {
        let e = g.next() % 2047;
        let gap = g.next() % 70;
        let a = g.fraction() | (e << 52);
        let b = g.fraction() | (e.saturating_sub(gap) << 52);
        let (x, y) = (f64::from_bits(a), f64::from_bits(b));
        check("+", a, b, Double::from_bits(a) + Double::from_bits(b), x + y);
        check("-", b, a, Double::from_bits(b) - Double::from_bits(a), y - x);
    }
}

#[test]
fn differences_match_the_machine() {
    let mut g = Lcg(3);
    for _ in 0..400_000 {
        let (a, b) = (g.pattern(), g.pattern());
        let (x, y) = (f64::from_bits(a), f64::from_bits(b));
        check("-", a, b, Double::from_bits(a) - Double::from_bits(b), x - y);
    }
}

#[test]
fn products_match_the_machine() {
    let mut g = Lcg(4);
    for _ in 0..400_000 {
        let (a, b) = (g.pattern(), g.pattern());
        let (x, y) = (f64::from_bits(a), f64::from_bits(b));
        check("*", a, b, Double::from_bits(a) * Double::from_bits(b), x * y);
    }
}

#[test]
fn quotients_match_the_machine() {
    let mut g = Lcg(5);
    for _ in 0..400_000 {
        let (a, b) = (g.pattern(), g.pattern());
        let (x, y) = (f64::from_bits(a), f64::from_bits(b));
        check("/", a, b, Double::from_bits(a) / Double::from_bits(b), x / y);
    }
}

#[test]
fn products_and_quotients_near_the_limits_match_the_machine() {
    let mut g = Lcg(6);
    for _ in 0..400_000 {
        let ea = g.next() % 2047;
        // An exponent of the result near the subnormal numbers or near overflow.
        let target: i64 = if g.next() % 2 == 0 {
            31 - (g.next() % 60) as i64
        } else {
            2042 + (g.next() % 8) as i64
        };
        let a = g.fraction() | (ea << 52);
        let eb = (target + 1023 - ea as i64).clamp(0, 2046) as u64;
        let b = g.fraction() | (eb << 52);
        let (x, y) = (f64::from_bits(a), f64::from_bits(b));
        check("*", a, b, Double::from_bits(a) * Double::from_bits(b), x * y);
        let eb = (ea as i64 - target + 1023).clamp(0, 2046) as u64;
        let b = g.fraction() | (eb << 52);
        let (x, y) = (f64::from_bits(a), f64::from_bits(b));
        check("/", a, b, Double::from_bits(a) / Double::from_bits(b), x / y);
    }
}

#[test]
fn results_that_round_to_a_tie_match_the_machine() {
    // Sums and products whose exact value lies halfway between two numbers.
    let mut g = Lcg(9);
    for _ in 0..200_000 {
        let e = 1 + g.next() % 2000;
        let m = g.next() & 0x000f_ffff_ffff_ffff;
        let a = (e << 52) | m;
        // Half a unit in the last place of `a`, where that is a number.
        if e > 53 {
            let half = (e - 53) << 52;
            check_all(a, half);
            check_all(a | 0x8000_0000_0000_0000, half);
            check_all(a, half + 1);
            check_all(a, half - 1);
        }
        // A product with one and a half, and with a half.
        check_all(a, 1.5f64.to_bits());
        check_all(a, 0.5f64.to_bits());
        check_all(m | 1, 0.5f64.to_bits());
        check_all(m | 1, 1.5f64.to_bits());
        check_all(m | 3, 0.25f64.to_bits());
    }
}

#[test]
fn special_values() {
    let inf = f64::INFINITY;
    let values = [
        0.0, -0.0, 1.0, -1.0, inf, -inf, f64::NAN, f64::MAX, f64::MIN_POSITIVE, 5e-324, -5e-324,
        1.5, 3.0, -f64::MAX, 2.2250738585072009e-308,
    ];
    for &a in values.iter() {
        for &b in values.iter() {
            check_all(a.to_bits(), b.to_bits());
            assert_eq!(r(a) == r(b), a == b, "{} == {}", a, b);
        }
        assert_eq!((-r(a)).to_bits(), (-a).to_bits());
        assert_eq!(r(a).abs().to_bits(), a.abs().to_bits());
        assert_eq!(r(a).is_nan(), a.is_nan());
        assert_eq!(r(a).is_finite(), a.is_finite());
        assert_eq!(r(a).is_infinite(), a.is_infinite());
        assert_eq!(r(a).is_sign_negative(), a.is_sign_negative());
        assert_eq!(r(a).is_zero(), a == 0.0);
        assert_eq!(r(a).is_below_zero(), a < 0.0);
        assert_eq!(r(a).is_above_zero(), a > 0.0);
    }
}

#[test]
fn roots_match_the_machine() {
    let mut g = Lcg(7);
    for _ in 0..200_000 {
        let a = g.pattern();
        check("sqrt", a, 0, Double::from_bits(a).sqrt(), f64::from_bits(a).sqrt());
    }
    let values = [
        0.0, -0.0, 1.0, 2.0, 4.0, 0.25, 5e-324, f64::MAX, f64::INFINITY, -1.0, f64::NEG_INFINITY,
        f64::NAN, 25.0, f64::MIN_POSITIVE,
    ];
    for &x in values.iter() {
        assert!(same(r(x).sqrt(), x.sqrt()), "sqrt {}", x);
    }
}

#[test]
fn roots_near_squares_match_the_machine() {
    let mut g = Lcg(8);
    for _ in 0..200_000 {
        let m = g.next() >> 38;
        let x = (m as f64) * (m as f64);
        assert!(same(r(x).sqrt(), x.sqrt()), "sqrt {}", x);
        let y = f64::from_bits(x.to_bits() + 1);
        assert!(same(r(y).sqrt(), y.sqrt()), "sqrt {}", y);
        let z = f64::from_bits(x.to_bits().wrapping_sub(1) & 0x7fff_ffff_ffff_ffff);
        assert!(same(r(z).sqrt(), z.sqrt()), "sqrt {}", z);
    }
}
