use std::time::Duration;

use midnight_shadow::binary64::double::Double;

fn d(x: f64) -> Double {
    Double::from_bits(x.to_bits())
}

fn f(x: Double) -> f64 {
    f64::from_bits(x.to_bits())
}

/// Bit for bit the same, any two values that are not numbers being the same.
fn same(a: f64, b: f64) -> bool {
    (a.is_nan() && b.is_nan()) || a.to_bits() == b.to_bits()
}

struct Lcg(u64);

impl Lcg {
    fn next(&mut self) -> u64 {
        self.0 = self.0.wrapping_mul(6364136223846793005).wrapping_add(1442695040888963407);
        let x = self.0;
        (x ^ (x >> 29)).wrapping_mul(0xbf58476d1ce4e5b9) ^ (x >> 32)
    }
}

fn specials() -> Vec<f64> {
    vec![
        0.0,
        -0.0,
        1.0,
        -1.0,
        0.5,
        2.0,
        3.0,
        0.1,
        -0.1,
        1e-3,
        3200.0,
        2650.0,
        1.0 + f64::EPSILON,
        1.0 - f64::EPSILON / 2.0,
        f64::MIN_POSITIVE,
        -f64::MIN_POSITIVE,
        f64::from_bits(1),
        f64::from_bits(0x8000_0000_0000_0001),
        f64::from_bits(0x000f_ffff_ffff_ffff),
        f64::MAX,
        f64::MIN,
        f64::INFINITY,
        f64::NEG_INFINITY,
        f64::NAN,
        9007199254740992.0,
        9007199254740991.0,
        18446744073709551616.0,
        1e300,
        1e-300,
    ]
}

fn check_pair(a: f64, b: f64) {
    assert!(same(f(d(a).plus(d(b))), a + b), "{a:?} + {b:?}");
    assert!(same(f(d(a).minus(d(b))), a - b), "{a:?} - {b:?}");
    assert!(same(f(d(a).times(d(b))), a * b), "{a:?} * {b:?}");
    assert!(same(f(d(a).over(d(b))), a / b), "{a:?} / {b:?}");
    assert_eq!(d(a).lt(d(b)), a < b, "{a:?} < {b:?}");
    assert_eq!(d(a).le(d(b)), a <= b, "{a:?} <= {b:?}");
    if a != b {
        assert!(same(f(d(a).max(d(b))), a.max(b)), "max {a:?} {b:?}");
        assert!(same(f(d(a).min(d(b))), a.min(b)), "min {a:?} {b:?}");
    }
}

fn check_one(a: f64) {
    assert!(same(f(d(a).negated()), -a));
    assert!(same(f(d(a).abs()), a.abs()));
    assert_eq!(d(a).to_u64(), a as u64, "{a:?} as u64");
}

#[test]
fn arithmetic_agrees_with_the_machine_on_special_values() {
    let all = specials();
    for &a in &all {
        check_one(a);
        for &b in &all {
            check_pair(a, b);
            assert!(same(f(d(a).modulo(d(b))), a % b), "{a:?} % {b:?}");
        }
    }
}

#[test]
fn arithmetic_agrees_with_the_machine_on_any_bits() {
    let mut rng = Lcg(1);
    for _ in 0..40_000 {
        let a = f64::from_bits(rng.next());
        let b = f64::from_bits(rng.next());
        check_one(a);
        check_pair(a, b);
    }
}

#[test]
fn arithmetic_agrees_with_the_machine_on_close_exponents() {
    let mut rng = Lcg(2);
    for _ in 0..60_000 {
        let x = rng.next();
        let y = rng.next();
        let ea = 0x3ff - 40 + (x >> 56) % 80;
        let eb = 0x3ff - 40 + (y >> 56) % 80;
        let a = f64::from_bits((x & 0x800f_ffff_ffff_ffff) | (ea << 52));
        let b = f64::from_bits((y & 0x800f_ffff_ffff_ffff) | (eb << 52));
        check_one(a);
        check_pair(a, b);
        assert!(same(f(d(a).modulo(d(b))), a % b), "{a:?} % {b:?}");
    }
}

#[test]
fn arithmetic_agrees_with_the_machine_on_subnormals() {
    let mut rng = Lcg(3);
    for _ in 0..40_000 {
        let x = rng.next();
        let y = rng.next();
        let a = f64::from_bits((x & 0x800f_ffff_ffff_ffff) | (((x >> 56) % 3) << 52));
        let b = f64::from_bits((y & 0x800f_ffff_ffff_ffff) >> ((y >> 56) % 52));
        let c = f64::from_bits((y & 0x800f_ffff_ffff_ffff) | ((0x3ff - 4 + (y >> 56) % 8) << 52));
        check_pair(a, b);
        check_pair(a, c);
        check_pair(c, a);
        assert!(same(f(d(a).modulo(d(b))), a % b), "{a:?} % {b:?}");
    }
}

#[test]
fn ties_go_to_even() {
    let half = f64::EPSILON / 2.0;
    assert_eq!(f(d(1.0).plus(d(half))), 1.0);
    assert_eq!(f(d(1.0 + f64::EPSILON).plus(d(half))), 1.0 + 2.0 * f64::EPSILON);
}

#[test]
fn whole_numbers_and_ratios_are_the_nearest_doubles() {
    for n in [0u64, 1, 2, 10, 999, 1 << 53, (1 << 53) + 1, u64::MAX, u64::MAX - 1024] {
        assert!(same(f(Double::from_u64(n)), n as f64), "{n}");
    }
    assert_eq!(f(Double::ratio(5, 1000)), 0.005);
    assert_eq!(f(Double::ratio(8, 100_000)), 0.00008);
    assert_eq!(f(Double::ratio(12, 100)), 0.12);
    assert_eq!(f(Double::ratio(8, 10)), 0.8);
    assert_eq!(f(Double::ratio(385, 1000)), 0.385);
    assert_eq!(f(Double::ratio(1, 3)), 1.0 / 3.0);
}

#[test]
fn constants() {
    assert!(same(f(Double::zero()), 0.0));
    assert!(same(f(Double::neg_zero()), -0.0));
    assert!(same(f(Double::one()), 1.0));
    assert!(same(f(Double::infinity()), f64::INFINITY));
}

#[test]
fn nanoseconds_are_rounded() {
    for secs in [
        0.0, -0.0, 0.3, 10.0, 108.0, 1.5e-9, 2.5e-9, 0.4e-9, 0.5e-9, 0.999e-9, 123.456789012345,
        1e10, 1.8e19, 4.9e-324, 252.0, 251.7120000000001,
    ] {
        assert_eq!(d(secs).to_nanos(), Duration::from_secs_f64(secs).as_nanos(), "{secs:?}");
    }
    let mut rng = Lcg(4);
    for _ in 0..20_000 {
        let x = rng.next();
        let e = 0x3ff - 40 + (x >> 56) % 100;
        let secs = f64::from_bits((x & 0x000f_ffff_ffff_ffff) | (e << 52));
        assert_eq!(d(secs).to_nanos(), Duration::from_secs_f64(secs).as_nanos(), "{secs:?}");
    }
}
