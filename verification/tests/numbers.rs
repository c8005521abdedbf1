use rtracker::double::Double;
use rtracker::single::Single;

fn s(x: f32) -> Single {
    Single::of_bits(x.to_bits())
}

fn d(x: f64) -> Double {
    Double::of_bits(x.to_bits())
}

fn same(x: Single, y: f32) -> bool {
    x.bits == y.to_bits() || (f32::from_bits(x.bits).is_nan() && y.is_nan())
}

fn same_double(x: Double, y: f64) -> bool {
    x.bits == y.to_bits() || (f64::from_bits(x.bits).is_nan() && y.is_nan())
}

fn patterns() -> Vec<u32> {
    let mut out: Vec<u32> = vec![
        0, 1, 2, 0x7f_ffff, 0x80_0000, 0x80_0001, 0x3f80_0000, 0x3f80_0001, 0x3f7f_ffff, 0x7f7f_ffff, 0x7f80_0000,
        0x7fc0_0000, 0x4b00_0000, 0x4b80_0000, 0x5f00_0000, 0x5f80_0000, 0x3f00_0000, 0x4000_0000,
    ];
    let mut x: u32 = 0x1234_5678;
    for _ in 0..60 {
        x ^= x << 13;
        x ^= x >> 17;
        x ^= x << 5;
        out.push(x & 0x7fff_ffff);
    }
    let negative: Vec<u32> = out.iter().map(|b| b | 0x8000_0000).collect();
    out.extend(negative);
    out
}

#[test]
fn single_arithmetic_is_that_of_the_machine() {
    for a in patterns() {
        for b in patterns() {
            let (x, y) = (f32::from_bits(a), f32::from_bits(b));
            let (p, q) = (Single::of_bits(a), Single::of_bits(b));
            assert!(same(p.plus(q), x + y), "{x:?} + {y:?}");
            assert!(same(p.minus(q), x - y), "{x:?} - {y:?}");
            assert!(same(p.times(q), x * y), "{x:?} * {y:?}");
            assert!(same(p.over(q), x / y), "{x:?} / {y:?}");
            assert_eq!(p.is_less(q), x < y);
            assert_eq!(p.is_at_most(q), x <= y);
        }
    }
}

#[test]
fn double_arithmetic_is_that_of_the_machine() {
    let wide: Vec<u64> = patterns()
        .iter()
        .map(|b| ((*b as u64) << 32) | (*b as u64).wrapping_mul(0x9e37_79b9) & 0xffff_ffff)
        .collect();
    for a in &wide {
        for b in &wide {
            let (x, y) = (f64::from_bits(*a), f64::from_bits(*b));
            let (p, q) = (Double::of_bits(*a), Double::of_bits(*b));
            assert!(same_double(p.plus(q), x + y), "{x:?} + {y:?}");
            assert!(same_double(p.minus(q), x - y), "{x:?} - {y:?}");
            assert!(same_double(p.times(q), x * y), "{x:?} * {y:?}");
            assert!(same_double(p.over(q), x / y), "{x:?} / {y:?}");
            assert_eq!(p.is_less(q), x < y);
            assert_eq!(p.is_at_most(q), x <= y);
        }
        let x = f64::from_bits(*a);
        assert!(same(Double::of_bits(*a).to_single(), x as f32), "{x:?}");
    }
}

#[test]
fn conversions_are_those_of_the_machine() {
    for b in patterns() {
        let x = f32::from_bits(b);
        let p = Single::of_bits(b);
        assert!(same_double(Double::from_single(p), x as f64));
        assert_eq!(p.to_natural(), x as u64, "{x:?}");
        let y = x as f64;
        let q = Double::from_single(p);
        assert_eq!(q.to_nearest(), y.round() as u64, "{y:?}");
        assert_eq!(q.to_ceiling(), if y < 0.0 { 0 } else { y.ceil() as u64 }, "{y:?}");
        assert_eq!(q.to_floor(), y.floor() as u64, "{y:?}");
        if y.is_finite() && y.is_sign_positive() {
            assert!(same_double(q.fract(), y - y.floor()), "{y:?}");
            assert!(same_double(q.modulo(d(7.0)), y % 7.0), "{y:?}");
        }
    }
    for n in [0i64, 1, -1, 7, 16777216, 16777217, 16777219, -33554435, i64::MAX, i64::MIN, 1 << 62] {
        assert!(same(Single::from_int(n), n as f32), "{n}");
    }
    for n in [0u64, 1, 9007199254740993, u64::MAX, 1 << 63, 0x8000_0000_0000_0401] {
        assert!(same(Single::from_natural(n), n as f32), "{n}");
        assert!(same_double(Double::from_natural(n), n as f64), "{n}");
    }
}

#[test]
fn ratios_are_decimal_literals() {
    assert!(same(Single::ratio(1, 10), 0.1));
    assert!(same(Single::ratio(-65, 100), -0.65));
    assert!(same(Single::ratio(1, 1000000), 1e-6));
    assert!(same(Single::ratio(1, 1000000000), 1e-9));
    assert!(same(Single::ratio(141, 100), 1.41));
}

#[test]
fn larger_and_clamped_values_are_those_of_the_machine() {
    for a in patterns() {
        let (x, p) = (f32::from_bits(a), Single::of_bits(a));
        assert!(same(p.clamp(s(-1.0), s(1.0)), x.clamp(-1.0, 1.0)));
        let m = p.max(s(0.001));
        assert!(same(m, x.max(0.001)));
        assert!(same(p.negate(), -x));
        assert_eq!(p.is_finite(), x.is_finite());
        assert_eq!(p.is_nan(), x.is_nan());
        assert_eq!(p.is_negative(), x.is_sign_negative());
    }
    assert!(same(s(f32::NAN).max(s(2.0)), 2.0));
}

#[test]
fn operands_commute() {
    let (a, b) = (s(0.1), s(-7.3));
    assert_eq!(a.plus(b), b.plus(a));
    assert_eq!(a.times(b), b.times(a));
    let (a, b) = (d(0.1), d(-7.3));
    assert_eq!(a.plus(b), b.plus(a));
    assert_eq!(a.times(b), b.times(a));
}
