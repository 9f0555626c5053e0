use aircraft_router_planner::numeric::{number, ratio};
use aircraft_router_planner::scalar::Scalar;

fn s(x: f64) -> Scalar {
    Scalar { bits: x.to_bits() }
}

fn f(x: Scalar) -> f64 {
    f64::from_bits(x.bits)
}

/// Bit patterns from all over the range, made by a small generator.
fn samples(count: usize) -> Vec<f64> {
    let mut state: u64 = 0x9e37_79b9_7f4a_7c15;
    let mut out = vec![
        0.0,
        -0.0,
        1.0,
        -1.0,
        0.1,
        1.5,
        3.0,
        1e-300,
        5e-324,
        -5e-324,
        2.2250738585072014e-308,
        2.225073858507201e-308,
        f64::MAX,
        f64::MIN,
        f64::INFINITY,
        f64::NEG_INFINITY,
        f64::NAN,
        9007199254740992.0,
        9007199254740993.0,
        111.32,
        298.257223563,
    ];
    while out.len() < count {
        state ^= state << 13;
        state ^= state >> 7;
        state ^= state << 17;
        let narrow = (state >> 12) | 0x3ff0_0000_0000_0000;
        out.push(f64::from_bits(if out.len() % 2 == 0 { state } else { narrow }));
    }
    out
}

fn same(a: f64, b: f64) -> bool {
    (a.is_nan() && b.is_nan()) || a.to_bits() == b.to_bits()
}

#[test]
fn arithmetic_rounds_like_the_machine() {
    let v = samples(160);
    for &a in &v {
        for &b in &v {
            assert!(same(f(s(a) + s(b)), a + b), "{a:e} + {b:e}");
            assert!(same(f(s(a) - s(b)), a - b), "{a:e} - {b:e}");
            assert!(same(f(s(a) * s(b)), a * b), "{a:e} * {b:e}");
            assert!(same(f(s(a) / s(b)), a / b), "{a:e} / {b:e}");
            assert!(same(f(s(a).rem(&s(b))), a % b), "{a:e} % {b:e}");
        }
    }
}

#[test]
fn roots_round_like_the_machine() {
    for a in samples(3000) {
        assert!(same(f(s(a).sqrt()), a.sqrt()), "sqrt {a:e}");
        assert!(same(f(s(a).abs()), a.abs()));
        assert!(same(f(s(a).neg()), -a));
    }
}

#[test]
fn comparisons_agree_with_the_machine() {
    let v = samples(200);
    for &a in &v {
        for &b in &v {
            assert_eq!(s(a).lt(&s(b)), a < b);
            assert_eq!(s(a).le(&s(b)), a <= b);
            assert_eq!(s(a).ranks_below(&s(b)), a.total_cmp(&b).is_lt());
            if a != b {
                assert!(same(f(s(a).max(&s(b))), a.max(b)));
                assert!(same(f(s(a).min(&s(b))), a.min(b)));
            }
        }
        assert_eq!(s(a).is_nan(), a.is_nan());
        assert_eq!(s(a).is_finite(), a.is_finite());
        assert!(same(f(s(a).clamp(&s(0.0), &s(1.0))), a.clamp(0.0, 1.0)));
    }
}

#[test]
fn whole_numbers_convert_like_casts() {
    for n in [0u64, 1, 2, 3, 1000, 4294967295, 4294967296, 9007199254740993, u64::MAX] {
        assert_eq!(f(number(n)), n as f64);
    }
    for a in samples(3000) {
        assert_eq!(s(a).floor_i64(), a.floor() as i64, "floor {a:e}");
        if !(a.is_sign_negative()) && a < 1e18 {
            assert_eq!(s(a).ceil_u64(), a.ceil() as u64, "ceil {a:e}");
        }
    }
    assert_eq!(s(f64::INFINITY).ceil_u64(), 1u64 << 63);
    assert_eq!(s(-3.5).ceil_u64(), 0);
}

#[test]
fn fractions_are_the_literals() {
    assert_eq!(f(ratio(1, 10)), 0.1);
    assert_eq!(f(ratio(12, 10)), 1.2);
    assert_eq!(f(ratio(8, 100)), 0.08);
    assert_eq!(f(ratio(11132, 100)), 111.32);
    assert_eq!(f(ratio(1, 1_000_000_000)), 1e-9);
    assert_eq!(f(ratio(1, 1_000_000_000_000)), 1e-12);
    assert_eq!(f(ratio(298_257_223_563, 1_000_000_000)), 298.257_223_563);
}
