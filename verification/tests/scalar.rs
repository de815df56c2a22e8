use rand::{Rng, SeedableRng};
use rand_chacha::ChaCha8Rng;
use resims::scalar::decimal::push_fixed;
use resims::scalar::Scalar;

fn s(v: f32) -> Scalar {
    Scalar { bits: v.to_bits() }
}

fn f(v: Scalar) -> f32 {
    f32::from_bits(v.bits)
}

/// Awkward values, then random patterns, then values of ordinary size.
fn samples() -> Vec<f32> {
    let mut out = vec![
        0.0, -0.0, 1.0, -1.0, 0.5, -0.5, 1.5, 2.5, -2.5, 0.1, 0.25, 0.35, 3.4e38, -3.4e38,
        1e-45, -1e-45, 1.1754944e-38, 1.1754942e-38, 8388607.5, 8388608.0, 16777216.0, 16777218.0,
        9.223372e18, -9.223372e18, 2147483600.0, -2147483600.0, 4294967000.0, 4294967300.0,
    ];
    out.extend([f32::INFINITY, f32::NEG_INFINITY, f32::NAN, f32::MAX, f32::MIN, f32::EPSILON]);
    let mut rng = ChaCha8Rng::seed_from_u64(5);
    for _ in 0..120 {
        out.push(f32::from_bits(rng.random()));
    }
    for _ in 0..120 {
        out.push(rng.random_range(-100.0..100.0));
    }
    out
}

fn same(ours: Scalar, theirs: f32, what: &str) {
    if theirs.is_nan() {
        assert!(ours.is_nan(), "{what}: {:x} is a number", ours.bits);
    } else {
        assert_eq!(ours.bits, theirs.to_bits(), "{what}: {} against {theirs}", f(ours));
    }
}

#[test]
fn arithmetic_matches_the_hardware() {
    let all = samples();
    for &a in &all {
        for &b in &all {
            same(s(a).add(s(b)), a + b, "add");
            same(s(a).sub(s(b)), a - b, "sub");
            same(s(a).mul(s(b)), a * b, "mul");
            same(s(a).div(s(b)), a / b, "div");
            assert_eq!(s(a).lt(s(b)), a < b);
            assert_eq!(s(a).le(s(b)), a <= b);
            assert_eq!(s(a).same(s(b)), a == b);
            let (lo, hi) = (s(a).min(s(b)), s(a).max(s(b)));
            assert!(f(lo) == a.min(b) || (lo.is_nan() && a.is_nan() && b.is_nan()));
            assert!(f(hi) == a.max(b) || (hi.is_nan() && a.is_nan() && b.is_nan()));
        }
    }
}

#[test]
fn functions_of_one_match_the_hardware() {
    for &a in &samples() {
        same(s(a).sqrt(), a.sqrt(), "sqrt");
        same(s(a).floor(), a.floor(), "floor");
        same(s(a).ceil(), a.ceil(), "ceil");
        same(s(a).round(), a.round(), "round");
        same(s(a).neg(), -a, "neg");
        same(s(a).abs(), a.abs(), "abs");
        same(s(a).clamp(s(-1.0), s(1.0)), a.clamp(-1.0, 1.0), "clamp");
        assert_eq!(s(a).to_i64(), a as i64);
        assert_eq!(s(a).to_i32(), a as i32);
        assert_eq!(s(a).to_u32(), a as u32);
        assert_eq!(s(a).is_nan(), a.is_nan());
        assert_eq!(s(a).is_finite(), a.is_finite());
        assert_eq!(s(a).is_infinite(), a.is_infinite());
        assert_eq!(s(a).is_zero(), a == 0.0);
    }
}

#[test]
fn many_roots_and_quotients_match_the_hardware() {
    let mut rng = ChaCha8Rng::seed_from_u64(11);
    for _ in 0..20_000 {
        let a = f32::from_bits(rng.random::<u32>() >> 1);
        let b = f32::from_bits(rng.random());
        same(s(a).sqrt(), a.sqrt(), "sqrt");
        same(s(a).div(s(b)), a / b, "div");
        same(s(a).add(s(b)), a + b, "add");
        same(s(a).mul(s(b)), a * b, "mul");
    }
}

#[test]
fn integers_convert_like_the_hardware() {
    let mut rng = ChaCha8Rng::seed_from_u64(3);
    for _ in 0..2000 {
        let x: i64 = rng.random::<i64>() >> rng.random_range(0..63);
        if x > i64::MIN {
            same(Scalar::from_int(x), x as f32, "from_int");
        }
    }
    same(Scalar::from_int(16777217), 16777217i64 as f32, "halfway");
    same(Scalar::from_int(0), 0.0, "zero");
}

#[test]
fn decimal_text_matches_the_formatter() {
    for &a in &samples() {
        let mut out = String::new();
        push_fixed(&mut out, s(a), true, true);
        assert_eq!(out, format!("{a:+.1}"));
        let mut out = String::new();
        push_fixed(&mut out, s(a), true, false);
        assert_eq!(out, format!("{a:.1}"));
        let mut out = String::from("x");
        push_fixed(&mut out, s(a), false, false);
        assert_eq!(out, format!("x{a:.0}"));
    }
}
