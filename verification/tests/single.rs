use chromatui::display::fixed_of;
use chromatui::single::Single;

fn f(x: f32) -> Single {
    Single { bits: x.to_bits() }
}

fn to(x: Single) -> f32 {
    f32::from_bits(x.bits)
}

fn same(soft: Single, hard: f32) -> bool {
    if hard.is_nan() {
        to(soft).is_nan()
    } else {
        soft.bits == hard.to_bits()
    }
}

/// A stream of patterns that reaches every exponent and both signs.
fn patterns(n: usize) -> Vec<f32> {
    let mut v = vec![
        0.0,
        -0.0,
        1.0,
        -1.0,
        0.5,
        1.5,
        2.5,
        -2.5,
        0.1,
        0.3,
        6.0,
        255.0,
        8388607.5,
        8388608.0,
        16777216.0,
        16777217.0,
        2147483648.0,
        -2147483648.0,
        4294967296.0,
        1e-45,
        -1e-45,
        1.1754944e-38,
        1.1754942e-38,
        3.4028235e38,
        -3.4028235e38,
        f32::INFINITY,
        f32::NEG_INFINITY,
        f32::NAN,
    ];
    let mut seed = 0x1234_5678u32;
    while v.len() < n {
        seed = seed.wrapping_mul(1664525).wrapping_add(1013904223);
        let wild = f32::from_bits(seed ^ (seed >> 13));
        v.push(wild);
        v.push((seed >> 8) as f32 / 8388608.0 - 1.0);
        v.push(((seed >> 20) as f32 - 2000.0) / 4.0);
    }
    v
}

#[test]
fn sums_and_differences_match_the_machine() {
    let v = patterns(400);
    for &a in &v {
        for &b in &v {
            assert!(same(f(a).add(f(b)), a + b), "{a:e} + {b:e}");
            assert!(same(f(a).sub(f(b)), a - b), "{a:e} - {b:e}");
        }
    }
}

#[test]
fn products_and_quotients_match_the_machine() {
    let v = patterns(400);
    for &a in &v {
        for &b in &v {
            assert!(same(f(a).mul(f(b)), a * b), "{a:e} * {b:e}");
            assert!(same(f(a).div(f(b)), a / b), "{a:e} / {b:e}");
        }
    }
}

#[test]
fn remainders_match_the_machine() {
    let v = patterns(250);
    for &a in &v {
        for &b in &v {
            assert!(same(f(a).rem(f(b)), a % b), "{a:e} % {b:e}");
            assert!(same(f(a).rem_euclid(f(b)), a.rem_euclid(b)), "{a:e} mod {b:e}");
        }
    }
}

#[test]
fn order_matches_the_machine() {
    let v = patterns(300);
    for &a in &v {
        assert!(same(f(a).neg(), -a));
        assert!(same(f(a).abs(), a.abs()));
        for &b in &v {
            assert_eq!(f(a).lt(f(b)), a < b);
            assert_eq!(f(a).at_place_of(f(b)), a == b);
            if a != b || a.to_bits() == b.to_bits() {
                assert!(same(f(a).max(f(b)), a.max(b)), "max {a:e} {b:e}");
                assert!(same(f(a).min(f(b)), a.min(b)), "min {a:e} {b:e}");
            }
        }
        assert!(same(f(a).clamp(f(-0.1), f(1.5)), a.clamp(-0.1, 1.5)));
    }
}

#[test]
fn conversions_match_the_machine() {
    for &a in &patterns(3000) {
        assert_eq!(f(a).floor_index(), a.floor() as usize, "floor {a:e}");
        assert_eq!(f(a).ceil_index(), a.ceil() as usize, "ceil {a:e}");
        assert_eq!(f(a).round_i32(), a.round() as i32, "round {a:e}");
        assert_eq!(f(a).round_u8(), a.round() as u8, "byte {a:e}");
    }
    let mut seed = 1u64;
    for _ in 0..5000 {
        seed = seed.wrapping_mul(6364136223846793005).wrapping_add(1442695040888963407);
        let n = seed >> (seed % 64);
        assert!(same(Single::from_u64(n), n as f32), "{n}");
        assert!(same(Single::from_i32(n as i32), n as i32 as f32), "{n}");
    }
    assert!(same(Single::from_i32(i32::MIN), i32::MIN as f32));
}

#[test]
fn decimals_match_the_machine() {
    for &a in &patterns(3000) {
        assert_eq!(fixed_of(f(a), 2), format!("{:.2}", a));
        assert_eq!(fixed_of(f(a), 1), format!("{:.1}", a));
        assert_eq!(fixed_of(f(a), 4), format!("{:.4}", a));
    }
    for &a in &[0.125f32, 0.375, 0.25, 0.75, 2.5, 0.005, -0.001, 0.045, 1e20] {
        assert_eq!(fixed_of(f(a), 2), format!("{:.2}", a));
        assert_eq!(fixed_of(f(a), 1), format!("{:.1}", a));
        assert_eq!(fixed_of(f(a), 0), format!("{:.0}.", a));
    }
}

#[test]
fn named_numbers_have_their_patterns() {
    let named = [
        (chromatui::values::ZERO, 0.0f32),
        (chromatui::values::LEAST, f32::MIN),
        (chromatui::values::MINUS_200, -200.0),
        (chromatui::values::MINUS_HALF, -0.5),
        (chromatui::values::MINUS_TENTH, -0.1),
        (chromatui::values::TINY, 1e-10),
        (chromatui::values::FLAT, 1e-9),
        (chromatui::values::HUNDREDTH, 0.01),
        (chromatui::values::TWENTIETH, 0.05),
        (chromatui::values::SIX_HUNDREDTHS, 0.06),
        (chromatui::values::TENTH, 0.1),
        (chromatui::values::THREE_TWENTIETHS, 0.15),
        (chromatui::values::QUARTER, 0.25),
        (chromatui::values::THREE_TENTHS, 0.3),
        (chromatui::values::FOUR_TENTHS, 0.40),
        (chromatui::values::HALF, 0.5),
        (chromatui::values::SIX_TENTHS, 0.6),
        (chromatui::values::SEVEN_TENTHS, 0.7),
        (chromatui::values::THREE_QUARTERS, 0.75),
        (chromatui::values::EIGHT_TENTHS, 0.8),
        (chromatui::values::NINE_TENTHS, 0.9),
        (chromatui::values::ONE, 1.0),
        (chromatui::values::THREE_HALVES, 1.5),
        (chromatui::values::TWO, 2.0),
        (chromatui::values::THREE, 3.0),
        (chromatui::values::FOUR, 4.0),
        (chromatui::values::FIVE, 5.0),
        (chromatui::values::SIX, 6.0),
        (chromatui::values::TURN, 2.0 * std::f32::consts::PI),
        (chromatui::values::TWELVE, 12.0),
        (chromatui::values::TWENTY, 20.0),
        (chromatui::values::TWENTY_ONE, 21.0),
        (chromatui::values::FORTY, 40.0),
        (chromatui::values::SIXTY_NINE, 69.0),
        (chromatui::values::EIGHTY, 80.0),
        (chromatui::values::HUNDRED, 100.0),
        (chromatui::values::BYTE, 255.0),
        (chromatui::values::A4, 440.0),
    ];
    for (bits, x) in named {
        assert_eq!(bits, x.to_bits(), "{x}");
    }
}
