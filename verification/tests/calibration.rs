use chromatui::analysis::Band;
use chromatui::calibration::{Calibration, INTERNAL_BASELINE};
use chromatui::single::Single;

fn f(x: f32) -> Single {
    Single { bits: x.to_bits() }
}

fn to(x: Single) -> f32 {
    f32::from_bits(x.bits)
}

fn band(pink: f32) -> Band {
    Band {
        note: f(69.0),
        freq: f(440.0),
        bin_lo: 0,
        bin_hi: 0,
        pink: f(pink),
        hue: f(0.0),
        hue_idx: 0,
    }
}

#[test]
fn ends_after_exactly_seventy_five_rows() {
    let mut c = Calibration::new();
    let bands = vec![band(0.01), band(-0.02)];
    for i in 0..74 {
        let row = vec![f(0.1), f(i as f32 * 0.001)];
        assert!(c.feed(&row, &bands).is_none(), "row {i}");
    }
    let mid = c.feed(&vec![f(0.0)], &bands).unwrap();
    assert_eq!(to(mid), (0.1f32 + 0.01) + 0.06);
}

#[test]
fn the_midpoint_stays_in_its_bounds() {
    let bands = vec![band(0.0)];
    let run = |x: f32| {
        let mut c = Calibration::new();
        for _ in 0..74 {
            c.feed(&vec![f(x)], &bands);
        }
        to(c.feed(&vec![f(x)], &bands).unwrap())
    };
    assert_eq!(run(0.0), 0.06);
    assert_eq!(run(-1.0), 0.06);
    assert_eq!(run(5.0), 1.0);
    assert_eq!(run(0.94), (0.94f32 + 0.06).clamp(0.05, 1.0));
    assert_eq!(run(f32::NAN), 0.06);
}

#[test]
fn the_anchor_for_internal_audio() {
    assert_eq!(f32::from_bits(INTERNAL_BASELINE), 0.40);
}
