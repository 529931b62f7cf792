use chromatui::controls::{
    note_name, Param, Params, MAX_NOTE, MIN_NOTE, MIN_SPAN, PARAMS, SPEEDS, SPEED_LABELS,
};
use chromatui::single::Single;

fn f(x: f32) -> Single {
    Single { bits: x.to_bits() }
}

fn to(x: Single) -> f32 {
    f32::from_bits(x.bits)
}

#[test]
fn note_names() {
    assert_eq!(note_name(60), "C4");
    assert_eq!(note_name(69), "A4");
    assert_eq!(note_name(21), "A0");
    assert_eq!(note_name(120), "C9");
    assert_eq!(note_name(132), "C10");
}

#[test]
fn note_names_below_the_first_octave() {
    assert_eq!(note_name(0), "C-1");
    assert_eq!(note_name(-1), "B-2");
    assert_eq!(note_name(i32::MIN), "E-178956972");
    assert_eq!(note_name(i32::MAX), "G178956969");
}

#[test]
fn adjust_clamps_and_flags_rebuild() {
    let mut p = Params::default();
    assert!(p.adjust(Param::Fft, 5, false));
    assert_eq!(p.fft_exp, 14);
    assert!(!p.adjust(Param::Midpoint, -100, false));
    assert_eq!(to(p.midpoint), 0.0);
    // range lo can never cross range hi minus an octave
    for _ in 0..200 {
        p.adjust(Param::RangeLo, 1, true);
    }
    assert!(p.range_lo <= p.range_hi - MIN_SPAN);
}

#[test]
fn sanitize_repairs_bad_config() {
    let mut p = Params {
        fft_exp: 99,
        smooth: f(7.0),
        speed_idx: 42,
        midpoint: f(-3.0),
        steep: f(1000.0),
        range_lo: 130,
        range_hi: 20,
        horizontal: true,
    };
    p.sanitize();
    assert!(p.fft_exp <= 14 && p.range_lo + MIN_SPAN <= p.range_hi);
    assert!(p.speed_idx < SPEEDS.len());
    assert_eq!(to(p.smooth), 1.0);
    assert_eq!(to(p.midpoint), 0.0);
    assert_eq!(to(p.steep), 40.0);
    assert_eq!((p.range_lo, p.range_hi), (120, 132));
    let once = p;
    p.sanitize();
    assert_eq!(p, once);
}

#[test]
fn every_param_has_an_explanation() {
    for p in PARAMS {
        assert!(p.explain().len() > 40, "{} explanation too short", p.label());
    }
}

#[test]
fn initial_settings() {
    let p = Params::default();
    assert_eq!(p.fft_size(), 8192);
    assert_eq!(to(p.speed()), 1.0);
    assert_eq!(p.speed_quarters(), 4);
    assert_eq!(to(p.midpoint), 0.3);
    assert_eq!(to(p.steep), 20.0);
    assert_eq!((p.range_lo, p.range_hi), (36, 84));
    assert!(p.horizontal);
    let mut q = p;
    q.sanitize();
    assert_eq!(p, q);
    assert_eq!(Params::restored(None), p);
    assert_eq!(Params::restored(Some(Params { fft_exp: 3, ..p })).fft_exp, 12);
}

#[test]
fn settings_as_they_are_shown() {
    let mut p = Params::default();
    let shown: Vec<String> = PARAMS.iter().map(|&q| p.value_str(q)).collect();
    assert_eq!(shown, ["8192", "0.00", "1", "0.30", "20.0", "C2", "C6"]);
    p.speed_idx = 0;
    assert_eq!(p.value_str(Param::Speed), "¼");
    assert_eq!(SPEED_LABELS.len(), SPEEDS.len());
    for _ in 0..7 {
        p.adjust(Param::Midpoint, 1, true);
    }
    assert_eq!(p.value_str(Param::Midpoint), format!("{:.2}", to(p.midpoint)));
    p.midpoint = f(f32::NAN);
    assert_eq!(p.value_str(Param::Midpoint), "NaN");
}

#[test]
fn nudges_are_those_of_the_machine() {
    let mut p = Params::default();
    let (mut smooth, mut midpoint, mut steep) = (0.0f32, 0.3f32, 20.0f32);
    let moves = [(1, false), (1, true), (-1, false), (3, true), (-2, true), (7, false)];
    for round in 0..20 {
        let (dir, coarse) = moves[round % moves.len()];
        let d = dir as f32;
        assert!(!p.adjust(Param::Smooth, dir, coarse));
        assert!(!p.adjust(Param::Midpoint, dir, coarse));
        assert!(!p.adjust(Param::Steep, dir, coarse));
        smooth = (smooth + d * if coarse { 0.1 } else { 0.01 }).clamp(0.0, 1.0);
        midpoint = (midpoint + d * if coarse { 0.05 } else { 0.01 }).clamp(0.0, 1.0);
        steep = (steep + d * if coarse { 5.0 } else { 0.5 }).clamp(3.0, 40.0);
        assert_eq!(to(p.smooth), smooth);
        assert_eq!(to(p.midpoint), midpoint);
        assert_eq!(to(p.steep), steep);
    }
    assert!(p.adjust(Param::RangeHi, 100, true));
    assert_eq!(p.range_hi, MAX_NOTE);
    assert!(p.adjust(Param::RangeLo, -100, true));
    assert_eq!(p.range_lo, MIN_NOTE);
    assert!(p.adjust(Param::RangeHi, -1000, false));
    assert_eq!(p.range_hi, MIN_NOTE + MIN_SPAN);
    assert!(!p.adjust(Param::Speed, -9, false));
    assert_eq!(to(p.speed()), 0.25);
    assert!(!p.adjust(Param::Speed, 9, false));
    assert_eq!(to(p.speed()), 4.0);
}

#[test]
fn labels_of_the_controls() {
    let labels: Vec<&str> = PARAMS.iter().map(|p| p.label()).collect();
    assert_eq!(
        labels,
        ["fft size", "smooth", "speed", "midpoint", "steep", "range lo", "range hi"]
    );
}

#[test]
fn speeds_in_rows_per_frame() {
    let speeds = [0.25f32, 0.5, 1.0, 2.0, 3.0, 4.0];
    for (i, &rows) in speeds.iter().enumerate() {
        let p = Params { speed_idx: i, ..Params::default() };
        assert_eq!(to(p.speed()), rows);
        assert_eq!(p.speed_quarters() as f32, 4.0 * rows);
    }
}

#[test]
fn a_nudge_changes_one_control() {
    for param in PARAMS {
        for (dir, coarse) in [(1, false), (-1, true)] {
            let before = Params::default();
            let mut after = before;
            let rebuilds = after.adjust(param, dir, coarse);
            for other in PARAMS {
                if other != param {
                    assert_eq!(after.value_str(other), before.value_str(other));
                }
            }
            let bands = |p: &Params| (p.fft_exp, p.range_lo, p.range_hi);
            assert!(rebuilds || bands(&after) == bands(&before));
            assert_eq!(after.horizontal, before.horizontal);
            let mut again = after;
            again.sanitize();
            assert_eq!(again, after);
        }
    }
}

#[test]
fn what_is_no_number_is_repaired() {
    let mut p = Params {
        smooth: f(f32::NAN),
        midpoint: f(-f32::NAN),
        steep: f(f32::NAN),
        ..Params::default()
    };
    p.sanitize();
    assert!(0.0 <= to(p.smooth) && to(p.smooth) <= 1.0);
    assert_eq!(p, Params::default());
    p.smooth = f(f32::INFINITY);
    p.midpoint = f(f32::NEG_INFINITY);
    p.steep = f(f32::INFINITY);
    p.sanitize();
    assert_eq!((to(p.smooth), to(p.midpoint), to(p.steep)), (1.0, 0.0, 40.0));
}

#[test]
fn oversized_numbers_wrap_before_they_are_bounded() {
    for (exp, dir) in [(u32::MAX, 1), (1 << 31, 5), ((1 << 31) - 1, -3), (13, 1)] {
        let mut p = Params { fft_exp: exp, ..Params::default() };
        assert!(p.adjust(Param::Fft, dir, false));
        assert_eq!(p.fft_exp, (exp as i32 + dir).clamp(12, 14) as u32);
    }
    for (idx, dir) in [(usize::MAX, 3), (1 << 31, 1), (0xffff_fff0, 0), (5, -1)] {
        let mut p = Params { speed_idx: idx, ..Params::default() };
        assert!(!p.adjust(Param::Speed, dir, false));
        assert_eq!(p.speed_idx, (idx as i32 + dir).clamp(0, 5) as usize);
    }
}
