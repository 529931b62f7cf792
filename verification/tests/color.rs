use chromatui::analysis::{sigmoid, sigmoid_exponent, Band};
use chromatui::color::{hsl_to_rgb, note_color, shade, ColorMap};
use chromatui::single::Single;

fn f(x: f32) -> Single {
    Single { bits: x.to_bits() }
}

fn to(x: Single) -> f32 {
    f32::from_bits(x.bits)
}

fn machine_hsl(h: f32, s: f32, l: f32) -> (u8, u8, u8) {
    let chan = |offset: f32| {
        let x = (((h * 6.0 + offset).rem_euclid(6.0) - 3.0).abs() - 1.0).clamp(0.0, 1.0);
        let v = l + s * (x - 0.5) * (1.0 - (2.0 * l - 1.0).abs());
        (v.clamp(0.0, 1.0) * 255.0).round() as u8
    };
    (chan(0.0), chan(4.0), chan(2.0))
}

#[test]
fn a_is_red() {
    // Hue 0 (any A) must come out red-dominant.
    let (r, g, b) = hsl_to_rgb(f(0.0), f(1.0), f(0.5));
    assert!(r > 200 && g < 60 && b < 60, "got {r},{g},{b}");
    assert_eq!((r, g, b), (255, 0, 0));
    for midi in [21, 33, 69, 117] {
        let (r, g, b) = note_color(f(midi as f32));
        assert!(r > g && g == b);
    }
}

#[test]
fn colours_are_those_of_the_machine() {
    for i in 0..50 {
        for j in 0..=10 {
            let (h, s, l) = (i as f32 / 49.0, j as f32 / 10.0, (i * 7 % 11) as f32 / 10.0);
            assert_eq!(hsl_to_rgb(f(h), f(s), f(l)), machine_hsl(h, s, l));
        }
        let midi = i as f32 * 2.3;
        let hue = ((midi - 21.0) / 12.0).rem_euclid(1.0);
        assert_eq!(note_color(f(midi)), machine_hsl(hue, 0.9, 0.6));
    }
}

#[test]
fn the_table_is_made_anew_only_for_new_knobs() {
    let exps = |m: f32, s: f32| -> Vec<Single> {
        ColorMap::exponents(f(m), f(s)).iter().map(|&e| f(to(e).exp())).collect()
    };
    let mut map = ColorMap::new(&exps(0.3, 20.0));
    assert!(!map.stale(f(0.3), f(20.0)));
    assert!(map.stale(f(0.3), f(20.5)));
    assert!(map.stale(f(f32::NAN), f(20.0)));
    let before = map.sigmoid_lut.clone();
    map.ensure(f(0.3), f(20.0), &Vec::new());
    assert_eq!(map.sigmoid_lut, before);
    map.ensure(f(0.6), f(5.0), &exps(0.6, 5.0));
    assert!(!map.stale(f(0.6), f(5.0)));
    for (i, &v) in map.sigmoid_lut.iter().enumerate() {
        let x = -0.1f32 + i as f32 / 2047.0 * (1.5 - -0.1f32);
        let y = 1.0 / (1.0 + (-5.0f32 * (x - 0.6)).exp());
        let want = if y < 0.01 { 0 } else { (y * 255.0).round() as u8 };
        assert_eq!(v, want, "step {i}");
    }
}

#[test]
fn louder_is_never_lower_in_the_table() {
    let exps: Vec<Single> =
        ColorMap::exponents(f(0.3), f(20.0)).iter().map(|&e| f(to(e).exp())).collect();
    let mut map = ColorMap::new(&exps);
    map.sigmoid_lut = (0..2048).map(|i| (1 + i * 254 / 2047) as u8).collect();
    for (i, c) in map.rgb.iter_mut().enumerate() {
        *c = ((i / 512) as u8, 0, 0);
    }
    let band = Band {
        note: f(69.0),
        freq: f(440.0),
        bin_lo: 75,
        bin_hi: 75,
        hue: f(0.0),
        pink: f(0.013),
        hue_idx: 0,
    };
    let mut last = 0;
    for i in -300..2000 {
        let v = map.shade(f(i as f32 / 1000.0), &band).0;
        assert!(v >= last, "at {i}");
        last = v;
    }
    assert_eq!(last, 255);
    assert_eq!(map.shade(f(f32::NEG_INFINITY), &band).0, 1);
    assert_eq!(map.shade(f(f32::INFINITY), &band).0, 255);
}

#[test]
fn every_a_is_red_in_both_tables() {
    for octave in -3..12 {
        assert_eq!(note_color(f((21 + 12 * octave) as f32)), (245, 61, 61));
    }
    let map = ColorMap::new(&vec![f(1.0); 2048]);
    for v in 0..256 {
        let (r, g, b) = map.rgb[v * 512];
        assert!(r >= g && g >= b, "brightness {v}");
    }
    assert_eq!(map.rgb[170 * 512], machine_hsl(0.5 / 512.0, 170.0 / 255.0, 0.5));
}

#[test]
fn hues_from_red_to_yellow_are_warm() {
    for i in 0..=100 {
        let h = i as f32 / 601.0;
        for j in 0..=10 {
            let (r, g, b) = hsl_to_rgb(f(h), f(j as f32 / 10.0), f((10 - j) as f32 / 10.0));
            assert!(r >= g && g >= b);
        }
    }
}

#[test]
fn the_contrast_table_never_falls() {
    for (m, s) in [(0.3f32, 20.0f32), (0.0, 40.0), (1.0, 3.0), (0.55, 12.5)] {
        let exps: Vec<Single> =
            ColorMap::exponents(f(m), f(s)).iter().map(|&e| f(to(e).exp())).collect();
        let mut map = ColorMap::new(&exps);
        map.midpoint = f(f32::NAN);
        map.ensure(f(m), f(s), &exps);
        assert!(map.sigmoid_lut.windows(2).all(|w| w[0] <= w[1]));
        assert!(to(sigmoid_exponent(f(m), f(m), f(s))) == 0.0);
    }
    assert_eq!(to(sigmoid(f(1.0))), 0.5);
    assert_eq!(to(sigmoid(f(f32::INFINITY))), 0.0);
    assert_eq!(to(sigmoid(f(0.0))), 1.0);
}


#[test]
fn colours_repeat_every_octave() {
    let octave: Vec<_> = (21..33).map(|n| note_color(f(n as f32))).collect();
    assert_eq!(octave[0], (245, 61, 61));
    assert_eq!(octave[3], (153, 245, 61));
    for n in -100..=200i32 {
        let want = octave[(n - 21).rem_euclid(12) as usize];
        assert_eq!(note_color(f(n as f32)), want, "note {n}");
    }
}

#[test]
fn only_the_last_knobs_count() {
    let exps = |m: f32, s: f32| -> Vec<Single> {
        ColorMap::exponents(f(m), f(s)).iter().map(|&e| f(to(e).exp())).collect()
    };
    let fresh = ColorMap::new(&exps(0.3, 20.0));
    assert_eq!((to(fresh.midpoint), to(fresh.steep)), (0.3, 20.0));
    let mut once = ColorMap::new(&exps(0.3, 20.0));
    once.ensure(f(0.8), f(40.0), &exps(0.8, 40.0));
    let mut twice = ColorMap::new(&exps(0.3, 20.0));
    twice.ensure(f(0.1), f(3.0), &exps(0.1, 3.0));
    assert_ne!(twice.sigmoid_lut, once.sigmoid_lut);
    twice.ensure(f(0.8), f(40.0), &exps(0.8, 40.0));
    assert_eq!(twice.sigmoid_lut, once.sigmoid_lut);
    assert_eq!(twice.rgb, once.rgb);
    twice.ensure(f(0.3), f(20.0), &exps(0.3, 20.0));
    assert_eq!(twice.sigmoid_lut, fresh.sigmoid_lut);
}

#[test]
fn the_table_stays_near_the_exact_colours() {
    for (m, s) in [(0.3f32, 20.0f32), (0.0, 40.0), (1.0, 3.0)] {
        let exps: Vec<Single> =
            ColorMap::exponents(f(m), f(s)).iter().map(|&e| f(to(e).exp())).collect();
        let mut map = ColorMap::new(&exps);
        map.ensure(f(m), f(s), &exps);
        for i in 0..120u16 {
            let hue = i as f32 / 120.0;
            let band = Band {
                note: f(69.0),
                freq: f(440.0),
                bin_lo: 75,
                bin_hi: 75,
                hue: f(hue),
                pink: f(0.0),
                hue_idx: (hue * 512.0) as u16,
            };
            for j in -10..150 {
                let raw = f(j as f32 / 100.0);
                let exponent = to(sigmoid_exponent(raw, f(m), f(s)));
                let (a, b) = (shade(&band, f(exponent.exp())), map.shade(raw, &band));
                assert!(a.0.abs_diff(b.0) <= 4 && a.1.abs_diff(b.1) <= 4);
                assert!(a.2.abs_diff(b.2) <= 4, "hue {hue}, value {j}");
            }
        }
    }
}

#[test]
fn unbounded_knobs_are_knobs_too() {
    let exps = |m: f32, s: f32| -> Vec<Single> {
        ColorMap::exponents(f(m), f(s)).iter().map(|&e| f(to(e).exp())).collect()
    };
    for (m, s) in [
        (f32::INFINITY, 20.0),
        (f32::NEG_INFINITY, 3.0),
        (0.3, f32::INFINITY),
        (f32::INFINITY, f32::INFINITY),
        (0.0, -0.0),
    ] {
        let mut map = ColorMap::new(&exps(0.3, 20.0));
        map.ensure(f(m), f(s), &exps(m, s));
        assert!(!map.stale(f(m), f(s)));
        let mut other = ColorMap::new(&exps(0.3, 20.0));
        other.ensure(f(0.9), f(7.0), &exps(0.9, 7.0));
        other.ensure(f(m), f(s), &exps(m, s));
        assert_eq!(map.sigmoid_lut, other.sigmoid_lut);
        let before = map.sigmoid_lut.clone();
        map.ensure(f(m), f(s), &Vec::new());
        assert_eq!(map.sigmoid_lut, before);
    }
    // What is no number is never what the table stands for.
    let mut map = ColorMap::new(&exps(0.3, 20.0));
    map.ensure(f(f32::NAN), f(20.0), &exps(f32::NAN, 20.0));
    assert!(map.stale(f(f32::NAN), f(20.0)));
}
