use chromatui::analysis::{
    freq_ratio, freq_to_midi, loudness_exponent, midi_exponent, midi_to_freq, note_hue,
    row_values, sigmoid, sigmoid_exponent, slices, window_angle, Analyzer, Band, Tones,
};
use chromatui::calibration::{Calibration, INTERNAL_BASELINE};
use chromatui::color::{shade, shade_exponent, ColorMap};
use chromatui::single::Single;
use realfft::num_complex::Complex;
use realfft::RealFftPlanner;

fn f(x: f32) -> Single {
    Single { bits: x.to_bits() }
}

fn to(x: Single) -> f32 {
    f32::from_bits(x.bits)
}

/// Two to the power of a note's octaves above A4.
fn power(note: Single) -> Single {
    f(2f32.powf(to(midi_exponent(note))))
}

fn freq_of(midi: f32) -> f32 {
    to(midi_to_freq(power(f(midi))))
}

fn octaves(freq: Single) -> Single {
    f(to(freq_ratio(freq)).log2())
}

fn tones(pixels: usize, lo: i32, hi: i32) -> Vec<Tones> {
    slices(pixels, lo, hi)
        .iter()
        .map(|s| Tones {
            power: power(s.note),
            power_lo: power(s.note_lo),
            power_hi: power(s.note_hi),
            octaves: octaves(midi_to_freq(power(s.note))),
        })
        .collect()
}

fn cosines(n: usize) -> Vec<Single> {
    (0..n).map(|i| f(to(window_angle(i, n)).cos())).collect()
}

fn analyzer(rate: f32) -> Analyzer {
    Analyzer::new(f(rate), &cosines(8192), &tones(128, 36, 84))
}

fn process(a: &mut Analyzer, samples: &[f32], smooth: f32) -> Vec<Single> {
    let samples: Vec<Single> = samples.iter().map(|&x| f(x)).collect();
    let mut input: Vec<f32> = a.windowed(&samples).iter().map(|&x| to(x)).collect();
    let fft = RealFftPlanner::<f32>::new().plan_fft_forward(a.fft_size);
    let mut spectrum = vec![Complex::default(); a.fft_size / 2 + 1];
    fft.process(&mut input, &mut spectrum).unwrap();
    let sizes: Vec<Single> = spectrum.iter().map(|c| f(c.norm())).collect();
    a.blend(&sizes, f(smooth));
    let logs: Vec<Single> = a.audible().iter().map(|&m| f(to(m).log10())).collect();
    let powers: Vec<Single> =
        a.process(&logs).iter().map(|&e| f(10f32.powf(to(e)))).collect();
    row_values(&powers)
}

fn detect(a: &Analyzer, lo: i32, hi: i32, mid: f32, steep: f32) -> Option<(f32, f32, f32)> {
    let c = a.detect_fundamental(power(f(lo as f32)), power(f(hi as f32)))?;
    let value = f(10f32.powf(to(loudness_exponent(c.db))));
    let above = octaves(c.freq);
    let e = f(to(c.strength_exponent(value, above, f(mid), f(steep))).exp());
    c.reading(above, e).map(|(n, q, v)| (to(n), to(q), to(v)))
}

fn curve(x: f32, mid: f32, steep: f32) -> f32 {
    to(sigmoid(f(to(sigmoid_exponent(f(x), f(mid), f(steep))).exp())))
}

/// Run a full calibration pass over a repeating buffer.
fn calibrate(a: &mut Analyzer, samples: &[f32]) -> f32 {
    let mut cal = Calibration::new();
    for _ in 0..80 {
        let row = process(a, samples, 0.0);
        if let Some(mid) = cal.feed(&row, &a.bands) {
            return to(mid);
        }
    }
    panic!("calibration never finished");
}

/// Music-like content: a few strong low partials over a quiet noise bed.
fn music(n: usize, rate: f32) -> Vec<f32> {
    let mut seed = 12345u32;
    (0..n)
        .map(|i| {
            let t = i as f32 / rate;
            seed = seed.wrapping_mul(1664525).wrapping_add(1013904223);
            let noise = ((seed >> 8) as f32 / 8388608.0 - 1.0) * 0.0006;
            let tau = std::f32::consts::TAU;
            0.20 * (tau * 110.0 * t).sin()
                + 0.10 * (tau * 220.0 * t).sin()
                + 0.05 * (tau * 440.0 * t).sin()
                + noise
        })
        .collect()
}

fn room_noise(n: usize) -> Vec<f32> {
    let mut seed = 1u32;
    (0..n)
        .map(|_| {
            seed = seed.wrapping_mul(1664525).wrapping_add(1013904223);
            ((seed >> 8) as f32 / 8388608.0 - 1.0) * 0.0006
        })
        .collect()
}

#[test]
fn mic_calibration_thresholds_just_above_room_noise() {
    let mut a = analyzer(48000.0);
    let noise = room_noise(a.fft_size);
    let mid = calibrate(&mut a, &noise);
    // Just above the noise it measured, not at the clamp floor.
    assert!((0.15..0.25).contains(&mid), "midpoint {mid} drifted from the mic baseline");
    let row = process(&mut a, &noise, 0.0);
    let loudest =
        row.iter().zip(&a.bands).fold(f32::MIN, |m, (v, b)| m.max(to(*v) + to(b.pink)));
    assert!(mid > loudest, "midpoint {mid} must sit above noise {loudest}");
}

#[test]
fn internal_baseline_blanks_digital_silence() {
    let mut a = analyzer(48000.0);
    let silence = vec![0.0; a.fft_size];
    let row = process(&mut a, &silence, 0.0);
    let baseline = f32::from_bits(INTERNAL_BASELINE);
    let max = row
        .iter()
        .zip(&a.bands)
        .fold(f32::MIN, |m, (v, b)| m.max(curve(to(*v) + to(b.pink), baseline, 20.0)));
    assert!(max < 0.01, "digital silence renders at brightness {max}");
}

#[test]
fn internal_baseline_leaves_contrast_on_music() {
    let mut a = analyzer(48000.0);
    let samples = music(a.fft_size, 48000.0);
    let mid = f32::from_bits(INTERNAL_BASELINE);

    let row = process(&mut a, &samples, 0.0);
    let brightness: Vec<f32> = row
        .iter()
        .zip(&a.bands)
        .map(|(v, b)| curve(to(*v) + to(b.pink), mid, 20.0))
        .collect();

    // The 110 Hz partial (A2, MIDI 45) must read as lit up.
    let loud = a
        .bands
        .iter()
        .position(|b| (to(b.note) - 45.0).abs() < 0.5)
        .expect("A2 is inside the default range");
    assert!(brightness[loud] > 0.8, "played note only reached {}", brightness[loud]);

    // And most of the spectrum, which holds nothing, must stay dark.
    let dark = brightness.iter().filter(|&&v| v < 0.2).count();
    assert!(
        dark > brightness.len() / 2,
        "only {dark}/{} bands stayed dark — screen is saturated",
        brightness.len()
    );
}

#[test]
fn pitch_math() {
    assert!((freq_of(69.0) - 440.0).abs() < 1e-3);
    assert!((freq_of(60.0) - 261.626).abs() < 1e-2);
    assert!((to(freq_to_midi(octaves(f(880.0)))) - 81.0).abs() < 1e-4);
}

#[test]
fn sigmoid_midpoint_is_half() {
    assert!((curve(0.3, 0.3, 20.0) - 0.5).abs() < 1e-6);
    assert!(curve(1.0, 0.3, 20.0) > 0.99);
    assert!(curve(0.0, 0.3, 20.0) < 0.01);
}

/// Synthesize one window of a tone made of (freq, amplitude) partials.
fn tone(n: usize, sr: f32, partials: &[(f32, f32)]) -> Vec<f32> {
    (0..n)
        .map(|i| {
            partials
                .iter()
                .map(|(q, a)| (2.0 * std::f32::consts::PI * q * i as f32 / sr).sin() * a)
                .sum()
        })
        .collect()
}

fn analyzed(partials: &[(f32, f32)]) -> Analyzer {
    let (sr, n) = (48000.0, 8192);
    let mut an = analyzer(sr);
    an.configure(n, 240, 36, 84, &Vec::new(), &tones(240, 36, 84)); // C2..C6
    let samples = tone(n, sr, partials);
    process(&mut an, &samples, 0.0);
    an
}

#[test]
fn detects_a4_sine() {
    let an = analyzed(&[(440.0, 0.5)]);
    let (note, freq, v) = detect(&an, 36, 84, 0.3, 20.0).expect("no pitch detected");
    assert!((note - 69.0).abs() < 0.3, "note {note}");
    assert!((freq - 440.0).abs() < 8.0, "freq {freq}");
    assert!(v > 0.5);
}

#[test]
fn harmonic_rich_tone_reports_fundamental_not_harmonic() {
    // A2 (110 Hz) with the 2nd and 3rd harmonics LOUDER than the
    // fundamental — typical for voice and piano. Naive loudest-band
    // detection reports A3 (220) or E4 (330); the readout must say A2.
    let an = analyzed(&[(110.0, 0.2), (220.0, 0.5), (330.0, 0.4), (440.0, 0.25)]);
    let (note, freq, _v) = detect(&an, 36, 84, 0.3, 20.0).expect("no pitch detected");
    assert!((freq - 110.0).abs() < 4.0, "freq {freq} (octave/fifth error)");
    assert!((note - 45.0).abs() < 0.5, "note {note}");
}

#[test]
fn high_note_not_reported_an_octave_down() {
    // C5 with normal decaying harmonics: the subharmonic comb at C4 must
    // not win (the classic octave-down failure mode).
    let an = analyzed(&[(523.25, 0.5), (1046.5, 0.3), (1569.75, 0.2)]);
    let (_, freq, _) = detect(&an, 36, 84, 0.3, 20.0).expect("no pitch detected");
    assert!((freq - 523.25).abs() < 12.0, "freq {freq}");
}

#[test]
fn missing_fundamental_still_resolved() {
    // Even with NO energy at 110 Hz at all, the shared spacing of the
    // harmonics implies the fundamental (how human hearing works too).
    let an = analyzed(&[(220.0, 0.4), (330.0, 0.4), (440.0, 0.3), (550.0, 0.2)]);
    let (_, freq, _) = detect(&an, 36, 84, 0.3, 20.0).expect("no pitch detected");
    assert!((freq - 110.0).abs() < 4.0, "freq {freq}");
}

#[test]
fn silence_detects_nothing() {
    let an = analyzed(&[]);
    assert!(detect(&an, 36, 84, 0.3, 20.0).is_none());
}

#[test]
fn colormap_matches_exact_shade() {
    let an = analyzed(&[(440.0, 0.5)]);
    let mut map = color_map();
    for &(midpoint, steep) in &[(0.3f32, 20.0f32), (0.1, 3.0), (0.8, 40.0)] {
        set(&mut map, midpoint, steep);
        for band in an.bands.iter().step_by(7) {
            for i in 0..=100 {
                let raw = i as f32 * 0.012;
                let exact = exact_shade(raw, band, midpoint, steep);
                let fast = map.shade(f(raw), band);
                for (a, b) in [(exact.0, fast.0), (exact.1, fast.1), (exact.2, fast.2)] {
                    assert!(
                        (a as i16 - b as i16).abs() <= 4,
                        "raw {raw} mid {midpoint} steep {steep}: exact {exact:?} vs lut {fast:?}"
                    );
                }
            }
        }
    }
}

#[test]
fn colormap_speed_vs_exact() {
    // Not an assertion-based test: prints the per-frame cost of shading
    // 60k lit pixels (a fullscreen 250x60 quad frame) both ways.
    let an = analyzed(&[(440.0, 0.5)]);
    let map = color_map();
    let n = 60_000;
    let bands = &an.bands;

    let t = std::time::Instant::now();
    let mut acc = 0u32;
    for i in 0..n {
        let b = &bands[i % bands.len()];
        let c = exact_shade(0.2 + (i % 7) as f32 * 0.1, b, 0.3, 20.0);
        acc = acc.wrapping_add(c.0 as u32);
    }
    let exact_us = t.elapsed().as_micros();

    let t = std::time::Instant::now();
    for i in 0..n {
        let b = &bands[i % bands.len()];
        let c = map.shade(f(0.2 + (i % 7) as f32 * 0.1), b);
        acc = acc.wrapping_add(c.0 as u32);
    }
    let lut_us = t.elapsed().as_micros();
    println!("shade 60k lit pixels: exact {exact_us}µs vs lut {lut_us}µs (acc {acc})");
}

fn exps(midpoint: f32, steep: f32) -> Vec<Single> {
    ColorMap::exponents(f(midpoint), f(steep)).iter().map(|&e| f(to(e).exp())).collect()
}

fn color_map() -> ColorMap {
    ColorMap::new(&exps(0.3, 20.0))
}

fn set(map: &mut ColorMap, midpoint: f32, steep: f32) {
    if map.stale(f(midpoint), f(steep)) {
        map.ensure(f(midpoint), f(steep), &exps(midpoint, steep));
    }
}

fn exact_shade(raw: f32, band: &Band, midpoint: f32, steep: f32) -> (u8, u8, u8) {
    let e = f(to(shade_exponent(f(raw), band, f(midpoint), f(steep))).exp());
    shade(band, e)
}

#[test]
fn bands_are_those_of_the_machine() {
    let (rate, n, p, lo, hi) = (44100.0f32, 8192usize, 77usize, 30, 97);
    let mut a = analyzer(rate);
    a.configure(n, p, lo, hi, &Vec::new(), &tones(p, lo, hi));
    let midi_to_freq = |m: f32| 440.0 * 2f32.powf((m - 69.0) / 12.0);
    let span = (hi - lo) as f32;
    let max_bin = n / 2;
    assert_eq!(a.num_bands(), p);
    for i in 0..p {
        let note = lo as f32 + (i as f32 + 0.5) / p as f32 * span;
        let note_lo = lo as f32 + i as f32 / p as f32 * span;
        let note_hi = lo as f32 + (i as f32 + 1.0) / p as f32 * span;
        let freq = midi_to_freq(note);
        let bin_lo = ((midi_to_freq(note_lo) * n as f32 / rate).floor() as usize).min(max_bin);
        let bin_hi =
            ((midi_to_freq(note_hi) * n as f32 / rate).ceil() as usize).clamp(bin_lo, max_bin);
        let hue = ((note - 21.0) / 12.0).rem_euclid(1.0);
        let b = &a.bands[i];
        assert_eq!(to(b.note), note);
        assert_eq!(to(b.freq), freq);
        assert_eq!((b.bin_lo, b.bin_hi), (bin_lo, bin_hi));
        assert_eq!(to(b.pink), 2.0 * (freq / 440.0).log2() * 0.01);
        assert_eq!(to(b.hue), hue);
        assert_eq!(b.hue_idx as usize, ((hue * 512.0) as usize).min(511));
        if i > 0 {
            assert!(b.bin_lo <= a.bands[i - 1].bin_hi, "bins skipped below band {i}");
        }
    }
}

#[test]
fn no_pixels_still_make_one_band() {
    let cut = slices(0, 36, 84);
    assert_eq!(cut.len(), 1);
    assert_eq!(to(cut[0].note_lo), 36.0);
    assert_eq!(to(cut[0].note), 60.0);
    assert_eq!(to(cut[0].note_hi), 84.0);
}

#[test]
fn bands_meet_and_span_the_range() {
    let cut = slices(143, 21, 132);
    assert_eq!(to(cut[0].note_lo), 21.0);
    assert_eq!(to(cut[142].note_hi), 132.0);
    for w in cut.windows(2) {
        assert_eq!(w[0].note_hi, w[1].note_lo);
    }
}

#[test]
fn every_a_has_hue_zero() {
    for a in [9, 21, 33, 45, 57, 69, 81, 93, 105, 117, 129] {
        assert_eq!(to(note_hue(f(a as f32))), 0.0);
    }
    assert_eq!(to(note_hue(f(24.0))), 0.25);
}

#[test]
fn smoothing_is_that_of_the_machine() {
    let mut a = analyzer(48000.0);
    let samples = room_noise(8192);
    process(&mut a, &samples, 0.0);
    let before: Vec<f32> = a.smoothed.iter().map(|&x| to(x)).collect();
    let sizes: Vec<Single> = (0..4097).map(|i| f(i as f32 * 0.37)).collect();
    a.blend(&sizes, f(0.7));
    let norm = 2.0 / to(a.window_sum);
    for i in 0..4097 {
        let mag = i as f32 * 0.37 * norm;
        assert_eq!(to(a.smoothed[i]), 0.7 * before[i] + (1.0 - 0.7) * mag);
    }
}

#[test]
fn a_full_scale_sine_reads_about_zero_db() {
    let a = analyzed(&[(1000.0, 1.0)]);
    assert!(to(a.peak_db).abs() < 2.0, "{}", to(a.peak_db));
}

#[test]
fn a_new_length_starts_the_spectrum_over() {
    let mut a = analyzed(&[(1000.0, 1.0)]);
    a.configure(4096, 10, 36, 84, &cosines(4096), &tones(10, 36, 84));
    assert_eq!(a.fft_size, 4096);
    assert_eq!(a.window.len(), 4096);
    assert_eq!(a.smoothed.len(), 2049);
    assert!(a.smoothed.iter().all(|&x| to(x) == 0.0));
    assert!(a.db.iter().all(|&x| to(x) == -200.0));
    assert_eq!(a.num_bands(), 10);
}

#[test]
fn too_narrow_a_search_finds_nothing() {
    let a = analyzed(&[(440.0, 0.5)]);
    assert!(a.detect_fundamental(power(f(69.0)), power(f(60.0))).is_none());
}

#[test]
fn one_rainbow_per_octave() {
    for n in 21..=132 {
        let column = (to(note_hue(f(n as f32))) * 512.0) as usize;
        assert_eq!(column, 512 * ((n - 21) % 12) as usize / 12, "note {n}");
    }
}

#[test]
fn no_bin_is_skipped_between_bands() {
    let mut a = analyzer(48000.0);
    a.configure(8192, 300, 21, 132, &Vec::new(), &tones(300, 21, 132));
    for w in a.bands.windows(2) {
        assert!(w[1].bin_lo <= w[0].bin_hi + 1);
        assert!(w[0].bin_lo <= w[1].bin_lo);
    }
}

#[test]
fn a_bin_that_stands_out_is_found() {
    let mut a = analyzer(48000.0);
    let (lo, hi) = (power(f(36.0)), power(f(84.0)));
    for k in 12..=178 {
        for level in [-190.0, -63.5, -3.0, 0.0, 40.0] {
            a.db = vec![f(level - 85.0); 4097];
            a.db[k] = f(level);
            a.db[k / 2] = f(f32::NAN);
            a.peak_db = f(level);
            let c = a.detect_fundamental(lo, hi).unwrap();
            let bin = to(c.freq) * 8192.0 / 48000.0;
            assert!((bin - k as f32).abs() <= 0.5001, "bin {k} at {level}: {bin}");
            assert_eq!(to(c.db), level);
        }
    }
}

#[test]
fn no_smoothing_forgets_the_past() {
    let mut a = analyzer(48000.0);
    process(&mut a, &tone(8192, 48000.0, &[(440.0, 0.9)]), 0.0);
    let quiet = vec![0.0; 8192];
    process(&mut a, &quiet, 0.0);
    assert!(a.smoothed.iter().all(|&m| to(m) == 0.0));
}


#[test]
fn a_quiet_or_absent_fundamental_is_found() {
    let mut a = analyzer(48000.0);
    let (lo, hi) = (power(f(36.0)), power(f(84.0)));
    for k in 12..=178 {
        for level in [-150.0, -63.5, 0.0] {
            for own in [level, level - 40.0, level - 90.0, f32::NEG_INFINITY, f32::NAN] {
                a.db = vec![f(level - 85.0); 4097];
                a.db[k] = f(own);
                for (j, below) in [(2, 0.0), (3, 20.0), (4, 7.0), (5, 20.0)] {
                    a.db[j * k] = f(level - below);
                }
                a.peak_db = f(level);
                let c = a.detect_fundamental(lo, hi).unwrap();
                let bin = to(c.freq) * 8192.0 / 48000.0;
                assert!((bin - k as f32).abs() <= 0.5001, "bin {k} at {own}: {bin}");
                assert_eq!(to(c.db), level);
            }
        }
    }
}

#[test]
fn full_smoothing_keeps_what_was_heard() {
    let mut a = analyzer(48000.0);
    let loud = tone(8192, 48000.0, &[(440.0, 0.9)]);
    let row = process(&mut a, &loud, 0.0);
    a.configure(8192, 128, 36, 84, &Vec::new(), &tones(128, 36, 84));
    assert_eq!(process(&mut a, &vec![0.25; 8192], 1.0), row);
    // A new length has nothing to keep.
    a.configure(4096, 128, 36, 84, &cosines(4096), &tones(128, 36, 84));
    let row = process(&mut a, &loud[..4096], 1.0);
    assert!(a.audible().iter().all(|&m| to(m) == 1e-10));
    assert!(row.iter().all(|&v| (to(v) - 0.01).abs() < 1e-6));
}

#[test]
fn knobs_never_move_a_pitch() {
    let mut a = analyzer(48000.0);
    process(&mut a, &tone(8192, 48000.0, &[(220.0, 0.5)]), 0.0);
    let (note, freq, _) = detect(&a, 36, 84, 0.3, 20.0).unwrap();
    assert!(freq > 0.0);
    let mut heard = 0;
    for i in 0..=20 {
        for steep in [3.0, 10.0, 40.0] {
            if let Some((n, q, v)) = detect(&a, 36, 84, i as f32 / 20.0, steep) {
                assert_eq!((n, q), (note, freq));
                assert!((0.15..=1.0).contains(&v));
                heard += 1;
            }
        }
    }
    assert!(0 < heard && heard < 63);
}

#[test]
fn crossed_ranges_hold_no_pitch() {
    let mut a = analyzer(48000.0);
    process(&mut a, &tone(8192, 48000.0, &[(220.0, 0.5)]), 0.0);
    for (lo, hi) in [(84, 36), (60, 48), (69, 66), (120, -20), (-60, -40)] {
        assert!(a.detect_fundamental(power(f(lo as f32)), power(f(hi as f32))).is_none());
    }
    assert!(a.detect_fundamental(power(f(48.0)), power(f(60.0))).is_some());
}

#[test]
fn tones_are_found_at_their_fundamental() {
    let mut a = analyzer(48000.0);
    let (lo, hi) = (power(f(36.0)), power(f(84.0)));
    for k in 12..=178 {
        for below in [
            &[0.0, 4.0, 8.0][..],
            &[20.0, 0.0, 20.0],
            &[8.0, 0.0, 2.0, 6.0],
            &[20.0, 20.0, 20.0, 0.0],
            &[20.0, 20.0, 20.0, 0.0, 0.0],
            &[20.0, 20.0, 20.0, 90.0, 0.0],
            &[0.0, 20.0, 20.0, 70.0, 30.0],
        ] {
            a.db = vec![f(-95.0); 4097];
            a.peak_db = f(-10.0);
            for (j, d) in below.iter().enumerate() {
                a.db[(j + 1) * k] = f(-10.0 - d);
            }
            let c = a.detect_fundamental(lo, hi).unwrap();
            let bin = to(c.freq) * 8192.0 / 48000.0;
            assert!((bin - k as f32).abs() <= 0.5001, "bin {k}, {below:?}: {bin}");
            assert_eq!(to(c.db), -10.0);
        }
    }
}

#[test]
fn notes_come_back_from_their_frequencies() {
    for i in 0..=1320 {
        let note = i as f32 / 10.0;
        let freq = midi_to_freq(power(f(note)));
        let back = to(freq_to_midi(octaves(freq)));
        assert!((back - note).abs() < 1e-3, "{note}: {back}");
    }
    assert_eq!(freq_of(69.0), 440.0);
    assert_eq!(to(freq_to_midi(f(1.0))), 81.0);
    assert_eq!(to(freq_to_midi(f(0.0))), 69.0);
}

#[test]
fn octaves_the_wrong_way_round_hold_no_pitch() {
    let mut a = analyzer(48000.0);
    process(&mut a, &tone(8192, 48000.0, &[(220.0, 0.5)]), 0.0);
    for lo in 0..=132 {
        for span in [12, 13, 24, 60] {
            assert_eq!(detect(&a, lo, lo - span, 0.3, 20.0), None);
        }
    }
}

#[test]
fn hues_lie_within_one_turn() {
    let mut a = analyzer(48000.0);
    for (p, lo, hi) in [(1, 21, 33), (300, 21, 132), (7, 60, 61), (999, 36, 84)] {
        a.configure(8192, p, lo, hi, &Vec::new(), &tones(p, lo, hi));
        for b in &a.bands {
            assert!((lo as f32..=hi as f32).contains(&to(b.note)));
            assert!((0.0..1.0).contains(&to(b.hue)), "{} at {}", to(b.hue), to(b.note));
            assert_eq!(b.hue_idx, (to(b.hue) * 512.0) as u16);
        }
    }
}
