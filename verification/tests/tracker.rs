use chromatui::single::Single;
use chromatui::tracker::{PitchTracker, Reading, HOLD_FRAMES, STABLE_FRAMES};

fn f(x: f32) -> Single {
    Single { bits: x.to_bits() }
}

fn to(x: Single) -> f32 {
    f32::from_bits(x.bits)
}

fn midi_to_freq(midi: f32) -> f32 {
    440.0 * 2f32.powf((midi - 69.0) / 12.0)
}

fn det(note: f32) -> Option<Reading> {
    Some((f(note), f(midi_to_freq(note)), f(0.8)))
}

fn update(t: &mut PitchTracker, raw: Option<Reading>) -> Option<(f32, f32, f32)> {
    let freq = match raw {
        Some((note, _, _)) => f(midi_to_freq(to(t.eased_note(note)))),
        None => f(0.0),
    };
    t.update(raw, freq).map(|(n, q, v)| (to(n), to(q), to(v)))
}

#[test]
fn tracker_shows_first_detection_immediately() {
    let mut t = PitchTracker::new();
    let shown = update(&mut t, det(69.0)).unwrap();
    assert_eq!(shown.0.round() as i32, 69);
}

#[test]
fn tracker_ignores_rapid_flicker() {
    let mut t = PitchTracker::new();
    update(&mut t, det(69.0));
    // alternate A4 / C5 every frame for a second: display must stay A4
    for i in 0..60 {
        let shown = update(&mut t, det(if i % 2 == 0 { 72.0 } else { 69.0 })).unwrap();
        assert_eq!(shown.0.round() as i32, 69, "flipped at frame {i}");
    }
}

#[test]
fn tracker_switches_after_sustained_new_note() {
    let mut t = PitchTracker::new();
    update(&mut t, det(69.0));
    let mut shown = update(&mut t, det(72.0)).unwrap();
    assert_eq!(shown.0.round() as i32, 69, "switched too early");
    for _ in 0..STABLE_FRAMES {
        shown = update(&mut t, det(72.0)).unwrap();
    }
    assert_eq!(shown.0.round() as i32, 72);
}

#[test]
fn tracker_holds_through_dropouts_then_clears() {
    let mut t = PitchTracker::new();
    update(&mut t, det(69.0));
    for _ in 0..(HOLD_FRAMES - 1) {
        assert!(update(&mut t, None).is_some(), "cleared during hold window");
    }
    assert!(update(&mut t, None).is_none(), "should clear after hold expires");
    // next detection shows immediately again
    assert!(update(&mut t, det(60.0)).is_some());
}

#[test]
fn switches_on_the_ninth_frame_exactly() {
    let mut t = PitchTracker::new();
    update(&mut t, det(69.0));
    for _ in 0..8 {
        assert_eq!(update(&mut t, det(72.0)).unwrap().0, 69.0);
    }
    assert_eq!(update(&mut t, det(72.0)).unwrap().0, 72.0);
}

#[test]
fn wobble_is_eased_by_a_quarter() {
    let mut t = PitchTracker::new();
    update(&mut t, det(69.0));
    let shown = update(&mut t, det(69.4)).unwrap();
    let eased = 69.0f32 + 0.25 * (69.4f32 - 69.0);
    assert_eq!(shown.0, eased);
    assert_eq!(shown.1, midi_to_freq(eased));
    assert_eq!(shown.2, 0.8);
    // Easing never leaves the note, however the wobble goes.
    for i in 0..200 {
        let note = 69.0 + ((i * 7919) % 100) as f32 / 101.0 - 0.499;
        let shown = update(&mut t, det(note)).unwrap();
        assert_eq!(shown.0.round() as i32, 69);
    }
}

#[test]
fn a_dropout_starts_the_challenge_over() {
    let mut t = PitchTracker::new();
    update(&mut t, det(69.0));
    for _ in 0..8 {
        update(&mut t, det(72.0));
    }
    update(&mut t, None);
    for _ in 0..8 {
        assert_eq!(update(&mut t, det(72.0)).unwrap().0, 69.0);
    }
    assert_eq!(update(&mut t, det(72.0)).unwrap().0, 72.0);
}
