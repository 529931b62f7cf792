use chromatui::analysis::{slices, window_angle, Tones};
use chromatui::audio::{AudioInput, InputSource, Switch, CAPACITY};
use chromatui::color::{note_color, ColorMap};
use chromatui::controls::Params;
use chromatui::paint::Paint;
use chromatui::single::Single;
use chromatui::state::{App, Key, Phase, HISTORY_CAP, TOAST_TTL};
use chromatui::stats::{FrameStats, FRAME};
use chromatui::view::{panels, Area};

fn f(x: f32) -> Single {
    Single { bits: x.to_bits() }
}

fn to(x: Single) -> f32 {
    f32::from_bits(x.bits)
}

fn tones(lo: i32, hi: i32, pixels: usize) -> Vec<Tones> {
    let power = |n: Single| f(2f32.powf((to(n) - 69.0) / 12.0));
    slices(pixels, lo, hi)
        .iter()
        .map(|s| Tones {
            power: power(s.note),
            power_lo: power(s.note_lo),
            power_hi: power(s.note_hi),
            octaves: f(to(power(s.note)).log2()),
        })
        .collect()
}

fn cosines(n: usize) -> Vec<Single> {
    (0..n).map(|i| f(to(window_angle(i, n)).cos())).collect()
}

fn started(source: InputSource) -> App {
    let exps: Vec<Single> =
        ColorMap::exponents(f(0.3), f(20.0)).iter().map(|&e| f(to(e).exp())).collect();
    App::new(
        Params::default(),
        AudioInput::opened(48000, Some("card".to_string()), Some(source)),
        &cosines(8192),
        &tones(36, 84, 128),
        &exps,
        5,
    )
}

fn ready() -> App {
    let mut app = started(InputSource::Mic);
    assert_eq!(app.begin_tick((80, 24)), Phase::Rebuild);
    rebuild(&mut app);
    app
}

fn rebuild(app: &mut App) {
    let n = app.params.fft_size();
    let cos = if n != app.analyzer.fft_size { cosines(n) } else { Vec::new() };
    let t = tones(app.params.range_lo, app.params.range_hi, app.freq_pixels());
    app.rebuild(&cos, &t);
}

fn press(app: &mut App, c: char) {
    assert!(app.on_key(Key::Char(c), false, false, 0).is_none());
}

fn texts(app: &App, width: u16, height: u16) -> Vec<Vec<String>> {
    panels(app, Area { x: 0, y: 0, width, height })
        .iter()
        .map(|p| {
            p.lines
                .iter()
                .map(|l| l.iter().map(|q| q.text.as_str()).collect::<String>())
                .collect()
        })
        .collect()
}

#[test]
fn the_start() {
    let app = started(InputSource::Mic);
    assert!(app.toast.is_none() && app.needs_rebuild && !app.quit);
    assert_eq!(app.device_name(), "card");
    assert_eq!(app.source_label(), "microphone");
    assert_eq!(app.samples.len(), 8192);
    let app = started(InputSource::Internal);
    let toast = app.toast.as_ref().unwrap();
    assert_eq!(toast.text, "input: internal audio (restored from last session)");
    assert_eq!((toast.color, toast.at), (Paint::Cyan, 5));
    assert_eq!(app.source(), InputSource::Internal);
}

#[test]
fn a_frame_needs_room_and_bands() {
    let mut app = started(InputSource::Mic);
    assert_eq!(app.begin_tick((79, 24)), Phase::TooSmall);
    assert_eq!(app.begin_tick((80, 23)), Phase::TooSmall);
    assert_eq!(app.begin_tick((80, 24)), Phase::Rebuild);
    assert_eq!(app.freq_pixels(), 48);
    rebuild(&mut app);
    assert_eq!(app.begin_tick((80, 24)), Phase::Ready);
    assert_eq!(app.analyzer.num_bands(), 48);
    assert_eq!(app.begin_tick((100, 24)), Phase::Rebuild);
    rebuild(&mut app);
    press(&mut app, 'o');
    assert_eq!(app.freq_pixels(), 200);
    assert_eq!(app.begin_tick((100, 24)), Phase::Rebuild);
}

#[test]
fn a_new_window_length_is_taken_up() {
    let mut app = ready();
    app.on_key(Key::Right, false, false, 0);
    assert_eq!(app.params.fft_exp, 14);
    assert!(app.needs_rebuild);
    rebuild(&mut app);
    assert_eq!(app.analyzer.fft_size, 16384);
    assert_eq!(app.samples.len(), 16384);
    app.audio.push_mono(&[f(0.5); 4], 1);
    let windowed = app.take_samples();
    assert_eq!(windowed.len(), 16384);
    assert_eq!(to(app.samples[16383]), 0.5);
    assert_eq!(to(app.samples[16379]), 0.0);
    assert_eq!(to(windowed[16383]), 0.5 * to(app.analyzer.window[16383]));
}

#[test]
fn keys_choose_and_adjust_controls() {
    let mut app = ready();
    for (key, want) in [
        (Key::Up, 0),
        (Key::Down, 1),
        (Key::Tab, 2),
        (Key::BackTab, 1),
        (Key::Char('7'), 6),
        (Key::Down, 6),
        (Key::Tab, 0),
        (Key::BackTab, 6),
        (Key::Char('8'), 6),
        (Key::Char('0'), 6),
        (Key::Char('4'), 3),
        (Key::Other, 3),
    ] {
        app.on_key(key, false, false, 0);
        assert_eq!(app.focus, want, "{key:?}");
    }
    app.on_key(Key::Right, true, false, 0);
    assert_eq!(to(app.params.midpoint), 0.3f32 + 0.05);
    app.on_key(Key::Left, false, false, 0);
    assert_eq!(to(app.params.midpoint), (0.3f32 + 0.05) + -1.0 * 0.01);
    assert!(!app.needs_rebuild);
    app.on_key(Key::Char('7'), false, false, 0);
    app.on_key(Key::Left, true, false, 0);
    assert_eq!(app.params.range_hi, 72);
    assert!(app.needs_rebuild);
}

#[test]
fn overlays_exclude_each_other() {
    let mut app = ready();
    press(&mut app, '?');
    assert!(app.help_visible && !app.wheel_visible);
    press(&mut app, 'f');
    assert!(!app.help_visible && app.wheel_visible);
    press(&mut app, '?');
    assert!(app.help_visible && !app.wheel_visible);
    app.on_key(Key::Esc, false, false, 0);
    assert!(!app.help_visible && !app.wheel_visible);
}

#[test]
fn reset_asks_first() {
    let mut app = ready();
    app.on_key(Key::Char('2'), false, false, 0);
    app.on_key(Key::Right, true, false, 0);
    press(&mut app, 'r');
    assert!(app.pending_reset);
    // Everything else is captured while the question is open.
    for key in [Key::Char('q'), Key::Char('i'), Key::Enter, Key::Right, Key::Char('?')] {
        assert!(app.on_key(key, false, true, 0).is_none());
    }
    assert!(app.pending_reset && !app.quit && !app.help_visible);
    assert_eq!(to(app.params.smooth), 0.1);
    press(&mut app, 'n');
    assert!(!app.pending_reset);
    assert_eq!(to(app.params.smooth), 0.1);
    press(&mut app, 'r');
    press(&mut app, 'Y');
    assert_eq!(app.params, Params::default());
    assert!(app.needs_rebuild && !app.pending_reset);
    press(&mut app, 'r');
    app.on_key(Key::Esc, false, false, 0);
    assert!(!app.pending_reset);
}

#[test]
fn quitting() {
    let mut app = ready();
    app.on_key(Key::Char('c'), false, true, 0);
    assert!(app.quit && app.calibration.is_none());
    let mut app = ready();
    press(&mut app, 'q');
    assert!(app.quit);
}

#[test]
fn sensitivity_for_each_source() {
    let mut app = ready();
    press(&mut app, 'c');
    assert!(app.calibration.is_some());
    for _ in 0..74 {
        app.finish_tick(vec![f(0.1); 48], None, f(0.0));
    }
    assert!(app.calibration.is_some());
    app.finish_tick(vec![f(0.1); 48], None, f(0.0));
    assert!(app.calibration.is_none());
    let pink = app.analyzer.bands.iter().fold(f32::MIN, |m, b| m.max(0.1 + to(b.pink)));
    assert_eq!(to(app.params.midpoint), pink + 0.06);

    let mut app = started(InputSource::Internal);
    app.on_key(Key::Char('c'), false, false, 77);
    assert_eq!(to(app.params.midpoint), 0.40);
    let toast = app.toast.as_ref().unwrap();
    assert_eq!(toast.text, "midpoint set to internal baseline");
    assert_eq!(toast.at, 77);
    assert!(app.calibration.is_none());
}

#[test]
fn switching_the_source() {
    let mut app = ready();
    let s = app.on_key(Key::Char('i'), false, false, 0).unwrap();
    assert!(matches!(s, Switch::Query(InputSource::Internal)));
    app.switched(Switch::Moved(InputSource::Internal), 9);
    assert_eq!(app.source(), InputSource::Internal);
    let toast = app.toast.as_ref().unwrap();
    assert_eq!(toast.text, "input: internal audio (c sets the baseline)");
    assert_eq!(toast.color, Paint::Cyan);
    app.switched(Switch::Failed("no server".to_string()), 9);
    assert_eq!(app.source(), InputSource::Internal);
    let toast = app.toast.as_ref().unwrap();
    assert_eq!(toast.text, "input switch failed: no server");
    assert_eq!(toast.color, Paint::Red);
    app.switched(Switch::Moved(InputSource::Mic), 9);
    assert_eq!(app.toast.as_ref().unwrap().text, "input: microphone (c recalibrates)");
    app.switched(Switch::Lost("x".to_string()), 9);
    assert_eq!(app.toast.as_ref().unwrap().text, "input switch failed: x");
}

#[test]
fn messages_expire() {
    let mut app = started(InputSource::Internal);
    app.expire_toast(TOAST_TTL + 4);
    assert!(app.toast.is_some());
    app.expire_toast(3);
    assert!(app.toast.is_some());
    app.expire_toast(TOAST_TTL + 5);
    assert!(app.toast.is_none());
}

#[test]
fn the_waterfall_keeps_its_speed() {
    for (idx, rows) in [(0, 3), (1, 6), (2, 12), (3, 24), (4, 36), (5, 48)] {
        let mut app = ready();
        app.params.speed_idx = idx;
        for i in 0..12 {
            app.finish_tick(vec![f(i as f32)], None, f(0.0));
        }
        assert_eq!(app.history.len(), rows);
        assert_eq!(to(app.history[0][0]), 11.0);
        assert_eq!(app.scroll, 0);
    }
}

#[test]
fn the_history_is_bounded_and_pauses() {
    let mut app = ready();
    app.params.speed_idx = 5;
    for i in 0..300 {
        app.finish_tick(vec![f(i as f32)], None, f(0.0));
    }
    assert_eq!(app.history.len(), HISTORY_CAP);
    assert_eq!(to(app.history[0][0]), 299.0);
    assert_eq!(to(app.history[HISTORY_CAP - 1][0]), 44.0);
    press(&mut app, ' ');
    app.finish_tick(vec![f(7.0)], None, f(0.0));
    assert_eq!(to(app.history[0][0]), 299.0);
    assert_eq!(to(app.row[0]), 7.0);
    app.on_key(Key::Enter, false, false, 0);
    assert_eq!(app.history.len(), 0);
}

#[test]
fn the_pitch_is_tracked() {
    let mut app = ready();
    app.finish_tick(Vec::new(), Some((f(69.0), f(440.0), f(0.9))), f(440.0));
    assert_eq!(app.current_pitch.map(|p| to(p.0)), Some(69.0));
    let shown = texts(&app, 80, 24);
    assert_eq!(shown[0], ["A4 +0¢", "440.0 Hz"]);
    app.current_pitch = Some((f(59.8), f(258.6), f(0.9)));
    assert_eq!(texts(&app, 80, 24)[0], ["C4 -20¢", "258.6 Hz"]);
    app.current_pitch = None;
    assert_eq!(texts(&app, 80, 24)[0], ["—", ""]);
}

#[test]
fn panels_in_their_order() {
    let mut app = ready();
    let shown = texts(&app, 80, 24);
    assert_eq!(shown.len(), 2);
    assert_eq!(
        shown[1],
        [
            " controls ",
            "▸1 fft size    8192 ",
            " 2 smooth      0.00 ",
            " 3 speed          1 ",
            " 4 midpoint    0.30 ",
            " 5 steep       20.0 ",
            " 6 range lo      C2 ",
            " 7 range hi      C6 ",
            "",
            " ? help · mic",
        ]
    );
    press(&mut app, '?');
    press(&mut app, ' ');
    press(&mut app, 'r');
    let shown = texts(&app, 80, 24);
    assert_eq!(shown.len(), 5);
    assert_eq!(shown[1], ["⏸ paused (space to resume)"]);
    assert_eq!(shown[3].len(), 26);
    assert_eq!(shown[3][0], "  ↑/↓ · tab · 1-7 select a control");
    assert_eq!(shown[3][25], "  mic: card");
    assert_eq!(shown[4][1], "Reset all settings to defaults?");
    assert_eq!(shown[4][2], "y: reset   n/esc: cancel");
}

#[test]
fn the_footer_names_the_source() {
    let mut app = ready();
    assert_eq!(texts(&app, 80, 24)[1][9], " ? help · mic");
    app.switched(Switch::Moved(InputSource::Internal), 0);
    press(&mut app, '?');
    let shown = texts(&app, 80, 24);
    assert!(shown.iter().any(|p| p.last().is_some_and(|l| l == " ? help · internal")));
    app.switched(Switch::Moved(InputSource::Mic), 0);
    assert!(texts(&app, 80, 24).iter().any(|p| p.len() == 10 && p[9] == " ? help · mic"));
}

#[test]
fn panels_lie_within_the_screen() {
    let mut app = ready();
    press(&mut app, '?');
    press(&mut app, 'r');
    app.switched(Switch::Failed("x".repeat(300)), 0);
    for (w, h) in [(80, 24), (81, 25), (140, 35), (300, 90)] {
        let ps = panels(&app, Area { x: 2, y: 3, width: w, height: h });
        assert_eq!(ps.len(), 5);
        for p in &ps {
            assert!(p.rect.x >= 2 && p.rect.y >= 3);
            assert!(p.rect.x + p.rect.width <= 2 + w && p.rect.y + p.rect.height <= 3 + h);
        }
    }
    let help = &panels(&app, Area { x: 0, y: 0, width: 140, height: 50 })[3];
    assert_eq!((help.rect.x, help.rect.width), (32, 76));
    assert_eq!((help.rect.y, help.rect.height), (7, 36));
    assert_eq!(help.title, Some(" chromaTUI help "));
}

#[test]
fn the_status_line() {
    let mut app = ready();
    app.switched(Switch::Moved(InputSource::Mic), 0);
    assert_eq!(texts(&app, 80, 24)[1], ["input: microphone (c recalibrates)"]);
    press(&mut app, ' ');
    press(&mut app, 'c');
    let ps = panels(&app, Area { x: 0, y: 0, width: 80, height: 24 });
    assert_eq!(ps[1].lines[0][0].text, "measuring noise floor — stay quiet…");
    assert_eq!(ps[1].ink.fg, Some(Paint::Yellow));
    assert_eq!((ps[1].rect.x, ps[1].rect.width), (21, 37));
}

#[test]
fn too_small_a_screen() {
    let app = ready();
    let shown = texts(&app, 60, 10);
    assert_eq!(
        shown,
        [[
            "chromaTUI",
            "",
            "Terminal is 60×10 — too small.",
            "Make the terminal fullscreen (needs at least 80×24).",
        ]]
    );
    let p = &panels(&app, Area { x: 0, y: 0, width: 60, height: 10 })[0];
    assert_eq!((p.rect.y, p.rect.height), (3, 4));
    let p = &panels(&app, Area { x: 0, y: 0, width: 60, height: 2 })[0];
    assert_eq!((p.rect.y, p.rect.height), (0, 2));
}

#[test]
fn frame_statistics() {
    let mut s = FrameStats::default();
    assert!(s.report().is_none());
    s.record(100, 300);
    s.record(301, 100);
    assert_eq!(s.pace(1000, 500), (1000 + FRAME, Some(500 + FRAME)));
    assert_eq!(s.pace(0, FRAME), (FRAME, None));
    assert_eq!(
        s.report().unwrap(),
        "chromatui stats: 2 frames | tick avg 200µs max 301µs | draw avg 200µs max 300µs | \
         1 overruns (>16.6ms)"
    );
}

#[test]
fn toggles_undo_themselves() {
    let mut app = ready();
    press(&mut app, ' ');
    assert!(app.paused);
    press(&mut app, ' ');
    assert!(!app.paused && !app.needs_rebuild);
    let upright = app.params.horizontal;
    press(&mut app, 'o');
    assert_ne!(app.params.horizontal, upright);
    press(&mut app, 'o');
    assert_eq!(app.params.horizontal, upright);
    assert!(app.needs_rebuild);
    for focus in 0..7 {
        app.focus = focus;
        app.on_key(Key::Tab, false, false, 0);
        app.on_key(Key::BackTab, false, false, 0);
        assert_eq!(app.focus, focus);
        app.on_key(Key::BackTab, false, false, 0);
        app.on_key(Key::Tab, false, false, 0);
        assert_eq!(app.focus, focus);
    }
}

#[test]
fn the_ring_covers_the_longest_window() {
    let mut p = Params::default();
    p.fft_exp = 99;
    p.sanitize();
    assert_eq!(p.fft_size(), 16384);
    assert!(p.fft_size() <= CAPACITY);
}

#[test]
fn internal_audio_is_never_measured() {
    let mut app = ready();
    press(&mut app, 'c');
    app.finish_tick(vec![f(0.9); 48], None, f(0.0));
    assert!(app.calibration.is_some());
    app.switched(Switch::Failed("no".to_string()), 0);
    assert!(app.calibration.is_some());
    app.switched(Switch::Moved(InputSource::Internal), 0);
    assert!(app.calibration.is_none());
    for _ in 0..100 {
        app.finish_tick(vec![f(0.9); 48], None, f(0.0));
    }
    assert_eq!(to(app.params.midpoint), 0.3);
    app.switched(Switch::Moved(InputSource::Mic), 0);
    assert!(app.calibration.is_none());
}

#[test]
fn the_wheel_shows_every_note_in_its_colour() {
    let mut app = ready();
    let area = Area { x: 0, y: 0, width: 80, height: 24 };
    let before = panels(&app, area).len();
    press(&mut app, 'f');
    let shown = panels(&app, area);
    assert_eq!(shown.len(), before + 1);
    let wheel = &shown[before];
    assert_eq!(wheel.title, Some(" note colors "));
    assert_eq!((wheel.rect.x, wheel.rect.y), (28, 7));
    assert_eq!((wheel.rect.width, wheel.rect.height), (24, 9));
    let names = ["A", "A#", "B", "C", "C#", "D", "D#", "E", "F", "F#", "G", "G#"];
    let mut seen = 0;
    for piece in wheel.lines.iter().flatten() {
        if let Some(i) = names.iter().position(|n| *n == piece.text.trim()) {
            let (r, g, b) = note_color(f(69.0 + i as f32));
            assert_eq!(piece.ink.fg, Some(Paint::Rgb(r, g, b)), "{}", piece.text);
            seen += 1;
        } else {
            assert!(piece.text.trim().is_empty());
        }
    }
    assert_eq!(seen, 12);
    let text: Vec<String> =
        wheel.lines.iter().map(|l| l.iter().map(|p| p.text.as_str()).collect()).collect();
    assert_eq!(text[0], "A");
    assert_eq!(text[1], "G#    A#");
    assert_eq!(text[3], "F#            C ");
    assert_eq!(text[6], "D#");
    press(&mut app, 'r');
    assert_eq!(panels(&app, area).len(), before + 2);
}
