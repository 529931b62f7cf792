use chromatui::audio::{AudioInput, InputSource};
use chromatui::color::ColorMap;
use chromatui::controls::Params;
use chromatui::pass::{angles_of, edges_of, ratios_of, tones_of, Ask, Stage};
use chromatui::single::Single;
use chromatui::state::{App, Key, TOAST_TTL};
use realfft::RealFftPlanner;

fn f(x: f32) -> Single {
    Single { bits: x.to_bits() }
}

fn to(x: Single) -> f32 {
    f32::from_bits(x.bits)
}

fn each(values: &[Single], g: impl Fn(f32) -> f32) -> Vec<Single> {
    values.iter().map(|&x| f(g(to(x)))).collect()
}

fn sizes(values: &[Single]) -> Vec<Single> {
    let fft = RealFftPlanner::<f32>::new().plan_fft_forward(values.len());
    let mut bins = fft.make_output_vec();
    let mut input: Vec<f32> = values.iter().map(|&x| to(x)).collect();
    fft.process(&mut input, &mut bins).unwrap();
    bins.iter().map(|c| f(c.norm())).collect()
}

fn answer(ask: &Ask) -> Vec<Single> {
    let reply = match ask {
        Ask::Cosines(v) => each(v, f32::cos),
        Ask::Twos(v) => each(v, |x| 2f32.powf(x)),
        Ask::Tens(v) => each(v, |x| 10f32.powf(x)),
        Ask::Exponentials(v) => each(v, f32::exp),
        Ask::BinaryLogs(v) => each(v, f32::log2),
        Ask::DecimalLogs(v) => each(v, f32::log10),
        Ask::Sizes(v) => sizes(v),
        Ask::Nothing => Vec::new(),
    };
    assert_eq!(reply.len(), ask.reply_len());
    reply
}

fn started() -> App {
    let powers = answer(&Ask::Twos(edges_of(128, 36, 84)));
    let octaves = answer(&Ask::BinaryLogs(ratios_of(&powers, 128)));
    App::new(
        Params::default(),
        AudioInput::opened(48000, None, Some(InputSource::Mic)),
        &answer(&Ask::Cosines(angles_of(8192))),
        &tones_of(&powers, &octaves),
        &answer(&Ask::Exponentials(ColorMap::exponents(f(0.3), f(20.0)))),
        0,
    )
}

/// One frame, and the letters of what it asked for.
fn frame(app: &mut App, now: u64) -> String {
    let mut asked = String::new();
    let (mut stage, mut ask) = app.begin((80, 24), now);
    while !matches!(ask, Ask::Nothing) {
        asked.push(match ask {
            Ask::Cosines(_) => 'c',
            Ask::Twos(_) => '2',
            Ask::Tens(_) => 't',
            Ask::Exponentials(_) => 'e',
            Ask::BinaryLogs(_) => 'b',
            Ask::DecimalLogs(_) => 'd',
            Ask::Sizes(_) => 's',
            Ask::Nothing => unreachable!(),
        });
        let reply = answer(&ask);
        let (next, more) = app.step(stage, reply);
        stage = next;
        ask = more;
    }
    assert!(matches!(stage, Stage::Done));
    assert!(asked.len() <= 12);
    asked
}

fn sing(app: &mut App, freq: f32) {
    let step = std::f32::consts::TAU * freq / 48000.0;
    let wave: Vec<Single> = (0..20000).map(|i| f(0.5 * (step * i as f32).sin())).collect();
    app.audio.push_mono(&wave, 1);
}

#[test]
fn a_small_screen_ends_the_frame() {
    let mut app = started();
    let (stage, ask) = app.begin((79, 24), 0);
    assert!(matches!(stage, Stage::Done) && matches!(ask, Ask::Nothing));
    assert_eq!(ask.reply_len(), 0);
    assert!(app.needs_rebuild && app.row.is_empty() && app.history.is_empty());
    let (stage, ask) = app.step(stage, Vec::new());
    assert!(matches!(stage, Stage::Done) && matches!(ask, Ask::Nothing));
}

#[test]
fn the_first_frame_makes_the_bands() {
    let mut app = started();
    let (stage, ask) = app.begin((80, 24), 0);
    assert!(matches!(stage, Stage::Powers { .. }));
    assert_eq!(ask.reply_len(), 3 * 48);
    let mut app = started();
    assert!(frame(&mut app, 0).starts_with("2bsdt2"));
    assert_eq!(app.analyzer.num_bands(), 48);
    assert_eq!(app.row.len(), 48);
    assert!(frame(&mut app, 0).starts_with("sdt2"));
}

#[test]
fn a_sung_note_is_read() {
    let mut app = started();
    sing(&mut app, 440.0);
    for _ in 0..12 {
        assert!(frame(&mut app, 0).ends_with("sdt2bte2") || app.history.len() == 1);
    }
    let (note, freq, strength) = app.current_pitch.unwrap();
    assert!((to(note) - 69.0).abs() < 0.1, "{}", to(note));
    assert!((to(freq) - 440.0).abs() < 2.0, "{}", to(freq));
    assert!(to(strength) > 0.5);
    let loudest = (0..48).max_by(|&a, &b| to(app.row[a]).total_cmp(&to(app.row[b]))).unwrap();
    let band = &app.analyzer.bands[loudest];
    let width = 48000.0 / 8192.0;
    let (lo, hi) = (band.bin_lo as f32 * width, band.bin_hi as f32 * width);
    assert!(lo - width < 440.0 && 440.0 < hi + width);
    let front: Vec<u32> = app.history[0].iter().map(|x| x.bits).collect();
    assert_eq!(front, app.row.iter().map(|x| x.bits).collect::<Vec<u32>>());
}

#[test]
fn silence_has_no_pitch() {
    let mut app = started();
    for _ in 0..3 {
        frame(&mut app, 0);
    }
    assert!(app.current_pitch.is_none());
    assert_eq!(to(app.analyzer.peak_db), -200.0);
}

#[test]
fn a_turned_knob_asks_for_the_curve() {
    let mut app = started();
    frame(&mut app, 0);
    app.params.midpoint = f(0.5);
    assert!(frame(&mut app, 0).starts_with("esdt2"));
    assert_eq!(to(app.colors.midpoint), 0.5);
    assert!(frame(&mut app, 0).starts_with("sdt2"));
}

#[test]
fn a_longer_window_asks_for_cosines() {
    let mut app = started();
    frame(&mut app, 0);
    app.on_key(Key::Right, false, false, 0);
    assert!(frame(&mut app, 0).starts_with("c2bsdt2"));
    assert_eq!(app.analyzer.fft_size, 16384);
    assert_eq!(app.samples.len(), 16384);
}

#[test]
fn a_frame_keeps_the_settings() {
    let mut app = started();
    app.on_key(Key::Char('h'), false, false, 0);
    app.on_key(Key::Tab, false, false, 0);
    let (focus, help, params) = (app.focus, app.help_visible, app.params);
    frame(&mut app, 7);
    assert_eq!((app.focus, app.help_visible, app.size), (focus, help, (80, 24)));
    assert_eq!(app.params.midpoint.bits, params.midpoint.bits);
    assert!(!app.paused && !app.quit && app.toast.is_none());
}

#[test]
fn a_message_goes_away_with_a_frame() {
    let mut app = started();
    app.audio.source = InputSource::Internal;
    app.on_key(Key::Char('c'), false, false, 100);
    assert!(app.toast.is_some());
    frame(&mut app, 100 + TOAST_TTL - 1);
    assert!(app.toast.is_some());
    frame(&mut app, 100 + TOAST_TTL);
    assert!(app.toast.is_none());
}
