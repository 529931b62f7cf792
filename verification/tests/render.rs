use chromatui::analysis::{slices, window_angle, Analyzer, Tones};
use chromatui::audio::{AudioInput, InputSource};
use chromatui::color::{note_color, ColorMap, Rgb};
use chromatui::controls::Params;
use chromatui::render::{draw, draw_ruler, draw_waterfall, quad_cell};
use chromatui::single::Single;
use chromatui::state::App;
use chromatui::view::Area;
use ratatui::buffer::Buffer;
use ratatui::layout::Rect;
use ratatui::style::Color;

const RED: Rgb = (255, 0, 0);
const BLACK: Rgb = (0, 0, 0);

fn f(x: f32) -> Single {
    Single { bits: x.to_bits() }
}

fn to(x: Single) -> f32 {
    f32::from_bits(x.bits)
}

#[test]
fn uniform_cell_is_full_block() {
    let (glyph, fg, _bg) = quad_cell([RED; 4]);
    assert_eq!(glyph, '█');
    assert_eq!(fg, RED);
}

#[test]
fn top_bright_bottom_dark_is_upper_half() {
    let (glyph, fg, bg) = quad_cell([RED, RED, BLACK, BLACK]);
    assert_eq!(glyph, '▀');
    assert_eq!(fg, RED);
    assert_eq!(bg, BLACK);
}

#[test]
fn single_bright_quadrants_pick_their_glyph() {
    assert_eq!(quad_cell([RED, BLACK, BLACK, BLACK]).0, '▘');
    assert_eq!(quad_cell([BLACK, RED, BLACK, BLACK]).0, '▝');
    assert_eq!(quad_cell([BLACK, BLACK, RED, BLACK]).0, '▖');
    assert_eq!(quad_cell([BLACK, BLACK, BLACK, RED]).0, '▗');
}

#[test]
fn clusters_average_their_colors() {
    let dark_red = (60, 0, 0);
    let (glyph, fg, bg) = quad_cell([RED, (205, 0, 0), dark_red, (0, 0, 0)]);
    assert_eq!(glyph, '▀');
    assert_eq!(fg, (230, 0, 0)); // avg of the two bright reds
    assert_eq!(bg, (30, 0, 0)); // avg of the two dark pixels
}

#[test]
fn every_uniform_cell_is_one_colour() {
    for r in (0..=255).step_by(15) {
        for g in (0..=255).step_by(17) {
            for b in (0..=255).step_by(19) {
                let c = (r as u8, g as u8, b as u8);
                assert_eq!(quad_cell([c; 4]), ('█', c, c));
            }
        }
    }
}

#[test]
fn every_mask_has_its_glyph() {
    let glyphs = [
        ' ', '▗', '▖', '▄', '▝', '▐', '▞', '▟', '▘', '▚', '▌', '▙', '▀', '▜', '▛', '█',
    ];
    for mask in 1..16usize {
        let px = [8usize, 4, 2, 1].map(|bit| if mask & bit != 0 { RED } else { BLACK });
        assert_eq!(quad_cell(px).0, glyphs[mask]);
    }
}

fn tones(lo: i32, hi: i32, pixels: usize) -> Vec<Tones> {
    let power = |n: Single| f(2f32.powf((to(n) - 69.0) / 12.0));
    slices(pixels, lo, hi)
        .iter()
        .map(|s| Tones {
            power: power(s.note),
            power_lo: power(s.note_lo),
            power_hi: power(s.note_hi),
            octaves: f(to(power(s.note)).log2()),
        })
        .collect()
}

fn cosines(n: usize) -> Vec<Single> {
    (0..n).map(|i| f(to(window_angle(i, n)).cos())).collect()
}

fn exponentials(midpoint: f32, steep: f32) -> Vec<Single> {
    ColorMap::exponents(f(midpoint), f(steep)).iter().map(|&e| f(to(e).exp())).collect()
}

fn app_on(size: (u16, u16), params: Params) -> App {
    let audio = AudioInput::opened(48000, Some("test".to_string()), Some(InputSource::Mic));
    let mut app = App::new(
        params,
        audio,
        &cosines(8192),
        &tones(36, 84, 128),
        &exponentials(0.3, 20.0),
        0,
    );
    app.begin_tick(size);
    let pixels = app.freq_pixels();
    app.rebuild(&Vec::new(), &tones(params.range_lo, params.range_hi, pixels));
    app
}

#[test]
fn waterfall_puts_the_newest_at_the_edge() {
    let mut app = app_on((80, 24), Params::default());
    let bands = app.analyzer.num_bands();
    assert_eq!(bands, 48);
    // The newest row is loud in the lowest band only.
    let mut row = vec![f(0.01); bands];
    row[0] = f(1.0);
    app.finish_tick(row, None, f(0.0));
    assert_eq!(app.history.len(), 1);
    let lit = app.colors.shade(f(1.0), &app.analyzer.bands[0]);
    assert!(lit != BLACK);

    let mut buf = Buffer::empty(Rect::new(0, 0, 80, 24));
    draw_waterfall(&mut buf, Area { x: 0, y: 0, width: 80, height: 24 }, &app);
    let cell = &buf[(79, 23)];
    assert_eq!(cell.symbol(), "▗");
    assert_eq!(cell.fg, Color::Rgb(lit.0, lit.1, lit.2));
    assert_eq!(cell.bg, Color::Rgb(0, 0, 0));
    for (x, y) in [(0, 0), (78, 23), (79, 22), (40, 12)] {
        assert_eq!(buf[(x, y)].symbol(), "█");
        assert_eq!(buf[(x, y)].fg, Color::Rgb(0, 0, 0));
    }
}

#[test]
fn waterfall_with_pitch_to_the_right() {
    let params = Params { horizontal: false, ..Params::default() };
    let mut app = app_on((80, 24), params);
    assert_eq!(app.analyzer.num_bands(), 160);
    let mut row = vec![f(0.01); 160];
    row[0] = f(1.0);
    app.finish_tick(row, None, f(0.0));
    let mut buf = Buffer::empty(Rect::new(3, 2, 80, 24));
    draw_waterfall(&mut buf, Area { x: 3, y: 2, width: 80, height: 24 }, &app);
    assert_eq!(buf[(3, 25)].symbol(), "▖");
    assert_eq!(buf[(4, 25)].symbol(), "█");
}

#[test]
fn drawing_outside_the_grid_changes_nothing() {
    let app = app_on((80, 24), Params::default());
    let mut buf = Buffer::empty(Rect::new(0, 0, 10, 5));
    draw_waterfall(&mut buf, Area { x: 0, y: 0, width: 80, height: 24 }, &app);
    assert_eq!(buf[(9, 4)].symbol(), "█");
    let mut far = Buffer::empty(Rect::new(200, 100, 10, 5));
    let before = far.clone();
    draw_waterfall(&mut far, Area { x: 0, y: 0, width: 80, height: 24 }, &app);
    assert_eq!(far, before);
}

/// The column and the row of a C's label, by the machine's own arithmetic.
fn ruler_place(c: i32, bands: usize, area: Rect, horizontal: bool) -> (u16, u16) {
    let pixels = bands as f32;
    let i = ((c - 36) as f32 / 48.0 * pixels - 0.5).max(0.0);
    if horizontal {
        let row_px = pixels - 1.0 - i;
        (area.x, area.y + ((row_px / 2.0) as u16).min(area.height.saturating_sub(1)))
    } else {
        let x = area.x + ((i / 2.0) as u16).min(area.width.saturating_sub(3));
        (x, area.y + area.height - 1)
    }
}

#[test]
fn ruler_labels_every_c() {
    for horizontal in [true, false] {
        let params = Params { horizontal, ..Params::default() };
        let app = app_on((90, 40), params);
        let rect = Rect::new(1, 1, 90, 40);
        let area = Area { x: 1, y: 1, width: 90, height: 40 };
        let mut buf = Buffer::empty(rect);
        draw_ruler(&mut buf, area, &app);
        for (c, label) in [(36, "C2"), (48, "C3"), (60, "C4"), (72, "C5"), (84, "C6")] {
            let (x, y) = ruler_place(c, app.analyzer.num_bands(), rect, horizontal);
            let (r, g, b) = note_color(f(c as f32));
            for (dx, ch) in label.chars().enumerate() {
                let cell = &buf[(x + dx as u16, y)];
                assert_eq!(cell.symbol(), ch.to_string(), "{label}");
                assert_eq!(cell.fg, Color::Rgb(r, g, b));
                assert_eq!(cell.bg, Color::Reset);
            }
            if horizontal {
                assert_eq!(buf[(x + 2, y)].symbol(), "╶");
            }
        }
    }
}

#[test]
fn a_small_screen_is_left_alone() {
    let app = app_on((80, 24), Params::default());
    let mut buf = Buffer::empty(Rect::new(0, 0, 79, 24));
    let before = buf.clone();
    draw(&mut buf, Area { x: 0, y: 0, width: 79, height: 24 }, &app);
    assert_eq!(buf, before);
    let mut buf = Buffer::empty(Rect::new(0, 0, 80, 24));
    draw(&mut buf, Area { x: 0, y: 0, width: 80, height: 24 }, &app);
    assert_eq!(buf[(0, 0)].symbol(), "C");
    assert_eq!(buf[(1, 0)].symbol(), "6");
    assert_eq!(buf[(2, 0)].symbol(), "╶");
    assert_eq!(buf[(3, 0)].symbol(), "█");
    assert_eq!(buf[(0, 0)].bg, Color::Rgb(0, 0, 0));
}

#[test]
fn an_analyzer_of_its_own_has_the_initial_bands() {
    let a = Analyzer::new(f(48000.0), &cosines(8192), &tones(36, 84, 128));
    assert_eq!(a.num_bands(), 128);
    assert_eq!(a.fft_size, 8192);
}

#[test]
fn a_turned_knob_recolours_the_picture() {
    let mut app = app_on((80, 24), Params::default());
    let mut row = vec![f(0.01); 48];
    row[0] = f(0.6);
    app.finish_tick(row, None, f(0.0));
    let area = Area { x: 0, y: 0, width: 80, height: 24 };
    let mut buf = Buffer::empty(Rect::new(0, 0, 80, 24));
    draw_waterfall(&mut buf, area, &app);
    assert_eq!(buf[(79, 23)].symbol(), "▗");
    app.colors.ensure(f(1.0), f(40.0), &exponentials(1.0, 40.0));
    draw_waterfall(&mut buf, area, &app);
    assert_eq!(buf[(79, 23)].symbol(), "█");
    assert_eq!(buf[(79, 23)].fg, Color::Rgb(0, 0, 0));
}
