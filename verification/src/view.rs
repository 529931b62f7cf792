//! The panels over the waterfall: where each stands, what it says and in which
//! colours.
use crate::audio::InputSource;
use crate::color;
use crate::color::note_color;
use crate::controls;
use crate::controls::{note_name, Param, NOTE_NAMES, PARAMS};
use crate::display;
use crate::display::fixed_of;
use crate::paint::Paint;
use crate::single::Single;
use crate::state::{App, Desk, MIN_COLS, MIN_ROWS};
use crate::text;
use crate::text::{append_padded_end, append_padded_start, digits_of, signed_of};
use crate::tracker;
use crate::tracker::Reading;
use crate::values::HUNDRED;
use vstd::prelude::*;

verus! {

/// A rectangle of cells.
#[derive(Clone, Copy, Debug, PartialEq, Eq, Structural)]
pub struct Area {
    pub x: u16,
    pub y: u16,
    pub width: u16,
    pub height: u16,
}

impl Area {
    /// Its far edges have coordinates.
    pub open spec fn fits(self) -> bool {
        self.x + self.width <= u16::MAX && self.y + self.height <= u16::MAX
    }

    /// A cell is in it.
    pub open spec fn holds(self, x: int, y: int) -> bool {
        self.x <= x < self.x + self.width && self.y <= y < self.y + self.height
    }

    /// All of another rectangle is in it.
    pub open spec fn covers(self, other: Area) -> bool {
        &&& self.x <= other.x
        &&& self.y <= other.y
        &&& other.x + other.width <= self.x + self.width
        &&& other.y + other.height <= self.y + self.height
    }

    /// There is room for the waterfall.
    pub open spec fn roomy(self) -> bool {
        self.width >= MIN_COLS && self.height >= MIN_ROWS
    }

    /// There is room for the waterfall.
    pub fn is_roomy(&self) -> (r: bool)
        ensures
            r == self.roomy(),
    {
        self.width >= MIN_COLS && self.height >= MIN_ROWS
    }
}

/// How text is drawn; a colour that is not given stays as it is.
#[derive(Clone, Copy, Debug, PartialEq, Eq, Structural)]
pub struct Ink {
    pub fg: Option<Paint>,
    pub bg: Option<Paint>,
    pub bold: bool,
    pub underlined: bool,
}

/// Text in one ink.
#[derive(Debug)]
pub struct Piece {
    pub text: String,
    pub ink: Ink,
}

/// Lines of text in a rectangle.
#[derive(Debug)]
pub struct Panel {
    pub rect: Area,
    /// The rectangle is emptied first.
    pub cleared: bool,
    pub lines: Vec<Vec<Piece>>,
    pub centered: bool,
    /// Lines that are too long go on in the next row.
    pub wrapped: bool,
    /// The colour of the border round it.
    pub border: Option<Paint>,
    pub title: Option<&'static str>,
    pub ink: Ink,
}

/// A line as it is seen.
pub type Shown = Seq<(Seq<char>, Ink)>;

/// A panel as it is seen.
pub struct Sight {
    pub rect: Area,
    pub cleared: bool,
    pub lines: Seq<Shown>,
    pub centered: bool,
    pub wrapped: bool,
    pub border: Option<Paint>,
    pub title: Option<Seq<char>>,
    pub ink: Ink,
}

pub open spec fn shown_line(line: Seq<Piece>) -> Shown {
    line.map_values(|p: Piece| (p.text@, p.ink))
}

pub open spec fn shown_lines(lines: Seq<Vec<Piece>>) -> Seq<Shown> {
    lines.map_values(|l: Vec<Piece>| shown_line(l@))
}

impl View for Panel {
    type V = Sight;

    open spec fn view(&self) -> Sight {
        Sight {
            rect: self.rect,
            cleared: self.cleared,
            lines: shown_lines(self.lines@),
            centered: self.centered,
            wrapped: self.wrapped,
            border: self.border,
            title: match self.title {
                Some(t) => Some(t@),
                None => None,
            },
            ink: self.ink,
        }
    }
}

/// Ink with no colour of its own.
pub open spec fn bare() -> Ink {
    Ink { fg: None, bg: None, bold: false, underlined: false }
}

fn bare_ink() -> (r: Ink)
    ensures
        r == bare(),
{
    Ink { fg: None, bg: None, bold: false, underlined: false }
}

/// A line of one piece.
fn line_of(text: String, ink: Ink) -> (r: Vec<Piece>)
    ensures
        shown_line(r@) == seq![(text@, ink)],
{
    let mut r: Vec<Piece> = Vec::new();
    let ghost t = text@;
    r.push(Piece { text, ink });
    assert(shown_line(r@) =~= seq![(t, ink)]);
    r
}

/// A line of two pieces.
fn pair_of(first: String, first_ink: Ink, second: String, second_ink: Ink) -> (r: Vec<Piece>)
    ensures
        shown_line(r@) == seq![(first@, first_ink), (second@, second_ink)],
{
    let mut r: Vec<Piece> = Vec::new();
    let ghost (s, t) = (first@, second@);
    r.push(Piece { text: first, ink: first_ink });
    r.push(Piece { text: second, ink: second_ink });
    assert(shown_line(r@) =~= seq![(s, first_ink), (t, second_ink)]);
    r
}

/// Append a line.
fn add_line(lines: &mut Vec<Vec<Piece>>, line: Vec<Piece>)
    ensures
        shown_lines(final(lines)@) == shown_lines(old(lines)@).push(shown_line(line@)),
        final(lines).len() == old(lines).len() + 1,
{
    let ghost before = lines@;
    lines.push(line);
    assert(shown_lines(lines@) =~= shown_lines(before).push(shown_line(line@)));
}

/// Two lines, the second in bare ink.
fn two_lines(first: String, ink: Ink, second: String) -> (r: Vec<Vec<Piece>>)
    ensures
        shown_lines(r@) == seq![seq![(first@, ink)], seq![(second@, bare())]],
{
    let ghost (s, t) = (first@, second@);
    let mut r: Vec<Vec<Piece>> = no_lines();
    add_line(&mut r, line_of(first, ink));
    add_line(&mut r, line_of(second, bare_ink()));
    assert(shown_lines(r@) =~= seq![seq![(s, ink)], seq![(t, bare())]]);
    r
}

fn no_lines() -> (r: Vec<Vec<Piece>>)
    ensures
        shown_lines(r@) == Seq::<Shown>::empty(),
        r.len() == 0,
{
    let r: Vec<Vec<Piece>> = Vec::new();
    assert(shown_lines(r@) =~= Seq::<Shown>::empty());
    r
}

/// `a` less `b`, at least nothing.
pub open spec fn less(a: int, b: int) -> int {
    if a > b {
        a - b
    } else {
        0
    }
}

pub open spec fn least(a: int, b: int) -> int {
    if a < b {
        a
    } else {
        b
    }
}

/// The screen that asks for more room.
pub open spec fn sight_too_small(area: Area) -> Sight {
    let size = text::digits(area.width as nat) + "×"@ + text::digits(area.height as nat);
    let need = text::digits(MIN_COLS as nat) + "×"@ + text::digits(MIN_ROWS as nat);
    Sight {
        rect: Area {
            x: area.x,
            y: (area.y + less(area.height as int, 4) / 2) as u16,
            width: area.width,
            height: least(4, area.height as int) as u16,
        },
        cleared: false,
        lines: seq![
            seq![("chromaTUI"@, Ink { bold: true, ..bare() })],
            seq![(""@, bare())],
            seq![("Terminal is "@ + size + " — too small."@, bare())],
            seq![
                (
                    "Make the terminal fullscreen (needs at least "@ + need + ")."@,
                    bare(),
                ),
            ],
        ],
        centered: true,
        wrapped: false,
        border: None,
        title: None,
        ink: bare(),
    }
}

fn size_text(width: u16, height: u16) -> (r: String)
    ensures
        r@ == text::digits(width as nat) + "×"@ + text::digits(height as nat),
{
    let mut r: String = digits_of(width as u64);
    r.append("×");
    let h: String = digits_of(height as u64);
    r.append(h.as_str());
    r
}

/// The screen that asks for more room.
pub fn panel_too_small(area: Area) -> (r: Panel)
    requires
        area.fits(),
    ensures
        r@ == sight_too_small(area),
        area.covers(r.rect),
{
    let mut is: String = "Terminal is ".to_string();
    let size: String = size_text(area.width, area.height);
    is.append(size.as_str());
    is.append(" — too small.");
    let mut needs: String = "Make the terminal fullscreen (needs at least ".to_string();
    let need: String = size_text(MIN_COLS, MIN_ROWS);
    needs.append(need.as_str());
    needs.append(").");
    let mut lines: Vec<Vec<Piece>> = no_lines();
    let bold: Ink = Ink { fg: None, bg: None, bold: true, underlined: false };
    add_line(&mut lines, line_of("chromaTUI".to_string(), bold));
    add_line(&mut lines, line_of("".to_string(), bare_ink()));
    add_line(&mut lines, line_of(is, bare_ink()));
    add_line(&mut lines, line_of(needs, bare_ink()));
    let (spare, height): (u16, u16) = if area.height > 4 {
        (area.height - 4, 4)
    } else {
        (0, area.height)
    };
    let r: Panel = Panel {
        rect: Area { x: area.x, y: area.y + spare / 2, width: area.width, height },
        cleared: false,
        lines,
        centered: true,
        wrapped: false,
        border: None,
        title: None,
        ink: bare_ink(),
    };
    assert(r@.lines =~= sight_too_small(area).lines);
    r
}

/// How far a note lies from the closest whole one, in hundredths of a semitone.
pub open spec fn cents_of(note: Single) -> int {
    note.minus(Single::whole(tracker::closest(note) as int)).times(
        Single { bits: HUNDRED },
    ).round_within(i32::MIN as int, i32::MAX as int)
}

/// The tuner-style readout of the pitch that is heard, top right.
pub open spec fn sight_readout(area: Area, pitch: Option<Reading>) -> Sight {
    Sight {
        rect: Area {
            x: (area.x + area.width - 19) as u16,
            y: (area.y + 1) as u16,
            width: 18,
            height: 4,
        },
        cleared: true,
        lines: readout_lines(pitch),
        centered: true,
        wrapped: false,
        border: match pitch {
            Some((note, _, _)) => Some(tint(note)),
            None => Some(Paint::DarkGray),
        },
        title: None,
        ink: Ink { fg: Some(Paint::White), bg: Some(Paint::Black), ..bare() },
    }
}

/// The colour that a note is named in.
pub open spec fn tint(note: Single) -> Paint {
    let c = color::reference(note);
    Paint::Rgb(c.0, c.1, c.2)
}

fn cents(note: Single) -> (r: i32)
    ensures
        r == cents_of(note),
{
    note.sub(Single::from_i32(note.round_i32())).mul(Single { bits: HUNDRED }).round_i32()
}

fn tint_of(note: Single) -> (r: Paint)
    ensures
        r == tint(note),
{
    let c: (u8, u8, u8) = note_color(note);
    Paint::Rgb(c.0, c.1, c.2)
}

/// A fractional note as the closest whole one and its distance from that.
pub open spec fn tuned(note: Single) -> Seq<char> {
    controls::named(tracker::closest(note) as int) + " "@ + text::signed(cents_of(note)) + "¢"@
}

fn tuned_text(note: Single) -> (r: String)
    ensures
        r@ == tuned(note),
{
    let mut name: String = note_name(note.round_i32());
    name.append(" ");
    let off: String = signed_of(cents(note) as i64);
    name.append(off.as_str());
    name.append("¢");
    name
}

/// The lines of the readout.
pub open spec fn readout_lines(pitch: Option<Reading>) -> Seq<Shown> {
    match pitch {
        Some((note, freq, _)) => seq![
            seq![(tuned(note), Ink { fg: Some(tint(note)), bold: true, ..bare() })],
            seq![(display::fixed(freq, 1) + " Hz"@, bare())],
        ],
        None => seq![seq![("—"@, bare())], seq![(""@, bare())]],
    }
}

fn hertz_text(freq: Single) -> (r: String)
    ensures
        r@ == display::fixed(freq, 1) + " Hz"@,
{
    let mut r: String = fixed_of(freq, 1);
    r.append(" Hz");
    r
}

fn readout(pitch: Option<Reading>) -> (r: Vec<Vec<Piece>>)
    ensures
        shown_lines(r@) == readout_lines(pitch),
{
    match pitch {
        Some((note, freq, _)) => {
            let bold: Ink = Ink {
                fg: Some(tint_of(note)),
                bg: None,
                bold: true,
                underlined: false,
            };
            two_lines(tuned_text(note), bold, hertz_text(freq))
        },
        None => two_lines("—".to_string(), bare_ink(), "".to_string()),
    }
}

/// The tuner-style readout of the pitch that is heard, top right.
pub fn panel_readout(area: Area, pitch: Option<Reading>) -> (r: Panel)
    requires
        area.fits(),
        area.roomy(),
    ensures
        r@ == sight_readout(area, pitch),
        area.covers(r.rect),
{
    let border: Paint = match pitch {
        Some((note, _, _)) => tint_of(note),
        None => Paint::DarkGray,
    };
    Panel {
        rect: Area { x: area.x + area.width - 19, y: area.y + 1, width: 18, height: 4 },
        cleared: true,
        lines: readout(pitch),
        centered: true,
        wrapped: false,
        border: Some(border),
        title: None,
        ink: Ink {
            fg: Some(Paint::White),
            bg: Some(Paint::Black),
            bold: false,
            underlined: false,
        },
    }
}

/// What the status line says: that a calibration is under way, else that the
/// waterfall is paused, else the transient message.
pub open spec fn status_of(d: Desk) -> Option<(Seq<char>, Paint)> {
    if d.calibration is Some {
        Some(("measuring noise floor — stay quiet…"@, Paint::Yellow))
    } else if d.paused {
        Some(("⏸ paused (space to resume)"@, Paint::White))
    } else {
        match d.toast {
            Some((text, color, _)) => Some((text, color)),
            None => None,
        }
    }
}

/// The status line, centred in the top row.
pub open spec fn sight_status(area: Area, text: Seq<char>, color: Paint) -> Sight {
    let w = least((text.len() + 2) as int, area.width as int);
    Sight {
        rect: Area {
            x: (area.x + (area.width - w) / 2) as u16,
            y: area.y,
            width: w as u16,
            height: 1,
        },
        cleared: true,
        lines: seq![seq![(text, bare())]],
        centered: true,
        wrapped: false,
        border: None,
        title: None,
        ink: Ink { fg: Some(color), bg: Some(Paint::Black), ..bare() },
    }
}

fn status_panel(area: Area, text: &str, color: Paint) -> (r: Panel)
    requires
        area.fits(),
        area.roomy(),
    ensures
        r@ == sight_status(area, text@, color),
        area.covers(r.rect),
{
    let len: usize = text.unicode_len();
    let w: u16 = if len < area.width as usize - 2 {
        len as u16 + 2
    } else {
        area.width
    };
    let mut lines: Vec<Vec<Piece>> = no_lines();
    add_line(&mut lines, line_of(text.to_string(), bare_ink()));
    let r: Panel = Panel {
        rect: Area { x: area.x + (area.width - w) / 2, y: area.y, width: w, height: 1 },
        cleared: true,
        lines,
        centered: true,
        wrapped: false,
        border: None,
        title: None,
        ink: Ink { fg: Some(color), bg: Some(Paint::Black), bold: false, underlined: false },
    };
    assert(r@.lines =~= sight_status(area, text@, color).lines);
    r
}

/// The status line, where there is something to say.
pub fn panel_status(area: Area, app: &App) -> (r: Option<Panel>)
    requires
        area.fits(),
        area.roomy(),
    ensures
        match status_of(app.desk()) {
            Some((text, color)) => r is Some && r->0@ == sight_status(area, text, color)
                && area.covers(r->0.rect),
            None => r is None,
        },
{
    if app.calibration.is_some() {
        Some(status_panel(area, "measuring noise floor — stay quiet…", Paint::Yellow))
    } else if app.paused {
        Some(status_panel(area, "⏸ paused (space to resume)", Paint::White))
    } else {
        match &app.toast {
            Some(t) => Some(status_panel(area, t.text.as_str(), t.color)),
            None => None,
        }
    }
}

/// The line of a control.
pub open spec fn control_line(d: Desk, i: int) -> Shown {
    let param = PARAMS@[i];
    let focused = i == d.focus;
    seq![
        (
            (if focused {
                "▸"@
            } else {
                " "@
            }) + text::digits((i + 1) as nat) + " "@ + text::pad_end(param.name(), 9)
                + text::pad_start(d.params.shown(param), 7) + " "@,
            if focused {
                Ink {
                    fg: Some(Paint::Black),
                    bg: Some(Paint::White),
                    bold: true,
                    underlined: false,
                }
            } else {
                Ink { fg: Some(Paint::Gray), ..bare() }
            },
        ),
    ]
}

/// The last line of the controls: the key for help, and where the sound comes from.
pub open spec fn footer(source: InputSource) -> Shown {
    seq![(" ? help · "@ + source.brief(), Ink { fg: Some(Paint::DarkGray), ..bare() })]
}

/// The pane of the controls, always visible on the left.
pub open spec fn sight_controls(area: Area, d: Desk, source: InputSource) -> Sight {
    Sight {
        rect: Area {
            x: (area.x + 2) as u16,
            y: (area.y + (area.height - 10) / 2) as u16,
            width: 24,
            height: 10,
        },
        cleared: true,
        lines: seq![seq![(" controls "@, Ink { bold: true, underlined: true, ..bare() })]]
            + Seq::new(PARAMS@.len(), |i: int| control_line(d, i)) + seq![
            seq![(""@, bare())],
            footer(source),
        ],
        centered: false,
        wrapped: false,
        border: None,
        title: None,
        ink: Ink { bg: Some(Paint::Rgb(15, 15, 20)), ..bare() },
    }
}

fn control(app: &App, i: usize) -> (r: Vec<Piece>)
    requires
        app.params.wf(),
        i < PARAMS@.len(),
    ensures
        shown_line(r@) == control_line(app.desk(), i as int),
{
    let param: Param = PARAMS[i];
    let focused: bool = i == app.focus;
    let mut t: String = if focused {
        "▸".to_string()
    } else {
        " ".to_string()
    };
    let n: String = digits_of(i as u64 + 1);
    t.append(n.as_str());
    t.append(" ");
    append_padded_end(&mut t, param.label(), 9);
    let value: String = app.params.value_str(param);
    append_padded_start(&mut t, value.as_str(), 7);
    t.append(" ");
    let ink: Ink = if focused {
        Ink { fg: Some(Paint::Black), bg: Some(Paint::White), bold: true, underlined: false }
    } else {
        Ink { fg: Some(Paint::Gray), bg: None, bold: false, underlined: false }
    };
    line_of(t, ink)
}

/// The pane of the controls, always visible on the left.
pub fn panel_controls(area: Area, app: &App) -> (r: Panel)
    requires
        area.fits(),
        area.roomy(),
        app.params.wf(),
    ensures
        r@ == sight_controls(area, app.desk(), app.audio.source),
        area.covers(r.rect),
{
    let mut lines: Vec<Vec<Piece>> = no_lines();
    let head: Ink = Ink { fg: None, bg: None, bold: true, underlined: true };
    add_line(&mut lines, line_of(" controls ".to_string(), head));
    let ghost first = shown_lines(lines@);
    let mut i: usize = 0;
    while i < PARAMS.len()
        invariant
            i <= PARAMS@.len(),
            app.params.wf(),
            shown_lines(lines@) =~= first + Seq::new(
                i as nat,
                |j: int| control_line(app.desk(), j),
            ),
        decreases PARAMS@.len() - i,
    {
        add_line(&mut lines, control(app, i));
        i = i + 1;
    }
    add_line(&mut lines, line_of("".to_string(), bare_ink()));
    let dim: Ink = Ink { fg: Some(Paint::DarkGray), bg: None, bold: false, underlined: false };
    let mut foot: String = " ? help · ".to_string();
    foot.append(app.audio.source.short());
    add_line(&mut lines, line_of(foot, dim));
    let r: Panel = Panel {
        rect: Area {
            x: area.x + 2,
            y: area.y + (area.height - 10) / 2,
            width: 24,
            height: 10,
        },
        cleared: true,
        lines,
        centered: false,
        wrapped: false,
        border: None,
        title: None,
        ink: Ink { fg: None, bg: Some(Paint::Rgb(15, 15, 20)), bold: false, underlined: false },
    };
    assert(r@.lines =~= sight_controls(area, app.desk(), app.audio.source).lines);
    r
}

/// The question whether to reset.
pub open spec fn sight_reset(area: Area) -> Sight {
    Sight {
        rect: Area {
            x: (area.x + (area.width - 37) / 2) as u16,
            y: (area.y + (area.height - 5) / 2) as u16,
            width: 37,
            height: 5,
        },
        cleared: true,
        lines: seq![
            seq![(""@, bare())],
            seq![("Reset all settings to defaults?"@, bare())],
            seq![("y: reset   n/esc: cancel"@, Ink { fg: Some(Paint::Gray), ..bare() })],
        ],
        centered: true,
        wrapped: false,
        border: Some(Paint::Yellow),
        title: None,
        ink: Ink { fg: Some(Paint::White), bg: Some(Paint::Rgb(30, 25, 10)), ..bare() },
    }
}

/// The question whether to reset.
pub fn panel_reset(area: Area) -> (r: Panel)
    requires
        area.fits(),
        area.roomy(),
    ensures
        r@ == sight_reset(area),
        area.covers(r.rect),
{
    let mut lines: Vec<Vec<Piece>> = no_lines();
    let dim: Ink = Ink { fg: Some(Paint::Gray), bg: None, bold: false, underlined: false };
    add_line(&mut lines, line_of("".to_string(), bare_ink()));
    add_line(&mut lines, line_of("Reset all settings to defaults?".to_string(), bare_ink()));
    add_line(&mut lines, line_of("y: reset   n/esc: cancel".to_string(), dim));
    let r: Panel = Panel {
        rect: Area {
            x: area.x + (area.width - 37) / 2,
            y: area.y + (area.height - 5) / 2,
            width: 37,
            height: 5,
        },
        cleared: true,
        lines,
        centered: true,
        wrapped: false,
        border: Some(Paint::Yellow),
        title: None,
        ink: Ink {
            fg: Some(Paint::White),
            bg: Some(Paint::Rgb(30, 25, 10)),
            bold: false,
            underlined: false,
        },
    };
    assert(r@.lines =~= sight_reset(area).lines);
    r
}

/// The ink of a key's name.
pub open spec fn strong() -> Ink {
    Ink { fg: Some(Paint::White), bold: true, ..bare() }
}

/// The ink of an explanation.
pub open spec fn faint() -> Ink {
    Ink { fg: Some(Paint::Gray), ..bare() }
}

fn strong_ink() -> (r: Ink)
    ensures
        r == strong(),
{
    Ink { fg: Some(Paint::White), bg: None, bold: true, underlined: false }
}

fn faint_ink() -> (r: Ink)
    ensures
        r == faint(),
{
    Ink { fg: Some(Paint::Gray), bg: None, bold: false, underlined: false }
}

/// The line of a key.
pub open spec fn key_line(key: Seq<char>, what: Seq<char>) -> Shown {
    seq![("  "@ + text::pad_end(key, 16), strong()), (what, faint())]
}

fn add_key(lines: &mut Vec<Vec<Piece>>, key: &str, what: &str)
    ensures
        shown_lines(final(lines)@) == shown_lines(old(lines)@).push(key_line(key@, what@)),
        final(lines).len() == old(lines).len() + 1,
{
    let mut k: String = "  ".to_string();
    append_padded_end(&mut k, key, 16);
    add_line(lines, pair_of(k, strong_ink(), what.to_string(), faint_ink()));
}

/// What the keys do.
pub open spec fn key_lines() -> Seq<Shown> {
    seq![
        key_line("↑/↓ · tab · 1-7"@, "select a control"@),
        key_line("←/→"@, "adjust it (shift = coarse steps)"@),
        key_line("c"@, "auto-calibrate sensitivity (stay quiet ~1s)"@),
        key_line("o"@, "flip orientation"@),
        key_line("space / enter"@, "pause / clear the screen"@),
        key_line("r"@, "reset all settings to defaults"@),
        key_line("? / esc"@, "close this help"@),
        key_line("q"@, "quit (settings are saved)"@),
    ]
}

fn keys() -> (r: Vec<Vec<Piece>>)
    ensures
        shown_lines(r@) == key_lines(),
        r.len() == 8,
{
    let mut r: Vec<Vec<Piece>> = no_lines();
    add_key(&mut r, "↑/↓ · tab · 1-7", "select a control");
    add_key(&mut r, "←/→", "adjust it (shift = coarse steps)");
    add_key(&mut r, "c", "auto-calibrate sensitivity (stay quiet ~1s)");
    add_key(&mut r, "o", "flip orientation");
    add_key(&mut r, "space / enter", "pause / clear the screen");
    add_key(&mut r, "r", "reset all settings to defaults");
    add_key(&mut r, "? / esc", "close this help");
    add_key(&mut r, "q", "quit (settings are saved)");
    assert(shown_lines(r@) =~= key_lines());
    r
}

/// The line that explains a control.
pub open spec fn meaning_line(param: Param) -> Shown {
    seq![("  "@ + param.name() + ": "@, strong()), (param.meaning(), faint())]
}

fn meaning(param: Param) -> (r: Vec<Piece>)
    ensures
        shown_line(r@) == meaning_line(param),
{
    let mut k: String = "  ".to_string();
    k.append(param.label());
    k.append(": ");
    pair_of(k, strong_ink(), param.explain().to_string(), faint_ink())
}

/// What the controls do, each after an empty line.
pub open spec fn meaning_lines(n: nat) -> Seq<Shown> {
    Seq::new(
        2 * n,
        |i: int|
            if i % 2 == 0 {
                seq![(""@, bare())]
            } else {
                meaning_line(PARAMS@[i / 2])
            },
    )
}

/// The lines of the help.
pub open spec fn help_lines(device: Seq<char>) -> Seq<Shown> {
    key_lines() + seq![
        seq![(""@, bare())],
        seq![("  what the settings do"@, Ink { bold: true, underlined: true, ..bare() })],
    ] + meaning_lines(PARAMS@.len()) + seq![
        seq![(""@, bare())],
        seq![("  mic: "@ + device, Ink { fg: Some(Paint::DarkGray), ..bare() })],
    ]
}

fn help(device: &str) -> (r: Vec<Vec<Piece>>)
    ensures
        shown_lines(r@) == help_lines(device@),
        r.len() == 26,
{
    let mut r: Vec<Vec<Piece>> = keys();
    add_line(&mut r, line_of("".to_string(), bare_ink()));
    let head: Ink = Ink { fg: None, bg: None, bold: true, underlined: true };
    add_line(&mut r, line_of("  what the settings do".to_string(), head));
    let ghost first = shown_lines(r@);
    let mut i: usize = 0;
    while i < PARAMS.len()
        invariant
            i <= PARAMS@.len(),
            r.len() == 10 + 2 * i,
            shown_lines(r@) =~= first + meaning_lines(i as nat),
        decreases PARAMS@.len() - i,
    {
        add_line(&mut r, line_of("".to_string(), bare_ink()));
        add_line(&mut r, meaning(PARAMS[i]));
        assert(shown_lines(r@) =~= first + meaning_lines((i + 1) as nat));
        i = i + 1;
    }
    add_line(&mut r, line_of("".to_string(), bare_ink()));
    let mut mic: String = "  mic: ".to_string();
    mic.append(device);
    let dim: Ink = Ink { fg: Some(Paint::DarkGray), bg: None, bold: false, underlined: false };
    add_line(&mut r, line_of(mic, dim));
    assert(shown_lines(r@) =~= help_lines(device@));
    r
}

/// The help in the middle of the screen: the keys, and what each setting does.
pub open spec fn sight_help(area: Area, device: Seq<char>) -> Sight {
    let width = least(76, area.width - 4);
    // The explanations take about two rows each at this width.
    let height = least(26int + 7 + 3, area.height as int);
    Sight {
        rect: Area {
            x: (area.x + (area.width - width) / 2) as u16,
            y: (area.y + (area.height - height) / 2) as u16,
            width: width as u16,
            height: height as u16,
        },
        cleared: true,
        lines: help_lines(device),
        centered: false,
        wrapped: true,
        border: Some(Paint::DarkGray),
        title: Some(" chromaTUI help "@),
        ink: Ink { fg: Some(Paint::White), bg: Some(Paint::Rgb(15, 15, 20)), ..bare() },
    }
}

/// The help in the middle of the screen.
pub fn panel_help(area: Area, device: &str) -> (r: Panel)
    requires
        area.fits(),
        area.roomy(),
    ensures
        r@ == sight_help(area, device@),
        area.covers(r.rect),
{
    let lines: Vec<Vec<Piece>> = help(device);
    let width: u16 = if area.width - 4 > 76 {
        76
    } else {
        area.width - 4
    };
    let rows: u16 = lines.len() as u16 + PARAMS.len() as u16 + 3;
    let height: u16 = if rows < area.height {
        rows
    } else {
        area.height
    };
    Panel {
        rect: Area {
            x: area.x + (area.width - width) / 2,
            y: area.y + (area.height - height) / 2,
            width,
            height,
        },
        cleared: true,
        lines,
        centered: false,
        wrapped: true,
        border: Some(Paint::DarkGray),
        title: Some(" chromaTUI help "),
        ink: Ink {
            fg: Some(Paint::White),
            bg: Some(Paint::Rgb(15, 15, 20)),
            bold: false,
            underlined: false,
        },
    }
}

/// The ink of a note's name on the wheel: the colour that stands for the note.
pub open spec fn note_ink(midi: int) -> Ink {
    Ink { fg: Some(tint(Single::whole(midi))), bold: true, ..bare() }
}

fn note_ink_of(midi: i32) -> (r: Ink)
    ensures
        r == note_ink(midi as int),
{
    Ink { fg: Some(tint_of(Single::from_i32(midi))), bg: None, bold: true, underlined: false }
}

/// A row of the wheel with one note.
#[verifier::opaque]
pub open spec fn wheel_end(midi: int) -> Shown {
    seq![(controls::NOTE_NAMES@[midi % 12]@, note_ink(midi))]
}

fn wheel_end_of(midi: i32) -> (r: Vec<Piece>)
    requires
        midi >= 0,
    ensures
        shown_line(r@) == wheel_end(midi as int),
{
    proof {
        reveal(wheel_end);
    }
    line_of(NOTE_NAMES[(midi % 12) as usize].to_string(), note_ink_of(midi))
}

/// A row of the wheel with a note on either side.
#[verifier::opaque]
pub open spec fn wheel_row(left: int, gap: nat, right: int) -> Shown {
    seq![
        (text::pad_start(controls::NOTE_NAMES@[left % 12]@, 2), note_ink(left)),
        (text::pad_start(""@, gap), bare()),
        (text::pad_end(controls::NOTE_NAMES@[right % 12]@, 2), note_ink(right)),
    ]
}

fn wheel_row_of(left: i32, gap: usize, right: i32) -> (r: Vec<Piece>)
    requires
        left >= 0,
        right >= 0,
    ensures
        shown_line(r@) == wheel_row(left as int, gap as nat, right as int),
{
    let mut l: String = "".to_string();
    append_padded_start(&mut l, NOTE_NAMES[(left % 12) as usize], 2);
    let mut m: String = "".to_string();
    append_padded_start(&mut m, "", gap);
    let mut n: String = "".to_string();
    append_padded_end(&mut n, NOTE_NAMES[(right % 12) as usize], 2);
    let ghost (a, b, c) = (l@, m@, n@);
    let mut r: Vec<Piece> = pair_of(l, note_ink_of(left), m, bare_ink());
    let ghost before = shown_line(r@);
    r.push(Piece { text: n, ink: note_ink_of(right) });
    proof {
        reveal(wheel_row);
        reveal_strlit("");
        assert(a =~= text::pad_start(controls::NOTE_NAMES@[left as int % 12]@, 2));
        assert(b =~= text::pad_start(""@, gap as nat));
        assert(c =~= text::pad_end(controls::NOTE_NAMES@[right as int % 12]@, 2));
        assert(shown_line(r@) =~= before.push((c, note_ink(right as int))));
        assert(shown_line(r@) =~= wheel_row(left as int, gap as nat, right as int));
    }
    r
}

/// The twelve notes of an octave round a wheel, clockwise from A at the top, each
/// in its colour.
pub open spec fn wheel_lines() -> Seq<Shown> {
    seq![
        wheel_end(69),
        wheel_row(68, 4, 70),
        wheel_row(67, 9, 71),
        wheel_row(66, 12, 72),
        wheel_row(65, 9, 73),
        wheel_row(64, 4, 74),
        wheel_end(75),
    ]
}

fn wheel() -> (r: Vec<Vec<Piece>>)
    ensures
        shown_lines(r@) == wheel_lines(),
{
    let mut r: Vec<Vec<Piece>> = no_lines();
    add_line(&mut r, wheel_end_of(69));
    add_line(&mut r, wheel_row_of(68, 4, 70));
    add_line(&mut r, wheel_row_of(67, 9, 71));
    add_line(&mut r, wheel_row_of(66, 12, 72));
    add_line(&mut r, wheel_row_of(65, 9, 73));
    add_line(&mut r, wheel_row_of(64, 4, 74));
    add_line(&mut r, wheel_end_of(75));
    assert(shown_lines(r@) =~= wheel_lines());
    r
}

/// The wheel in the middle of the screen: which note has which colour.
pub open spec fn sight_wheel(area: Area) -> Sight {
    Sight {
        rect: Area {
            x: (area.x + (area.width - 24) / 2) as u16,
            y: (area.y + (area.height - 9) / 2) as u16,
            width: 24,
            height: 9,
        },
        cleared: true,
        lines: wheel_lines(),
        centered: true,
        wrapped: false,
        border: Some(Paint::DarkGray),
        title: Some(" note colors "@),
        ink: Ink { fg: Some(Paint::White), bg: Some(Paint::Rgb(15, 15, 20)), ..bare() },
    }
}

/// The wheel in the middle of the screen: which note has which colour.
pub fn panel_wheel(area: Area) -> (r: Panel)
    requires
        area.fits(),
        area.roomy(),
    ensures
        r@ == sight_wheel(area),
        area.covers(r.rect),
{
    let lines: Vec<Vec<Piece>> = wheel();
    Panel {
        rect: Area {
            x: area.x + (area.width - 24) / 2,
            y: area.y + (area.height - 9) / 2,
            width: 24,
            height: 9,
        },
        cleared: true,
        lines,
        centered: true,
        wrapped: false,
        border: Some(Paint::DarkGray),
        title: Some(" note colors "),
        ink: Ink {
            fg: Some(Paint::White),
            bg: Some(Paint::Rgb(15, 15, 20)),
            bold: false,
            underlined: false,
        },
    }
}

/// Panels as they are seen.
pub open spec fn sights_of(panels: Seq<Panel>) -> Seq<Sight> {
    panels.map_values(|p: Panel| p@)
}

/// One panel or none.
pub open spec fn perhaps(there: bool, s: Sight) -> Seq<Sight> {
    if there {
        seq![s]
    } else {
        Seq::empty()
    }
}

/// The status line, where there is something to say.
pub open spec fn status_sights(d: Desk, area: Area) -> Seq<Sight> {
    match status_of(d) {
        Some((text, color)) => seq![sight_status(area, text, color)],
        None => Seq::empty(),
    }
}

/// The panels over the waterfall, in the order in which they are drawn; on a
/// screen that is too small there is nothing else.
pub open spec fn sights(app: App, area: Area) -> Seq<Sight> {
    if !area.roomy() {
        seq![sight_too_small(area)]
    } else {
        seq![sight_readout(area, app.current_pitch)] + status_sights(app.desk(), area)
            + seq![sight_controls(area, app.desk(), app.audio.source)] + perhaps(
            app.help_visible,
            sight_help(area, app.audio.device_name@),
        ) + perhaps(app.wheel_visible, sight_wheel(area)) + perhaps(
            app.pending_reset,
            sight_reset(area),
        )
    }
}

fn add_panel(panels: &mut Vec<Panel>, panel: Panel, Ghost(area): Ghost<Area>)
    requires
        area.covers(panel.rect),
        forall|i: int| 0 <= i < old(panels).len() ==> area.covers(#[trigger] old(panels)[i].rect),
    ensures
        sights_of(final(panels)@) == sights_of(old(panels)@).push(panel@),
        forall|i: int|
            0 <= i < final(panels).len() ==> area.covers(#[trigger] final(panels)[i].rect),
{
    let ghost before = panels@;
    panels.push(panel);
    assert(sights_of(panels@) =~= sights_of(before).push(panel@));
}

/// The panels over the waterfall, in the order in which they are drawn. All of
/// them lie within the screen.
pub fn panels(app: &App, area: Area) -> (r: Vec<Panel>)
    requires
        area.fits(),
        app.params.wf(),
    ensures
        sights_of(r@) == sights(*app, area),
        forall|i: int| 0 <= i < r.len() ==> area.covers(#[trigger] r[i].rect),
{
    let mut r: Vec<Panel> = Vec::new();
    assert(sights_of(r@) =~= Seq::empty());
    if !area.is_roomy() {
        add_panel(&mut r, panel_too_small(area), Ghost(area));
        assert(sights_of(r@) =~= sights(*app, area));
        return r;
    }
    add_panel(&mut r, panel_readout(area, app.current_pitch), Ghost(area));
    if let Some(p) = panel_status(area, app) {
        add_panel(&mut r, p, Ghost(area));
    }
    add_panel(&mut r, panel_controls(area, app), Ghost(area));
    if app.help_visible {
        add_panel(&mut r, panel_help(area, app.device_name()), Ghost(area));
    }
    if app.wheel_visible {
        add_panel(&mut r, panel_wheel(area), Ghost(area));
    }
    if app.pending_reset {
        add_panel(&mut r, panel_reset(area), Ghost(area));
    }
    assert(sights_of(r@) =~= sights(*app, area));
    r
}

/// The pane of the controls shows nothing but the settings, the focus and the source.
proof fn lemma_same_controls(area: Area, d: Desk, e: Desk, source: InputSource)
    requires
        d.params == e.params,
        d.focus == e.focus,
    ensures
        sight_controls(area, d, source) == sight_controls(area, e, source),
{
    let (a, b) = (
        Seq::new(PARAMS@.len(), |i: int| control_line(d, i)),
        Seq::new(PARAMS@.len(), |i: int| control_line(e, i)),
    );
    assert forall|i: int| 0 <= i < PARAMS@.len() implies a[i] == b[i] by {
        assert(control_line(d, i) == control_line(e, i));
    }
    assert(a =~= b);
}

/// The wheel is on the screen exactly where it is asked for, over what is there
/// without it and under the question whether to reset.
pub proof fn law_wheel_is_shown(app: App, area: Area)
    requires
        area.roomy(),
        app.wheel_visible,
        !app.pending_reset,
    ensures
        sights(app, area) == sights((App { wheel_visible: false, ..app }), area).push(
            sight_wheel(area),
        ),
{
    let without = App { wheel_visible: false, ..app };
    let (d, e) = (app.desk(), without.desk());
    let controls = sight_controls(area, d, app.audio.source);
    lemma_same_controls(area, d, e, app.audio.source);
    let head = seq![sight_readout(area, app.current_pitch)] + status_sights(d, area)
        + seq![controls] + perhaps(app.help_visible, sight_help(area, app.audio.device_name@));
    let wheel = sight_wheel(area);
    assert(status_sights(e, area) == status_sights(d, area));
    assert(sights(app, area) == head + seq![wheel] + Seq::<Sight>::empty());
    assert(sights(without, area) == head + Seq::<Sight>::empty() + Seq::<Sight>::empty());
    assert(head + seq![wheel] + Seq::<Sight>::empty() =~= head.push(wheel));
    assert(head + Seq::<Sight>::empty() + Seq::<Sight>::empty() =~= head);
}

/// Whatever else is open, the last line of the controls says where the sound comes
/// from.
pub proof fn law_source_is_named(app: App, area: Area)
    requires
        area.roomy(),
    ensures
        sights(app, area).contains(sight_controls(area, app.desk(), app.audio.source)),
        sight_controls(area, app.desk(), app.audio.source).lines.last() == footer(
            app.audio.source,
        ),
{
    let at = 1 + status_sights(app.desk(), area).len();
    assert(sights(app, area)[at as int] == sight_controls(area, app.desk(), app.audio.source));
}

} // verus!
