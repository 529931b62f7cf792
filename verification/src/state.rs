//! The state of the program: what the keys do to it and what a frame does.
use crate::analysis;
use crate::analysis::{Analyzer, Band, Tones};
use crate::audio;
use crate::audio::{AudioInput, InputSource, Switch};
use crate::calibration;
use crate::calibration::{Calibration, INTERNAL_BASELINE};
use crate::color;
use crate::color::{ColorMap, SIG_STEPS};
use crate::controls;
use crate::controls::{Params, PARAMS, SPEEDS};
use crate::paint::Paint;
use crate::single::Single;
use crate::tracker::{PitchTracker, Reading};
use crate::values::{MINUS_200, THREE_TENTHS, TWENTY, ZERO};
use std::collections::VecDeque;
use vstd::arithmetic::power2;
use vstd::prelude::*;

verus! {

/// Below this the screen asks for more room in place of the waterfall. The
/// floor is the classic 80 by 24, so that any terminal works, but bigger is
/// much better.
pub const MIN_COLS: u16 = 80;

pub const MIN_ROWS: u16 = 24;

/// Rows of history that are kept.
pub const HISTORY_CAP: usize = 1024;

/// How long a transient message stays on screen, in nanoseconds.
pub const TOAST_TTL: u64 = 2_000_000_000;

/// A key, as far as the program knows keys.
#[derive(Clone, Copy, Debug, PartialEq, Eq, Structural)]
pub enum Key {
    Char(char),
    Enter,
    Esc,
    Tab,
    BackTab,
    Up,
    Down,
    Left,
    Right,
    Other,
}

/// A transient message of the status line. It expires on its own.
#[derive(Debug)]
pub struct Toast {
    pub text: String,
    pub color: Paint,
    /// When it came up, in nanoseconds of a clock that never goes back.
    pub at: u64,
}

pub struct App {
    pub params: Params,
    /// The control that has the focus.
    pub focus: usize,
    pub paused: bool,
    pub analyzer: Analyzer,
    pub colors: ColorMap,
    /// Raw band rows, newest at the front.
    pub history: VecDeque<Vec<Single>>,
    pub calibration: Option<Calibration>,
    pub current_pitch: Option<Reading>,
    pub pitch_tracker: PitchTracker,
    pub help_visible: bool,
    pub wheel_visible: bool,
    pub pending_reset: bool,
    pub toast: Option<Toast>,
    pub audio: AudioInput,
    pub samples: Vec<Single>,
    pub row: Vec<Single>,
    /// Progress towards the next row of the waterfall, in quarters of a row.
    pub scroll: u32,
    /// Columns and rows of the screen.
    pub size: (u16, u16),
    pub needs_rebuild: bool,
    pub quit: bool,
}

/// What the keys act on.
pub struct Desk {
    pub params: Params,
    pub focus: usize,
    pub paused: bool,
    pub history: Seq<Seq<Single>>,
    pub calibration: Option<Calibration>,
    pub help_visible: bool,
    pub wheel_visible: bool,
    pub pending_reset: bool,
    pub toast: Option<(Seq<char>, Paint, u64)>,
    pub scroll: u32,
    pub needs_rebuild: bool,
    pub quit: bool,
}

/// The message that says where the sound comes from now.
pub open spec fn switched_text(source: InputSource) -> Seq<char> {
    match source {
        InputSource::Mic => "input: microphone (c recalibrates)"@,
        InputSource::Internal => "input: internal audio (c sets the baseline)"@,
    }
}

impl Desk {
    /// The focused control moved one step.
    pub open spec fn nudged(self, dir: int, coarse: bool) -> Desk {
        let param = PARAMS@[self.focus as int];
        Desk {
            params: self.params.adjusted(param, dir, coarse),
            needs_rebuild: self.needs_rebuild || param.rebuilds(),
            ..self
        }
    }

    /// Sensitivity is set: measured for a microphone, and to the fixed anchor
    /// for internal audio, where the level of silence is the same everywhere.
    pub open spec fn calibrated(self, source: InputSource, now: u64) -> Desk {
        match source {
            InputSource::Mic => Desk {
                calibration: match self.calibration {
                    Some(c) => Some(c),
                    None => Some(
                        Calibration {
                            frames_left: calibration::WATCHED_FRAMES,
                            peak: Single { bits: ZERO },
                        },
                    ),
                },
                ..self
            },
            InputSource::Internal => Desk {
                params: Params { midpoint: Single { bits: INTERNAL_BASELINE }, ..self.params },
                toast: Some(("midpoint set to internal baseline"@, Paint::Cyan, now)),
                ..self
            },
        }
    }

    /// A character is typed while no question is open.
    pub open spec fn typed(self, c: char, control: bool, source: InputSource, now: u64) -> Desk {
        if c == 'q' || c == 'c' && control {
            Desk { quit: true, ..self }
        } else if c == '?' {
            Desk { help_visible: !self.help_visible, wheel_visible: false, ..self }
        } else if c == 'f' {
            Desk { wheel_visible: !self.wheel_visible, help_visible: false, ..self }
        } else if c == 'r' {
            Desk { pending_reset: true, ..self }
        } else if c == ' ' {
            Desk { paused: !self.paused, ..self }
        } else if c == 'o' {
            Desk {
                params: Params { horizontal: !self.params.horizontal, ..self.params },
                needs_rebuild: true,
                ..self
            }
        } else if c == 'c' {
            self.calibrated(source, now)
        } else if '1' as u32 <= c as u32 <= '7' as u32 {
            Desk { focus: (c as u32 - '1' as u32) as usize, ..self }
        } else {
            self
        }
    }

    /// A key is answered to the question whether to reset.
    pub open spec fn answered(self, key: Key) -> Desk {
        match key {
            Key::Char(c) => if c == 'y' || c == 'Y' {
                Desk {
                    params: Params::initial(),
                    needs_rebuild: true,
                    pending_reset: false,
                    ..self
                }
            } else if c == 'n' || c == 'N' {
                Desk { pending_reset: false, ..self }
            } else {
                self
            },
            Key::Esc => Desk { pending_reset: false, ..self },
            _ => self,
        }
    }

    /// A key is pressed.
    pub open spec fn pressed(
        self,
        key: Key,
        shift: bool,
        control: bool,
        source: InputSource,
        now: u64,
    ) -> Desk {
        if self.pending_reset {
            self.answered(key)
        } else {
            match key {
                Key::Char(c) => self.typed(c, control, source, now),
                Key::Esc => Desk { help_visible: false, wheel_visible: false, ..self },
                Key::Enter => Desk { history: Seq::empty(), scroll: 0, ..self },
                Key::Tab => Desk {
                    focus: if self.focus + 1 < PARAMS@.len() {
                        (self.focus + 1) as usize
                    } else {
                        0
                    },
                    ..self
                },
                Key::BackTab => Desk {
                    focus: if self.focus > 0 {
                        (self.focus - 1) as usize
                    } else {
                        (PARAMS@.len() - 1) as usize
                    },
                    ..self
                },
                Key::Up => Desk {
                    focus: if self.focus > 0 {
                        (self.focus - 1) as usize
                    } else {
                        0
                    },
                    ..self
                },
                Key::Down => Desk {
                    focus: if self.focus + 1 < PARAMS@.len() {
                        (self.focus + 1) as usize
                    } else {
                        (PARAMS@.len() - 1) as usize
                    },
                    ..self
                },
                Key::Right => self.nudged(1, shift),
                Key::Left => self.nudged(-1, shift),
                Key::Other => self,
            }
        }
    }

    /// What the keys act on is in order.
    pub open spec fn wf(self) -> bool {
        &&& self.params.wf()
        &&& self.focus < PARAMS@.len()
        &&& self.history.len() <= HISTORY_CAP
        &&& self.scroll < 4
        &&& !(self.help_visible && self.wheel_visible)
        &&& match self.calibration {
            Some(c) => c.wf(),
            None => true,
        }
    }
}

/// A row with its own storage.
fn copied(row: &Vec<Single>) -> (r: Vec<Single>)
    ensures
        r@ == row@,
{
    let mut r: Vec<Single> = Vec::new();
    let mut i: usize = 0;
    while i < row.len()
        invariant
            i <= row.len(),
            r@ == row@.take(i as int),
        decreases row.len() - i,
    {
        r.push(row[i]);
        i = i + 1;
        assert(r@ =~= row@.take(i as int));
    }
    assert(r@ =~= row@);
    r
}

/// Rows as they are kept.
pub open spec fn rows_of(history: Seq<Vec<Single>>) -> Seq<Seq<Single>> {
    history.map_values(|v: Vec<Single>| v@)
}

/// A message as it is seen.
pub open spec fn seen_toast(toast: Option<Toast>) -> Option<(Seq<char>, Paint, u64)> {
    match toast {
        Some(t) => Some((t.text@, t.color, t.at)),
        None => None,
    }
}

/// A message, unless it has been up long enough.
pub open spec fn unexpired(toast: Option<Toast>, now: u64) -> Option<Toast> {
    match toast {
        Some(t) => if now - t.at >= TOAST_TTL {
            None
        } else {
            toast
        },
        None => None,
    }
}

impl App {
    pub open spec fn desk(self) -> Desk {
        Desk {
            params: self.params,
            focus: self.focus,
            paused: self.paused,
            history: rows_of(self.history@),
            calibration: self.calibration,
            help_visible: self.help_visible,
            wheel_visible: self.wheel_visible,
            pending_reset: self.pending_reset,
            toast: seen_toast(self.toast),
            scroll: self.scroll,
            needs_rebuild: self.needs_rebuild,
            quit: self.quit,
        }
    }

    pub open spec fn wf(self) -> bool {
        &&& self.desk().wf()
        &&& self.analyzer.wf()
        &&& self.colors.wf()
        &&& self.pitch_tracker.wf()
        &&& self.audio.wf()
        &&& self.audio.source == InputSource::Internal ==> self.calibration is None
        &&& !self.needs_rebuild ==> self.samples.len() == self.analyzer.fft_size
    }

    /// Everything that no key touches is the same.
    pub open spec fn same_signal(self, other: App) -> bool {
        &&& self.analyzer == other.analyzer
        &&& self.colors == other.colors
        &&& self.current_pitch == other.current_pitch
        &&& self.pitch_tracker == other.pitch_tracker
        &&& self.audio == other.audio
        &&& self.samples == other.samples
        &&& self.row == other.row
        &&& self.size == other.size
    }

    fn set_toast(&mut self, text: &str, color: Paint, now: u64)
        ensures
            final(self).desk() == (Desk { toast: Some((text@, color, now)), ..old(self).desk() }),
            final(self).same_signal(*old(self)),
    {
        self.toast = Some(Toast { text: text.to_string(), color, at: now });
    }

    fn answer(&mut self, key: Key)
        requires
            old(self).wf(),
            old(self).pending_reset,
        ensures
            final(self).desk() == old(self).desk().answered(key),
            final(self).same_signal(*old(self)),
            final(self).wf(),
    {
        match key {
            Key::Char(c) => {
                if c == 'y' || c == 'Y' {
                    self.params = Params::default();
                    self.needs_rebuild = true;
                    self.pending_reset = false;
                    proof {
                        controls::law_initial_valid();
                    }
                } else if c == 'n' || c == 'N' {
                    self.pending_reset = false;
                }
            },
            Key::Esc => {
                self.pending_reset = false;
            },
            _ => {},
        }
    }

    fn nudge(&mut self, dir: i32, coarse: bool)
        requires
            old(self).wf(),
            -1 <= dir <= 1,
        ensures
            final(self).desk() == old(self).desk().nudged(dir as int, coarse),
            final(self).same_signal(*old(self)),
            final(self).wf(),
    {
        let param: controls::Param = PARAMS[self.focus];
        proof {
            controls::law_valid_adjustable(self.params, param, dir as int, coarse);
        }
        if self.params.adjust(param, dir, coarse) {
            self.needs_rebuild = true;
        }
    }

    fn calibrate(&mut self, now: u64)
        requires
            old(self).wf(),
        ensures
            final(self).desk() == old(self).desk().calibrated(old(self).audio.source, now),
            final(self).same_signal(*old(self)),
            final(self).wf(),
    {
        match self.audio.source {
            InputSource::Mic => {
                if self.calibration.is_none() {
                    self.calibration = Some(Calibration::new());
                }
            },
            InputSource::Internal => {
                self.params.midpoint = Single { bits: INTERNAL_BASELINE };
                self.set_toast("midpoint set to internal baseline", Paint::Cyan, now);
            },
        }
    }

    fn type_char(&mut self, c: char, control: bool, now: u64)
        requires
            old(self).wf(),
            !old(self).pending_reset,
        ensures
            final(self).desk() == old(self).desk().typed(
                c,
                control,
                old(self).audio.source,
                now,
            ),
            final(self).same_signal(*old(self)),
            final(self).wf(),
    {
        if c == 'q' || (c == 'c' && control) {
            self.quit = true;
        } else if c == '?' {
            self.help_visible = !self.help_visible;
            self.wheel_visible = false;
        } else if c == 'f' {
            self.wheel_visible = !self.wheel_visible;
            self.help_visible = false;
        } else if c == 'r' {
            self.pending_reset = true;
        } else if c == ' ' {
            self.paused = !self.paused;
        } else if c == 'o' {
            self.params.horizontal = !self.params.horizontal;
            self.needs_rebuild = true;
        } else if c == 'c' {
            self.calibrate(now);
        } else if '1' as u32 <= c as u32 && c as u32 <= '7' as u32 {
            self.focus = (c as u32 - '1' as u32) as usize;
        }
    }

    /// A key is pressed. Returns the switch of the sound source that is to be
    /// carried out, where the key asks for one.
    pub fn on_key(&mut self, key: Key, shift: bool, control: bool, now: u64) -> (r: Option<Switch>)
        requires
            old(self).wf(),
        ensures
            final(self).desk() == old(self).desk().pressed(
                key,
                shift,
                control,
                old(self).audio.source,
                now,
            ),
            final(self).same_signal(*old(self)),
            final(self).wf(),
            r == if !old(self).pending_reset && key == Key::Char('i') {
                Some(Switch::Query(old(self).audio.source.flipped()))
            } else {
                None
            },
    {
        if self.pending_reset {
            self.answer(key);
            return None;
        }
        match key {
            Key::Char(c) => {
                if c == 'i' {
                    return Some(self.audio.toggle_source());
                }
                self.type_char(c, control, now);
            },
            Key::Esc => {
                self.help_visible = false;
                self.wheel_visible = false;
            },
            Key::Enter => {
                self.history.clear();
                self.scroll = 0;
                assert(rows_of(self.history@) =~= Seq::empty());
            },
            Key::Tab => {
                self.focus = if self.focus + 1 < PARAMS.len() {
                    self.focus + 1
                } else {
                    0
                };
            },
            Key::BackTab => {
                self.focus = if self.focus > 0 {
                    self.focus - 1
                } else {
                    PARAMS.len() - 1
                };
            },
            Key::Up => {
                if self.focus > 0 {
                    self.focus = self.focus - 1;
                }
            },
            Key::Down => {
                if self.focus + 1 < PARAMS.len() {
                    self.focus = self.focus + 1;
                } else {
                    self.focus = PARAMS.len() - 1;
                }
            },
            Key::Right => self.nudge(1, shift),
            Key::Left => self.nudge(-1, shift),
            Key::Other => {},
        }
        None
    }
}

/// What a frame needs next.
#[derive(Clone, Copy, Debug, PartialEq, Eq, Structural)]
pub enum Phase {
    /// The screen has no room for the waterfall.
    TooSmall,
    /// The bands are to be made anew first.
    Rebuild,
    /// The sound can be analysed.
    Ready,
}

/// The screen has no room for the waterfall.
pub open spec fn too_small(size: (u16, u16)) -> bool {
    size.0 < MIN_COLS || size.1 < MIN_ROWS
}

/// Rows that the waterfall advances in a frame, from its progress and its speed
/// in quarters of a row.
pub open spec fn rows_due(scroll: int, speed: int) -> int {
    (scroll + speed) / 4
}

impl Desk {
    /// The calibration, if one is under way, sees a row; at its end the midpoint
    /// is set.
    pub open spec fn watching(self, row: Seq<Single>, bands: Seq<Band>) -> Desk {
        match self.calibration {
            None => self,
            Some(c) => if c.frames_left <= 1 {
                Desk {
                    params: Params {
                        midpoint: calibration::midpoint_over(c.fed(row, bands).peak),
                        ..self.params
                    },
                    calibration: None,
                    ..self
                }
            } else {
                Desk { calibration: Some(c.fed(row, bands)), ..self }
            },
        }
    }

    /// The waterfall advances unless it is paused.
    pub open spec fn scrolling(self, row: Seq<Single>) -> Desk {
        let speed = SPEEDS@[self.params.speed_idx as int] as int;
        if self.paused {
            self
        } else {
            Desk {
                history: pushed(self.history, row, rows_due(self.scroll as int, speed) as nat),
                scroll: ((self.scroll + speed) % 4) as u32,
                ..self
            }
        }
    }
}

/// The history with a row put in front `n` times.
pub open spec fn pushed(history: Seq<Seq<Single>>, row: Seq<Single>, n: nat) -> Seq<Seq<Single>> {
    let all = Seq::new(n, |i: int| row) + history;
    if all.len() > HISTORY_CAP {
        all.take(HISTORY_CAP as int)
    } else {
        all
    }
}

proof fn lemma_pushed_again(history: Seq<Seq<Single>>, row: Seq<Single>, n: nat)
    ensures
        ({
            let grown = seq![row] + pushed(history, row, n);
            pushed(history, row, n + 1) == if grown.len() > HISTORY_CAP {
                grown.take(HISTORY_CAP as int)
            } else {
                grown
            }
        }),
{
    let grown = seq![row] + pushed(history, row, n);
    let cut = if grown.len() > HISTORY_CAP {
        grown.take(HISTORY_CAP as int)
    } else {
        grown
    };
    assert(pushed(history, row, n + 1) =~= cut);
}

impl App {
    /// The program at its start. The route of the sound may have been restored
    /// from an earlier session; a start on internal audio is announced.
    pub fn new(
        params: Params,
        audio: AudioInput,
        cosines: &Vec<Single>,
        tones: &Vec<Tones>,
        exponentials: &Vec<Single>,
        now: u64,
    ) -> (r: App)
        requires
            params.wf(),
            audio.wf(),
            cosines.len() == 8192,
            tones.len() == 128,
            exponentials.len() == SIG_STEPS,
        ensures
            r.wf(),
            r.desk() == (Desk {
                params,
                focus: 0,
                paused: false,
                history: Seq::empty(),
                calibration: None,
                help_visible: false,
                wheel_visible: false,
                pending_reset: false,
                toast: match audio.source {
                    InputSource::Mic => None,
                    InputSource::Internal => Some(
                        (
                            "input: internal audio (restored from last session)"@,
                            Paint::Cyan,
                            now,
                        ),
                    ),
                },
                scroll: 0,
                needs_rebuild: true,
                quit: false,
            }),
            r.audio == audio,
            r.current_pitch is None,
            r.pitch_tracker == PitchTracker::idle(),
            r.size == (0u16, 0u16),
            r.analyzer.sample_rate == audio.sample_rate,
            r.analyzer.fft_size == 8192,
            r.analyzer.windowed_by(cosines@),
            r.analyzer.silent(),
            r.analyzer.peak_db == (Single { bits: MINUS_200 }),
            r.analyzer.banded(36, 84, tones@),
            r.colors.midpoint == (Single { bits: THREE_TENTHS }),
            r.colors.steep == (Single { bits: TWENTY }),
            forall|i: int|
                0 <= i < SIG_STEPS ==> #[trigger] r.colors.sigmoid_lut@[i] == color::level_of(
                    exponentials[i],
                ),
            r.row.len() == 0,
            r.samples.len() == power2::pow2(params.fft_exp as nat),
            forall|i: int| 0 <= i < r.samples.len() ==> #[trigger] r.samples[i] == (Single {
                bits: ZERO,
            }),
    {
        let analyzer: Analyzer = Analyzer::new(audio.sample_rate, cosines, tones);
        let toast: Option<Toast> = match audio.source {
            InputSource::Mic => None,
            InputSource::Internal => Some(
                Toast {
                    text: "input: internal audio (restored from last session)".to_string(),
                    color: Paint::Cyan,
                    at: now,
                },
            ),
        };
        let samples: Vec<Single> = analysis::constant(Single { bits: ZERO }, params.fft_size());
        let r: App = App {
            params,
            focus: 0,
            paused: false,
            analyzer,
            colors: ColorMap::new(exponentials),
            history: VecDeque::new(),
            calibration: None,
            current_pitch: None,
            pitch_tracker: PitchTracker::new(),
            help_visible: false,
            wheel_visible: false,
            pending_reset: false,
            toast,
            audio,
            samples,
            row: Vec::new(),
            scroll: 0,
            size: (0, 0),
            needs_rebuild: true,
            quit: false,
        };
        assert(rows_of(r.history@) =~= Seq::empty());
        r
    }

    pub fn device_name(&self) -> (r: &str)
        ensures
            r@ == self.audio.device_name@,
    {
        self.audio.device_name.as_str()
    }

    pub fn source_label(&self) -> (r: &'static str)
        ensures
            r@ == match self.audio.source {
                InputSource::Mic => "microphone"@,
                InputSource::Internal => "internal audio"@,
            },
    {
        self.audio.source.label()
    }

    pub fn source(&self) -> (r: InputSource)
        ensures
            r == self.audio.source,
    {
        self.audio.source
    }

    /// Take the end of a switch of the sound source, and say how it went.
    /// Internal audio is never measured: a calibration under way ends there.
    pub fn switched(&mut self, end: Switch, now: u64)
        requires
            old(self).wf(),
            end.finished(),
        ensures
            final(self).wf(),
            match end {
                Switch::Moved(to) => final(self).audio.source == to && final(self).desk() == (Desk {
                    toast: Some((switched_text(to), Paint::Cyan, now)),
                    calibration: match to {
                        InputSource::Mic => old(self).calibration,
                        InputSource::Internal => None,
                    },
                    ..old(self).desk()
                }),
                Switch::Lost(m) => final(self).audio == old(self).audio && final(self).desk() == (
                Desk {
                    toast: Some(("input switch failed: "@ + m@, Paint::Red, now)),
                    ..old(self).desk()
                }),
                Switch::Failed(m) => final(self).audio == old(self).audio && final(self).desk()
                    == (Desk {
                    toast: Some(("input switch failed: "@ + m@, Paint::Red, now)),
                    ..old(self).desk()
                }),
                _ => true,
            },
            final(self).audio.buffer == old(self).audio.buffer,
            final(self).audio.sample_rate == old(self).audio.sample_rate,
            final(self).audio.device_name == old(self).audio.device_name,
            final(self).analyzer == old(self).analyzer,
            final(self).colors == old(self).colors,
            final(self).current_pitch == old(self).current_pitch,
            final(self).pitch_tracker == old(self).pitch_tracker,
            final(self).samples == old(self).samples,
            final(self).row == old(self).row,
            final(self).size == old(self).size,
    {
        match self.audio.set_source(end) {
            Ok(()) => match self.audio.source {
                InputSource::Mic => {
                    self.set_toast("input: microphone (c recalibrates)", Paint::Cyan, now);
                },
                InputSource::Internal => {
                    self.calibration = None;
                    self.set_toast("input: internal audio (c sets the baseline)", Paint::Cyan, now);
                },
            },
            Err(e) => {
                let mut text: String = "input switch failed: ".to_string();
                text.append(e.as_str());
                self.set_toast(text.as_str(), Paint::Red, now);
            },
        }
    }

    /// Pixels along the pitch axis: two per cell on both axes.
    pub open spec fn pitch_pixels(self) -> nat {
        if self.params.horizontal {
            2 * self.size.1 as nat
        } else {
            2 * self.size.0 as nat
        }
    }

    /// Pixels along the pitch axis for the current orientation and size.
    pub fn freq_pixels(&self) -> (r: usize)
        ensures
            r == self.pitch_pixels(),
    {
        if self.params.horizontal {
            self.size.1 as usize * 2
        } else {
            self.size.0 as usize * 2
        }
    }

    /// A frame begins on a screen of this size.
    pub fn begin_tick(&mut self, size: (u16, u16)) -> (r: Phase)
        requires
            old(self).wf(),
        ensures
            final(self).wf(),
            *final(self) == (App {
                size,
                needs_rebuild: old(self).needs_rebuild || size != old(self).size,
                ..*old(self)
            }),
            r == if too_small(size) {
                Phase::TooSmall
            } else if old(self).needs_rebuild || size != old(self).size {
                Phase::Rebuild
            } else {
                Phase::Ready
            },
    {
        if size.0 != self.size.0 || size.1 != self.size.1 {
            self.size = size;
            self.needs_rebuild = true;
        }
        if size.0 < MIN_COLS || size.1 < MIN_ROWS {
            Phase::TooSmall
        } else if self.needs_rebuild {
            Phase::Rebuild
        } else {
            Phase::Ready
        }
    }

    /// Make the bands anew for the current settings and size, with the cosines
    /// of the window's angles where its length changes, and the tones of the
    /// bands' slices. The history starts over.
    pub fn rebuild(&mut self, cosines: &Vec<Single>, tones: &Vec<Tones>)
        requires
            old(self).wf(),
            power2::pow2(old(self).params.fft_exp as nat) != old(self).analyzer.fft_size
                ==> cosines.len() == power2::pow2(old(self).params.fft_exp as nat),
            tones.len() == analysis::band_count(old(self).pitch_pixels()),
        ensures
            final(self).wf(),
            final(self).analyzer.fft_size == power2::pow2(old(self).params.fft_exp as nat),
            final(self).samples.len() == final(self).analyzer.fft_size,
            final(self).analyzer.sample_rate == old(self).analyzer.sample_rate,
            final(self).analyzer.fft_size == old(self).analyzer.fft_size ==> {
                &&& final(self).analyzer.window == old(self).analyzer.window
                &&& final(self).analyzer.window_sum == old(self).analyzer.window_sum
                &&& final(self).analyzer.smoothed == old(self).analyzer.smoothed
                &&& final(self).analyzer.db == old(self).analyzer.db
            },
            final(self).analyzer.fft_size != old(self).analyzer.fft_size
                ==> final(self).analyzer.windowed_by(cosines@) && final(self).analyzer.silent(),
            final(self).analyzer.peak_db == old(self).analyzer.peak_db,
            final(self).analyzer.banded(
                old(self).params.range_lo as int,
                old(self).params.range_hi as int,
                tones@,
            ),
            *final(self) == (App {
                analyzer: final(self).analyzer,
                samples: final(self).samples,
                history: final(self).history,
                scroll: 0,
                needs_rebuild: false,
                ..*old(self)
            }),
            final(self).history@.len() == 0,
    {
        let fft_size: usize = self.params.fft_size();
        let pixels: usize = self.freq_pixels();
        self.analyzer.configure(
            fft_size,
            pixels,
            self.params.range_lo,
            self.params.range_hi,
            cosines,
            tones,
        );
        self.samples.resize(fft_size, Single { bits: ZERO });
        self.history.clear();
        self.scroll = 0;
        self.needs_rebuild = false;
        assert(rows_of(self.history@) =~= Seq::empty());
    }

    /// A message that has been up long enough goes away.
    pub fn expire_toast(&mut self, now: u64)
        requires
            old(self).wf(),
        ensures
            final(self).wf(),
            *final(self) == (App { toast: final(self).toast, ..*old(self) }),
            final(self).toast == unexpired(old(self).toast, now),
    {
        let expired: bool = match &self.toast {
            Some(t) => t.at <= now && now - t.at >= TOAST_TTL,
            None => false,
        };
        if expired {
            self.toast = None;
        }
    }

    /// Take the latest samples, under the window.
    pub fn take_samples(&mut self) -> (r: Vec<Single>)
        requires
            old(self).wf(),
            !old(self).needs_rebuild,
        ensures
            final(self).wf(),
            *final(self) == (App { samples: final(self).samples, ..*old(self) }),
            final(self).samples@ == audio::padded(
                old(self).audio.samples(),
                old(self).analyzer.fft_size as nat,
            ),
            r.len() == old(self).analyzer.fft_size,
            forall|i: int|
                0 <= i < r.len() ==> #[trigger] r[i] == final(self).samples[i].times(
                    old(self).analyzer.window[i],
                ),
    {
        self.audio.copy_latest(&mut self.samples);
        self.analyzer.windowed(&self.samples)
    }

    fn scroll_on(&mut self)
        requires
            old(self).wf(),
        ensures
            final(self).wf(),
            *final(self) == (App {
                history: final(self).history,
                scroll: final(self).scroll,
                ..*old(self)
            }),
            final(self).desk() == old(self).desk().scrolling(old(self).row@),
    {
        if self.paused {
            return;
        }
        let speed: u32 = self.params.speed_quarters();
        let ghost start = self.scroll;
        let ghost kept = rows_of(self.history@);
        let ghost before = *self;
        self.scroll = self.scroll + speed;
        let ghost mut n: nat = 0;
        assert(pushed(kept, self.row@, 0) =~= kept);
        while self.scroll >= 4
            invariant
                before.wf(),
                *self == (App { history: self.history, scroll: self.scroll, ..before }),
                self.scroll + 4 * n == start + speed,
                speed <= 16,
                start < 4,
                self.history@.len() <= HISTORY_CAP,
                kept.len() <= HISTORY_CAP,
                rows_of(self.history@) == pushed(kept, self.row@, n),
            decreases self.scroll,
        {
            let fresh: Vec<Single> = copied(&self.row);
            let ghost was = rows_of(self.history@);
            self.history.push_front(fresh);
            assert(rows_of(self.history@) =~= seq![self.row@] + was);
            let ghost grown = rows_of(self.history@);
            self.history.truncate(HISTORY_CAP);
            self.scroll = self.scroll - 4;
            proof {
                assert(rows_of(self.history@) =~= if grown.len() > HISTORY_CAP {
                    grown.take(HISTORY_CAP as int)
                } else {
                    grown
                });
                lemma_pushed_again(kept, self.row@, n);
                n = n + 1;
            }
        }
    }

    /// A frame ends with the values of its row, the pitch that was detected and
    /// the frequency of its eased note.
    pub fn finish_tick(&mut self, row: Vec<Single>, raw: Option<Reading>, eased_freq: Single)
        requires
            old(self).wf(),
        ensures
            final(self).wf(),
            final(self).row@ == row@,
            final(self).pitch_tracker == old(self).pitch_tracker.after(raw, eased_freq),
            final(self).current_pitch == final(self).pitch_tracker.display,
            final(self).desk() == old(self).desk().watching(
                row@,
                old(self).analyzer.bands@,
            ).scrolling(row@),
            *final(self) == (App {
                params: final(self).params,
                history: final(self).history,
                calibration: final(self).calibration,
                current_pitch: final(self).current_pitch,
                pitch_tracker: final(self).pitch_tracker,
                row: final(self).row,
                scroll: final(self).scroll,
                ..*old(self)
            }),
    {
        self.row = row;
        self.current_pitch = self.pitch_tracker.update(raw, eased_freq);
        if let Some(c) = self.calibration {
            let mut cal: Calibration = c;
            match cal.feed(&self.row, &self.analyzer.bands) {
                Some(midpoint) => {
                    proof {
                        calibration::law_midpoint_in_bounds(cal.peak);
                    }
                    self.params.midpoint = midpoint;
                    self.calibration = None;
                },
                None => {
                    self.calibration = Some(cal);
                },
            }
        }
        self.scroll_on();
    }
}

/// The ring of samples holds enough for every window that can be set.
pub proof fn law_ring_covers_every_window(p: Params)
    requires
        p.wf(),
    ensures
        power2::pow2(p.fft_exp as nat) <= audio::CAPACITY,
{
    power2::lemma2_to64();
}

/// Whatever key is pressed, the settings stay valid, the focus stays on a
/// control, and help and wheel are never shown together.
pub proof fn law_keys_keep_order(
    d: Desk,
    key: Key,
    shift: bool,
    control: bool,
    source: InputSource,
    now: u64,
)
    requires
        d.wf(),
    ensures
        d.pressed(key, shift, control, source, now).wf(),
{
    if d.pending_reset {
        controls::law_initial_valid();
    } else {
        match key {
            Key::Char(c) => lemma_typed_in_order(d, c, control, source, now),
            Key::Right => lemma_nudged_in_order(d, 1, shift),
            Key::Left => lemma_nudged_in_order(d, -1, shift),
            _ => {},
        }
    }
}

proof fn lemma_typed_in_order(d: Desk, c: char, control: bool, source: InputSource, now: u64)
    requires
        d.wf(),
    ensures
        d.typed(c, control, source, now).wf(),
{
}

proof fn lemma_nudged_in_order(d: Desk, dir: int, coarse: bool)
    requires
        d.wf(),
    ensures
        d.nudged(dir, coarse).wf(),
{
    controls::law_adjust_keeps_valid(d.params, PARAMS@[d.focus as int], dir, coarse);
}

/// The question whether to reset captures every key until it is answered: none
/// but yes touches the settings, none but an answer touches anything.
pub proof fn law_question_captures_keys(
    d: Desk,
    key: Key,
    shift: bool,
    control: bool,
    source: InputSource,
    now: u64,
)
    requires
        d.pending_reset,
    ensures
        ({
            let next = d.pressed(key, shift, control, source, now);
            &&& next.quit == d.quit
            &&& next.pending_reset ==> next == d
            &&& key != Key::Char('y') && key != Key::Char('Y') ==> next.params == d.params
            &&& key == Key::Char('y') ==> next.params == Params::initial() && next.needs_rebuild
        }),
{
}

/// No key but the answer to the question resets the settings, and asking does
/// not change them.
pub proof fn law_reset_asks_first(d: Desk, shift: bool, control: bool, source: InputSource, now: u64)
    requires
        !d.pending_reset,
    ensures
        d.pressed(Key::Char('r'), shift, control, source, now) == (Desk {
            pending_reset: true,
            ..d
        }),
        d.pressed(Key::Char('r'), shift, control, source, now).pressed(
            Key::Char('n'),
            shift,
            control,
            source,
            now,
        ) == d,
{
}

/// Pausing twice, and flipping the orientation twice, changes nothing but that
/// a flip makes the bands anew.
pub proof fn law_toggles_undo(d: Desk, shift: bool, control: bool, source: InputSource, now: u64)
    requires
        !d.pending_reset,
    ensures
        d.pressed(Key::Char(' '), shift, control, source, now).pressed(
            Key::Char(' '),
            shift,
            control,
            source,
            now,
        ) == d,
        d.pressed(Key::Char('o'), shift, control, source, now).pressed(
            Key::Char('o'),
            shift,
            control,
            source,
            now,
        ) == (Desk { needs_rebuild: true, ..d }),
{
}

/// Stepping to the next control and back again leads back, and so does stepping
/// to the one before and on again, also round the ends.
pub proof fn law_backtab_undoes_tab(d: Desk, shift: bool, control: bool, source: InputSource, now: u64)
    requires
        !d.pending_reset,
        d.focus < PARAMS@.len(),
    ensures
        d.pressed(Key::Tab, shift, control, source, now).pressed(
            Key::BackTab,
            shift,
            control,
            source,
            now,
        ) == d,
        d.pressed(Key::BackTab, shift, control, source, now).pressed(
            Key::Tab,
            shift,
            control,
            source,
            now,
        ) == d,
{
}

/// Progress of the waterfall after `n` frames: rows, and quarters of a row.
pub open spec fn progress(scroll: nat, speed: nat, n: nat) -> (nat, nat)
    decreases n,
{
    if n == 0 {
        (0, scroll)
    } else {
        let (rows, quarters) = progress(scroll, speed, (n - 1) as nat);
        (
            (rows + rows_due(quarters as int, speed as int)) as nat,
            ((quarters + speed) % 4) as nat,
        )
    }
}

/// The waterfall keeps its speed: over any number of frames it advances by
/// exactly the whole rows that the speed makes of them.
pub proof fn law_scroll_rate(scroll: nat, speed: nat, n: nat)
    requires
        scroll < 4,
    ensures
        progress(scroll, speed, n).0 == (scroll + n * speed) / 4,
        progress(scroll, speed, n).1 == (scroll + n * speed) % 4,
    decreases n,
{
    if n == 0 {
        assert(0 * speed == 0);
    } else {
        law_scroll_rate(scroll, speed, (n - 1) as nat);
        assert(n * speed == (n - 1) * speed + speed) by (nonlinear_arith)
            requires
                n > 0,
        ;
    }
}

/// The newest row is in front, and what was there before follows, as far as the
/// history reaches.
pub proof fn law_newest_in_front(history: Seq<Seq<Single>>, row: Seq<Single>, n: nat, i: int)
    requires
        0 <= i < pushed(history, row, n).len(),
    ensures
        i < n ==> pushed(history, row, n)[i] == row,
        i >= n ==> pushed(history, row, n)[i] == history[i - n],
        pushed(history, row, n).len() <= HISTORY_CAP,
{
}

/// Where no calibration is under way, a frame leaves the settings as they are.
pub proof fn law_only_calibration_sets_midpoint(d: Desk, row: Seq<Single>, bands: Seq<Band>)
    requires
        d.calibration is None,
    ensures
        d.watching(row, bands).scrolling(row).params == d.params,
        d.watching(row, bands).scrolling(row).calibration is None,
{
}

/// While paused, frames leave the history as it is.
pub proof fn law_paused_stands_still(d: Desk, row: Seq<Single>)
    requires
        d.paused,
    ensures
        d.scrolling(row) == d,
{
}

} // verus!
