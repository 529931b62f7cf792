//! One frame step by step: what is asked of the outside, and what is made of
//! the answers. Powers, logarithms, cosines and the spectrum of a signal are
//! asked for; everything between them is decided here.
use crate::analysis;
use crate::analysis::{
    freq_ratio, loudness_exponent, midi_exponent, midi_to_freq, row_values, slices, window_angle,
    Analyzer, Band, Slice, Tones,
};
use crate::audio;
use crate::color;
use crate::color::{ColorMap, SIG_STEPS};
use crate::controls::Params;
use crate::pitch::Candidate;
use crate::single::Single;
use crate::state;
use crate::state::{App, Phase};
use crate::tracker::Reading;
use crate::values::{A4, TINY, ZERO};
use vstd::arithmetic::power2;
use vstd::prelude::*;

verus! {

/// What is asked of the outside: a function of each value on its own, or the
/// spectrum of all of them.
#[derive(Debug)]
pub enum Ask {
    /// The cosine of each angle.
    Cosines(Vec<Single>),
    /// Two to the power of each value.
    Twos(Vec<Single>),
    /// Ten to the power of each value.
    Tens(Vec<Single>),
    /// The exponential of each value.
    Exponentials(Vec<Single>),
    /// The binary logarithm of each value.
    BinaryLogs(Vec<Single>),
    /// The decimal logarithm of each value.
    DecimalLogs(Vec<Single>),
    /// The sizes of the bins of a real signal's spectrum.
    Sizes(Vec<Single>),
    /// Nothing: the frame is done.
    Nothing,
}

impl Ask {
    /// How many values the answer has.
    pub open spec fn answers(self) -> nat {
        match self {
            Ask::Cosines(v) => v@.len(),
            Ask::Twos(v) => v@.len(),
            Ask::Tens(v) => v@.len(),
            Ask::Exponentials(v) => v@.len(),
            Ask::BinaryLogs(v) => v@.len(),
            Ask::DecimalLogs(v) => v@.len(),
            Ask::Sizes(v) => v@.len() / 2 + 1,
            Ask::Nothing => 0,
        }
    }

    /// How many values the answer has.
    pub fn reply_len(&self) -> (r: usize)
        ensures
            r == self.answers(),
    {
        match self {
            Ask::Cosines(v) => v.len(),
            Ask::Twos(v) => v.len(),
            Ask::Tens(v) => v.len(),
            Ask::Exponentials(v) => v.len(),
            Ask::BinaryLogs(v) => v.len(),
            Ask::DecimalLogs(v) => v.len(),
            Ask::Sizes(v) => v.len() / 2 + 1,
            Ask::Nothing => 0,
        }
    }
}

/// Where a frame stands: which answer it waits for, and what it has so far.
#[derive(Debug)]
pub enum Stage {
    /// The cosines of a new window.
    Cosines,
    /// The powers of the bands' centres, lower and upper edges.
    Powers { cosines: Vec<Single> },
    /// The logarithms of the bands' frequencies over that of A4.
    Octaves { cosines: Vec<Single>, powers: Vec<Single> },
    /// The exponentials of the contrast table.
    Curve,
    /// The sizes of the spectrum's bins.
    Spectrum,
    /// The decimal logarithms of the smoothed magnitudes.
    Levels,
    /// The powers of ten that are the bands' values.
    Row,
    /// The powers of the two ends of the range.
    Range { row: Vec<Single> },
    /// The logarithm of the found frequency over that of A4.
    Ratio { row: Vec<Single>, found: Candidate },
    /// The power of ten that is the found pitch's value.
    Value { row: Vec<Single>, found: Candidate, octaves: Single },
    /// The exponential that gives the found pitch's strength.
    Strength { row: Vec<Single>, found: Candidate, octaves: Single },
    /// The power of the note that the readout is eased to.
    Eased { row: Vec<Single>, raw: Reading },
    /// Nothing.
    Done,
}

/// How many bands the program's screen asks for.
pub open spec fn bands_due(app: App) -> nat {
    analysis::band_count(app.pitch_pixels())
}

/// The window's length that the settings ask for.
pub open spec fn size_due(app: App) -> nat {
    power2::pow2(app.params.fft_exp as nat)
}

impl Stage {
    /// How many values the awaited answer has.
    pub open spec fn expects(self, app: App) -> nat {
        match self {
            Stage::Cosines => size_due(app),
            Stage::Powers { .. } => 3 * bands_due(app),
            Stage::Octaves { .. } => bands_due(app),
            Stage::Curve => SIG_STEPS as nat,
            Stage::Spectrum => app.analyzer.fft_size as nat / 2 + 1,
            Stage::Levels => app.analyzer.fft_size as nat / 2 + 1,
            Stage::Row => app.analyzer.bands@.len(),
            Stage::Range { .. } => 2,
            Stage::Ratio { .. } => 1,
            Stage::Value { .. } => 1,
            Stage::Strength { .. } => 1,
            Stage::Eased { .. } => 1,
            Stage::Done => 0,
        }
    }

    /// The stage goes with the state of the program.
    pub open spec fn suits(self, app: App) -> bool {
        match self {
            Stage::Cosines => app.needs_rebuild && size_due(app) != app.analyzer.fft_size,
            Stage::Powers { cosines } => app.needs_rebuild && cosines_suit(app, cosines@),
            Stage::Octaves { cosines, powers } => app.needs_rebuild && cosines_suit(app, cosines@)
                && powers@.len() == 3 * bands_due(app),
            Stage::Done => true,
            _ => !app.needs_rebuild,
        }
    }
}

/// There are cosines for a new window where the window's length changes.
pub open spec fn cosines_suit(app: App, cosines: Seq<Single>) -> bool {
    size_due(app) != app.analyzer.fft_size ==> cosines.len() == size_due(app)
}

/// The angles of a window.
pub open spec fn angles(fft_size: nat) -> Seq<Single> {
    Seq::new(
        fft_size,
        |i: int| analysis::angle_at(i, fft_size as int),
    )
}

/// The angles of a window, whose cosines are taken outside.
pub fn angles_of(fft_size: usize) -> (r: Vec<Single>)
    ensures
        r@ == angles(fft_size as nat),
{
    let mut r: Vec<Single> = Vec::new();
    let mut i: usize = 0;
    while i < fft_size
        invariant
            i <= fft_size,
            r.len() == i,
            forall|j: int|
                0 <= j < i ==> #[trigger] r[j] == analysis::angle_at(j, fft_size as int),
        decreases fft_size - i,
    {
        r.push(window_angle(i, fft_size));
        i = i + 1;
    }
    assert(r@ =~= angles(fft_size as nat));
    r
}

/// The octaves above A4 of the bands' centres, then of their lower edges, then
/// of their upper edges.
pub open spec fn edges(lo: int, hi: int, n: nat) -> Seq<Single> {
    Seq::new(
        3 * n,
        |i: int|
            if i < n {
                analysis::octaves_above(analysis::slice_at(lo, hi, i as nat, n).note)
            } else if i < 2 * n {
                analysis::octaves_above(analysis::slice_at(lo, hi, (i - n) as nat, n).note_lo)
            } else {
                analysis::octaves_above(analysis::slice_at(lo, hi, (i - 2 * n) as nat, n).note_hi)
            },
    )
}

/// The octaves above A4 of the bands' centres and edges, whose powers of two are
/// taken outside.
pub fn edges_of(pixels: usize, lo: i32, hi: i32) -> (r: Vec<Single>)
    requires
        i32::MIN <= hi - lo <= i32::MAX,
    ensures
        r@ == edges(lo as int, hi as int, analysis::band_count(pixels as nat)),
{
    let cut: Vec<Slice> = slices(pixels, lo, hi);
    let ghost n = analysis::band_count(pixels as nat);
    let ghost want = edges(lo as int, hi as int, n);
    let mut r: Vec<Single> = Vec::new();
    let mut i: usize = 0;
    while i < cut.len()
        invariant
            i <= cut.len(),
            cut.len() == n,
            want == edges(lo as int, hi as int, n),
            forall|j: int|
                0 <= j < n ==> #[trigger] cut[j] == analysis::slice_at(
                    lo as int,
                    hi as int,
                    j as nat,
                    n,
                ),
            r@ =~= want.take(i as int),
        decreases cut.len() - i,
    {
        r.push(midi_exponent(cut[i].note));
        i = i + 1;
    }
    i = 0;
    while i < cut.len()
        invariant
            i <= cut.len(),
            cut.len() == n,
            want == edges(lo as int, hi as int, n),
            forall|j: int|
                0 <= j < n ==> #[trigger] cut[j] == analysis::slice_at(
                    lo as int,
                    hi as int,
                    j as nat,
                    n,
                ),
            r@ =~= want.take(n + i),
        decreases cut.len() - i,
    {
        r.push(midi_exponent(cut[i].note_lo));
        i = i + 1;
    }
    i = 0;
    while i < cut.len()
        invariant
            i <= cut.len(),
            cut.len() == n,
            want == edges(lo as int, hi as int, n),
            forall|j: int|
                0 <= j < n ==> #[trigger] cut[j] == analysis::slice_at(
                    lo as int,
                    hi as int,
                    j as nat,
                    n,
                ),
            r@ =~= want.take(2 * n + i),
        decreases cut.len() - i,
    {
        r.push(midi_exponent(cut[i].note_hi));
        i = i + 1;
    }
    assert(r@ =~= want);
    r
}

/// The frequency over that of A4 of each of the first `n` powers.
pub open spec fn ratios(powers: Seq<Single>, n: nat) -> Seq<Single> {
    Seq::new(
        n,
        |i: int| (Single { bits: A4 }).times(powers[i]).over(Single { bits: A4 }),
    )
}

/// The frequencies of the first `n` powers over that of A4, whose binary
/// logarithms are taken outside.
pub fn ratios_of(powers: &Vec<Single>, n: usize) -> (r: Vec<Single>)
    requires
        n <= powers.len(),
    ensures
        r@ == ratios(powers@, n as nat),
{
    let mut r: Vec<Single> = Vec::new();
    let mut i: usize = 0;
    while i < n
        invariant
            i <= n,
            n <= powers.len(),
            r@ =~= ratios(powers@, i as nat),
        decreases n - i,
    {
        r.push(freq_ratio(midi_to_freq(powers[i])));
        i = i + 1;
    }
    r
}

/// The tones of the bands, from the answers to their edges and their ratios.
pub open spec fn tones(powers: Seq<Single>, octaves: Seq<Single>) -> Seq<Tones> {
    let n = octaves.len() as int;
    Seq::new(
        octaves.len(),
        |i: int|
            Tones {
                power: powers[i],
                power_lo: powers[n + i],
                power_hi: powers[2 * n + i],
                octaves: octaves[i],
            },
    )
}

/// The tones of the bands, from the answers to their edges and their ratios.
pub fn tones_of(powers: &Vec<Single>, octaves: &Vec<Single>) -> (r: Vec<Tones>)
    requires
        powers.len() == 3 * octaves.len(),
    ensures
        r@ == tones(powers@, octaves@),
{
    let n: usize = octaves.len();
    let mut r: Vec<Tones> = Vec::new();
    let mut i: usize = 0;
    while i < n
        invariant
            i <= n,
            n == octaves.len(),
            powers.len() == 3 * n,
            r.len() == i,
            forall|j: int| 0 <= j < i ==> #[trigger] r[j] == tones(powers@, octaves@)[j],
        decreases n - i,
    {
        r.push(
            Tones {
                power: powers[i],
                power_lo: powers[n + i],
                power_hi: powers[n + n + i],
                octaves: octaves[i],
            },
        );
        i = i + 1;
    }
    assert(r@ =~= tones(powers@, octaves@));
    r
}

/// The samples under the window.
pub open spec fn windowed(app: App) -> Seq<Single> {
    Seq::new(
        app.analyzer.fft_size as nat,
        |i: int| app.samples@[i].times(app.analyzer.window@[i]),
    )
}

/// The latest samples are taken, and their spectrum is asked for.
pub open spec fn listening(app: App, next: Stage, ask: Ask) -> bool {
    &&& app.samples@ == audio::padded(app.audio.samples(), app.analyzer.fft_size as nat)
    &&& next is Spectrum
    &&& ask matches Ask::Sizes(v) && v@ == windowed(app)
}

/// The bands are in place: the contrast table is asked for where it is stale,
/// else the spectrum.
pub open spec fn ready(app: App, next: Stage, ask: Ask) -> bool {
    if app.colors.current(app.params.midpoint, app.params.steep) {
        listening(app, next, ask)
    } else {
        &&& next is Curve
        &&& ask matches Ask::Exponentials(v) && v@.len() == SIG_STEPS && forall|i: int|
            0 <= i < SIG_STEPS ==> #[trigger] v@[i] == analysis::curve_exponent(
                color::step_value(i),
                app.params.midpoint,
                app.params.steep,
            )
    }
}

/// The powers of the bands' edges are asked for.
pub open spec fn bands_asked(app: App, cosines: Seq<Single>, next: Stage, ask: Ask) -> bool {
    &&& next matches Stage::Powers { cosines: c } && c@ == cosines
    &&& ask matches Ask::Twos(v) && v@ == edges(
        app.params.range_lo as int,
        app.params.range_hi as int,
        bands_due(app),
    )
}

/// New bands are asked for, with a new window first where its length changes.
pub open spec fn rebuilding(app: App, next: Stage, ask: Ask) -> bool {
    if size_due(app) != app.analyzer.fft_size {
        &&& next is Cosines
        &&& ask matches Ask::Cosines(v) && v@ == angles(size_due(app))
    } else {
        bands_asked(app, Seq::empty(), next, ask)
    }
}

/// The frame has ended with a row and a detection.
pub open spec fn finished(
    old_app: App,
    row: Seq<Single>,
    raw: Option<Reading>,
    eased_freq: Single,
    app: App,
    next: Stage,
    ask: Ask,
) -> bool {
    &&& app.row@ == row
    &&& app.pitch_tracker == old_app.pitch_tracker.after(raw, eased_freq)
    &&& app.current_pitch == app.pitch_tracker.display
    &&& app.desk() == old_app.desk().watching(row, old_app.analyzer.bands@).scrolling(row)
    &&& app == (App {
        params: app.params,
        history: app.history,
        calibration: app.calibration,
        current_pitch: app.current_pitch,
        pitch_tracker: app.pitch_tracker,
        row: app.row,
        scroll: app.scroll,
        ..old_app
    })
    &&& next is Done
    &&& ask is Nothing
}

/// The bands have been made anew.
pub open spec fn rebuilt(
    old_app: App,
    cosines: Seq<Single>,
    tones: Seq<Tones>,
    app: App,
) -> bool {
    let (a, b) = (old_app.analyzer, app.analyzer);
    &&& app == (App {
        analyzer: b,
        samples: app.samples,
        history: app.history,
        scroll: 0,
        needs_rebuild: false,
        ..old_app
    })
    &&& app.history@.len() == 0
    &&& b.fft_size == size_due(old_app)
    &&& b.sample_rate == a.sample_rate
    &&& b.peak_db == a.peak_db
    &&& b.banded(old_app.params.range_lo as int, old_app.params.range_hi as int, tones)
    &&& b.fft_size == a.fft_size ==> b.window == a.window && b.window_sum == a.window_sum
        && b.smoothed == a.smoothed && b.db == a.db
    &&& b.fft_size != a.fft_size ==> b.windowed_by(cosines) && b.silent()
}

/// What an answer at a stage leads to.
pub open spec fn moved(
    old_app: App,
    stage: Stage,
    reply: Seq<Single>,
    app: App,
    next: Stage,
    ask: Ask,
) -> bool {
    match stage {
        Stage::Cosines => app == old_app && bands_asked(app, reply, next, ask),
        Stage::Powers { cosines } => {
            &&& app == old_app
            &&& next matches Stage::Octaves { cosines: c, powers: p } && c@ == cosines@ && p@
                == reply
            &&& ask matches Ask::BinaryLogs(v) && v@ == ratios(reply, bands_due(app))
        },
        Stage::Octaves { cosines, powers } => rebuilt(
            old_app,
            cosines@,
            tones(powers@, reply),
            app,
        ) && ready(app, next, ask),
        Stage::Curve => {
            &&& app == (App { colors: app.colors, samples: app.samples, ..old_app })
            &&& if old_app.colors.current(app.params.midpoint, app.params.steep) {
                app.colors == old_app.colors
            } else {
                &&& app.colors.midpoint == app.params.midpoint
                &&& app.colors.steep == app.params.steep
                &&& forall|i: int|
                    0 <= i < SIG_STEPS ==> #[trigger] app.colors.sigmoid_lut@[i] == color::level_of(
                        reply[i],
                    )
            }
            &&& listening(app, next, ask)
        },
        Stage::Spectrum => {
            &&& app == (App { analyzer: app.analyzer, ..old_app })
            &&& app.analyzer == (Analyzer { smoothed: app.analyzer.smoothed, ..old_app.analyzer })
            &&& forall|i: int|
                0 <= i < reply.len() ==> #[trigger] app.analyzer.smoothed@[i] == analysis::blended(
                    old_app.analyzer.smoothed@[i],
                    reply[i],
                    app.params.smooth,
                    app.analyzer.window_sum,
                )
            &&& next is Levels
            &&& ask matches Ask::DecimalLogs(v) && v@ == app.analyzer.smoothed@.map_values(
                |m: Single| m.larger(Single { bits: TINY }),
            )
        },
        Stage::Levels => {
            &&& app == (App { analyzer: app.analyzer, ..old_app })
            &&& app.analyzer == (Analyzer {
                db: app.analyzer.db,
                peak_db: app.analyzer.peak_db,
                ..old_app.analyzer
            })
            &&& app.analyzer.db@ == reply.map_values(
                |l: Single| analysis::decibels(l),
            )
            &&& app.analyzer.peak_db == analysis::loudest(app.analyzer.db@)
            &&& next is Row
            &&& ask matches Ask::Tens(v) && v@ == app.analyzer.bands@.map_values(
                |b: Band| analysis::loudness(analysis::band_level(app.analyzer.db@, b)),
            )
        },
        Stage::Row => {
            &&& app == old_app
            &&& next matches Stage::Range { row } && row@ == reply.map_values(
                |p: Single| p.larger(Single { bits: ZERO }),
            )
            &&& ask matches Ask::Twos(v) && v@ == seq![
                analysis::octaves_above(Single::whole(app.params.range_lo as int)),
                analysis::octaves_above(Single::whole(app.params.range_hi as int)),
            ]
        },
        Stage::Range { row } => match old_app.analyzer.fundamental_in(reply[0], reply[1]) {
            None => finished(old_app, row@, None, Single { bits: ZERO }, app, next, ask),
            Some(c) => {
                &&& app == old_app
                &&& next matches Stage::Ratio { row: r, found } && r@ == row@ && found == c
                &&& ask matches Ask::BinaryLogs(v) && v@ == seq![c.freq.over(Single { bits: A4 })]
            },
        },
        Stage::Ratio { row, found } => {
            &&& app == old_app
            &&& next matches Stage::Value { row: r, found: c, octaves } && r@ == row@ && c == found
                && octaves == reply[0]
            &&& ask matches Ask::Tens(v) && v@ == seq![analysis::loudness(found.db)]
        },
        Stage::Value { row, found, octaves } => {
            &&& app == old_app
            &&& next matches Stage::Strength { row: r, found: c, octaves: o } && r@ == row@ && c
                == found && o == octaves
            &&& ask matches Ask::Exponentials(v) && v@ == seq![
                analysis::curve_exponent(
                    reply[0].plus(analysis::pink_at(octaves)),
                    app.params.midpoint,
                    app.params.steep,
                ),
            ]
        },
        Stage::Strength { row, found, octaves } => match found.heard(octaves, reply[0]) {
            None => finished(old_app, row@, None, Single { bits: ZERO }, app, next, ask),
            Some(reading) => {
                &&& app == old_app
                &&& next matches Stage::Eased { row: r, raw } && r@ == row@ && raw == reading
                &&& ask matches Ask::Twos(v) && v@ == seq![
                    analysis::octaves_above(app.pitch_tracker.target(reading.0)),
                ]
            },
        },
        Stage::Eased { row, raw } => finished(
            old_app,
            row@,
            Some(raw),
            (Single { bits: A4 }).times(reply[0]),
            app,
            next,
            ask,
        ),
        Stage::Done => app == old_app && next is Done && ask is Nothing,
    }
}

/// One value in a vector.
fn one(x: Single) -> (r: Vec<Single>)
    ensures
        r@ == seq![x],
{
    let mut r: Vec<Single> = Vec::new();
    r.push(x);
    assert(r@ =~= seq![x]);
    r
}

impl App {
    fn listen(&mut self) -> (r: (Stage, Ask))
        requires
            old(self).wf(),
            !old(self).needs_rebuild,
        ensures
            final(self).wf(),
            *final(self) == (App { samples: final(self).samples, ..*old(self) }),
            listening(*final(self), r.0, r.1),
    {
        let v: Vec<Single> = self.take_samples();
        assert(v@ =~= windowed(*self));
        (Stage::Spectrum, Ask::Sizes(v))
    }

    fn bands_in_place(&mut self) -> (r: (Stage, Ask))
        requires
            old(self).wf(),
            !old(self).needs_rebuild,
        ensures
            final(self).wf(),
            *final(self) == (App { samples: final(self).samples, ..*old(self) }),
            ready(*final(self), r.0, r.1),
    {
        if self.colors.stale(self.params.midpoint, self.params.steep) {
            let v: Vec<Single> = ColorMap::exponents(self.params.midpoint, self.params.steep);
            (Stage::Curve, Ask::Exponentials(v))
        } else {
            self.listen()
        }
    }

    fn ask_bands(&self, cosines: Vec<Single>) -> (r: (Stage, Ask))
        requires
            self.wf(),
        ensures
            bands_asked(*self, cosines@, r.0, r.1),
    {
        let v: Vec<Single> = edges_of(
            self.freq_pixels(),
            self.params.range_lo,
            self.params.range_hi,
        );
        (Stage::Powers { cosines }, Ask::Twos(v))
    }

    fn finish(&mut self, row: Vec<Single>, raw: Option<Reading>, eased_freq: Single) -> (r: (
        Stage,
        Ask,
    ))
        requires
            old(self).wf(),
        ensures
            final(self).wf(),
            finished(*old(self), row@, raw, eased_freq, *final(self), r.0, r.1),
    {
        self.finish_tick(row, raw, eased_freq);
        (Stage::Done, Ask::Nothing)
    }

    /// A frame begins on a screen of this size. A screen without room for the
    /// waterfall ends it at once.
    pub fn begin(&mut self, size: (u16, u16), now: u64) -> (r: (Stage, Ask))
        requires
            old(self).wf(),
        ensures
            final(self).wf(),
            r.0.suits(*final(self)),
            r.1.answers() == r.0.expects(*final(self)),
            ({
                let fresh = old(self).needs_rebuild || size != old(self).size;
                let started = App { size, needs_rebuild: fresh, ..*old(self) };
                if state::too_small(size) {
                    *final(self) == started && r.0 is Done && r.1 is Nothing
                } else {
                    &&& final(self).toast == state::unexpired(old(self).toast, now)
                    &&& *final(self) == (App {
                        toast: final(self).toast,
                        samples: final(self).samples,
                        ..started
                    })
                    &&& if fresh {
                        final(self).samples == old(self).samples && rebuilding(
                            *final(self),
                            r.0,
                            r.1,
                        )
                    } else {
                        ready(*final(self), r.0, r.1)
                    }
                }
            }),
    {
        let phase: Phase = self.begin_tick(size);
        match phase {
            Phase::TooSmall => (Stage::Done, Ask::Nothing),
            Phase::Rebuild => {
                self.expire_toast(now);
                let fft_size: usize = self.params.fft_size();
                if fft_size != self.analyzer.fft_size {
                    (Stage::Cosines, Ask::Cosines(angles_of(fft_size)))
                } else {
                    self.ask_bands(Vec::new())
                }
            },
            Phase::Ready => {
                self.expire_toast(now);
                self.bands_in_place()
            },
        }
    }

    fn step_rebuild(&mut self, cosines: Vec<Single>, powers: Vec<Single>, reply: Vec<Single>) -> (r:
        (Stage, Ask))
        requires
            old(self).wf(),
            cosines_suit(*old(self), cosines@),
            powers.len() == 3 * bands_due(*old(self)),
            reply.len() == bands_due(*old(self)),
        ensures
            final(self).wf(),
            r.0.suits(*final(self)),
            r.1.answers() == r.0.expects(*final(self)),
            moved(
                *old(self),
                Stage::Octaves { cosines, powers },
                reply@,
                *final(self),
                r.0,
                r.1,
            ),
    {
        let tones: Vec<Tones> = tones_of(&powers, &reply);
        self.rebuild(&cosines, &tones);
        self.bands_in_place()
    }

    fn step_curve(&mut self, reply: Vec<Single>) -> (r: (Stage, Ask))
        requires
            old(self).wf(),
            !old(self).needs_rebuild,
            reply.len() == SIG_STEPS,
        ensures
            final(self).wf(),
            r.0.suits(*final(self)),
            r.1.answers() == r.0.expects(*final(self)),
            moved(*old(self), Stage::Curve, reply@, *final(self), r.0, r.1),
    {
        self.colors.ensure(self.params.midpoint, self.params.steep, &reply);
        self.listen()
    }

    fn step_range(&mut self, row: Vec<Single>, reply: Vec<Single>) -> (r: (Stage, Ask))
        requires
            old(self).wf(),
            !old(self).needs_rebuild,
            reply.len() == 2,
        ensures
            final(self).wf(),
            r.0.suits(*final(self)),
            r.1.answers() == r.0.expects(*final(self)),
            moved(*old(self), Stage::Range { row }, reply@, *final(self), r.0, r.1),
    {
        match self.analyzer.detect_fundamental(reply[0], reply[1]) {
            None => self.finish(row, None, Single { bits: ZERO }),
            Some(found) => {
                let ask: Ask = Ask::BinaryLogs(one(freq_ratio(found.freq)));
                (Stage::Ratio { row, found }, ask)
            },
        }
    }

    fn step_strength(
        &mut self,
        row: Vec<Single>,
        found: Candidate,
        octaves: Single,
        reply: Vec<Single>,
    ) -> (r: (Stage, Ask))
        requires
            old(self).wf(),
            !old(self).needs_rebuild,
            reply.len() == 1,
        ensures
            final(self).wf(),
            r.0.suits(*final(self)),
            r.1.answers() == r.0.expects(*final(self)),
            moved(
                *old(self),
                Stage::Strength { row, found, octaves },
                reply@,
                *final(self),
                r.0,
                r.1,
            ),
    {
        match found.reading(octaves, reply[0]) {
            None => self.finish(row, None, Single { bits: ZERO }),
            Some(raw) => {
                let note: Single = self.pitch_tracker.eased_note(raw.0);
                (Stage::Eased { row, raw }, Ask::Twos(one(midi_exponent(note))))
            },
        }
    }

    /// Take an answer and go on with the frame.
    pub fn step(&mut self, stage: Stage, reply: Vec<Single>) -> (r: (Stage, Ask))
        requires
            old(self).wf(),
            stage.suits(*old(self)),
            reply.len() == stage.expects(*old(self)),
        ensures
            final(self).wf(),
            r.0.suits(*final(self)),
            r.1.answers() == r.0.expects(*final(self)),
            moved(*old(self), stage, reply@, *final(self), r.0, r.1),
    {
        match stage {
            Stage::Cosines => self.ask_bands(reply),
            Stage::Powers { cosines } => {
                let n: usize = reply.len() / 3;
                let ask: Ask = Ask::BinaryLogs(ratios_of(&reply, n));
                (Stage::Octaves { cosines, powers: reply }, ask)
            },
            Stage::Octaves { cosines, powers } => self.step_rebuild(cosines, powers, reply),
            Stage::Curve => self.step_curve(reply),
            Stage::Spectrum => {
                self.analyzer.blend(&reply, self.params.smooth);
                (Stage::Levels, Ask::DecimalLogs(self.analyzer.audible()))
            },
            Stage::Levels => (Stage::Row, Ask::Tens(self.analyzer.process(&reply))),
            Stage::Row => {
                let lo: Single = Single::from_i32(self.params.range_lo);
                let hi: Single = Single::from_i32(self.params.range_hi);
                let mut ends: Vec<Single> = one(midi_exponent(lo));
                ends.push(midi_exponent(hi));
                assert(ends@ =~= seq![ends@[0], ends@[1]]);
                (Stage::Range { row: row_values(&reply) }, Ask::Twos(ends))
            },
            Stage::Range { row } => self.step_range(row, reply),
            Stage::Ratio { row, found } => {
                let octaves: Single = reply[0];
                let ask: Ask = Ask::Tens(one(loudness_exponent(found.db)));
                (Stage::Value { row, found, octaves }, ask)
            },
            Stage::Value { row, found, octaves } => {
                let (midpoint, steep) = (self.params.midpoint, self.params.steep);
                let exponent: Single = found.strength_exponent(reply[0], octaves, midpoint, steep);
                (Stage::Strength { row, found, octaves }, Ask::Exponentials(one(exponent)))
            },
            Stage::Strength { row, found, octaves } => self.step_strength(
                row,
                found,
                octaves,
                reply,
            ),
            Stage::Eased { row, raw } => self.finish(row, Some(raw), midi_to_freq(reply[0])),
            Stage::Done => (Stage::Done, Ask::Nothing),
        }
    }
}

impl Stage {
    /// A bound on the answers that are still to come.
    pub open spec fn left(self) -> nat {
        match self {
            Stage::Cosines => 12,
            Stage::Powers { .. } => 11,
            Stage::Octaves { .. } => 10,
            Stage::Curve => 9,
            Stage::Spectrum => 8,
            Stage::Levels => 7,
            Stage::Row => 6,
            Stage::Range { .. } => 5,
            Stage::Ratio { .. } => 4,
            Stage::Value { .. } => 3,
            Stage::Strength { .. } => 2,
            Stage::Eased { .. } => 1,
            Stage::Done => 0,
        }
    }
}

/// Every answer brings a frame nearer to its end, whatever the answers are.
pub proof fn law_frame_ends(
    old_app: App,
    stage: Stage,
    reply: Seq<Single>,
    app: App,
    next: Stage,
    ask: Ask,
)
    requires
        moved(old_app, stage, reply, app, next, ask),
    ensures
        next.left() < stage.left() || stage is Done && next is Done,
        ask is Nothing <==> next is Done,
{
}

/// A frame changes neither the controls, nor what was recorded, nor the state of
/// the screen: only the end of a calibration moves a knob, the midpoint.
pub proof fn law_frame_keeps_settings(
    old_app: App,
    stage: Stage,
    reply: Seq<Single>,
    app: App,
    next: Stage,
    ask: Ask,
)
    requires
        moved(old_app, stage, reply, app, next, ask),
    ensures
        app.audio == old_app.audio,
        app.size == old_app.size,
        app.focus == old_app.focus,
        app.paused == old_app.paused,
        app.help_visible == old_app.help_visible,
        app.wheel_visible == old_app.wheel_visible,
        app.pending_reset == old_app.pending_reset,
        app.toast == old_app.toast,
        app.quit == old_app.quit,
        app.params == (Params { midpoint: app.params.midpoint, ..old_app.params }),
        old_app.calibration is None ==> app.params == old_app.params,
{
}

/// Internal audio is never measured: no step of any frame on it changes the
/// midpoint, and none starts a calibration.
pub proof fn law_internal_audio_not_measured(
    old_app: App,
    stage: Stage,
    reply: Seq<Single>,
    app: App,
    next: Stage,
    ask: Ask,
)
    requires
        old_app.wf(),
        old_app.audio.source == audio::InputSource::Internal,
        moved(old_app, stage, reply, app, next, ask),
    ensures
        app.params == old_app.params,
        app.calibration is None,
        app.audio.source == audio::InputSource::Internal,
{
}

} // verus!
