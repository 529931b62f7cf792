//! The controls: what can be set, within which bounds, and how each setting
//! is named, shown and changed.
use crate::display;
use crate::display::fixed_of;
use crate::order;
use crate::rounding;
use crate::single;
use crate::single::Single;
use crate::text;
use crate::text::{decimal_of, digits_of};
use crate::values::{
    FIVE, FORTY, FOUR, HALF, HUNDREDTH, ONE, TENTH, THREE, THREE_TENTHS, TWENTIETH, TWENTY, ZERO,
};
use vstd::arithmetic::power2;
use vstd::prelude::*;

verus! {

/// Scroll speeds in waterfall rows per four frames. The two slowest advance
/// the waterfall every fourth or second frame, so that more history fits on
/// the screen.
pub const SPEEDS: [u32; 6] = [1, 2, 4, 8, 12, 16];

/// Scroll speeds in rows per frame, as they are shown.
pub const SPEED_LABELS: [&'static str; 6] = ["¼", "½", "1", "2", "3", "4"];

/// A0.
pub const MIN_NOTE: i32 = 21;

/// C10.
pub const MAX_NOTE: i32 = 132;

/// At least one octave stays visible.
pub const MIN_SPAN: i32 = 12;

pub const FFT_TEXT: &'static str = "how much audio each analysis looks at (the FFT window). Bigger tells close-together and low notes apart better but reacts slower; smaller is snappier but blurs low pitches.";

pub const SMOOTH_TEXT: &'static str = "blends each frame with what was already on screen. 0 is instant but jittery; higher is calmer but smears fast changes and leaves ghosts.";

pub const SPEED_TEXT: &'static str = "how fast the waterfall scrolls. Slow keeps more seconds of history visible; fast stretches fine detail like vibrato across more screen.";

pub const MIDPOINT_TEXT: &'static str = "how loud a sound must be to show up (a noise gate). Raise it to hide room noise, lower it to see quiet sounds. Press c to set it automatically from your room's noise floor.";

pub const STEEP_TEXT: &'static str = "contrast around the midpoint. High gives crisp on/off lines; low gives soft gradients that show how loud each note is.";

pub const RANGE_LO_TEXT: &'static str = "lowest note on screen. A narrower range gives every note more pixels, so pitch detail gets finer.";

pub const RANGE_HI_TEXT: &'static str = "highest note on screen. A narrower range gives every note more pixels, so pitch detail gets finer.";

/// One control.
#[derive(Clone, Copy, Debug, PartialEq, Eq, Structural)]
pub enum Param {
    Fft,
    Smooth,
    Speed,
    Midpoint,
    Steep,
    RangeLo,
    RangeHi,
}

/// The controls in the order in which they are shown.
pub const PARAMS: [Param; 7] = [
    Param::Fft,
    Param::Smooth,
    Param::Speed,
    Param::Midpoint,
    Param::Steep,
    Param::RangeLo,
    Param::RangeHi,
];

impl Param {
    pub open spec fn name(self) -> Seq<char> {
        match self {
            Param::Fft => "fft size"@,
            Param::Smooth => "smooth"@,
            Param::Speed => "speed"@,
            Param::Midpoint => "midpoint"@,
            Param::Steep => "steep"@,
            Param::RangeLo => "range lo"@,
            Param::RangeHi => "range hi"@,
        }
    }

    pub open spec fn meaning(self) -> Seq<char> {
        match self {
            Param::Fft => FFT_TEXT@,
            Param::Smooth => SMOOTH_TEXT@,
            Param::Speed => SPEED_TEXT@,
            Param::Midpoint => MIDPOINT_TEXT@,
            Param::Steep => STEEP_TEXT@,
            Param::RangeLo => RANGE_LO_TEXT@,
            Param::RangeHi => RANGE_HI_TEXT@,
        }
    }

    /// A change of this control makes the analysis bands anew.
    pub open spec fn rebuilds(self) -> bool {
        self is Fft || self is RangeLo || self is RangeHi
    }

    pub fn label(self) -> (r: &'static str)
        ensures
            r@ == self.name(),
    {
        match self {
            Param::Fft => "fft size",
            Param::Smooth => "smooth",
            Param::Speed => "speed",
            Param::Midpoint => "midpoint",
            Param::Steep => "steep",
            Param::RangeLo => "range lo",
            Param::RangeHi => "range hi",
        }
    }

    /// Plain-language explanation shown in the help overlay, worded to stand on
    /// its own when it is passed on.
    pub fn explain(self) -> (r: &'static str)
        ensures
            r@ == self.meaning(),
    {
        match self {
            Param::Fft => FFT_TEXT,
            Param::Smooth => SMOOTH_TEXT,
            Param::Speed => SPEED_TEXT,
            Param::Midpoint => MIDPOINT_TEXT,
            Param::Steep => STEEP_TEXT,
            Param::RangeLo => RANGE_LO_TEXT,
            Param::RangeHi => RANGE_HI_TEXT,
        }
    }
}

/// The settings.
#[derive(Clone, Copy, Debug, PartialEq, Eq, Structural)]
pub struct Params {
    /// Binary logarithm of the analysis window's length.
    pub fft_exp: u32,
    pub smooth: Single,
    pub speed_idx: usize,
    pub midpoint: Single,
    pub steep: Single,
    /// The lowest and the highest note on screen.
    pub range_lo: i32,
    pub range_hi: i32,
    /// Pitch runs upwards and time to the right; else pitch runs to the right.
    pub horizontal: bool,
}

/// A whole number moved into `lo..=hi`.
pub open spec fn clamped(n: int, lo: int, hi: int) -> int {
    if n < lo {
        lo
    } else if n > hi {
        hi
    } else {
        n
    }
}

fn clamp(n: i64, lo: i64, hi: i64) -> (r: i64)
    ensures
        r == clamped(n as int, lo as int, hi as int),
{
    if n < lo {
        lo
    } else if n > hi {
        hi
    } else {
        n
    }
}

impl Default for Params {
    fn default() -> (r: Self)
        ensures
            r == Params::initial(),
    {
        Params {
            fft_exp: 13,
            smooth: Single { bits: ZERO },
            speed_idx: 2,
            midpoint: Single { bits: THREE_TENTHS },
            steep: Single { bits: TWENTY },
            range_lo: 36,
            range_hi: 84,
            horizontal: true,
        }
    }
}

impl Params {
    /// The settings to begin with: C2 to C6, one row per frame.
    pub open spec fn initial() -> Params {
        Params {
            fft_exp: 13,
            smooth: Single { bits: ZERO },
            speed_idx: 2,
            midpoint: Single { bits: THREE_TENTHS },
            steep: Single { bits: TWENTY },
            range_lo: 36,
            range_hi: 84,
            horizontal: true,
        }
    }

    /// Every setting is a number within its bounds.
    pub open spec fn wf(self) -> bool {
        &&& 12 <= self.fft_exp <= 14
        &&& !self.smooth.nan()
        &&& !self.midpoint.nan()
        &&& !self.steep.nan()
        &&& self.smooth.lies_in(Single { bits: ZERO }, Single { bits: ONE })
        &&& self.speed_idx < SPEEDS@.len()
        &&& self.midpoint.lies_in(Single { bits: ZERO }, Single { bits: ONE })
        &&& self.steep.lies_in(Single { bits: THREE }, Single { bits: FORTY })
        &&& MIN_NOTE <= self.range_lo
        &&& self.range_lo + MIN_SPAN <= self.range_hi
        &&& self.range_hi <= MAX_NOTE
    }

    /// The analysis window's length.
    pub fn fft_size(&self) -> (r: usize)
        requires
            self.fft_exp < usize::BITS,
        ensures
            r == power2::pow2(self.fft_exp as nat),
    {
        proof {
            vstd::bits::lemma_usize_pow2_no_overflow(self.fft_exp as nat);
            vstd::bits::lemma_usize_shl_is_mul(1, self.fft_exp as usize);
        }
        1usize << (self.fft_exp as usize)
    }

    /// Waterfall rows per four frames.
    pub fn speed_quarters(&self) -> (r: u32)
        requires
            self.speed_idx < SPEEDS@.len(),
        ensures
            r == SPEEDS@[self.speed_idx as int],
            1 <= r <= 16,
    {
        SPEEDS[self.speed_idx]
    }

    /// Waterfall rows per frame.
    pub open spec fn rows_per_frame(self) -> Single {
        Single::whole(SPEEDS@[self.speed_idx as int] as int).over(Single { bits: FOUR })
    }

    /// Waterfall rows per frame.
    pub fn speed(&self) -> (r: Single)
        requires
            self.speed_idx < SPEEDS@.len(),
        ensures
            r == self.rows_per_frame(),
    {
        Single::from_u64(self.speed_quarters() as u64).div(Single { bits: FOUR })
    }

    /// A value moved into its bounds, or `otherwise` where it is not a number.
    pub open spec fn repaired(x: Single, lo: u32, hi: u32, otherwise: u32) -> Single {
        if x.nan() {
            Single { bits: otherwise }
        } else {
            x.clamped(Single { bits: lo }, Single { bits: hi })
        }
    }

    fn repair(x: Single, lo: u32, hi: u32, otherwise: u32) -> (r: Single)
        ensures
            r == Params::repaired(x, lo, hi, otherwise),
    {
        if x.is_nan() {
            Single { bits: otherwise }
        } else {
            x.clamp(Single { bits: lo }, Single { bits: hi })
        }
    }

    /// Everything moved into its bounds; what is not a number becomes the
    /// initial setting.
    pub open spec fn sanitized(self) -> Params {
        let lo = clamped(self.range_lo as int, MIN_NOTE as int, MAX_NOTE - MIN_SPAN);
        Params {
            fft_exp: clamped(self.fft_exp as int, 12, 14) as u32,
            smooth: Params::repaired(self.smooth, ZERO, ONE, ZERO),
            speed_idx: clamped(self.speed_idx as int, 0, SPEEDS@.len() - 1) as usize,
            midpoint: Params::repaired(self.midpoint, ZERO, ONE, THREE_TENTHS),
            steep: Params::repaired(self.steep, THREE, FORTY, TWENTY),
            range_lo: lo as i32,
            range_hi: clamped(self.range_hi as int, lo + MIN_SPAN, MAX_NOTE as int) as i32,
            horizontal: self.horizontal,
        }
    }

    /// Clamp everything into a valid state.
    pub fn sanitize(&mut self)
        ensures
            *final(self) == old(self).sanitized(),
            final(self).wf(),
    {
        self.fft_exp = clamp(self.fft_exp as i64, 12, 14) as u32;
        self.smooth = Params::repair(self.smooth, ZERO, ONE, ZERO);
        if self.speed_idx > SPEEDS.len() - 1 {
            self.speed_idx = SPEEDS.len() - 1;
        }
        self.midpoint = Params::repair(self.midpoint, ZERO, ONE, THREE_TENTHS);
        self.steep = Params::repair(self.steep, THREE, FORTY, TWENTY);
        self.range_lo =
        clamp(self.range_lo as i64, MIN_NOTE as i64, (MAX_NOTE - MIN_SPAN) as i64) as i32;
        self.range_hi =
        clamp(self.range_hi as i64, (self.range_lo + MIN_SPAN) as i64, MAX_NOTE as i64) as i32;
    }

    /// The settings to run with: those that were read, made valid, or the
    /// initial ones.
    pub fn restored(read: Option<Params>) -> (r: Params)
        ensures
            r == match read {
                Some(p) => p.sanitized(),
                None => Params::initial(),
            },
            r.wf(),
    {
        let mut r: Params = match read {
            Some(p) => p,
            None => Params::default(),
        };
        proof {
            law_initial_valid();
            if read is None {
                law_sanitize_keeps_valid(r);
            }
        }
        r.sanitize();
        r
    }

    /// An unsigned number taken as a signed one of 32 bits.
    pub open spec fn signed(n: int) -> int {
        let low = n % 0x1_0000_0000;
        if low > i32::MAX {
            low - 0x1_0000_0000
        } else {
            low
        }
    }

    fn signed_of(n: u64) -> (r: i64)
        ensures
            r == Params::signed(n as int),
            i32::MIN <= r <= i32::MAX,
    {
        let low: i64 = (n % 0x1_0000_0000) as i64;
        if low > i32::MAX as i64 {
            low - 0x1_0000_0000
        } else {
            low
        }
    }

    /// The nudge that `dir` steps of a note control make.
    pub open spec fn note_step(dir: int, coarse: bool) -> int {
        dir * if coarse {
            12int
        } else {
            1int
        }
    }

    /// A value moved by `dir` steps and kept in its bounds.
    pub open spec fn nudged(x: Single, dir: int, step: u32, lo: u32, hi: u32) -> Single {
        x.plus(Single::whole(dir).times(Single { bits: step })).clamped(
            Single { bits: lo },
            Single { bits: hi },
        )
    }

    /// The settings with one of them moved by `dir` steps.
    pub open spec fn adjusted(self, param: Param, dir: int, coarse: bool) -> Params {
        match param {
            Param::Fft => Params {
                fft_exp: clamped(Params::signed(self.fft_exp as int) + dir, 12, 14) as u32,
                ..self
            },
            Param::Smooth => Params {
                smooth: Params::nudged(
                    self.smooth,
                    dir,
                    if coarse {
                        TENTH
                    } else {
                        HUNDREDTH
                    },
                    ZERO,
                    ONE,
                ),
                ..self
            },
            Param::Speed => Params {
                speed_idx: clamped(
                    Params::signed(self.speed_idx as int) + dir,
                    0,
                    SPEEDS@.len() - 1,
                ) as usize,
                ..self
            },
            Param::Midpoint => Params {
                midpoint: Params::nudged(
                    self.midpoint,
                    dir,
                    if coarse {
                        TWENTIETH
                    } else {
                        HUNDREDTH
                    },
                    ZERO,
                    ONE,
                ),
                ..self
            },
            Param::Steep => Params {
                steep: Params::nudged(
                    self.steep,
                    dir,
                    if coarse {
                        FIVE
                    } else {
                        HALF
                    },
                    THREE,
                    FORTY,
                ),
                ..self
            },
            Param::RangeLo => Params {
                range_lo: clamped(
                    self.range_lo + Params::note_step(dir, coarse),
                    MIN_NOTE as int,
                    self.range_hi - MIN_SPAN,
                ) as i32,
                ..self
            },
            Param::RangeHi => Params {
                range_hi: clamped(
                    self.range_hi + Params::note_step(dir, coarse),
                    self.range_lo + MIN_SPAN,
                    MAX_NOTE as int,
                ) as i32,
                ..self
            },
        }
    }

    /// The sum that `dir` steps of a control make stays a machine integer, and
    /// the bounds of a note do not cross.
    pub open spec fn adjustable(self, param: Param, dir: int, coarse: bool) -> bool {
        let moved = Params::note_step(dir, coarse);
        match param {
            Param::Fft => i32::MIN <= Params::signed(self.fft_exp as int) + dir <= i32::MAX,
            Param::Speed => i32::MIN <= Params::signed(self.speed_idx as int) + dir <= i32::MAX,
            Param::RangeLo => {
                &&& i32::MIN <= moved <= i32::MAX
                &&& i32::MIN <= self.range_lo + moved <= i32::MAX
                &&& MIN_NOTE <= self.range_hi - MIN_SPAN
            },
            Param::RangeHi => {
                &&& i32::MIN <= moved <= i32::MAX
                &&& i32::MIN <= self.range_hi + moved <= i32::MAX
                &&& self.range_lo + MIN_SPAN <= MAX_NOTE
            },
            _ => true,
        }
    }

    /// Nudge one parameter. Returns true when the change requires rebuilding
    /// the analysis bands (window length or pitch range).
    pub fn adjust(&mut self, param: Param, dir: i32, coarse: bool) -> (r: bool)
        requires
            old(self).adjustable(param, dir as int, coarse),
        ensures
            *final(self) == old(self).adjusted(param, dir as int, coarse),
            r == param.rebuilds(),
            old(self).wf() ==> final(self).wf(),
    {
        let d: Single = Single::from_i32(dir);
        proof {
            if self.wf() {
                law_adjust_keeps_valid(*self, param, dir as int, coarse);
            }
        }
        match param {
            Param::Fft => {
                self.fft_exp = clamp(Params::signed_of(self.fft_exp as u64) + dir as i64, 12, 14) as u32;
                true
            },
            Param::Smooth => {
                let step: u32 = if coarse {
                    TENTH
                } else {
                    HUNDREDTH
                };
                self.smooth =
                self.smooth.add(d.mul(Single { bits: step })).clamp(
                    Single { bits: ZERO },
                    Single { bits: ONE },
                );
                false
            },
            Param::Speed => {
                self.speed_idx =
                clamp(
                    Params::signed_of(self.speed_idx as u64) + dir as i64,
                    0,
                    SPEEDS.len() as i64 - 1,
                ) as usize;
                false
            },
            Param::Midpoint => {
                let step: u32 = if coarse {
                    TWENTIETH
                } else {
                    HUNDREDTH
                };
                self.midpoint =
                self.midpoint.add(d.mul(Single { bits: step })).clamp(
                    Single { bits: ZERO },
                    Single { bits: ONE },
                );
                false
            },
            Param::Steep => {
                let step: u32 = if coarse {
                    FIVE
                } else {
                    HALF
                };
                self.steep =
                self.steep.add(d.mul(Single { bits: step })).clamp(
                    Single { bits: THREE },
                    Single { bits: FORTY },
                );
                false
            },
            Param::RangeLo => {
                let step: i64 = if coarse {
                    12
                } else {
                    1
                };
                self.range_lo =
                clamp(
                    self.range_lo as i64 + dir as i64 * step,
                    MIN_NOTE as i64,
                    self.range_hi as i64 - MIN_SPAN as i64,
                ) as i32;
                true
            },
            Param::RangeHi => {
                let step: i64 = if coarse {
                    12
                } else {
                    1
                };
                self.range_hi =
                clamp(
                    self.range_hi as i64 + dir as i64 * step,
                    self.range_lo as i64 + MIN_SPAN as i64,
                    MAX_NOTE as i64,
                ) as i32;
                true
            },
        }
    }

    /// How a setting is shown.
    pub open spec fn shown(self, param: Param) -> Seq<char> {
        match param {
            Param::Fft => text::digits(power2::pow2(self.fft_exp as nat)),
            Param::Smooth => display::fixed(self.smooth, 2),
            Param::Speed => SPEED_LABELS@[self.speed_idx as int]@,
            Param::Midpoint => display::fixed(self.midpoint, 2),
            Param::Steep => display::fixed(self.steep, 1),
            Param::RangeLo => named(self.range_lo as int),
            Param::RangeHi => named(self.range_hi as int),
        }
    }

    pub fn value_str(&self, param: Param) -> (r: String)
        requires
            param is Fft ==> self.fft_exp < usize::BITS,
            param is Speed ==> self.speed_idx < SPEED_LABELS@.len(),
        ensures
            r@ == self.shown(param),
    {
        match param {
            Param::Fft => digits_of(self.fft_size() as u64),
            Param::Smooth => fixed_of(self.smooth, 2),
            Param::Speed => SPEED_LABELS[self.speed_idx].to_string(),
            Param::Midpoint => fixed_of(self.midpoint, 2),
            Param::Steep => fixed_of(self.steep, 1),
            Param::RangeLo => note_name(self.range_lo),
            Param::RangeHi => note_name(self.range_hi),
        }
    }
}

/// The notes of an octave.
pub const NOTE_NAMES: [&'static str; 12] = [
    "C",
    "C#",
    "D",
    "D#",
    "E",
    "F",
    "F#",
    "G",
    "G#",
    "A",
    "A#",
    "B",
];

/// The name of a note with its octave: note 60 is the C of octave 4.
pub open spec fn named(midi: int) -> Seq<char> {
    NOTE_NAMES@[midi % 12]@ + text::decimal(midi / 12 - 1)
}

pub fn note_name(midi: i32) -> (r: String)
    ensures
        r@ == named(midi as int),
{
    let up: u64 = (midi as i64 + 2_147_483_652) as u64;
    let octave: i64 = (up / 12) as i64 - 178_956_971 - 1;
    let mut r: String = NOTE_NAMES[(up % 12) as usize].to_string();
    let o: String = decimal_of(octave);
    r.append(o.as_str());
    r
}

/// The initial settings are valid.
pub proof fn law_initial_valid()
    ensures
        Params::initial().wf(),
{
}

/// Making settings valid leaves valid ones as they are, so that doing it twice
/// is doing it once.
pub proof fn law_sanitize_keeps_valid(p: Params)
    requires
        p.wf(),
    ensures
        p.sanitized() == p,
{
}

/// Whatever the settings are, sanitizing makes them valid.
pub proof fn law_sanitize_repairs(p: Params)
    ensures
        p.sanitized().wf(),
        p.sanitized().sanitized() == p.sanitized(),
{
}

/// No nudge of any control makes valid settings invalid; in particular the two
/// ends of the range stay an octave apart.
pub proof fn law_adjust_keeps_valid(p: Params, param: Param, dir: int, coarse: bool)
    requires
        p.wf(),
    ensures
        p.adjusted(param, dir, coarse).wf(),
{
    let step = match param {
        Param::Smooth => if coarse {
            TENTH
        } else {
            HUNDREDTH
        },
        Param::Midpoint => if coarse {
            TWENTIETH
        } else {
            HUNDREDTH
        },
        _ => if coarse {
            FIVE
        } else {
            HALF
        },
    };
    lemma_nudge_is_number(p.smooth, dir, step);
    lemma_nudge_is_number(p.midpoint, dir, step);
    lemma_nudge_is_number(p.steep, dir, step);
}

/// A finite value moved by any number of steps is a number.
proof fn lemma_nudge_is_number(x: Single, dir: int, step: u32)
    requires
        x.finite(),
        (Single { bits: step }).finite(),
        !(Single { bits: step }).zero(),
    ensures
        !x.plus(Single::whole(dir).times(Single { bits: step })).nan(),
{
    reveal(Single::whole);
    reveal(Single::times);
    reveal(Single::plus);
    let big = power2::pow2(149);
    let n = (if dir < 0 {
        -dir
    } else {
        dir
    }) as nat * big;
    let (w, s) = (Single::whole(dir), Single { bits: step });
    rounding::lemma_pow2_facts(149, 0);
    order::lemma_nearest_increases(n, n, 1);
    assert(!w.nan());
    let m = w.units() * s.units();
    order::lemma_nearest_increases(m, m, big);
    let t = w.times(s);
    assert(!t.nan());
    let sum = x.value() + t.value();
    let size = (if sum < 0 {
        -sum
    } else {
        sum
    }) as nat;
    order::lemma_nearest_increases(size, size, 1);
}

/// A nudge changes no control but its own.
pub proof fn law_adjust_changes_one(
    p: Params,
    param: Param,
    other: Param,
    dir: int,
    coarse: bool,
)
    requires
        param != other,
    ensures
        p.adjusted(param, dir, coarse).shown(other) == p.shown(other),
        p.adjusted(param, dir, coarse).horizontal == p.horizontal,
{
}

/// A nudge that does not ask for new bands changes nothing that they are made
/// of.
pub proof fn law_other_nudges_keep_bands(p: Params, param: Param, dir: int, coarse: bool)
    requires
        !param.rebuilds(),
    ensures
        ({
            let q = p.adjusted(param, dir, coarse);
            &&& q.fft_exp == p.fft_exp
            &&& q.range_lo == p.range_lo
            &&& q.range_hi == p.range_hi
            &&& q.horizontal == p.horizontal
        }),
{
}

/// The speed is exactly a quarter of the rows per four frames.
pub proof fn law_speed_is_exact(p: Params)
    requires
        p.speed_idx < SPEEDS@.len(),
    ensures
        p.rows_per_frame().finite(),
        4 * p.rows_per_frame().value() == SPEEDS@[p.speed_idx as int] * power2::pow2(149),
{
    let n = SPEEDS@[p.speed_idx as int] as int;
    let four = Single { bits: FOUR };
    let whole = Single::whole(n);
    let (big, c) = (power2::pow2(149), power2::pow2(147));
    let r = p.rows_per_frame();
    assert(1 <= n <= 16);
    order::lemma_whole_exact(n);
    order::lemma_units_of(four, 0x80_0000, 128);
    rounding::lemma_pow2_facts(23, 128);
    rounding::lemma_pow2_facts(147, 0);
    rounding::lemma_pow2_facts(148, 0);
    rounding::lemma_pow2_facts(149, 0);
    rounding::lemma_pow2_facts(150, 0);
    power2::lemma2_to64();
    assert(four.units() == 4 * big);
    reveal(Single::over);
    single::lemma_parts(four);
    rounding::lemma_nearest_scale(n as nat * big, 4, big);
    rounding::lemma_nearest_scale(n as nat * c, 1, 4);
    assert(n as nat * big == (n as nat * c) * 4) by (nonlinear_arith)
        requires
            big == 4 * c,
    ;
    assert(r.magnitude() == rounding::nearest(n as nat * c, 1));
    order::lemma_nearest_increases(n as nat * c, whole.units(), 1);
    order::lemma_nearest_of(whole, 1);
    assert(whole.units() * 1 == whole.units());
    order::lemma_scaled_exact(n as nat, 147, r);
}

/// Valid settings can be nudged by any number of steps that a keyboard can
/// ask for.
pub proof fn law_valid_adjustable(p: Params, param: Param, dir: int, coarse: bool)
    requires
        p.wf(),
        -100_000_000 <= dir <= 100_000_000,
    ensures
        p.adjustable(param, dir, coarse),
{
}

/// Twelve notes up is the same note of the next octave.
pub proof fn law_octaves(midi: int)
    ensures
        NOTE_NAMES@[(midi + 12) % 12]@ == NOTE_NAMES@[midi % 12]@,
        (midi + 12) / 12 - 1 == (midi / 12 - 1) + 1,
        named(midi + 12) == NOTE_NAMES@[midi % 12]@ + text::decimal(midi / 12),
{
}

} // verus!
