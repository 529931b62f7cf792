//! From a spectrum to one value per pixel of the pitch axis, and to the pitch
//! that is heard. The history keeps raw band amplitudes; contrast and colour
//! are applied when it is drawn, so that a change of a knob recolours the whole
//! visible picture.
//!
//! What no exact formula gives (powers, logarithms, cosines and the spectrum
//! itself) is computed outside and handed in.
use crate::audio;
use crate::hues;
use crate::order;
use crate::rounding;
use crate::single;
use crate::single::{Single, SIGN};
use crate::values::{
    A4, HALF, HUNDRED, HUNDREDTH, MINUS_200, ONE, SIXTY_NINE, TINY, TURN, TWELVE, TWENTY,
    TWENTY_ONE, TWO, ZERO,
};
use vstd::arithmetic::div_mod;
use vstd::arithmetic::mul;
use vstd::arithmetic::power2;
use vstd::prelude::*;

verus! {

/// Columns of the colour table.
pub const HUE_STEPS: usize = 512;

/// How many octaves a note lies above A4.
pub open spec fn octaves_above(midi: Single) -> Single {
    midi.minus(Single { bits: SIXTY_NINE }).over(Single { bits: TWELVE })
}

/// How many octaves a note lies above A4.
pub fn midi_exponent(midi: Single) -> (r: Single)
    ensures
        r == octaves_above(midi),
{
    midi.sub(Single { bits: SIXTY_NINE }).div(Single { bits: TWELVE })
}

/// The frequency of a note, from two to the power of its octaves above A4.
pub fn midi_to_freq(power: Single) -> (r: Single)
    ensures
        r == (Single { bits: A4 }).times(power),
{
    (Single { bits: A4 }).mul(power)
}

/// How a frequency relates to A4.
pub fn freq_ratio(freq: Single) -> (r: Single)
    ensures
        r == freq.over(Single { bits: A4 }),
{
    freq.div(Single { bits: A4 })
}

/// The note at so many octaves above A4, the binary logarithm of its
/// frequency's ratio to A4.
pub open spec fn note_above(octaves: Single) -> Single {
    (Single { bits: SIXTY_NINE }).plus((Single { bits: TWELVE }).times(octaves))
}

/// The note at so many octaves above A4.
pub fn freq_to_midi(octaves: Single) -> (r: Single)
    ensures
        r == note_above(octaves),
{
    (Single { bits: SIXTY_NINE }).add((Single { bits: TWELVE }).mul(octaves))
}

/// The correction for pink noise at so many octaves above A4.
pub open spec fn pink_at(octaves: Single) -> Single {
    (Single { bits: TWO }).times(octaves).times(Single { bits: HUNDREDTH })
}

fn pink(octaves: Single) -> (r: Single)
    ensures
        r == pink_at(octaves),
{
    (Single { bits: TWO }).mul(octaves).mul(Single { bits: HUNDREDTH })
}

/// The hue of a note in turns: every A is at 0, one rainbow per octave.
pub open spec fn hue_at(note: Single) -> Single {
    note.minus(Single { bits: TWENTY_ONE }).over(Single { bits: TWELVE }).wrapped(
        Single { bits: ONE },
    )
}

/// The hue of a note in turns.
pub fn note_hue(note: Single) -> (r: Single)
    ensures
        r == hue_at(note),
{
    note.sub(Single { bits: TWENTY_ONE }).div(Single { bits: TWELVE }).rem_euclid(
        Single { bits: ONE },
    )
}

/// The column of a hue in the colour table.
pub open spec fn column_of(hue: Single) -> int {
    let c = hue.times(Single::whole(HUE_STEPS as int)).index(false);
    if c < HUE_STEPS {
        c
    } else {
        HUE_STEPS - 1
    }
}

fn column(hue: Single) -> (r: u16)
    ensures
        r == column_of(hue),
        r < HUE_STEPS,
{
    let c: usize = hue.mul(Single::from_u64(HUE_STEPS as u64)).floor_index();
    if c < HUE_STEPS {
        c as u16
    } else {
        (HUE_STEPS - 1) as u16
    }
}

/// One pixel of the pitch axis.
#[derive(Clone, Copy, Debug, PartialEq, Eq, Structural)]
pub struct Band {
    /// Fractional note at the band's centre.
    pub note: Single,
    pub freq: Single,
    /// The bins of the spectrum that the band spans.
    pub bin_lo: usize,
    pub bin_hi: usize,
    /// Pink-noise correction (+2 dB per octave against A4), scaled like the
    /// band's value.
    pub pink: Single,
    /// Hue in turns: 0 = A = red, one full rainbow per octave.
    pub hue: Single,
    /// The hue's column in the colour table.
    pub hue_idx: u16,
}

/// Where a band lies on the pitch axis: its centre and its two edges.
#[derive(Clone, Copy, Debug, PartialEq, Eq, Structural)]
pub struct Slice {
    pub note: Single,
    pub note_lo: Single,
    pub note_hi: Single,
}

/// What is computed outside for a band: two to the power of the octaves above
/// A4 of its centre and its edges, and the binary logarithm of its centre's
/// frequency over that of A4.
#[derive(Clone, Copy, Debug, PartialEq, Eq, Structural)]
pub struct Tones {
    pub power: Single,
    pub power_lo: Single,
    pub power_hi: Single,
    pub octaves: Single,
}

/// The note `at / pixels` of the way from one note to another.
pub open spec fn note_along(lo: int, hi: int, at: Single, pixels: nat) -> Single {
    Single::whole(lo).plus(
        at.over(Single::whole(pixels as int)).times(Single::whole(hi - lo)),
    )
}

/// The slice of the pitch axis that pixel `i` owns.
pub open spec fn slice_at(lo: int, hi: int, i: nat, pixels: nat) -> Slice {
    let at = Single::whole(i as int);
    Slice {
        note: note_along(lo, hi, at.plus(Single { bits: HALF }), pixels),
        note_lo: note_along(lo, hi, at, pixels),
        note_hi: note_along(lo, hi, at.plus(Single { bits: ONE }), pixels),
    }
}

/// How many bands there are for a number of pixels.
pub open spec fn band_count(pixels: nat) -> nat {
    if pixels > 0 {
        pixels
    } else {
        1
    }
}

/// The slices of the pitch axis for a number of pixels.
pub fn slices(pixels: usize, range_lo: i32, range_hi: i32) -> (r: Vec<Slice>)
    requires
        i32::MIN <= range_hi - range_lo <= i32::MAX,
    ensures
        r.len() == band_count(pixels as nat),
        forall|i: int|
            0 <= i < r.len() ==> #[trigger] r[i] == slice_at(
                range_lo as int,
                range_hi as int,
                i as nat,
                band_count(pixels as nat),
            ),
{
    let p: usize = if pixels > 0 {
        pixels
    } else {
        1
    };
    let first: Single = Single::from_i32(range_lo);
    let span: Single = Single::from_i32(range_hi - range_lo);
    let count: Single = Single::from_u64(p as u64);
    let mut r: Vec<Slice> = Vec::new();
    let mut i: usize = 0;
    while i < p
        invariant
            i <= p,
            p == band_count(pixels as nat),
            first == Single::whole(range_lo as int),
            span == Single::whole(range_hi - range_lo),
            count == Single::whole(p as int),
            r.len() == i,
            forall|j: int|
                0 <= j < i ==> #[trigger] r[j] == slice_at(
                    range_lo as int,
                    range_hi as int,
                    j as nat,
                    p as nat,
                ),
        decreases p - i,
    {
        let at: Single = Single::from_u64(i as u64);
        r.push(
            Slice {
                note: first.add(at.add(Single { bits: HALF }).div(count).mul(span)),
                note_lo: first.add(at.div(count).mul(span)),
                note_hi: first.add(at.add(Single { bits: ONE }).div(count).mul(span)),
            },
        );
        i = i + 1;
    }
    r
}

/// Where a frequency lies on the spectrum, in bins.
pub open spec fn bin_place(power: Single, fft_size: nat, rate: Single) -> Single {
    (Single { bits: A4 }).times(power).times(Single::whole(fft_size as int)).over(rate)
}

/// The lowest bin of a band.
pub open spec fn low_bin(t: Tones, fft_size: nat, rate: Single) -> int {
    let k = bin_place(t.power_lo, fft_size, rate).index(false);
    if k < fft_size as int / 2 {
        k
    } else {
        fft_size as int / 2
    }
}

/// The highest bin of a band.
pub open spec fn high_bin(t: Tones, fft_size: nat, rate: Single) -> int {
    let k = bin_place(t.power_hi, fft_size, rate).index(true);
    if k < low_bin(t, fft_size, rate) {
        low_bin(t, fft_size, rate)
    } else if k > fft_size as int / 2 {
        fft_size as int / 2
    } else {
        k
    }
}

/// The band of a slice.
pub open spec fn band_of(s: Slice, t: Tones, fft_size: nat, rate: Single) -> Band {
    Band {
        note: s.note,
        freq: (Single { bits: A4 }).times(t.power),
        bin_lo: low_bin(t, fft_size, rate) as usize,
        bin_hi: high_bin(t, fft_size, rate) as usize,
        pink: pink_at(t.octaves),
        hue: hue_at(s.note),
        hue_idx: column_of(hue_at(s.note)) as u16,
    }
}

/// The place of a frequency on the spectrum.
fn bin_of(power: Single, fft_size: usize, rate: Single) -> (r: Single)
    ensures
        r == bin_place(power, fft_size as nat, rate),
{
    midi_to_freq(power).mul(Single::from_u64(fft_size as u64)).div(rate)
}

fn band(s: &Slice, t: &Tones, fft_size: usize, rate: Single) -> (r: Band)
    ensures
        r == band_of(*s, *t, fft_size as nat, rate),
        fits(r, fft_size as nat),
{
    let max_bin: usize = fft_size / 2;
    let lo: usize = bin_of(t.power_lo, fft_size, rate).floor_index();
    let bin_lo: usize = if lo < max_bin {
        lo
    } else {
        max_bin
    };
    let hi: usize = bin_of(t.power_hi, fft_size, rate).ceil_index();
    let bin_hi: usize = if hi < bin_lo {
        bin_lo
    } else if hi > max_bin {
        max_bin
    } else {
        hi
    };
    let hue: Single = note_hue(s.note);
    proof {
        if s.note.finite() && !s.note.less(Single { bits: TWENTY_ONE }) {
            hues::law_hue_within_turn(s.note);
        }
    }
    Band {
        note: s.note,
        freq: midi_to_freq(t.power),
        bin_lo,
        bin_hi,
        pink: pink(t.octaves),
        hue,
        hue_idx: column(hue),
    }
}

/// The angle whose cosine shapes the window at sample `i`.
pub open spec fn angle_at(i: int, fft_size: int) -> Single {
    (Single { bits: TURN }).times(Single::whole(i).over(Single::whole(fft_size)))
}

/// The angle whose cosine shapes the window at sample `i`.
pub fn window_angle(i: usize, fft_size: usize) -> (r: Single)
    ensures
        r == angle_at(i as int, fft_size as int),
{
    (Single { bits: TURN }).mul(
        Single::from_u64(i as u64).div(Single::from_u64(fft_size as u64)),
    )
}

/// The window's weight where the cosine of its angle is given.
pub open spec fn weight_at(cosine: Single) -> Single {
    (Single { bits: HALF }).minus((Single { bits: HALF }).times(cosine))
}

/// The sum of values from the first on.
pub fn sum_of(v: &Vec<Single>) -> (r: Single)
    ensures
        r == audio::total(v@),
{
    let mut sum: Single = Single { bits: SIGN };
    let mut i: usize = 0;
    assert(v@.take(0).len() == 0);
    while i < v.len()
        invariant
            i <= v.len(),
            sum == audio::total(v@.take(i as int)),
        decreases v.len() - i,
    {
        assert(v@.take(i + 1).drop_last() == v@.take(i as int));
        sum = sum.add(v[i]);
        i = i + 1;
    }
    assert(v@.take(i as int) == v@);
    sum
}

/// The state of the analysis.
#[derive(Debug)]
pub struct Analyzer {
    pub sample_rate: Single,
    pub fft_size: usize,
    pub window: Vec<Single>,
    pub window_sum: Single,
    /// Exponentially smoothed linear magnitudes of the bins.
    pub smoothed: Vec<Single>,
    /// The bins' levels in dB, computed once per frame.
    pub db: Vec<Single>,
    /// The loudest bin's level in this frame.
    pub peak_db: Single,
    pub bands: Vec<Band>,
}

/// A band's bins are bins of a spectrum of so many samples, its hue has a column,
/// and from the lowest A up the hue lies within one turn: from 0 up to, but not
/// including, 1.
pub open spec fn fits(b: Band, fft_size: nat) -> bool {
    &&& b.bin_lo <= b.bin_hi <= fft_size / 2
    &&& b.hue_idx < HUE_STEPS
    &&& b.note.finite() && !b.note.less(Single { bits: TWENTY_ONE }) ==> {
        &&& b.hue.finite()
        &&& 0 <= b.hue.rank()
        &&& b.hue.less(Single { bits: ONE })
    }
}

impl Analyzer {
    pub open spec fn wf(self) -> bool {
        &&& self.window.len() == self.fft_size
        &&& self.smoothed.len() == self.fft_size / 2 + 1
        &&& self.db.len() == self.fft_size / 2 + 1
        &&& self.bands.len() >= 1
        &&& forall|i: int|
            0 <= i < self.bands.len() ==> fits(#[trigger] self.bands[i], self.fft_size as nat)
    }

    /// The window is made of these cosines.
    pub open spec fn windowed_by(self, cosines: Seq<Single>) -> bool {
        &&& self.window@ == cosines.map_values(|c: Single| weight_at(c))
        &&& self.window_sum == audio::total(self.window@)
    }

    /// Nothing has been heard yet.
    pub open spec fn silent(self) -> bool {
        &&& forall|i: int|
            0 <= i < self.smoothed@.len() ==> #[trigger] self.smoothed@[i] == (Single { bits: ZERO })
        &&& forall|i: int|
            0 <= i < self.db@.len() ==> #[trigger] self.db@[i] == (Single { bits: MINUS_200 })
    }

    /// The bands are those of the notes from `lo` to `hi`, with these tones.
    pub open spec fn banded(self, lo: int, hi: int, tones: Seq<Tones>) -> bool {
        &&& self.bands@.len() == tones.len()
        &&& forall|i: int|
            0 <= i < tones.len() ==> #[trigger] self.bands@[i] == band_of(
                slice_at(lo, hi, i as nat, tones.len()),
                tones[i],
                self.fft_size as nat,
                self.sample_rate,
            )
    }

    /// An analysis of 8192 samples on 128 pixels from C2 to C6, with the cosines
    /// of the window's angles and the tones of the bands' slices.
    pub fn new(sample_rate: Single, cosines: &Vec<Single>, tones: &Vec<Tones>) -> (r: Analyzer)
        requires
            cosines.len() == 8192,
            tones.len() == 128,
        ensures
            r.wf(),
            r.sample_rate == sample_rate,
            r.fft_size == 8192,
            r.silent(),
            r.windowed_by(cosines@),
            r.peak_db == (Single { bits: MINUS_200 }),
            r.banded(36, 84, tones@),
    {
        let mut a: Analyzer = Analyzer {
            sample_rate,
            fft_size: 0,
            window: Vec::new(),
            window_sum: Single { bits: ONE },
            smoothed: Vec::new(),
            db: Vec::new(),
            peak_db: Single { bits: MINUS_200 },
            bands: Vec::new(),
        };
        a.configure(8192, 128, 36, 84, cosines, tones);
        a
    }

    /// Make the window anew where its length changes, and the bands in any
    /// case. `pixels` is the number of pixels along the pitch axis; each pixel
    /// owns an equal slice of the notes from `range_lo` to `range_hi`.
    pub fn configure(
        &mut self,
        fft_size: usize,
        pixels: usize,
        range_lo: i32,
        range_hi: i32,
        cosines: &Vec<Single>,
        tones: &Vec<Tones>,
    )
        requires
            old(self).wf() || old(self).fft_size != fft_size,
            i32::MIN <= range_hi - range_lo <= i32::MAX,
            fft_size != old(self).fft_size ==> cosines.len() == fft_size,
            tones.len() == band_count(pixels as nat),
        ensures
            final(self).wf(),
            final(self).fft_size == fft_size,
            final(self).sample_rate == old(self).sample_rate,
            final(self).peak_db == old(self).peak_db,
            fft_size == old(self).fft_size ==> {
                &&& final(self).window == old(self).window
                &&& final(self).window_sum == old(self).window_sum
                &&& final(self).smoothed == old(self).smoothed
                &&& final(self).db == old(self).db
            },
            fft_size != old(self).fft_size ==> final(self).windowed_by(cosines@)
                && final(self).silent(),
            final(self).banded(range_lo as int, range_hi as int, tones@),
    {
        if fft_size != self.fft_size {
            self.fft_size = fft_size;
            let mut window: Vec<Single> = Vec::new();
            let mut i: usize = 0;
            while i < fft_size
                invariant
                    i <= fft_size,
                    fft_size == cosines.len(),
                    window.len() == i,
                    forall|j: int| 0 <= j < i ==> #[trigger] window[j] == weight_at(cosines[j]),
                decreases fft_size - i,
            {
                window.push((Single { bits: HALF }).sub((Single { bits: HALF }).mul(cosines[i])));
                i = i + 1;
            }
            assert(window@ =~= cosines@.map_values(|c: Single| weight_at(c)));
            self.window = window;
            self.window_sum = sum_of(&self.window);
            self.smoothed = constant(Single { bits: ZERO }, fft_size / 2 + 1);
            self.db = constant(Single { bits: MINUS_200 }, fft_size / 2 + 1);
        }
        let cut: Vec<Slice> = slices(pixels, range_lo, range_hi);
        let rate: Single = self.sample_rate;
        let mut bands: Vec<Band> = Vec::new();
        let mut i: usize = 0;
        while i < cut.len()
            invariant
                i <= cut.len(),
                cut.len() == tones.len(),
                bands.len() == i,
                forall|j: int|
                    0 <= j < i ==> #[trigger] bands[j] == band_of(
                        cut[j],
                        tones[j],
                        fft_size as nat,
                        rate,
                    ) && fits(bands[j], fft_size as nat),
            decreases cut.len() - i,
        {
            bands.push(band(&cut[i], &tones[i], fft_size, rate));
            i = i + 1;
        }
        self.bands = bands;
    }

    pub fn num_bands(&self) -> (r: usize)
        ensures
            r == self.bands.len(),
    {
        self.bands.len()
    }
}

/// A vector of `n` copies.
pub fn constant(x: Single, n: usize) -> (r: Vec<Single>)
    ensures
        r.len() == n,
        forall|i: int| 0 <= i < n ==> #[trigger] r[i] == x,
{
    let mut r: Vec<Single> = Vec::new();
    let mut i: usize = 0;
    while i < n
        invariant
            i <= n,
            r.len() == i,
            forall|j: int| 0 <= j < i ==> #[trigger] r[j] == x,
        decreases n - i,
    {
        r.push(x);
        i = i + 1;
    }
    r
}

/// A level in dB on the scale of band values, as the power of ten that gives it.
pub open spec fn loudness(db: Single) -> Single {
    db.plus(Single { bits: HUNDRED }).over(Single { bits: HUNDRED }).minus(Single { bits: ONE })
}

/// A level in dB on the scale of band values, as the power of ten that gives it.
pub fn loudness_exponent(db: Single) -> (r: Single)
    ensures
        r == loudness(db),
{
    db.add(Single { bits: HUNDRED }).div(Single { bits: HUNDRED }).sub(Single { bits: ONE })
}

/// The level of a magnitude in dB, from its decimal logarithm.
pub open spec fn decibels(log: Single) -> Single {
    (Single { bits: TWENTY }).times(log)
}

/// A smoothed magnitude after a frame in which the bin's size is `size`.
pub open spec fn blended(old_size: Single, size: Single, smooth: Single, sum: Single) -> Single {
    let norm = (Single { bits: TWO }).over(sum);
    smooth.times(old_size).plus(
        (Single { bits: ONE }).minus(smooth).times(size.times(norm)),
    )
}

/// The loudest of levels, at least -200 dB.
pub open spec fn loudest(levels: Seq<Single>) -> Single
    decreases levels.len(),
{
    if levels.len() == 0 {
        Single { bits: MINUS_200 }
    } else {
        loudest(levels.drop_last()).larger(levels.last())
    }
}

/// The sum of levels from the first on.
pub open spec fn level_sum(levels: Seq<Single>) -> Single
    decreases levels.len(),
{
    if levels.len() == 0 {
        Single { bits: ZERO }
    } else {
        level_sum(levels.drop_last()).plus(levels.last())
    }
}

/// The mean level of a band's bins.
pub open spec fn band_level(db: Seq<Single>, b: Band) -> Single {
    let bins = db.subrange(b.bin_lo as int, b.bin_hi + 1);
    level_sum(bins).over(Single::whole(bins.len() as int))
}

fn mean_level(db: &Vec<Single>, b: &Band) -> (r: Single)
    requires
        b.bin_lo <= b.bin_hi < db.len(),
    ensures
        r == band_level(db@, *b),
{
    let mut sum: Single = Single { bits: ZERO };
    let mut k: usize = b.bin_lo;
    assert(db@.subrange(b.bin_lo as int, k as int).len() == 0);
    while k <= b.bin_hi
        invariant
            b.bin_lo <= k <= b.bin_hi + 1,
            b.bin_hi < db.len(),
            sum == level_sum(db@.subrange(b.bin_lo as int, k as int)),
        decreases b.bin_hi + 1 - k,
    {
        assert(db@.subrange(b.bin_lo as int, k + 1).drop_last() == db@.subrange(
            b.bin_lo as int,
            k as int,
        ));
        sum = sum.add(db[k]);
        k = k + 1;
    }
    sum.div(Single::from_u64((b.bin_hi - b.bin_lo) as u64 + 1))
}

impl Analyzer {
    /// The samples under the window, whose spectrum is taken outside.
    pub fn windowed(&self, samples: &Vec<Single>) -> (r: Vec<Single>)
        requires
            self.wf(),
            samples.len() == self.fft_size,
        ensures
            r.len() == self.fft_size,
            forall|i: int|
                0 <= i < r.len() ==> #[trigger] r[i] == samples[i].times(self.window[i]),
    {
        let mut r: Vec<Single> = Vec::new();
        let mut i: usize = 0;
        while i < self.fft_size
            invariant
                i <= self.fft_size,
                self.window.len() == self.fft_size,
                samples.len() == self.fft_size,
                r.len() == i,
                forall|j: int| 0 <= j < i ==> #[trigger] r[j] == samples[j].times(self.window[j]),
            decreases self.fft_size - i,
        {
            r.push(samples[i].mul(self.window[i]));
            i = i + 1;
        }
        r
    }

    /// Blend the sizes of the spectrum's bins into the smoothed magnitudes,
    /// normalized so that a full-scale sine reads about 0 dB.
    pub fn blend(&mut self, sizes: &Vec<Single>, smooth: Single)
        requires
            old(self).wf(),
            sizes.len() == old(self).smoothed.len(),
        ensures
            final(self).wf(),
            forall|i: int|
                0 <= i < old(self).smoothed.len() ==> #[trigger] final(self).smoothed@[i]
                    == blended(
                    old(self).smoothed[i],
                    sizes[i],
                    smooth,
                    old(self).window_sum,
                ),
            *final(self) == (Analyzer { smoothed: final(self).smoothed, ..*old(self) }),
    {
        let norm: Single = (Single { bits: TWO }).div(self.window_sum);
        let keep: Single = (Single { bits: ONE }).sub(smooth);
        let mut fresh: Vec<Single> = Vec::new();
        let mut i: usize = 0;
        while i < self.smoothed.len()
            invariant
                i <= self.smoothed.len(),
                sizes.len() == self.smoothed.len(),
                *self == *old(self),
                norm == (Single { bits: TWO }).over(self.window_sum),
                keep == (Single { bits: ONE }).minus(smooth),
                fresh.len() == i,
                forall|j: int|
                    0 <= j < i ==> #[trigger] fresh[j] == blended(
                        self.smoothed[j],
                        sizes[j],
                        smooth,
                        self.window_sum,
                    ),
            decreases self.smoothed.len() - i,
        {
            fresh.push(smooth.mul(self.smoothed[i]).add(keep.mul(sizes[i].mul(norm))));
            i = i + 1;
        }
        self.smoothed = fresh;
    }

    /// The smoothed magnitudes kept above nothing, whose decimal logarithms are
    /// taken outside.
    pub fn audible(&self) -> (r: Vec<Single>)
        ensures
            r@ == self.smoothed@.map_values(|m: Single| m.larger(Single { bits: TINY })),
    {
        let mut r: Vec<Single> = Vec::new();
        let mut i: usize = 0;
        while i < self.smoothed.len()
            invariant
                i <= self.smoothed.len(),
                r.len() == i,
                forall|j: int|
                    0 <= j < i ==> #[trigger] r[j] == self.smoothed[j].larger(
                        Single { bits: TINY },
                    ),
            decreases self.smoothed.len() - i,
        {
            r.push(self.smoothed[i].max(Single { bits: TINY }));
            i = i + 1;
        }
        assert(r@ =~= self.smoothed@.map_values(|m: Single| m.larger(Single { bits: TINY })));
        r
    }

    /// Take the decimal logarithms of the magnitudes: the levels of the bins in
    /// dB, and the loudest of them.
    fn set_levels(&mut self, logs: &Vec<Single>)
        requires
            old(self).wf(),
            logs.len() == old(self).db.len(),
        ensures
            final(self).wf(),
            final(self).db@ == logs@.map_values(|l: Single| decibels(l)),
            final(self).peak_db == loudest(final(self).db@),
            *final(self) == (Analyzer {
                db: final(self).db,
                peak_db: final(self).peak_db,
                ..*old(self)
            }),
    {
        let mut db: Vec<Single> = Vec::new();
        let mut peak: Single = Single { bits: MINUS_200 };
        let mut i: usize = 0;
        while i < logs.len()
            invariant
                i <= logs.len(),
                db.len() == i,
                peak == loudest(db@),
                forall|j: int|
                    0 <= j < i ==> #[trigger] db[j] == decibels(logs[j]),
            decreases logs.len() - i,
        {
            let level: Single = (Single { bits: TWENTY }).mul(logs[i]);
            let ghost before = db@;
            db.push(level);
            assert(db@.drop_last() == before);
            peak = peak.max(level);
            i = i + 1;
        }
        assert(db@ =~= logs@.map_values(|l: Single| decibels(l)));
        self.db = db;
        self.peak_db = peak;
    }

    /// Take the decimal logarithms of the magnitudes: the levels of the bins in
    /// dB and the loudest of them. Returns the mean levels of the bands, as the
    /// powers of ten that give the bands' values.
    pub fn process(&mut self, logs: &Vec<Single>) -> (r: Vec<Single>)
        requires
            old(self).wf(),
            logs.len() == old(self).db.len(),
        ensures
            final(self).wf(),
            final(self).db@ == logs@.map_values(|l: Single| decibels(l)),
            final(self).peak_db == loudest(final(self).db@),
            *final(self) == (Analyzer {
                db: final(self).db,
                peak_db: final(self).peak_db,
                ..*old(self)
            }),
            r@ == old(self).bands@.map_values(
                |b: Band| loudness(band_level(final(self).db@, b)),
            ),
    {
        self.set_levels(logs);
        self.band_exponents()
    }

    /// The mean levels of the bands, as the powers of ten that give the bands'
    /// values.
    fn band_exponents(&self) -> (r: Vec<Single>)
        requires
            self.wf(),
        ensures
            r@ == self.bands@.map_values(|b: Band| loudness(band_level(self.db@, b))),
    {
        let mut r: Vec<Single> = Vec::new();
        let mut i: usize = 0;
        while i < self.bands.len()
            invariant
                i <= self.bands.len(),
                self.wf(),
                r.len() == i,
                forall|j: int|
                    0 <= j < i ==> #[trigger] r[j] == loudness(
                        band_level(self.db@, self.bands[j]),
                    ),
            decreases self.bands.len() - i,
        {
            assert(fits(self.bands[i as int], self.fft_size as nat));
            let level: Single = mean_level(&self.db, &self.bands[i]);
            r.push(loudness_exponent(level));
            i = i + 1;
        }
        assert(r@ =~= self.bands@.map_values(|b: Band| loudness(band_level(self.db@, b))));
        r
    }
}

/// The values of a row, from the powers of ten, none of them below zero.
pub fn row_values(powers: &Vec<Single>) -> (r: Vec<Single>)
    ensures
        r@ == powers@.map_values(|p: Single| p.larger(Single { bits: ZERO })),
{
    let mut r: Vec<Single> = Vec::new();
    let mut i: usize = 0;
    while i < powers.len()
        invariant
            i <= powers.len(),
            r.len() == i,
            forall|j: int|
                0 <= j < i ==> #[trigger] r[j] == powers[j].larger(Single { bits: ZERO }),
        decreases powers.len() - i,
    {
        r.push(powers[i].max(Single { bits: ZERO }));
        i = i + 1;
    }
    assert(r@ =~= powers@.map_values(|p: Single| p.larger(Single { bits: ZERO })));
    r
}

/// The exponent of the contrast curve at `x`.
pub open spec fn curve_exponent(x: Single, midpoint: Single, steep: Single) -> Single {
    steep.negated().times(x.minus(midpoint))
}

/// The exponent of the contrast curve at `x`, whose exponential is taken
/// outside.
pub fn sigmoid_exponent(x: Single, midpoint: Single, steep: Single) -> (r: Single)
    ensures
        r == curve_exponent(x, midpoint, steep),
{
    steep.neg().mul(x.sub(midpoint))
}

/// The contrast curve, from the exponential of its exponent.
pub open spec fn curve(exponential: Single) -> Single {
    (Single { bits: ONE }).over((Single { bits: ONE }).plus(exponential))
}

/// The contrast curve `1 / (1 + e^(-steep * (x - midpoint)))`, from the
/// exponential.
pub fn sigmoid(exponential: Single) -> (r: Single)
    ensures
        r == curve(exponential),
{
    (Single { bits: ONE }).div((Single { bits: ONE }).add(exponential))
}

/// Three whole numbers that the formulas hold.
pub proof fn lemma_values()
    ensures
        (Single { bits: ONE }).value() == power2::pow2(149),
        (Single { bits: TWELVE }).value() == 12 * power2::pow2(149),
        (Single { bits: TWENTY_ONE }).value() == 21 * power2::pow2(149),
        (Single { bits: ONE }).finite(),
        (Single { bits: TWELVE }).finite(),
        (Single { bits: TWENTY_ONE }).finite(),
        power2::pow2(149) > 0,
{
    order::lemma_units_of(Single { bits: ONE }, 0x80_0000, 126);
    order::lemma_units_of(Single { bits: TWELVE }, 0xc0_0000, 129);
    order::lemma_units_of(Single { bits: TWENTY_ONE }, 0xa8_0000, 130);
    rounding::lemma_pow2_facts(23, 126);
    rounding::lemma_pow2_facts(20, 129);
    rounding::lemma_pow2_facts(19, 130);
    rounding::lemma_pow2_facts(149, 0);
    power2::lemma2_to64();
    let (a, b) = (power2::pow2(129) as int, power2::pow2(130) as int);
    assert(0xc0_0000 * a == 12 * (0x10_0000 * a)) by (nonlinear_arith);
    assert(0xa8_0000 * b == 21 * (0x8_0000 * b)) by (nonlinear_arith);
}

/// Without smoothing a frame is instant: what was heard before is forgotten.
pub proof fn law_no_smoothing_is_instant(old_size: Single, size: Single, sum: Single)
    requires
        old_size.finite(),
        size.times((Single { bits: TWO }).over(sum)).finite(),
    ensures
        blended(old_size, size, Single { bits: ZERO }, sum).equals(
            size.times((Single { bits: TWO }).over(sum)),
        ),
{
    let (zero, one) = (Single { bits: ZERO }, Single { bits: ONE });
    let fresh = size.times((Single { bits: TWO }).over(sum));
    lemma_values();
    single::lemma_parts(zero);
    order::lemma_times_nothing(old_size, zero);
    order::lemma_times_commutes(old_size, zero);
    let past = zero.times(old_size);
    single::lemma_parts(past);
    order::lemma_sum_exact(one, zero.negated(), one);
    order::lemma_one_times(fresh);
    order::lemma_sum_exact(past, fresh, fresh);
}

/// Adjacent bands meet: where one ends the next begins.
pub proof fn law_bands_meet(lo: int, hi: int, i: nat, pixels: nat)
    requires
        i + 1 < 0x100_0000,
    ensures
        slice_at(lo, hi, i, pixels).note_hi == slice_at(lo, hi, i + 1, pixels).note_lo,
{
    order::lemma_one();
    order::lemma_whole_sum(i as int, 1);
}

proof fn lemma_zero_rounds(d: nat)
    requires
        d > 0,
    ensures
        rounding::nearest(0, d) == 0,
{
    power2::lemma2_to64();
    rounding::lemma_nearest_exact(0, 0);
    assert(0nat * power2::pow2(0) == 0);
    rounding::lemma_nearest_scale(0, 1, d);
    assert(0 * d == 0 && 1 * d == d);
}

/// Adding a zero to a whole number.
proof fn lemma_plus_nothing(n: int, zero: Single)
    requires
        -0x100_0000 < n < 0x100_0000,
        zero.zero(),
    ensures
        Single::whole(n).plus(zero) == Single::whole(n),
{
    reveal(Single::plus);
    let a = Single::whole(n);
    let big = power2::pow2(149) as int;
    lemma_values();
    order::lemma_whole_exact(n);
    single::lemma_parts(zero);
    single::lemma_parts(a);
    order::lemma_sum_exact(a, zero, a);
    if n == 0 {
        assert(0 * big == 0);
    } else {
        assert(n * big != 0) by (nonlinear_arith)
            requires
                n != 0,
                big > 0,
        ;
    }
}

proof fn lemma_first_edge(lo: int, hi: int, pixels: nat)
    requires
        -0x100_0000 < lo < 0x100_0000,
        -0x100_0000 < hi - lo < 0x100_0000,
        0 < pixels < 0x100_0000,
    ensures
        slice_at(lo, hi, 0, pixels).note_lo == Single::whole(lo),
{
    reveal(Single::over);
    reveal(Single::times);
    let big = power2::pow2(149);
    let (count, none, span) = (
        Single::whole(pixels as int),
        Single::whole(0),
        Single::whole(hi - lo),
    );
    lemma_values();
    order::lemma_whole_exact(hi - lo);
    order::lemma_whole_exact(pixels as int);
    order::lemma_whole_exact(0);
    assert(pixels * big > 0) by (nonlinear_arith)
        requires
            pixels > 0,
            big > 0,
    ;
    assert(0 * big == 0);
    single::lemma_parts(none);
    single::lemma_parts(count);
    lemma_zero_rounds(count.units());
    let none_over = none.over(count);
    assert(none_over.zero());
    single::lemma_parts(none_over);
    lemma_zero_rounds(big);
    let start = none_over.times(span);
    assert(none_over.units() * span.units() == 0) by (nonlinear_arith)
        requires
            none_over.units() == 0,
    ;
    assert(start.zero());
    lemma_plus_nothing(lo, start);
}

proof fn lemma_last_edge(lo: int, hi: int, pixels: nat)
    requires
        -0x100_0000 < lo < 0x100_0000,
        -0x100_0000 < hi < 0x100_0000,
        -0x100_0000 < hi - lo < 0x100_0000,
        0 < pixels < 0x100_0000,
    ensures
        slice_at(lo, hi, (pixels - 1) as nat, pixels).note_hi == Single::whole(hi),
{
    let count = Single::whole(pixels as int);
    let span = Single::whole(hi - lo);
    lemma_values();
    order::lemma_one();
    order::lemma_whole_sum(pixels - 1, 1);
    order::lemma_whole_exact(pixels as int);
    order::lemma_whole_exact(hi - lo);
    assert(pixels * power2::pow2(149) > 0) by (nonlinear_arith)
        requires
            pixels > 0,
            power2::pow2(149) > 0,
    ;
    single::lemma_parts(count);
    order::lemma_over_itself(count);
    order::lemma_one_times(span);
    order::lemma_whole_sum(lo, hi - lo);
}

/// The bands span the range from end to end.
pub proof fn law_bands_span_range(lo: int, hi: int, pixels: nat)
    requires
        -0x100_0000 < lo < 0x100_0000,
        -0x100_0000 < hi < 0x100_0000,
        -0x100_0000 < hi - lo < 0x100_0000,
        0 < pixels < 0x100_0000,
    ensures
        slice_at(lo, hi, 0, pixels).note_lo == Single::whole(lo),
        slice_at(lo, hi, (pixels - 1) as nat, pixels).note_hi == Single::whole(hi),
{
    lemma_first_edge(lo, hi, pixels);
    lemma_last_edge(lo, hi, pixels);
}

/// No bin is left out between two bands that meet.
pub proof fn law_no_bin_skipped(below: Tones, above: Tones, fft_size: nat, rate: Single)
    requires
        below.power_hi == above.power_lo,
    ensures
        low_bin(above, fft_size, rate) <= high_bin(below, fft_size, rate),
{
}

/// Every A has hue zero, and with it the first column of the colour table.
pub proof fn law_every_a_has_hue_zero(octave: int)
    requires
        -0x10_0000 < octave < 0x10_0000,
    ensures
        hue_at(Single::whole(21 + 12 * octave)).zero(),
        column_of(hue_at(Single::whole(21 + 12 * octave))) == 0,
{
    reveal(Single::over);
    reveal(Single::times);
    reveal(Single::modulo);
    let big = power2::pow2(149);
    let k = octave;
    let (a, twelve) = (Single::whole(21 + 12 * k), Single { bits: TWELVE });
    let minus = (Single { bits: TWENTY_ONE }).negated();
    lemma_values();
    order::lemma_whole_exact(21 + 12 * k);
    order::lemma_whole_exact(12 * k);
    order::lemma_whole_exact(k);
    assert(minus.value() == -(21 * big));
    assert((21 + 12 * k) * big - 21 * big == (12 * k) * big) by (nonlinear_arith);
    order::lemma_sum_exact(a, minus, Single::whole(12 * k));
    let above = a.minus(Single { bits: TWENTY_ONE });
    assert(above.value() == (12 * k) * big);
    let turns = above.over(twelve);
    let size = (if k < 0 {
        -k
    } else {
        k
    }) as nat;
    assert(above.units() == 12 * (size * big)) by (nonlinear_arith)
        requires
            above.units() == above.value() || above.units() == -above.value(),
            above.units() >= 0,
            above.value() == (12 * k) * big,
            size == k || size == -k,
            size >= 0,
            big > 0,
    ;
    assert(Single::whole(k).units() == size * big) by (nonlinear_arith)
        requires
            Single::whole(k).units() == k * big || Single::whole(k).units() == -(k * big),
            Single::whole(k).units() >= 0,
            size == k || size == -k,
            size >= 0,
            big > 0,
    ;
    order::lemma_nearest_of(Single::whole(k), 12 * big);
    assert((12 * (size * big)) * big == (size * big) * (12 * big)) by (nonlinear_arith);
    assert(turns.magnitude() == Single::whole(k).magnitude());
    assert(turns.finite());
    assert(turns.units() == size * big);
    div_mod::lemma_mod_multiples_basic(size as int, big as int);
    lemma_zero_rounds(1);
    let hue = turns.wrapped(Single { bits: ONE });
    assert(hue.zero());
    let wide = Single::whole(HUE_STEPS as int);
    order::lemma_whole_exact(HUE_STEPS as int);
    single::lemma_parts(hue);
    assert(hue.units() * wide.units() == 0) by (nonlinear_arith)
        requires
            hue.units() == 0,
    ;
    lemma_zero_rounds(big);
    let at = hue.times(wide);
    assert(at.magnitude() == 0);
    single::lemma_parts(at);
    div_mod::lemma_basic_div(0, big as int);
    div_mod::lemma_small_mod(0, big);
}

} // verus!
