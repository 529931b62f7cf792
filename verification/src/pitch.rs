//! The fundamental pitch by a weighted harmonic product spectrum.
//!
//! The loudest peak of a real tone is often a harmonic, at two, three or four
//! times the pitch. So each candidate bin is scored by the levels at all its
//! multiples together: only the fundamental has energy at all of its
//! harmonics, and it wins even where it is quieter than they are, or absent.
use crate::analysis;
use crate::analysis::{freq_to_midi, midi_to_freq, sigmoid, sigmoid_exponent, Analyzer};
use crate::contrast;
use crate::rounding;
use crate::single;
use crate::single::Single;
use crate::tracker::Reading;
use crate::values::{
    A4, EIGHTY, EIGHT_TENTHS, FLAT, HALF, HUNDREDTH, LEAST, MINUS_200, MINUS_HALF, NINE_TENTHS,
    ONE, SEVEN_TENTHS, SIX_TENTHS, THREE_TWENTIETHS, TWO, ZERO,
};
use vstd::arithmetic::div_mod;
use vstd::arithmetic::power2;
use vstd::prelude::*;

verus! {

/// The weights of a bin's harmonics. They decrease, so that a fundamental beats
/// its own subharmonics, which would tie with it on a pure sine.
pub const HPS_WEIGHTS: [u32; 5] = [ONE, NINE_TENTHS, EIGHT_TENTHS, SEVEN_TENTHS, SIX_TENTHS];

/// The weighted sum of the levels at the first `h` multiples of bin `k`, each
/// raised to `floor`, and the sum of the weights.
pub open spec fn comb(db: Seq<Single>, k: nat, floor: Single, h: nat) -> (Single, Single)
    decreases h,
{
    if h == 0 {
        (Single { bits: ZERO }, Single { bits: ZERO })
    } else {
        let (sum, weights) = comb(db, k, floor, (h - 1) as nat);
        let w = Single { bits: HPS_WEIGHTS@[h - 1] };
        if h * k < db.len() {
            (sum.plus(w.times(db[(h * k) as int].larger(floor))), weights.plus(w))
        } else {
            (sum, weights)
        }
    }
}

/// The score of bin `k`: the weighted mean level of its harmonics.
pub open spec fn score_of(db: Seq<Single>, k: nat, floor: Single) -> Single {
    let (sum, weights) = comb(db, k, floor, 5);
    sum.over(weights)
}

/// The first of the bins from `lo` up to `end` with the best score, and that
/// score; bin 0 where no score is above the least number.
pub open spec fn best_of(db: Seq<Single>, floor: Single, lo: nat, end: nat) -> (nat, Single)
    decreases end,
{
    if end <= lo {
        (0, Single { bits: LEAST })
    } else {
        let (k, s) = best_of(db, floor, lo, (end - 1) as nat);
        let t = score_of(db, (end - 1) as nat, floor);
        if s.less(t) {
            ((end - 1) as nat, t)
        } else {
            (k, s)
        }
    }
}

/// How far the peak of the parabola through three scores lies from the middle
/// one, in bins.
pub open spec fn lean(yl: Single, yc: Single, yr: Single) -> Single {
    let denom = yl.minus((Single { bits: TWO }).times(yc)).plus(yr);
    if (Single { bits: FLAT }).less(Single::of(false, denom.magnitude())) {
        (Single { bits: HALF }).times(yl.minus(yr)).over(denom).clamped(
            Single { bits: MINUS_HALF },
            Single { bits: HALF },
        )
    } else {
        Single { bits: ZERO }
    }
}

/// The loudest of the first `h` harmonics of bin `k`, at least -200 dB.
pub open spec fn loudest_harmonic(db: Seq<Single>, k: nat, h: nat) -> Single
    decreases h,
{
    if h == 0 {
        Single { bits: MINUS_200 }
    } else {
        let rest = loudest_harmonic(db, k, (h - 1) as nat);
        if h * k < db.len() {
            rest.larger(db[(h * k) as int])
        } else {
            rest
        }
    }
}

/// A pitch that was found, before it is known whether it is loud enough.
#[derive(Clone, Copy, Debug, PartialEq, Eq, Structural)]
pub struct Candidate {
    pub freq: Single,
    /// The level of its loudest harmonic.
    pub db: Single,
}

fn lean_at(yl: Single, yc: Single, yr: Single) -> (r: Single)
    ensures
        r == lean(yl, yc, yr),
{
    let denom: Single = yl.sub((Single { bits: TWO }).mul(yc)).add(yr);
    if (Single { bits: FLAT }).lt(denom.abs()) {
        (Single { bits: HALF }).mul(yl.sub(yr)).div(denom).clamp(
            Single { bits: MINUS_HALF },
            Single { bits: HALF },
        )
    } else {
        Single { bits: ZERO }
    }
}

/// Levels more than 80 dB below the loudest bin count as that: the skirts of
/// leakage would else let subharmonic combs outscore a near-sine.
pub open spec fn noise_floor(a: Analyzer) -> Single {
    a.peak_db.minus(Single { bits: EIGHTY })
}

impl Analyzer {
    fn score(&self, k: usize, floor: Single) -> (r: Single)
        ensures
            r == score_of(self.db@, k as nat, floor),
    {
        let len: u128 = self.db.len() as u128;
        let mut sum: Single = Single { bits: ZERO };
        let mut weights: Single = Single { bits: ZERO };
        let mut h: usize = 0;
        while h < 5
            invariant
                h <= 5,
                len == self.db.len(),
                (sum, weights) == comb(self.db@, k as nat, floor, h as nat),
            decreases 5 - h,
        {
            proof {
                assert((h + 1) * k <= 5 * k) by (nonlinear_arith)
                    requires
                        h + 1 <= 5,
                ;
            }
            let i: u128 = (h as u128 + 1) * (k as u128);
            if i < len {
                let w: Single = Single { bits: HPS_WEIGHTS[h] };
                sum = sum.add(w.mul(self.db[i as usize].max(floor)));
                weights = weights.add(w);
            }
            h = h + 1;
        }
        sum.div(weights)
    }

    fn loudest_at(&self, k: usize) -> (r: Single)
        ensures
            r == loudest_harmonic(self.db@, k as nat, 5),
    {
        let len: u128 = self.db.len() as u128;
        let mut db: Single = Single { bits: MINUS_200 };
        let mut h: usize = 0;
        while h < 5
            invariant
                h <= 5,
                len == self.db.len(),
                db == loudest_harmonic(self.db@, k as nat, h as nat),
            decreases 5 - h,
        {
            proof {
                assert((h + 1) * k <= 5 * k) by (nonlinear_arith)
                    requires
                        h + 1 <= 5,
                ;
            }
            let i: u128 = (h as u128 + 1) * (k as u128);
            if i < len {
                db = db.max(self.db[i as usize]);
            }
            h = h + 1;
        }
        db
    }

    /// The lowest bin that is searched.
    pub open spec fn first_bin(self, power_lo: Single) -> int {
        let k = analysis::bin_place(power_lo, self.fft_size as nat, self.sample_rate).index(false);
        if k > 1 {
            k
        } else {
            1
        }
    }

    /// The highest bin that is searched.
    pub open spec fn last_bin(self, power_hi: Single) -> int {
        let k = analysis::bin_place(power_hi, self.fft_size as nat, self.sample_rate).index(true);
        let end = if self.smoothed.len() >= 2 {
            self.smoothed.len() - 2
        } else {
            0int
        };
        if k < end {
            k
        } else {
            end
        }
    }

    /// The pitch with the best score between two notes, given by two to the
    /// power of their octaves above A4.
    pub open spec fn fundamental_in(self, power_lo: Single, power_hi: Single) -> Option<Candidate> {
        let (lo, hi) = (self.first_bin(power_lo), self.last_bin(power_hi));
        let floor = noise_floor(self);
        let (k, s) = best_of(self.db@, floor, lo as nat, (hi + 1) as nat);
        if hi <= lo || k == 0 {
            None
        } else {
            let delta = lean(
                score_of(self.db@, (k - 1) as nat, floor),
                s,
                score_of(self.db@, k + 1, floor),
            );
            Some(
                Candidate {
                    freq: Single::whole(k as int).plus(delta).times(self.sample_rate).over(
                        Single::whole(self.fft_size as int),
                    ),
                    db: loudest_harmonic(self.db@, k, 5),
                },
            )
        }
    }

    /// The pitch with the best score between two notes, given by two to the
    /// power of their octaves above A4; none where the notes are too close
    /// together, or no bin's score is above the least number.
    pub fn detect_fundamental(&self, power_lo: Single, power_hi: Single) -> (r: Option<Candidate>)
        requires
            self.wf(),
        ensures
            r == self.fundamental_in(power_lo, power_hi),
    {
        let rate: Single = self.sample_rate;
        let size: Single = Single::from_u64(self.fft_size as u64);
        let low: usize = midi_to_freq(power_lo).mul(size).div(rate).floor_index();
        let high: usize = midi_to_freq(power_hi).mul(size).div(rate).ceil_index();
        let end: usize = if self.smoothed.len() >= 2 {
            self.smoothed.len() - 2
        } else {
            0
        };
        let k_lo: usize = if low > 1 {
            low
        } else {
            1
        };
        let k_hi: usize = if high < end {
            high
        } else {
            end
        };
        if k_hi <= k_lo {
            return None;
        }
        let floor: Single = self.peak_db.sub(Single { bits: EIGHTY });
        let mut best_k: usize = 0;
        let mut best_s: Single = Single { bits: LEAST };
        let mut k: usize = k_lo;
        while k <= k_hi
            invariant
                1 <= k_lo <= k <= k_hi + 1,
                k_hi < self.db.len(),
                (best_k as nat, best_s) == best_of(self.db@, floor, k_lo as nat, k as nat),
                best_k == 0 || k_lo <= best_k < k,
            decreases k_hi + 1 - k,
        {
            let s: Single = self.score(k, floor);
            if best_s.lt(s) {
                best_s = s;
                best_k = k;
            }
            k = k + 1;
        }
        if best_k == 0 {
            return None;
        }
        let yl: Single = self.score(best_k - 1, floor);
        let yr: Single = self.score(best_k + 1, floor);
        let delta: Single = lean_at(yl, best_s, yr);
        let freq: Single = Single::from_u64(best_k as u64).add(delta).mul(rate).div(size);
        Some(Candidate { freq, db: self.loudest_at(best_k) })
    }
}

impl Candidate {
    /// The exponent of the contrast curve at the candidate's strength, on the
    /// scale of band values: `value` is ten to the power of its loudness, and
    /// `octaves` is the binary logarithm of its frequency's ratio to A4.
    pub fn strength_exponent(
        &self,
        value: Single,
        octaves: Single,
        midpoint: Single,
        steep: Single,
    ) -> (r: Single)
        ensures
            r == analysis::curve_exponent(
                value.plus(analysis::pink_at(octaves)),
                midpoint,
                steep,
            ),
    {
        let corrected: Single = value.add(
            (Single { bits: TWO }).mul(octaves).mul(Single { bits: HUNDREDTH }),
        );
        sigmoid_exponent(corrected, midpoint, steep)
    }

    /// What is heard: the note, the frequency and the strength, unless the
    /// strength is under the threshold.
    pub open spec fn heard(self, octaves: Single, exponential: Single) -> Option<Reading> {
        let v = analysis::curve(exponential);
        if v.less(Single { bits: THREE_TWENTIETHS }) {
            None
        } else {
            Some((analysis::note_above(octaves), self.freq, v))
        }
    }

    /// What is heard, from the exponential of the strength's exponent.
    pub fn reading(&self, octaves: Single, exponential: Single) -> (r: Option<Reading>)
        ensures
            r == self.heard(octaves, exponential),
    {
        let v: Single = sigmoid(exponential);
        if v.lt(Single { bits: THREE_TWENTIETHS }) {
            None
        } else {
            Some((freq_to_midi(octaves), self.freq, v))
        }
    }
}

/// The search picks a bin that it was asked to search, whose score is above
/// that of every bin before it and not below that of any after it.
pub proof fn law_best_is_first_maximum(
    db: Seq<Single>,
    floor: Single,
    lo: nat,
    end: nat,
    j: nat,
)
    requires
        lo > 0,
        lo <= j < end,
    ensures
        ({
            let (k, s) = best_of(db, floor, lo, end);
            &&& !s.nan()
            &&& !s.less(score_of(db, j, floor))
            &&& k == 0 ==> s == (Single { bits: LEAST })
            &&& k > 0 ==> lo <= k < end && s == score_of(db, k, floor)
            &&& k > 0 && j < k && !score_of(db, j, floor).nan() ==> score_of(db, j, floor).less(s)
        }),
    decreases end,
{
    lemma_best_shape(db, floor, lo, (end - 1) as nat);
    if j < end - 1 {
        law_best_is_first_maximum(db, floor, lo, (end - 1) as nat, j);
    }
}

proof fn lemma_best_shape(db: Seq<Single>, floor: Single, lo: nat, end: nat)
    requires
        lo > 0,
    ensures
        ({
            let (k, s) = best_of(db, floor, lo, end);
            &&& !s.nan()
            &&& k == 0 ==> s == (Single { bits: LEAST })
            &&& k > 0 ==> lo <= k < end && s == score_of(db, k, floor)
        }),
    decreases end,
{
    if end > lo {
        lemma_best_shape(db, floor, lo, (end - 1) as nat);
    }
}

/// The refined peak stays within half a bin of the best bin.
pub proof fn law_lean_within_half(yl: Single, yc: Single, yr: Single)
    ensures
        lean(yl, yc, yr).lies_in(Single { bits: MINUS_HALF }, Single { bits: HALF }),
{
}

/// Nothing weaker than the threshold is reported, and whatever is reported has
/// the frequency that was found.
pub proof fn law_reading_is_strong(c: Candidate, octaves: Single, exponential: Single)
    ensures
        match c.heard(octaves, exponential) {
            Some((_, freq, v)) => freq == c.freq && !v.less(Single { bits: THREE_TWENTIETHS }),
            None => true,
        },
{
}

/// The contrast knobs gate and grade a pitch, but never move it: whatever the
/// exponentials are, what is heard has the same note and frequency.
pub proof fn law_knobs_keep_pitch(c: Candidate, octaves: Single, one: Single, other: Single)
    requires
        c.heard(octaves, one) is Some,
        c.heard(octaves, other) is Some,
    ensures
        ({
            let (a, b) = (c.heard(octaves, one)->0, c.heard(octaves, other)->0);
            a.0 == b.0 && a.1 == b.1 && a.0 == analysis::note_above(octaves)
        }),
{
}

/// The strength of what is heard lies between the threshold and 1.
pub proof fn law_strength_in_bounds(c: Candidate, octaves: Single, exponential: Single)
    requires
        !exponential.nan(),
        exponential.rank() >= 0,
        c.heard(octaves, exponential) is Some,
    ensures
        c.heard(octaves, exponential) matches Some((_, _, v)) && v.finite() && v.lies_in(
            Single { bits: THREE_TWENTIETHS },
            Single { bits: ONE },
        ),
{
    contrast::law_curve_falls(exponential, exponential);
}

/// Where the upper end of the range lies a bin or more below the lower one, or no
/// higher than the first bin, nothing is found.
pub proof fn law_crossed_range_finds_nothing(a: Analyzer, power_lo: Single, power_hi: Single)
    requires
        ({
            let lo = analysis::bin_place(power_lo, a.fft_size as nat, a.sample_rate);
            let hi = analysis::bin_place(power_hi, a.fft_size as nat, a.sample_rate);
            &&& hi.finite() && hi.rank() >= 0
            &&& {
                ||| hi.units() <= power2::pow2(149)
                ||| lo.finite() && lo.rank() >= 0 && hi.units() + power2::pow2(149) <= lo.units()
            }
        }),
    ensures
        a.fundamental_in(power_lo, power_hi) is None,
{
    let lo = analysis::bin_place(power_lo, a.fft_size as nat, a.sample_rate);
    let hi = analysis::bin_place(power_hi, a.fft_size as nat, a.sample_rate);
    let big = power2::pow2(149) as int;
    rounding::lemma_pow2_facts(149, 0);
    div_mod::lemma_fundamental_div_mod(lo.units() as int, big);
    div_mod::lemma_fundamental_div_mod(hi.units() as int, big);
    let (l, h) = (lo.units() as int / big, hi.units() as int / big);
    let (m, g) = (lo.units() as int % big, hi.units() as int % big);
    single::lemma_parts(hi);
    let up: int = if g > 0 {
        h + 1
    } else {
        h
    };
    if hi.units() <= big {
        assert(up <= 1) by (nonlinear_arith)
            requires
                big * h + g <= big,
                0 <= g,
                up == h + (if g > 0 {
                    1int
                } else {
                    0int
                }),
                big > 0,
        ;
    } else {
        single::lemma_parts(lo);
        assert(up <= l) by (nonlinear_arith)
            requires
                big * h + g + big <= big * l + m,
                0 <= g,
                m < big,
                up == h + (if g > 0 {
                    1int
                } else {
                    0int
                }),
                big > 0,
        ;
    }
}

} // verus!
