//! What a detection reports, from the notes of the range and the contrast knobs to the
//! note, the frequency and the strength. What powers, logarithms and exponentials are
//! is handed in.
use crate::analysis;
use crate::analysis::Analyzer;
use crate::combs;
use crate::errors;
use crate::found;
use crate::octaves;
use crate::order;
use crate::pitch;
use crate::rounding;
use crate::shades;
use crate::single;
use crate::single::Single;
use crate::tracker::Reading;
use crate::values::{
    A4, EIGHTY, HUNDRED, HUNDREDTH, MINUS_200, ONE, THREE_TWENTIETHS, TWENTY, TWO,
};
use vstd::arithmetic::power2;
use vstd::prelude::*;

verus! {

/// The functions that the machine computes.
pub ghost struct Machine {
    /// Two to the power of.
    pub two: spec_fn(Single) -> Single,
    /// Ten to the power of.
    pub ten: spec_fn(Single) -> Single,
    /// The exponential.
    pub exp: spec_fn(Single) -> Single,
    /// The binary logarithm.
    pub log: spec_fn(Single) -> Single,
}

impl Machine {
    /// The functions give what those of their names do: powers are not below zero, and
    /// numbers within their domains have values that are numbers.
    pub open spec fn sound(self) -> bool {
        &&& forall|x: Single|
            x.finite() && errors::near(x.value(), 0, 5 * errors::big()) ==> (#[trigger] (self.ten)(
                x,
            )).finite() && (self.ten)(x).rank() >= 0
        &&& forall|x: Single|
            !x.nan() ==> !(#[trigger] (self.exp)(x)).nan() && (self.exp)(x).rank() >= 0
        &&& forall|x: Single| !x.nan() && x.rank() >= 0 ==> !(#[trigger] (self.log)(x)).nan()
    }
}

/// The strength's place on the contrast curve.
pub open spec fn exponent_of(
    c: pitch::Candidate,
    midpoint: Single,
    steep: Single,
    f: Machine,
) -> Single {
    let octaves = (f.log)(c.freq.over(Single { bits: A4 }));
    let value = (f.ten)(analysis::loudness(c.db));
    analysis::curve_exponent(value.plus(analysis::pink_at(octaves)), midpoint, steep)
}

/// What is detected between two notes.
pub open spec fn detected(
    a: Analyzer,
    lo: int,
    hi: int,
    midpoint: Single,
    steep: Single,
    f: Machine,
) -> Option<Reading> {
    match a.fundamental_in(
        (f.two)(analysis::octaves_above(Single::whole(lo))),
        (f.two)(analysis::octaves_above(Single::whole(hi))),
    ) {
        None => None,
        Some(c) => c.heard(
            (f.log)(c.freq.over(Single { bits: A4 })),
            (f.exp)(exponent_of(c, midpoint, steep, f)),
        ),
    }
}

/// The loudest harmonic of tame levels is tame.
proof fn lemma_loudest(db: Seq<Single>, k: nat, floor: Single, h: nat)
    requires
        combs::tame_levels(db, floor),
    ensures
        combs::tame(pitch::loudest_harmonic(db, k, h)),
    decreases h,
{
    let least = Single { bits: MINUS_200 };
    let b = errors::big();
    power2::lemma2_to64();
    order::lemma_units_of(least, 0xc8_0000, 133);
    rounding::lemma_pow2_facts(133, 16);
    assert(0xc8_0000 * power2::pow2(133) == 200 * b) by (nonlinear_arith)
        requires
            b == power2::pow2(133) * 0x1_0000,
    ;
    shades::lemma_grains();
    if h > 0 {
        let g = (h - 1) as nat;
        lemma_loudest(db, k, floor, g);
        let rest = pitch::loudest_harmonic(db, k, g);
        if h * k < db.len() {
            let x = db[(h * k) as int];
            assert(combs::tame(x.larger(floor)));
            if !x.nan() && rest.less(x) {
                if x.less(floor) {
                    assert(floor.finite());
                    single::lemma_less_is_order(x, floor);
                    single::lemma_less_is_order(rest, x);
                }
            }
        }
    }
}

/// A level that has a decimal logarithm of the magnitude between -14 and 14.
proof fn lemma_level(l: Single)
    requires
        l.finite(),
        errors::near(l.value(), 0, 14 * errors::big()),
    ensures
        (Single { bits: TWENTY }).times(l).finite(),
        errors::near((Single { bits: TWENTY }).times(l).value(), 0, 281 * errors::big()),
{
    let twenty = Single { bits: TWENTY };
    let (b, e) = (errors::big(), errors::slack());
    shades::lemma_grains();
    power2::lemma2_to64();
    order::lemma_units_of(twenty, 0xa0_0000, 130);
    rounding::lemma_pow2_facts(130, 19);
    assert(0xa0_0000 * power2::pow2(130) == 20 * b) by (nonlinear_arith)
        requires
            b == power2::pow2(130) * 0x8_0000,
    ;
    assert(twenty.units() * l.units() < b * (2048 * b)) by (nonlinear_arith)
        requires
            twenty.units() == 20 * b,
            0 <= l.units() <= 14 * b,
            b > 0,
    ;
    errors::lemma_product_error(twenty, l, 136);
    assert((20 * b) * l.value() == l.value() * (20 * b)) by (nonlinear_arith);
    errors::lemma_product_value(twenty.times(l).value(), l.value(), 20, e);
}

/// The loudest of such levels.
proof fn lemma_peak(levels: Seq<Single>)
    requires
        forall|i: int|
            0 <= i < levels.len() ==> (#[trigger] levels[i]).finite() && errors::near(
                levels[i].value(),
                0,
                281 * errors::big(),
            ),
    ensures
        analysis::loudest(levels).finite(),
        errors::near(analysis::loudest(levels).value(), 0, 281 * errors::big()),
    decreases levels.len(),
{
    let least = Single { bits: MINUS_200 };
    let b = errors::big();
    shades::lemma_grains();
    power2::lemma2_to64();
    order::lemma_units_of(least, 0xc8_0000, 133);
    rounding::lemma_pow2_facts(133, 16);
    assert(0xc8_0000 * power2::pow2(133) == 200 * b) by (nonlinear_arith)
        requires
            b == power2::pow2(133) * 0x1_0000,
    ;
    if levels.len() > 0 {
        lemma_peak(levels.drop_last());
        assert(levels[levels.len() - 1].finite());
    }
}

/// The levels of a frame are tame, where the decimal logarithms of its magnitudes lie
/// between -14 and 14.
pub proof fn law_levels_are_tame(a: Analyzer, logs: Seq<Single>)
    requires
        a.db@ == logs.map_values(|l: Single| analysis::decibels(l)),
        a.peak_db == analysis::loudest(a.db@),
        forall|i: int|
            0 <= i < logs.len() ==> (#[trigger] logs[i]).finite() && errors::near(
                logs[i].value(),
                0,
                14 * errors::big(),
            ),
    ensures
        combs::tame_levels(a.db@, pitch::noise_floor(a)),
{
    let eighty = Single { bits: EIGHTY };
    let b = errors::big();
    shades::lemma_grains();
    power2::lemma2_to64();
    order::lemma_units_of(eighty, 0xa0_0000, 132);
    rounding::lemma_pow2_facts(132, 17);
    assert(0xa0_0000 * power2::pow2(132) == 80 * b) by (nonlinear_arith)
        requires
            b == power2::pow2(132) * 0x2_0000,
    ;
    assert forall|i: int| 0 <= i < a.db@.len() implies (#[trigger] a.db@[i]).finite()
        && errors::near(a.db@[i].value(), 0, 281 * b) by {
        lemma_level(logs[i]);
    }
    lemma_peak(a.db@);
    let less = eighty.negated();
    assert(less.units() == eighty.units());
    errors::lemma_sum_error(a.peak_db, less, 136);
    let floor = pitch::noise_floor(a);
    assert forall|i: int| 0 <= i < a.db@.len() implies combs::tame(
        (#[trigger] a.db@[i]).larger(floor),
    ) by {
        single::lemma_less_is_order(a.db@[i], floor);
    }
}

/// A number times a finite one other than zero is a number.
proof fn lemma_scaled_number(a: Single, b: Single)
    requires
        a.finite(),
        !a.zero(),
        !b.nan(),
    ensures
        !a.times(b).nan(),
        !b.times(a).nan(),
{
    if b.finite() {
        found::lemma_product_number(a, b);
        found::lemma_product_number(b, a);
    } else {
        reveal(Single::times);
    }
}

/// The loudness of a tame level stays within the domain of the power of ten.
proof fn lemma_loudness(x: Single)
    requires
        combs::tame(x),
    ensures
        analysis::loudness(x).finite(),
        errors::near(analysis::loudness(x).value(), 0, 5 * errors::big()),
{
    let (hundred, one) = (Single { bits: HUNDRED }, Single { bits: ONE });
    let (b, e) = (errors::big(), errors::slack());
    shades::lemma_grains();
    shades::lemma_constants();
    power2::lemma2_to64();
    order::lemma_units_of(hundred, 0xc8_0000, 132);
    rounding::lemma_pow2_facts(132, 17);
    assert(0xc8_0000 * power2::pow2(132) == 100 * b) by (nonlinear_arith)
        requires
            b == power2::pow2(132) * 0x2_0000,
    ;
    errors::lemma_sum_error(x, hundred, 136);
    let s = x.plus(hundred);
    single::lemma_parts(hundred);
    assert(s.units() * b < hundred.units() * (2048 * b)) by (nonlinear_arith)
        requires
            0 <= s.units() <= 401 * b,
            hundred.units() == 100 * b,
            b > 0,
    ;
    errors::lemma_quotient_error(s, hundred, 136);
    let q = s.over(hundred);
    let (sv, qv) = (s.value(), q.value());
    errors::lemma_quotient_value(qv, sv, 100, e);
    let less = one.negated();
    assert(less.units() == one.units());
    errors::lemma_sum_error(q, less, 136);
}

/// The exponent of a strength is a number.
proof fn lemma_exponent(c: pitch::Candidate, midpoint: Single, steep: Single, f: Machine)
    requires
        f.sound(),
        combs::tame(c.db),
        !c.freq.nan(),
        c.freq.rank() > 0,
        midpoint.finite(),
        steep.finite(),
        !steep.zero(),
    ensures
        !exponent_of(c, midpoint, steep, f).nan(),
{
    reveal(Single::over);
    let (base, two, part) = (Single { bits: A4 }, Single { bits: TWO }, Single { bits: HUNDREDTH });
    let ratio = c.freq.over(base);
    assert(base.finite() && !base.zero() && !base.negative());
    single::lemma_parts(base);
    let n = c.freq.units() * power2::pow2(149);
    order::lemma_nearest_increases(n, n, base.units());
    assert(!ratio.nan() && ratio.rank() >= 0);
    let o = (f.log)(ratio);
    lemma_loudness(c.db);
    let v = (f.ten)(analysis::loudness(c.db));
    assert(!o.nan());
    assert(v.finite());
    lemma_scaled_number(two, o);
    lemma_scaled_number(part, two.times(o));
    let pink = analysis::pink_at(o);
    found::lemma_sum_number(v, pink);
    let corrected = v.plus(pink);
    let less = midpoint.negated();
    assert(less.finite());
    found::lemma_sum_number(corrected, less);
    let down = steep.negated();
    assert(down.finite() && !down.zero());
    lemma_scaled_number(down, corrected.minus(midpoint));
}

/// What a detection reports: the note of the frequency that was found, which is
/// positive, and a strength between the threshold and 1. The contrast knobs gate and
/// grade a detection but never move it: where two settings of them both report
/// something, note and frequency are the same.
pub proof fn law_detection(
    a: Analyzer,
    lo: int,
    hi: int,
    midpoint: Single,
    steep: Single,
    other_midpoint: Single,
    other_steep: Single,
    f: Machine,
)
    requires
        a.wf(),
        1 <= a.fft_size < 0x100_0000,
        octaves::usual_rate(a.sample_rate),
        combs::tame_levels(a.db@, pitch::noise_floor(a)),
        f.sound(),
        midpoint.finite(),
        steep.finite(),
        !steep.zero(),
    ensures
        detected(a, lo, hi, midpoint, steep, f) matches Some((note, freq, strength)) ==> {
            &&& note == octaves::note_of(freq, f.log)
            &&& !freq.nan()
            &&& freq.rank() > 0
            &&& strength.finite()
            &&& strength.lies_in(Single { bits: THREE_TWENTIETHS }, Single { bits: ONE })
            &&& detected(a, lo, hi, other_midpoint, other_steep, f) matches Some(
                (other_note, other_freq, _),
            ) ==> other_note == note && other_freq == freq
        },
{
    let power_lo = (f.two)(analysis::octaves_above(Single::whole(lo)));
    let power_hi = (f.two)(analysis::octaves_above(Single::whole(hi)));
    let one = Single { bits: ONE };
    shades::lemma_grains();
    shades::lemma_constants();
    single::lemma_less_is_order(a.sample_rate, one);
    found::law_found_frequency_positive(a, power_lo, power_hi);
    if let Some(c) = a.fundamental_in(power_lo, power_hi) {
        let floor = pitch::noise_floor(a);
        let first = a.first_bin(power_lo) as nat;
        let end = (a.last_bin(power_hi) + 1) as nat;
        let k = pitch::best_of(a.db@, floor, first, end).0;
        lemma_loudest(a.db@, k, floor, 5);
        lemma_exponent(c, midpoint, steep, f);
        let octaves = (f.log)(c.freq.over(Single { bits: A4 }));
        let e = (f.exp)(exponent_of(c, midpoint, steep, f));
        if c.heard(octaves, e) is Some {
            pitch::law_strength_in_bounds(c, octaves, e);
        }
    }
}

/// In a range of notes an octave or more the wrong way round nothing is detected,
/// whatever the knobs, unless its upper end lies just above the first bin.
pub proof fn law_crossed_range_detects_nothing(
    a: Analyzer,
    lo: int,
    hi: int,
    midpoint: Single,
    steep: Single,
    f: Machine,
)
    requires
        hi + 12 <= lo,
        -100 <= hi,
        lo <= 200,
        octaves::raises_two(f.two),
        1 <= a.fft_size < 0x100_0000,
        octaves::usual_rate(a.sample_rate),
        ({
            let place = analysis::bin_place(
                (f.two)(analysis::octaves_above(Single::whole(hi))),
                a.fft_size as nat,
                a.sample_rate,
            );
            place.value() <= errors::big() || 1000 * place.value() >= 1003 * errors::big()
        }),
    ensures
        detected(a, lo, hi, midpoint, steep, f) is None,
{
    octaves::law_octave_crossed_finds_nothing(a, lo, hi, f.two);
}

} // verus!
