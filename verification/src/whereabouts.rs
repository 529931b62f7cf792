//! Between notes, frequencies and places on the spectrum, in exact arithmetic.
use crate::analysis;
use crate::analysis::Analyzer;
use crate::errors;
use crate::octaves;
use crate::order;
use crate::pitch;
use crate::shades;
use crate::single;
use crate::single::Single;
use crate::vertex;
use vstd::arithmetic::power2;
use vstd::prelude::*;

verus! {

/// A note's distance from A4 in octaves is a twelfth of that in semitones.
pub proof fn law_octaves_are_twelve_semitones(note: Single)
    requires
        note.finite(),
        errors::near(note.value(), 69 * errors::big(), 200 * errors::big()),
    ensures
        analysis::octaves_above(note).finite(),
        errors::near(
            12 * analysis::octaves_above(note).value(),
            note.value() - 69 * errors::big(),
            40 * shades::grain(),
        ),
{
    octaves::lemma_octaves(note);
}

/// The bins of a spectrum divide the sample rate evenly: a frequency of 440 times a power
/// lies as many bins up as it fits times the window's length into the rate.
pub proof fn law_bins_divide_the_rate(power: Single, n: nat, rate: Single)
    requires
        octaves::in_bounds(power),
        1 <= n < 0x100_0000,
        octaves::usual_rate(rate),
    ensures
        ({
            let place = analysis::bin_place(power, n, rate);
            let exact = 440 * power.value() * n * errors::big();
            &&& place.finite()
            &&& errors::near(
                0x100_0000 * (place.value() * rate.value()),
                0x100_0000 * exact,
                5 * exact,
            )
        }),
{
    octaves::lemma_place(power, n, rate);
}

/// The frequency of a place on the spectrum, computed.
proof fn lemma_frequency(x: Single, n: int, rate: Single)
    requires
        x.finite(),
        !x.negative(),
        errors::big() <= 3 * x.value(),
        x.value() <= 0x200_0000 * errors::big(),
        1 <= n < 0x100_0000,
        octaves::usual_rate(rate),
    ensures
        ({
            let f = x.times(rate).over(Single::whole(n));
            let exact = x.value() * rate.value();
            &&& f.finite()
            &&& exact > 0
            &&& errors::near(
                0x100_0000 * (f.value() * n * errors::big()),
                0x100_0000 * exact,
                3 * exact,
            )
        }),
{
    let b = errors::big();
    let count = Single::whole(n);
    shades::lemma_grains();
    octaves::lemma_wide();
    order::lemma_whole_exact(n);
    let (xv, rv) = (x.value(), rate.value());
    assert(b <= n * b <= 0x100_0000 * b) by (nonlinear_arith)
        requires
            1 <= n < 0x100_0000,
            b > 0,
    ;
    assert(b * power2::pow2(23) <= x.units() * rate.units() < b * power2::pow2(250))
        by (nonlinear_arith)
        requires
            b <= 3 * x.units(),
            x.units() <= 0x200_0000 * b,
            b <= rate.units() <= 0x100_0000 * b,
            0x1_0000_0000_0000_0000 * b <= power2::pow2(250),
            0x1_0000_0000_0000_0000 * power2::pow2(23) <= b,
            b > 0,
    ;
    errors::lemma_product_relative(x, rate);
    let m = x.times(rate);
    let mv = m.value();
    let exact = xv * rv;
    assert(exact > 0 && 3 * exact >= b * b && exact <= 0x2_0000_0000_0000 * (b * b))
        by (nonlinear_arith)
        requires
            exact == xv * rv,
            b <= 3 * xv,
            xv <= 0x200_0000 * b,
            b <= rv <= 0x100_0000 * b,
            b > 0,
    ;
    assert(4 * mv >= b && mv <= 0x4_0000_0000_0000 * b) by (nonlinear_arith)
        requires
            errors::near(0x100_0000 * (mv * b), 0x100_0000 * exact, exact),
            3 * exact >= b * b,
            exact <= 0x2_0000_0000_0000 * (b * b),
            b > 0,
    ;
    assert(count.units() * power2::pow2(23) <= m.units() * b && m.units() * b < count.units()
        * power2::pow2(250)) by (nonlinear_arith)
        requires
            b <= count.units() <= 0x100_0000 * b,
            b <= 4 * m.units(),
            m.units() <= 0x4_0000_0000_0000 * b,
            0x1_0000_0000_0000_0000 * b <= power2::pow2(250),
            0x1_0000_0000_0000_0000 * power2::pow2(23) <= b,
            b > 0,
    ;
    errors::lemma_quotient_relative(m, count);
    let f = m.over(count).value();
    assert(f * (n * b) == f * n * b) by (nonlinear_arith);
}

/// A pitch that is found lies where its refined bin does: its frequency times the window's
/// length is the bin, and the offset that the neighbours give it, times the sample rate,
/// up to rounding. So a left neighbour above the right one makes it lower than the bin.
pub proof fn law_frequency_follows_refined_bin(
    a: Analyzer,
    power_lo: Single,
    power_hi: Single,
)
    requires
        a.wf(),
        1 <= a.fft_size < 0x100_0000,
        octaves::usual_rate(a.sample_rate),
        a.fundamental_in(power_lo, power_hi) is Some,
        ({
            let (k, floor) = (bin_found(a, power_lo, power_hi), pitch::noise_floor(a));
            vertex::peaked(
                pitch::score_of(a.db@, (k - 1) as nat, floor),
                pitch::score_of(a.db@, k, floor),
                pitch::score_of(a.db@, k + 1, floor),
            )
        }),
    ensures
        ({
            let b = errors::big();
            let (k, floor) = (bin_found(a, power_lo, power_hi), pitch::noise_floor(a));
            let offset = pitch::lean(
                pitch::score_of(a.db@, (k - 1) as nat, floor),
                pitch::score_of(a.db@, k, floor),
                pitch::score_of(a.db@, k + 1, floor),
            ).value();
            let f = a.fundamental_in(power_lo, power_hi)->0.freq;
            let exact = (k * b + offset) * a.sample_rate.value();
            &&& f.finite()
            &&& k >= 1
            &&& exact > 0
            &&& errors::near(
                0x100_0000 * (f.value() * a.fft_size * b),
                0x100_0000 * exact,
                5 * exact,
            )
        }),
{
    let (k, floor) = (bin_found(a, power_lo, power_hi), pitch::noise_floor(a));
    let (l, c, r) = (
        pitch::score_of(a.db@, (k - 1) as nat, floor),
        pitch::score_of(a.db@, k, floor),
        pitch::score_of(a.db@, k + 1, floor),
    );
    lemma_bin_found(a, power_lo, power_hi);
    vertex::lemma_lean_bounds(l, c, r);
    vertex::law_peak_leans_to_higher_neighbour(l, c, r);
    lemma_refined(k, pitch::lean(l, c, r), a.fft_size as int, a.sample_rate);
}

proof fn lemma_bin_found(a: Analyzer, power_lo: Single, power_hi: Single)
    requires
        a.wf(),
        1 <= a.fft_size < 0x100_0000,
        a.fundamental_in(power_lo, power_hi) is Some,
    ensures
        1 <= bin_found(a, power_lo, power_hi) < 0x100_0000,
        pitch::best_of(
            a.db@,
            pitch::noise_floor(a),
            a.first_bin(power_lo) as nat,
            (a.last_bin(power_hi) + 1) as nat,
        ).1 == pitch::score_of(
            a.db@,
            bin_found(a, power_lo, power_hi),
            pitch::noise_floor(a),
        ),
{
    let floor = pitch::noise_floor(a);
    let (lo, hi) = (a.first_bin(power_lo), a.last_bin(power_hi));
    pitch::law_best_is_first_maximum(a.db@, floor, lo as nat, (hi + 1) as nat, lo as nat);
}

/// The frequency of a refined bin, computed.
proof fn lemma_refined(k: nat, d: Single, n: int, rate: Single)
    requires
        1 <= k < 0x100_0000,
        d.finite(),
        -errors::big() <= 2 * d.value() <= errors::big(),
        1 <= n < 0x100_0000,
        octaves::usual_rate(rate),
    ensures
        ({
            let f = Single::whole(k as int).plus(d).times(rate).over(Single::whole(n));
            let exact = (k * errors::big() + d.value()) * rate.value();
            &&& f.finite()
            &&& exact > 0
            &&& errors::near(
                0x100_0000 * (f.value() * n * errors::big()),
                0x100_0000 * exact,
                5 * exact,
            )
        }),
{
    let b = errors::big();
    shades::lemma_grains();
    octaves::lemma_wide();
    order::lemma_whole_exact(k as int);
    let w = Single::whole(k as int);
    assert(b <= k * b <= 0x100_0000 * b) by (nonlinear_arith)
        requires
            1 <= k < 0x100_0000,
            b > 0,
    ;
    errors::lemma_sum_relative(w, d);
    let x = w.plus(d);
    let sum = k * b + d.value();
    let rv = rate.value();
    single::lemma_parts(x);
    assert(x.value() > 0);
    lemma_frequency(x, n, rate);
    let exact = sum * rv;
    let about = x.value() * rv;
    assert(exact > 0 && errors::near(0x100_0000 * about, 0x100_0000 * exact, exact))
        by (nonlinear_arith)
        requires
            errors::near(0x100_0000 * x.value(), 0x100_0000 * sum, sum),
            exact == sum * rv,
            about == x.value() * rv,
            sum > 0,
            rv > 0,
    ;
}

/// The bin that the search finds.
pub open spec fn bin_found(a: Analyzer, power_lo: Single, power_hi: Single) -> nat {
    pitch::best_of(
        a.db@,
        pitch::noise_floor(a),
        a.first_bin(power_lo) as nat,
        (a.last_bin(power_hi) + 1) as nat,
    ).0
}

} // verus!
