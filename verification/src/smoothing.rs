//! What the smoothing remembers: full smoothing keeps what was heard, a new window
//! length forgets it.
use crate::analysis;
use crate::analysis::{Analyzer, Band, Tones};
use crate::errors;
use crate::order;
use crate::rounding;
use crate::shades;
use crate::single;
use crate::single::Single;
use crate::values::{HUNDRED, MINUS_200, MINUS_TEN, MINUS_TWO, ONE, TINY, TWENTY, TWO, ZERO};
use vstd::arithmetic::power2;
use vstd::prelude::*;

verus! {

/// Full smoothing ignores a frame: what was heard before stays.
pub proof fn law_full_smoothing_ignores_frame(old_size: Single, size: Single, sum: Single)
    requires
        old_size.finite(),
        size.times((Single { bits: TWO }).over(sum)).finite(),
    ensures
        analysis::blended(old_size, size, Single { bits: ONE }, sum).equals(old_size),
{
    let (zero, one) = (Single { bits: ZERO }, Single { bits: ONE });
    let fresh = size.times((Single { bits: TWO }).over(sum));
    order::lemma_one();
    single::lemma_parts(zero);
    order::lemma_sum_exact(one, one.negated(), zero);
    let rest = one.minus(one);
    order::lemma_times_nothing(fresh, rest);
    order::lemma_times_commutes(fresh, rest);
    let nothing = rest.times(fresh);
    single::lemma_parts(nothing);
    order::lemma_one_times(old_size);
    order::lemma_sum_exact(old_size, nothing, old_size);
}

/// The magnitudes whose logarithms are taken.
pub open spec fn audible_of(a: Analyzer) -> Seq<Single> {
    a.smoothed@.map_values(|m: Single| m.larger(Single { bits: TINY }))
}

/// `c` is what a frame with full smoothing makes of `b`.
pub open spec fn fully_smoothed(b: Analyzer, sizes: Seq<Single>, c: Analyzer) -> bool {
    &&& c == (Analyzer { smoothed: c.smoothed, ..b })
    &&& c.smoothed@.len() == b.smoothed@.len()
    &&& forall|i: int|
        0 <= i < b.smoothed@.len() ==> #[trigger] c.smoothed@[i] == analysis::blended(
            b.smoothed@[i],
            sizes[i],
            Single { bits: ONE },
            b.window_sum,
        )
}

/// The sizes of a frame and what was heard are finite.
pub open spec fn tame(b: Analyzer, sizes: Seq<Single>) -> bool {
    &&& sizes.len() == b.smoothed@.len()
    &&& forall|i: int| 0 <= i < sizes.len() ==> (#[trigger] sizes[i]).times(
        (Single { bits: TWO }).over(b.window_sum),
    ).finite()
    &&& forall|i: int| 0 <= i < b.smoothed@.len() ==> (#[trigger] b.smoothed@[i]).finite()
}

proof fn lemma_audible_stays(b: Analyzer, sizes: Seq<Single>, c: Analyzer)
    requires
        tame(b, sizes),
        fully_smoothed(b, sizes, c),
    ensures
        audible_of(c) == audible_of(b),
{
    assert forall|i: int| 0 <= i < b.smoothed@.len() implies audible_of(c)[i] == audible_of(
        b,
    )[i] by {
        let (x, y) = (b.smoothed@[i], c.smoothed@[i]);
        let s = sizes[i];
        law_full_smoothing_ignores_frame(x, s, b.window_sum);
        assert(y.rank() == x.rank());
    }
    assert(audible_of(c) =~= audible_of(b));
}

/// The row that the bands show, where `log` is the decimal logarithm and `ten` the
/// power of ten.
pub open spec fn row_of(
    a: Analyzer,
    log: spec_fn(Single) -> Single,
    ten: spec_fn(Single) -> Single,
) -> Seq<Single> {
    let db = audible_of(a).map_values(|m: Single| analysis::decibels(log(m)));
    a.bands@.map_values(
        |b: Band|
            ten(analysis::loudness(analysis::band_level(db, b))).larger(Single { bits: ZERO }),
    )
}

/// Making the same bands anew at the same window length keeps the smoothing: a frame
/// with full smoothing after it gives the row that was there before.
pub proof fn law_smoothing_survives(
    a: Analyzer,
    b: Analyzer,
    lo: int,
    hi: int,
    tones: Seq<Tones>,
    sizes: Seq<Single>,
    c: Analyzer,
    log: spec_fn(Single) -> Single,
    ten: spec_fn(Single) -> Single,
)
    requires
        b.smoothed == a.smoothed,
        b.fft_size == a.fft_size,
        b.sample_rate == a.sample_rate,
        a.banded(lo, hi, tones),
        b.banded(lo, hi, tones),
        tame(b, sizes),
        fully_smoothed(b, sizes, c),
    ensures
        audible_of(c) == audible_of(a),
        row_of(c, log, ten) == row_of(a, log, ten),
{
    lemma_audible_stays(b, sizes, c);
    assert(a.bands@ =~= b.bands@);
}

/// A new window length starts from silence: a frame with full smoothing after it
/// hears nothing in any bin.
pub proof fn law_new_length_starts_silent(b: Analyzer, sizes: Seq<Single>, c: Analyzer, i: int)
    requires
        b.silent(),
        tame(b, sizes),
        fully_smoothed(b, sizes, c),
        0 <= i < c.smoothed@.len(),
    ensures
        audible_of(c)[i] == (Single { bits: TINY }),
{
    lemma_audible_stays(b, sizes, c);
    assert(b.smoothed@[i] == (Single { bits: ZERO }));
    assert(audible_of(b)[i] == (Single { bits: TINY }));
}

/// The sum of so many levels of -200 dB.
proof fn lemma_silent_sum(bins: Seq<Single>)
    requires
        bins.len() <= 0x1_0001,
        forall|i: int| 0 <= i < bins.len() ==> #[trigger] bins[i] == (Single { bits: MINUS_200 }),
    ensures
        analysis::level_sum(bins).finite(),
        analysis::level_sum(bins).value() == -200 * bins.len() * errors::big(),
    decreases bins.len(),
{
    let b = errors::big();
    let n = bins.len() as int;
    shades::lemma_grains();
    lemma_levels();
    if n == 0 {
        single::lemma_parts(Single { bits: ZERO });
        assert(-200 * 0 * b == 0);
    } else {
        let rest = bins.drop_last();
        lemma_silent_sum(rest);
        order::lemma_whole_exact(-200 * n);
        assert(-200 * n * b == -200 * (n - 1) * b - 200 * b) by (nonlinear_arith);
        order::lemma_sum_exact(
            analysis::level_sum(rest),
            Single { bits: MINUS_200 },
            Single::whole(-200 * n),
        );
    }
}

/// The levels that silence has.
proof fn lemma_levels()
    ensures
        (Single { bits: MINUS_200 }).finite(),
        (Single { bits: MINUS_200 }).value() == -200 * errors::big(),
        (Single { bits: MINUS_TEN }).finite(),
        (Single { bits: MINUS_TEN }).value() == -10 * errors::big(),
        (Single { bits: MINUS_TWO }).finite(),
        (Single { bits: MINUS_TWO }).value() == -2 * errors::big(),
        (Single { bits: TWENTY }).finite(),
        (Single { bits: TWENTY }).value() == 20 * errors::big(),
        (Single { bits: HUNDRED }).finite(),
        (Single { bits: HUNDRED }).value() == 100 * errors::big(),
{
    let b = errors::big();
    power2::lemma2_to64();
    order::lemma_units_of(Single { bits: MINUS_200 }, 0xc8_0000, 133);
    order::lemma_units_of(Single { bits: HUNDRED }, 0xc8_0000, 132);
    order::lemma_units_of(Single { bits: TWENTY }, 0xa0_0000, 130);
    order::lemma_units_of(Single { bits: MINUS_TEN }, 0xa0_0000, 129);
    order::lemma_units_of(Single { bits: MINUS_TWO }, 0x80_0000, 127);
    rounding::lemma_pow2_facts(133, 16);
    rounding::lemma_pow2_facts(132, 17);
    rounding::lemma_pow2_facts(130, 19);
    rounding::lemma_pow2_facts(129, 20);
    rounding::lemma_pow2_facts(127, 22);
    assert(0xc8_0000 * power2::pow2(133) == 200 * b) by (nonlinear_arith)
        requires
            b == power2::pow2(133) * 0x1_0000,
    ;
    assert(0xc8_0000 * power2::pow2(132) == 100 * b) by (nonlinear_arith)
        requires
            b == power2::pow2(132) * 0x2_0000,
    ;
    assert(0xa0_0000 * power2::pow2(130) == 20 * b) by (nonlinear_arith)
        requires
            b == power2::pow2(130) * 0x8_0000,
    ;
    assert(0xa0_0000 * power2::pow2(129) == 10 * b) by (nonlinear_arith)
        requires
            b == power2::pow2(129) * 0x10_0000,
    ;
    assert(0x80_0000 * power2::pow2(127) == 2 * b) by (nonlinear_arith)
        requires
            b == power2::pow2(127) * 0x40_0000,
    ;
}

/// The mean of levels of -200 dB is -200 dB.
proof fn lemma_silent_mean(bins: Seq<Single>)
    requires
        0 < bins.len() <= 0x1_0001,
        forall|i: int| 0 <= i < bins.len() ==> #[trigger] bins[i] == (Single { bits: MINUS_200 }),
    ensures
        analysis::level_sum(bins).over(Single::whole(bins.len() as int)) == (Single {
            bits: MINUS_200,
        }),
{
    reveal(Single::over);
    let (b, n) = (errors::big(), bins.len() as int);
    let (sum, count) = (analysis::level_sum(bins), Single::whole(n));
    let silence = Single { bits: MINUS_200 };
    shades::lemma_grains();
    lemma_levels();
    lemma_silent_sum(bins);
    order::lemma_whole_exact(n);
    assert(n * b > 0 && -200 * n * b == -(200 * n * b) && 200 * n * b > 0) by (nonlinear_arith)
        requires
            n > 0,
            b > 0,
    ;
    single::lemma_parts(sum);
    single::lemma_parts(count);
    order::lemma_nearest_of(silence, count.units());
    assert(sum.units() * power2::pow2(149) == silence.units() * count.units()) by (nonlinear_arith)
        requires
            sum.units() == 200 * n * b,
            silence.units() == 200 * b,
            count.units() == n * b,
            power2::pow2(149) == b,
    ;
}

/// The band value of -200 dB is ten to the power of -2.
proof fn lemma_silent_loudness()
    ensures
        (Single { bits: TWENTY }).times(Single { bits: MINUS_TEN }) == (Single {
            bits: MINUS_200,
        }),
        analysis::loudness(Single { bits: MINUS_200 }) == (Single { bits: MINUS_TWO }),
{
    reveal(Single::times);
    reveal(Single::over);
    let (silence, hundred, one) = (
        Single { bits: MINUS_200 },
        Single { bits: HUNDRED },
        Single { bits: ONE },
    );
    let b = errors::big();
    shades::lemma_grains();
    shades::lemma_constants();
    lemma_levels();
    order::lemma_nearest_of(silence, power2::pow2(149));
    assert((20 * b) * (10 * b) == (200 * b) * b) by (nonlinear_arith);
    let minus = hundred.negated();
    assert(minus.units() == hundred.units());
    order::lemma_sum_exact(silence, hundred, minus);
    single::lemma_parts(hundred);
    order::lemma_nearest_of(one.negated(), hundred.units());
    assert(one.negated().units() == one.units());
    assert(hundred.units() * power2::pow2(149) == one.units() * hundred.units())
        by (nonlinear_arith)
        requires
            one.units() == power2::pow2(149),
    ;
    assert(minus.over(hundred) == one.negated());
    order::lemma_sum_exact(one.negated(), one.negated(), Single { bits: MINUS_TWO });
}

/// After a new window length a frame with full smoothing shows the same faint value
/// everywhere: ten to the power of -2, where the decimal logarithm of the least
/// magnitude is -10.
pub proof fn law_new_length_shows_silence(
    b: Analyzer,
    sizes: Seq<Single>,
    c: Analyzer,
    log: spec_fn(Single) -> Single,
    ten: spec_fn(Single) -> Single,
    i: int,
)
    requires
        b.wf(),
        b.silent(),
        b.fft_size <= 0x2_0000,
        tame(b, sizes),
        fully_smoothed(b, sizes, c),
        log(Single { bits: TINY }) == (Single { bits: MINUS_TEN }),
        0 <= i < c.bands@.len(),
    ensures
        row_of(c, log, ten)[i] == ten(Single { bits: MINUS_TWO }).larger(Single { bits: ZERO }),
        shows_hundredth(ten(Single { bits: MINUS_TWO })) ==> shows_hundredth(
            row_of(c, log, ten)[i],
        ),
{
    let band = c.bands@[i];
    let db = audible_of(c).map_values(|m: Single| analysis::decibels(log(m)));
    assert(analysis::fits(band, b.fft_size as nat));
    let bins = db.subrange(band.bin_lo as int, band.bin_hi + 1);
    lemma_silent_loudness();
    assert forall|j: int| 0 <= j < bins.len() implies #[trigger] bins[j] == (Single {
        bits: MINUS_200,
    }) by {
        law_new_length_starts_silent(b, sizes, c, band.bin_lo + j);
    }
    lemma_silent_mean(bins);
    assert(analysis::band_level(db, band) == (Single { bits: MINUS_200 }));
    let faint = ten(Single { bits: MINUS_TWO });
    if shows_hundredth(faint) {
        shades::lemma_grains();
        single::lemma_parts(Single { bits: ZERO });
        single::lemma_less_is_order(faint, Single { bits: ZERO });
        single::lemma_less_is_order(Single { bits: ZERO }, faint);
    }
}

/// Within a millionth of 0.01.
pub open spec fn shows_hundredth(x: Single) -> bool {
    x.finite() && errors::near(1_000_000 * x.value(), 10_000 * errors::big(), errors::big())
}

} // verus!
