//! A pitch that is found has a positive frequency.
use crate::analysis::Analyzer;
use crate::combs;
use crate::errors;
use crate::order;
use crate::pitch;
use crate::rounding;
use crate::rounding::BINADE;
use crate::single;
use crate::single::Single;
use crate::values::{FLAT, HALF, MINUS_HALF, ONE, TWO};
use vstd::arithmetic::mul;
use vstd::arithmetic::power2;
use vstd::prelude::*;

verus! {

/// A sum below 4096 is finite.
proof fn lemma_sum_finite(a: Single, b: Single)
    requires
        a.finite(),
        b.finite(),
        errors::near(a.value() + b.value(), 0, 4096 * errors::big()),
    ensures
        a.plus(b).finite(),
{
    let c = Single { bits: 0x4580_0000 };
    let v = a.value() + b.value();
    order::lemma_units_of(c, BINADE as nat, 138);
    power2::lemma2_to64();
    rounding::lemma_pow2_facts(23, 138);
    rounding::lemma_pow2_facts(149, 12);
    assert(c.units() == 4096 * errors::big());
    order::lemma_sum_place(a, b);
    order::lemma_place_increases(v, c.units() as int);
    order::lemma_place_increases(-(c.units() as int), v);
    order::lemma_nearest_of(c, 1);
}

/// A sum of numbers of which one is finite is a number.
pub proof fn lemma_sum_number(a: Single, b: Single)
    requires
        !a.nan(),
        !b.nan(),
        a.finite() || b.finite(),
    ensures
        !a.plus(b).nan(),
{
    if a.finite() && b.finite() {
        order::lemma_sum_place(a, b);
    } else {
        reveal(Single::plus);
    }
}

/// A product of finite values is a number.
pub proof fn lemma_product_number(a: Single, b: Single)
    requires
        a.finite(),
        b.finite(),
    ensures
        !a.times(b).nan(),
{
    reveal(Single::times);
    rounding::lemma_pow2_facts(149, 0);
    let n = a.units() * b.units();
    order::lemma_nearest_increases(n, n, power2::pow2(149));
}

/// Half of a finite value is finite.
proof fn lemma_halved(d: Single)
    requires
        d.finite(),
    ensures
        (Single { bits: HALF }).times(d).finite(),
{
    reveal(Single::times);
    let (half, one) = (Single { bits: HALF }, Single { bits: ONE });
    let big = power2::pow2(149);
    let m = half.units() * d.units();
    order::lemma_one();
    single::lemma_units_increase(half, one);
    assert(m <= d.units() * big) by (nonlinear_arith)
        requires
            m == half.units() * d.units(),
            half.units() <= big,
    ;
    order::lemma_nearest_increases(m, d.units() * big, big);
    order::lemma_nearest_of(d, big);
}

/// A finite value over a number that is not zero is a number.
proof fn lemma_quotient_number(a: Single, b: Single)
    requires
        a.finite(),
        !b.nan(),
        !b.zero(),
    ensures
        !a.over(b).nan(),
{
    reveal(Single::over);
    if b.finite() {
        single::lemma_parts(b);
        let q = a.units() * power2::pow2(149);
        order::lemma_nearest_increases(q, q, b.units());
    }
}

/// The peak of the parabola through three scores is a number.
proof fn lemma_lean_number(yl: Single, yc: Single, yr: Single)
    requires
        yl.finite(),
        yc.finite(),
        yr.finite(),
        errors::near(yl.value(), 0, 1600 * errors::big()),
        errors::near(yr.value(), 0, 1600 * errors::big()),
    ensures
        pitch::lean(yl, yc, yr).finite(),
        pitch::lean(yl, yc, yr).rank() >= (Single { bits: MINUS_HALF }).rank(),
{
    let (two, half) = (Single { bits: TWO }, Single { bits: HALF });
    lemma_product_number(two, yc);
    let t = two.times(yc);
    lemma_sum_number(yl, t.negated());
    lemma_sum_number(yl.minus(t), yr);
    let denom = yl.minus(t).plus(yr);
    errors::lemma_scales();
    assert(yr.negated().value() == -yr.value());
    lemma_sum_finite(yl, yr.negated());
    let num = half.times(yl.minus(yr));
    lemma_halved(yl.minus(yr));
    if (Single { bits: FLAT }).less(Single::of(false, denom.magnitude())) {
        lemma_quotient_number(num, denom);
    }
}

/// A whole number from 1 on, moved down by at most a half, is a half or more.
proof fn lemma_place_positive(k: int, delta: Single)
    requires
        1 <= k < 0x100_0000,
        delta.finite(),
        delta.rank() >= (Single { bits: MINUS_HALF }).rank(),
    ensures
        !Single::whole(k).plus(delta).nan(),
        Single::whole(k).plus(delta).rank() >= (Single { bits: HALF }).rank(),
{
    let (one, half, minus) = (
        Single { bits: ONE },
        Single { bits: HALF },
        Single { bits: MINUS_HALF },
    );
    let w = Single::whole(k);
    order::lemma_one();
    order::lemma_whole_exact(k);
    order::lemma_whole_exact(1);
    mul::lemma_mul_inequality(1, k, errors::big());
    single::lemma_less_is_order(w, one);
    order::lemma_plus_commutes(w, delta);
    order::lemma_plus_commutes(w, minus);
    order::lemma_plus_increases(minus, delta, w);
    order::lemma_plus_increases(one, w, minus);
    order::lemma_units_of(half, BINADE as nat, 125);
    order::lemma_units_of(minus, BINADE as nat, 125);
    order::lemma_units_of(one, BINADE as nat, 126);
    rounding::lemma_pow2_facts(125, 0);
    assert(0x80_0000 * power2::pow2(126) == 2 * (0x80_0000 * power2::pow2(125))) by (nonlinear_arith)
        requires
            power2::pow2(126) == 2 * power2::pow2(125),
    ;
    order::lemma_sum_exact(one, minus, half);
}

/// Times a rate, over a window's length, such a place is positive.
proof fn lemma_frequency_positive(x: Single, rate: Single, size: int)
    requires
        !x.nan(),
        x.rank() >= (Single { bits: HALF }).rank(),
        rate.finite(),
        rate.rank() >= (Single { bits: ONE }).rank(),
        1 <= size < 0x100_0000,
    ensures
        !x.times(rate).over(Single::whole(size)).nan(),
        x.times(rate).over(Single::whole(size)).rank() > 0,
{
    let (one, half) = (Single { bits: ONE }, Single { bits: HALF });
    let y = x.times(rate);
    order::lemma_one();
    if x.finite() {
        order::lemma_times_increases(half, x, rate);
        order::lemma_times_commutes(half, rate);
        order::lemma_times_increases(one, rate, half);
        order::lemma_one_times(half);
    } else {
        reveal(Single::times);
    }
    assert(!y.nan() && y.rank() >= half.rank());
    reveal(Single::over);
    let big = power2::pow2(149);
    let d = Single::whole(size);
    order::lemma_whole_exact(size);
    assert(size * big > 0) by (nonlinear_arith)
        requires
            size >= 1,
            big > 0,
    ;
    single::lemma_parts(d);
    if y.finite() {
        order::lemma_units_of(half, BINADE as nat, 125);
        if half.magnitude() < y.magnitude() {
            single::lemma_units_increase(half, y);
        }
        power2::lemma2_to64();
        rounding::lemma_pow2_facts(23, 125);
        rounding::lemma_pow2_facts(24, 148);
        assert(y.units() >= 0x100_0000) by {
            assert(half.units() == power2::pow2(148));
        }
        assert(y.units() * big >= 1 * d.units()) by (nonlinear_arith)
            requires
                y.units() >= 0x100_0000,
                d.units() == size * big,
                size < 0x100_0000,
                big > 0,
        ;
        order::lemma_nearest_increases(1 * d.units(), y.units() * big, d.units());
        rounding::lemma_nearest_scale(1, 1, d.units());
        rounding::lemma_nearest_exact(1, 0);
        assert(1nat * power2::pow2(0) == 1);
    }
}

/// A pitch that is found has a positive frequency, whatever its level is.
pub proof fn law_found_frequency_positive(a: Analyzer, power_lo: Single, power_hi: Single)
    requires
        a.wf(),
        1 <= a.fft_size < 0x100_0000,
        combs::tame_levels(a.db@, pitch::noise_floor(a)),
        a.sample_rate.finite(),
        a.sample_rate.rank() >= (Single { bits: ONE }).rank(),
    ensures
        a.fundamental_in(power_lo, power_hi) matches Some(c) ==> !c.freq.nan() && c.freq.rank()
            > 0,
{
    let floor = pitch::noise_floor(a);
    let (lo, hi) = (a.first_bin(power_lo), a.last_bin(power_hi));
    let (k, s) = pitch::best_of(a.db@, floor, lo as nat, (hi + 1) as nat);
    if a.fundamental_in(power_lo, power_hi) is Some {
        pitch::law_best_is_first_maximum(a.db@, floor, lo as nat, (hi + 1) as nat, lo as nat);
        combs::lemma_score(a.db@, (k - 1) as nat, floor);
        combs::lemma_score(a.db@, k, floor);
        combs::lemma_score(a.db@, k + 1, floor);
        let delta = pitch::lean(
            pitch::score_of(a.db@, (k - 1) as nat, floor),
            s,
            pitch::score_of(a.db@, k + 1, floor),
        );
        lemma_lean_number(
            pitch::score_of(a.db@, (k - 1) as nat, floor),
            s,
            pitch::score_of(a.db@, k + 1, floor),
        );
        lemma_place_positive(k as int, delta);
        lemma_frequency_positive(
            Single::whole(k as int).plus(delta),
            a.sample_rate,
            a.fft_size as int,
        );
    }
}

} // verus!
