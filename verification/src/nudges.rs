//! What a nudge of a control does to its value: fine steps and coarse ones, as far as
//! the bounds allow.
use crate::controls::{Param, Params};
use crate::errors;
use crate::order;
use crate::rounding;
use crate::shades;
use crate::single;
use crate::single::Single;
use crate::values::{
    FIVE, FORTY, HALF, HUNDREDTH, ONE, TENTH, THREE, THREE_TENTHS, TWENTIETH, TWENTY, ZERO,
};
use vstd::arithmetic::power2;
use vstd::prelude::*;

verus! {

/// How many semitones a nudge of an end of the range stands for: an octave where it is
/// coarse.
pub open spec fn semitones(coarse: bool) -> int {
    if coarse {
        12
    } else {
        1
    }
}

/// A nudge moves the lower end of the range by its semitones, or octaves where it is
/// coarse, wherever that leaves it on the keyboard and an octave below the upper end.
/// Else it moves it as far as it goes. The upper end stays.
pub proof fn law_low_end_moves(p: Params, dir: int, coarse: bool)
    requires
        p.wf(),
    ensures
        ({
            let q = p.adjusted(Param::RangeLo, dir, coarse);
            let wanted = p.range_lo + dir * semitones(coarse);
            &&& 21 <= wanted <= p.range_hi - 12 ==> q.range_lo == wanted
            &&& wanted < 21 ==> q.range_lo == 21
            &&& wanted > p.range_hi - 12 ==> q.range_lo == p.range_hi - 12
            &&& q.range_hi == p.range_hi
        }),
{
}

/// A nudge moves the upper end of the range likewise.
pub proof fn law_high_end_moves(p: Params, dir: int, coarse: bool)
    requires
        p.wf(),
    ensures
        ({
            let q = p.adjusted(Param::RangeHi, dir, coarse);
            let wanted = p.range_hi + dir * semitones(coarse);
            &&& p.range_lo + 12 <= wanted <= 132 ==> q.range_hi == wanted
            &&& wanted > 132 ==> q.range_hi == 132
            &&& wanted < p.range_lo + 12 ==> q.range_hi == p.range_lo + 12
            &&& q.range_lo == p.range_lo
        }),
{
}

/// An octave is twelve fine nudges, and what a nudge did the opposite one undoes, where
/// the bounds leave room.
pub proof fn law_range_nudges_add_up(p: Params, dir: int, coarse: bool)
    requires
        p.wf(),
    ensures
        ({
            let far = p.adjusted(Param::RangeLo, dir, true);
            let near = p.adjusted(Param::RangeLo, 12 * dir, false);
            far == near
        }),
        p.adjusted(Param::RangeHi, dir, true) == p.adjusted(Param::RangeHi, 12 * dir, false),
        21 <= p.range_lo + 12 * dir <= p.range_hi - 12 && 21 <= p.range_lo + dir <= p.range_hi - 12
            ==> p.adjusted(Param::RangeLo, dir, coarse).adjusted(Param::RangeLo, -dir, coarse) == p,
        p.range_lo + 12 <= p.range_hi + 12 * dir <= 132 && p.range_lo + 12 <= p.range_hi + dir
            <= 132 ==> p.adjusted(Param::RangeHi, dir, coarse).adjusted(
            Param::RangeHi,
            -dir,
            coarse,
        ) == p,
{
}

/// The window's length goes up and down by powers of two from 4096 to 16384, fine or
/// coarse.
pub proof fn law_window_moves(p: Params, dir: int, coarse: bool)
    requires
        p.wf(),
    ensures
        ({
            let q = p.adjusted(Param::Fft, dir, coarse);
            &&& 12 <= p.fft_exp + dir <= 14 ==> q.fft_exp == p.fft_exp + dir
            &&& p.fft_exp + dir < 12 ==> q.fft_exp == 12
            &&& p.fft_exp + dir > 14 ==> q.fft_exp == 14
        }),
{
}

/// The speed goes up and down by one of its six grades, fine or coarse.
pub proof fn law_speed_moves(p: Params, dir: int, coarse: bool)
    requires
        p.wf(),
    ensures
        ({
            let q = p.adjusted(Param::Speed, dir, coarse);
            &&& 0 <= p.speed_idx + dir <= 5 ==> q.speed_idx == p.speed_idx + dir
            &&& p.speed_idx + dir < 0 ==> q.speed_idx == 0
            &&& p.speed_idx + dir > 5 ==> q.speed_idx == 5
        }),
{
}

/// A step of so many thousandths.
spec fn step_of(step: Single, thousandths: int) -> bool {
    &&& step.finite()
    &&& !step.negative()
    &&& errors::near(1000 * step.value(), thousandths * errors::big(), 4 * shades::grain())
}

/// The steps of the controls.
proof fn lemma_steps()
    ensures
        step_of(Single { bits: HUNDREDTH }, 10),
        step_of(Single { bits: TWENTIETH }, 50),
        step_of(Single { bits: TENTH }, 100),
        step_of(Single { bits: HALF }, 500),
        step_of(Single { bits: FIVE }, 5000),
{
    order::lemma_units_of(Single { bits: HUNDREDTH }, 0xa3_d70a, 119);
    order::lemma_units_of(Single { bits: TWENTIETH }, 0xcc_cccd, 121);
    order::lemma_units_of(Single { bits: TENTH }, 0xcc_cccd, 122);
    order::lemma_units_of(Single { bits: HALF }, 0x80_0000, 125);
    order::lemma_units_of(Single { bits: FIVE }, 0xa0_0000, 128);
    power2::lemma2_to64();
    rounding::lemma_pow2_facts(2, 119);
    rounding::lemma_pow2_facts(3, 119);
    rounding::lemma_pow2_facts(6, 119);
    rounding::lemma_pow2_facts(9, 119);
    rounding::lemma_pow2_facts(30, 119);
    rounding::lemma_pow2_facts(119, 0);
    let w = power2::pow2(119) as int;
    assert(errors::big() == 0x4000_0000 * w && shades::grain() == 512 * w);
    assert(power2::pow2(121) == 4 * w && power2::pow2(122) == 8 * w && power2::pow2(125) == 64 * w
        && power2::pow2(128) == 512 * w);
    assert(0xcc_cccd * (4 * w) == 0x333_3334 * w) by (nonlinear_arith);
    assert(0xcc_cccd * (8 * w) == 0x666_6668 * w) by (nonlinear_arith);
    assert(0x80_0000 * (64 * w) == 0x2000_0000 * w) by (nonlinear_arith);
    assert(0xa0_0000 * (512 * w) == 0x1_4000_0000 * w) by (nonlinear_arith);
}

/// A value moved into its bounds.
proof fn lemma_clamped(x: Single, lo: Single, hi: Single)
    requires
        x.finite(),
        lo.finite(),
        hi.finite(),
        lo.value() <= hi.value(),
    ensures
        x.clamped(lo, hi).finite(),
        x.clamped(lo, hi).value() == shades::held(x.value(), lo.value(), hi.value()),
{
    single::lemma_less_is_order(x, lo);
    single::lemma_less_is_order(hi, x);
}

/// A value between 0 and 40, nudged.
proof fn lemma_nudge(x: Single, dir: int, step: u32, lo: u32, hi: u32, thousandths: int)
    requires
        x.finite(),
        0 <= x.value() <= 40 * errors::big(),
        -10 <= dir <= 10,
        step_of(Single { bits: step }, thousandths),
        0 <= thousandths <= 5000,
        (Single { bits: lo }).finite(),
        (Single { bits: hi }).finite(),
        (Single { bits: lo }).value() <= (Single { bits: hi }).value(),
    ensures
        Params::nudged(x, dir, step, lo, hi).finite(),
        errors::near(
            1000 * Params::nudged(x, dir, step, lo, hi).value(),
            shades::held(
                1000 * x.value() + dir * thousandths * errors::big(),
                1000 * (Single { bits: lo }).value(),
                1000 * (Single { bits: hi }).value(),
            ),
            128 * errors::slack(),
        ),
{
    let (w, s) = (Single::whole(dir), Single { bits: step });
    let (b, g) = (errors::big(), shades::grain());
    shades::lemma_grains();
    power2::lemma2_to64();
    rounding::lemma_pow2_facts(2, 128);
    rounding::lemma_pow2_facts(3, 128);
    rounding::lemma_pow2_facts(6, 149);
    rounding::lemma_pow2_facts(7, 149);
    order::lemma_whole_exact(dir);
    let sv = s.value();
    assert(thousandths * b <= 5000 * b) by (nonlinear_arith)
        requires
            thousandths <= 5000,
            b > 0,
    ;
    assert(-10 * b <= dir * b <= 10 * b) by (nonlinear_arith)
        requires
            -10 <= dir <= 10,
            b > 0,
    ;
    assert(w.units() * s.units() < b * (64 * b)) by (nonlinear_arith)
        requires
            0 <= w.units() <= 10 * b,
            0 <= s.units() <= 6 * b,
            b > 0,
    ;
    errors::lemma_product_error(w, s, 131);
    let t = w.times(s);
    let tv = t.value();
    assert((dir * b) * sv == sv * (dir * b)) by (nonlinear_arith);
    errors::lemma_product_value(tv, sv, dir, 4 * g);
    assert(errors::near(1000 * (dir * sv), dir * thousandths * b, 40 * g)) by (nonlinear_arith)
        requires
            errors::near(1000 * sv, thousandths * b, 4 * g),
            -10 <= dir <= 10,
            g > 0,
    ;
    assert(errors::near(dir * sv, 0, 60 * b)) by (nonlinear_arith)
        requires
            -10 <= dir <= 10,
            0 <= sv <= 6 * b,
    ;
    errors::lemma_sum_error(x, t, 132);
    lemma_clamped(x.plus(t), Single { bits: lo }, Single { bits: hi });
}

/// What the settings with a point begin with.
pub proof fn lemma_initial_values()
    ensures
        (Single { bits: THREE_TENTHS }).finite(),
        errors::near(
            10 * (Single { bits: THREE_TENTHS }).value(),
            3 * errors::big(),
            errors::slack(),
        ),
        (Single { bits: TWENTY }).finite(),
        (Single { bits: TWENTY }).value() == 20 * errors::big(),
        errors::big() > 16 * errors::slack() > 0,
{
    let b = errors::big();
    shades::lemma_grains();
    power2::lemma2_to64();
    order::lemma_units_of(Single { bits: THREE_TENTHS }, 0x99_999a, 124);
    order::lemma_units_of(Single { bits: TWENTY }, 0xa0_0000, 130);
    rounding::lemma_pow2_facts(25, 124);
    rounding::lemma_pow2_facts(11, 124);
    rounding::lemma_pow2_facts(130, 19);
    assert(0xa0_0000 * power2::pow2(130) == 20 * b) by (nonlinear_arith)
        requires
            b == power2::pow2(130) * 0x8_0000,
    ;
    let w = power2::pow2(124) as int;
    assert(b == 0x200_0000 * w && errors::slack() == 2048 * w);
}

/// The bounds of the controls.
pub proof fn lemma_bounds()
    ensures
        (Single { bits: ZERO }).finite(),
        (Single { bits: ONE }).finite(),
        (Single { bits: THREE }).finite(),
        (Single { bits: FORTY }).finite(),
        (Single { bits: ZERO }).value() == 0,
        (Single { bits: ONE }).value() == errors::big(),
        (Single { bits: THREE }).value() == 3 * errors::big(),
        (Single { bits: FORTY }).value() == 40 * errors::big(),
{
    shades::lemma_constants();
    power2::lemma2_to64();
    order::lemma_units_of(Single { bits: FORTY }, 0xa0_0000, 131);
    rounding::lemma_pow2_facts(131, 18);
    assert(0xa0_0000 * power2::pow2(131) == 40 * errors::big()) by (nonlinear_arith)
        requires
            errors::big() == power2::pow2(131) * 0x4_0000,
    ;
}

/// A nudge of a control with a point in it moves it by its step, as far as the bounds
/// allow, up to rounding: smoothing by 0.01 or 0.1 between 0 and 1, the midpoint by 0.01
/// or 0.05 between 0 and 1, the steepness by 0.5 or 5 between 3 and 40.
pub proof fn law_values_move(p: Params, dir: int, coarse: bool)
    requires
        p.wf(),
        -10 <= dir <= 10,
    ensures
        moves(
            p.smooth,
            p.adjusted(Param::Smooth, dir, coarse).smooth,
            dir * if coarse {
                100int
            } else {
                10int
            },
            0,
            1,
        ),
        moves(
            p.midpoint,
            p.adjusted(Param::Midpoint, dir, coarse).midpoint,
            dir * if coarse {
                50int
            } else {
                10int
            },
            0,
            1,
        ),
        moves(
            p.steep,
            p.adjusted(Param::Steep, dir, coarse).steep,
            dir * if coarse {
                5000int
            } else {
                500int
            },
            3,
            40,
        ),
{
    shades::lemma_grains();
    lemma_bounds();
    lemma_steps();
    lemma_within(p.smooth, ZERO, ONE);
    lemma_within(p.midpoint, ZERO, ONE);
    lemma_within(p.steep, THREE, FORTY);
    if coarse {
        lemma_nudge(p.smooth, dir, TENTH, ZERO, ONE, 100);
        lemma_nudge(p.midpoint, dir, TWENTIETH, ZERO, ONE, 50);
        lemma_nudge(p.steep, dir, FIVE, THREE, FORTY, 5000);
    } else {
        lemma_nudge(p.smooth, dir, HUNDREDTH, ZERO, ONE, 10);
        lemma_nudge(p.midpoint, dir, HUNDREDTH, ZERO, ONE, 10);
        lemma_nudge(p.steep, dir, HALF, THREE, FORTY, 500);
    }
}

proof fn lemma_within(x: Single, lo: u32, hi: u32)
    requires
        !x.nan(),
        x.lies_in(Single { bits: lo }, Single { bits: hi }),
        (Single { bits: lo }).finite(),
        (Single { bits: hi }).finite(),
    ensures
        x.finite(),
        (Single { bits: lo }).value() <= x.value() <= (Single { bits: hi }).value(),
{
    assert(x.finite());
    single::lemma_less_is_order(x, Single { bits: lo });
    single::lemma_less_is_order(Single { bits: hi }, x);
}

/// `after` is `before` and so many thousandths, moved into `lo..=hi`, up to a hundred
/// thousandth.
pub open spec fn moves(before: Single, after: Single, thousandths: int, lo: int, hi: int) -> bool {
    let b = errors::big();
    &&& after.finite()
    &&& errors::near(
        1000 * after.value(),
        shades::held(1000 * before.value() + thousandths * b, 1000 * (lo * b), 1000 * (hi * b)),
        128 * errors::slack(),
    )
}

} // verus!
