//! The contrast curve: half way up at the midpoint, and never darker for a louder
//! sound.
use crate::analysis;
use crate::analysis::Band;
use crate::color;
use crate::color::{ColorMap, SIG_STEPS, VAL_STEPS};
use crate::order;
use crate::rounding;
use crate::rounding::BINADE;
use crate::single;
use crate::single::Single;
use crate::values::{HALF, ONE, THREE_TENTHS, TWENTY, TWO, ZERO};
use vstd::arithmetic::mul;
use vstd::arithmetic::power2;
use vstd::prelude::*;

verus! {

/// A larger divisor makes no larger a quotient.
proof fn lemma_nearest_falls(n: nat, d: nat, e: nat)
    requires
        0 < d <= e,
    ensures
        rounding::nearest(n, e) <= rounding::nearest(n, d),
{
    rounding::lemma_nearest_scale(n, e, d);
    rounding::lemma_nearest_scale(n, d, e);
    mul::lemma_mul_is_commutative(d as int, e as int);
    mul::lemma_mul_inequality(d as int, e as int, n as int);
    mul::lemma_mul_is_commutative(n as int, d as int);
    mul::lemma_mul_is_commutative(n as int, e as int);
    mul::lemma_mul_strictly_positive(d as int, e as int);
    order::lemma_nearest_increases(n * d, n * e, d * e);
}

/// The curve falls with the exponential, from 1 to 0.
pub proof fn law_curve_falls(small: Single, large: Single)
    requires
        !small.nan(),
        !large.nan(),
        0 <= small.rank() <= large.rank(),
    ensures
        ({
            let (high, low) = (analysis::curve(small), analysis::curve(large));
            &&& high.finite()
            &&& low.finite()
            &&& 0 <= low.rank() <= high.rank() <= (Single { bits: ONE }).rank()
        }),
{
    lemma_falls(small, large);
    lemma_falls(Single { bits: ZERO }, small);
    let (zero, one) = (Single { bits: ZERO }, Single { bits: ONE });
    order::lemma_one();
    single::lemma_parts(zero);
    order::lemma_sum_exact(one, zero, one);
    order::lemma_over_itself(one);
}

proof fn lemma_falls(small: Single, large: Single)
    requires
        !small.nan(),
        !large.nan(),
        0 <= small.rank() <= large.rank(),
    ensures
        !analysis::curve(small).nan(),
        !analysis::curve(large).nan(),
        0 <= analysis::curve(large).rank() <= analysis::curve(small).rank(),
{
    reveal(Single::over);
    let (zero, one) = (Single { bits: ZERO }, Single { bits: ONE });
    let big = power2::pow2(149);
    order::lemma_one();
    lemma_divisor(small);
    lemma_divisor(large);
    let (d, e) = (one.plus(small), one.plus(large));
    if !large.infinite() {
        single::lemma_parts(zero);
        order::lemma_plus_increases(small, large, one);
        order::lemma_plus_commutes(one, small);
        order::lemma_plus_commutes(one, large);
    }
    assert(d.rank() <= e.rank());
    if !d.infinite() && !e.infinite() {
        if d.magnitude() < e.magnitude() {
            single::lemma_units_increase(d, e);
        }
        lemma_nearest_falls(big * big, d.units(), e.units());
        order::lemma_nearest_increases(big * big, big * big, d.units());
    } else if !d.infinite() {
        order::lemma_nearest_increases(big * big, big * big, d.units());
    }
}

/// One and something that is not negative make one or more.
proof fn lemma_divisor(x: Single)
    requires
        !x.nan(),
        x.rank() >= 0,
    ensures
        ({
            let d = (Single { bits: ONE }).plus(x);
            &&& !d.nan()
            &&& !d.negative()
            &&& d.rank() >= (Single { bits: ONE }).rank()
            &&& d.finite() ==> d.units() > 0
            &&& x.infinite() ==> d.infinite()
        }),
{
    let (zero, one) = (Single { bits: ZERO }, Single { bits: ONE });
    order::lemma_one();
    single::lemma_parts(zero);
    if x.infinite() {
        reveal(Single::plus);
    } else {
        order::lemma_plus_increases(zero, x, one);
        order::lemma_sum_exact(zero, one, one);
        order::lemma_plus_commutes(one, x);
        let d = one.plus(x);
        if d.finite() {
            single::lemma_parts(d);
        }
    }
}

/// A larger exponential makes no brighter a step of the contrast table.
pub proof fn law_level_falls(small: Single, large: Single)
    requires
        !small.nan(),
        !large.nan(),
        0 <= small.rank() <= large.rank(),
    ensures
        color::level_of(large) <= color::level_of(small),
{
    let (high, low) = (analysis::curve(small), analysis::curve(large));
    let top = Single::whole(VAL_STEPS - 1);
    let one = Single { bits: ONE };
    law_curve_falls(small, large);
    order::lemma_whole_exact(VAL_STEPS - 1);
    order::lemma_times_increases(low, high, top);
    order::lemma_times_increases(high, one, top);
    order::lemma_one_times(top);
    order::lemma_round_within_increases(low.times(top), high.times(top), 0, 255);
}

/// Through the contrast table a louder sound is never darker, as long as the
/// exponentials fall from step to step, as those of falling exponents do.
pub proof fn law_louder_not_darker(
    lut: Seq<u8>,
    exponentials: Seq<Single>,
    quiet: Single,
    loud: Single,
    pink: Single,
)
    requires
        lut.len() == SIG_STEPS,
        exponentials.len() == SIG_STEPS,
        forall|i: int| 0 <= i < SIG_STEPS ==> #[trigger] lut[i] == color::level_of(exponentials[i]),
        forall|i: int| 0 <= i < SIG_STEPS ==> !(#[trigger] exponentials[i]).nan(),
        forall|i: int, j: int|
            0 <= i <= j < SIG_STEPS ==> 0 <= (#[trigger] exponentials[j]).rank() <= (
            #[trigger] exponentials[i]).rank(),
        quiet.finite(),
        loud.finite(),
        pink.finite(),
        quiet.rank() <= loud.rank(),
    ensures
        lut[color::step_of(quiet, pink)] <= lut[color::step_of(loud, pink)],
{
    let (i, j) = (color::step_of(quiet, pink), color::step_of(loud, pink));
    color::law_step_in_table(quiet, pink);
    color::law_step_in_table(loud, pink);
    color::law_louder_not_lower(quiet, loud, pink);
    law_level_falls(exponentials[j], exponentials[i]);
}

/// At the midpoint the exponent is zero; its exponential is one, and with it the
/// curve is half way up.
pub proof fn law_midpoint_is_half(midpoint: Single, steep: Single)
    requires
        midpoint.finite(),
        steep.finite(),
    ensures
        analysis::curve_exponent(midpoint, midpoint, steep).zero(),
        analysis::curve(Single { bits: ONE }) == (Single { bits: HALF }),
{
    lemma_nothing_left(midpoint);
    order::lemma_times_nothing(steep.negated(), midpoint.minus(midpoint));
    lemma_one_half();
}

proof fn lemma_nothing_left(x: Single)
    requires
        x.finite(),
    ensures
        x.minus(x).zero(),
{
    reveal(Single::plus);
    assert(x.negated().magnitude() == x.magnitude());
    assert(x.negated().units() == x.units());
}

proof fn lemma_one_half()
    ensures
        analysis::curve(Single { bits: ONE }) == (Single { bits: HALF }),
{
    reveal(Single::over);
    let (one, two, half) = (Single { bits: ONE }, Single { bits: TWO }, Single { bits: HALF });
    let big = power2::pow2(149);
    order::lemma_one();
    order::lemma_units_of(half, BINADE as nat, 125);
    order::lemma_units_of(two, BINADE as nat, 127);
    power2::lemma2_to64();
    rounding::lemma_pow2_facts(23, 126);
    rounding::lemma_pow2_facts(125, 1);
    rounding::lemma_pow2_facts(126, 1);
    let w = power2::pow2(125);
    assert(power2::pow2(126) == 2 * w && power2::pow2(127) == 4 * w);
    assert(big == 0x80_0000 * (2 * w));
    assert(half.units() == 0x80_0000 * w && two.units() == 0x80_0000 * (4 * w));
    order::lemma_sum_exact(one, one, two);
    order::lemma_nearest_of(half, 2 * big);
    assert(half.units() * (2 * big) == big * big) by (nonlinear_arith)
        requires
            2 * half.units() == big,
    ;
}

/// The exponentials that a table for these knobs is made of.
pub open spec fn raised(exp: spec_fn(Single) -> Single, midpoint: Single, steep: Single) -> Seq<
    Single,
> {
    Seq::new(
        SIG_STEPS as nat,
        |i: int| exp(analysis::curve_exponent(color::step_value(i), midpoint, steep)),
    )
}

/// A table that goes with its knobs, where `exp` is the exponential.
pub open spec fn made_by(map: ColorMap, exp: spec_fn(Single) -> Single) -> bool {
    map.tabulates(raised(exp, map.midpoint, map.steep))
}

/// Equal numbers, as both zeros are, have one exponential.
pub open spec fn respects_zeros(exp: spec_fn(Single) -> Single) -> bool {
    forall|x: Single, y: Single| x.equals(y) ==> #[trigger] exp(x) == #[trigger] exp(y)
}

/// Equal numbers other than zero are the same.
proof fn lemma_same_bits(a: Single, b: Single)
    requires
        a.equals(b),
        !a.zero(),
    ensures
        a == b,
{
    assert(a.magnitude() == b.magnitude() && a.negative() == b.negative());
    assert(a.bits == b.bits);
}

/// Equal midpoints lie equally far away.
proof fn lemma_equal_distance(x: Single, m: Single, n: Single)
    requires
        x.finite(),
        m.equals(n),
    ensures
        x.minus(m).equals(x.minus(n)),
{
    if m.finite() {
        single::lemma_parts(m);
        single::lemma_parts(n);
        let (a, b) = (m.negated(), n.negated());
        assert(a.units() == m.units() && b.units() == n.units());
        assert(a.value() == b.value());
        order::lemma_sum_place(x, a);
        order::lemma_sum_place(x, b);
    } else {
        reveal(Single::plus);
        lemma_same_bits(m, n);
    }
}

/// Equal numbers have equal products, or none that is a number.
proof fn lemma_equal_products(c: Single, d: Single, u: Single, v: Single)
    requires
        c.equals(d),
        u.equals(v),
    ensures
        c.times(u).nan() || c.times(u).equals(d.times(v)),
        c.times(u).nan() ==> c.times(u) == d.times(v),
{
    if !c.zero() && !u.zero() {
        lemma_same_bits(c, d);
        lemma_same_bits(u, v);
    } else if c.finite() && u.finite() {
        if u.zero() {
            order::lemma_times_nothing(c, u);
            order::lemma_times_nothing(d, v);
        } else {
            order::lemma_times_nothing(u, c);
            order::lemma_times_nothing(v, d);
            order::lemma_times_commutes(u, c);
            order::lemma_times_commutes(v, d);
        }
    } else {
        reveal(Single::times);
    }
}

/// Equal knobs make equal exponents.
proof fn lemma_equal_exponents(x: Single, m: Single, s: Single, n: Single, t: Single)
    requires
        x.finite(),
        m.equals(n),
        s.equals(t),
    ensures
        analysis::curve_exponent(x, m, s).nan() || analysis::curve_exponent(x, m, s).equals(
            analysis::curve_exponent(x, n, t),
        ),
        analysis::curve_exponent(x, m, s).nan() ==> analysis::curve_exponent(x, m, s)
            == analysis::curve_exponent(x, n, t),
{
    lemma_equal_distance(x, m, n);
    let (c, d) = (s.negated(), t.negated());
    assert(c.rank() == -s.rank() && d.rank() == -t.rank());
    lemma_equal_products(c, d, x.minus(m), x.minus(n));
}

/// The values that the steps stand for are finite.
proof fn lemma_step_finite(i: int)
    requires
        0 <= i < SIG_STEPS,
    ensures
        color::step_value(i).finite(),
{
    reveal(Single::over);
    let (part, all, one) = (Single::whole(i), Single::whole(SIG_STEPS - 1), Single { bits: ONE });
    let big = power2::pow2(149);
    order::lemma_one();
    order::lemma_whole_exact(i);
    order::lemma_whole_exact(SIG_STEPS - 1);
    mul::lemma_mul_inequality(i, SIG_STEPS - 1, big as int);
    assert(part.units() == i * big && all.units() == 2047 * big);
    single::lemma_parts(all);
    mul::lemma_mul_inequality(part.units() as int, all.units() as int, big as int);
    order::lemma_nearest_increases(part.units() * big, all.units() * big, all.units());
    mul::lemma_mul_is_commutative(all.units() as int, big as int);
    order::lemma_nearest_of(one, all.units());
    let x = part.over(all);
    assert(x.finite() && 0 <= x.rank() <= one.rank());
    color::lemma_width();
    let w = color::width();
    order::lemma_times_increases(x, one, w);
    order::lemma_one_times(w);
    let t = x.times(w);
    assert(t.finite() && 0 <= t.rank() <= w.rank());
    let (low, zero) = (Single { bits: color::SIG_MIN }, Single { bits: ZERO });
    single::lemma_parts(zero);
    order::lemma_plus_commutes(low, t);
    order::lemma_plus_increases(zero, t, low);
    order::lemma_sum_exact(zero, low, low);
    order::lemma_plus_increases(low, zero, t);
    lemma_zero_plus(t);
}

proof fn lemma_zero_plus(t: Single)
    requires
        t.finite(),
    ensures
        (Single { bits: ZERO }).plus(t).rank() == t.rank(),
{
    let zero = Single { bits: ZERO };
    single::lemma_parts(zero);
    order::lemma_sum_exact(zero, t, t);
}

/// Equal knobs make the same table.
proof fn lemma_equal_knobs(
    exp: spec_fn(Single) -> Single,
    m: Single,
    s: Single,
    n: Single,
    t: Single,
)
    requires
        respects_zeros(exp),
        m.equals(n),
        s.equals(t),
    ensures
        raised(exp, m, s) == raised(exp, n, t),
{
    assert forall|i: int| 0 <= i < SIG_STEPS implies raised(exp, m, s)[i] == raised(
        exp,
        n,
        t,
    )[i] by {
        lemma_step_finite(i);
        lemma_equal_exponents(color::step_value(i), m, s, n, t);
    }
    assert(raised(exp, m, s) =~= raised(exp, n, t));
}

/// Only the last call counts: tables that went with their knobs before show every
/// value alike after they were made sure to go with the same knobs, whatever these
/// are. Doing it again changes nothing, unless a knob is no number: such a table is
/// made anew each time.
pub proof fn law_last_ensure_counts(
    a: ColorMap,
    b: ColorMap,
    exp: spec_fn(Single) -> Single,
    midpoint: Single,
    steep: Single,
    after_a: ColorMap,
    after_b: ColorMap,
    raw: Single,
    band: Band,
)
    requires
        respects_zeros(exp),
        made_by(a, exp),
        made_by(b, exp),
        a.ensured(midpoint, steep, raised(exp, midpoint, steep), after_a),
        b.ensured(midpoint, steep, raised(exp, midpoint, steep), after_b),
    ensures
        made_by(after_a, exp),
        made_by(after_b, exp),
        after_a.colour(raw, band) == after_b.colour(raw, band),
        !midpoint.nan() && !steep.nan() ==> forall|exponentials: Seq<Single>, again: ColorMap|
            #[trigger] after_a.ensured(midpoint, steep, exponentials, again) ==> again == after_a,
{
    lemma_goes_with(a, exp, midpoint, steep, after_a);
    lemma_goes_with(b, exp, midpoint, steep, after_b);
    color::law_step_in_table(raw, band.pink);
    let i = color::step_of(raw, band.pink);
    assert(after_a.sigmoid_lut@[i] == after_b.sigmoid_lut@[i]);
}

proof fn lemma_goes_with(
    a: ColorMap,
    exp: spec_fn(Single) -> Single,
    midpoint: Single,
    steep: Single,
    after: ColorMap,
)
    requires
        respects_zeros(exp),
        made_by(a, exp),
        a.ensured(midpoint, steep, raised(exp, midpoint, steep), after),
    ensures
        made_by(after, exp),
        after.tabulates(raised(exp, midpoint, steep)),
        !midpoint.nan() && !steep.nan() ==> after.current(midpoint, steep),
{
    if a.current(midpoint, steep) {
        lemma_equal_knobs(exp, midpoint, steep, a.midpoint, a.steep);
    }
}

/// New tables are those for a midpoint of 0.3 and a steepness of 20: to make sure
/// of these knobs changes nothing.
pub proof fn law_new_table_knobs(
    map: ColorMap,
    exp: spec_fn(Single) -> Single,
    exponentials: Seq<Single>,
    next: ColorMap,
)
    requires
        map.midpoint == (Single { bits: THREE_TENTHS }),
        map.steep == (Single { bits: TWENTY }),
        map.tabulates(raised(exp, Single { bits: THREE_TENTHS }, Single { bits: TWENTY })),
        map.ensured(
            Single { bits: THREE_TENTHS },
            Single { bits: TWENTY },
            exponentials,
            next,
        ),
    ensures
        made_by(map, exp),
        next == map,
{
}

} // verus!
