//! What the score of a bin amounts to: the weighted mean of the levels that its
//! comb meets, but for small errors.
use crate::errors;
use crate::order;
use crate::pitch;
use crate::pitch::HPS_WEIGHTS;
use crate::rounding;
use crate::single;
use crate::single::Single;
use crate::values::{EIGHT_TENTHS, LEAST, NINE_TENTHS, ONE, SEVEN_TENTHS, SIX_TENTHS};
use vstd::arithmetic::power2;
use vstd::prelude::*;

verus! {

/// The weight of a harmonic.
pub open spec fn weight(h: nat) -> Single {
    Single { bits: HPS_WEIGHTS@[h - 1] }
}

/// The fundamental has weight 1, its harmonics clearly less.
pub proof fn lemma_weight(h: nat)
    requires
        1 <= h <= 5,
    ensures
        weight(h).finite(),
        !weight(h).negative(),
        0 < weight(h).units() <= power2::pow2(149),
        h == 1 ==> weight(h).units() == power2::pow2(149),
        h >= 2 ==> 100 * weight(h).units() <= 91 * power2::pow2(149),
        h == 2 ==> errors::near(10 * weight(h).value(), 9 * errors::big(), errors::slack()),
        h == 3 ==> errors::near(10 * weight(h).value(), 8 * errors::big(), errors::slack()),
        h == 4 ==> errors::near(10 * weight(h).value(), 7 * errors::big(), errors::slack()),
        h == 5 ==> errors::near(10 * weight(h).value(), 6 * errors::big(), errors::slack()),
{
    let w = power2::pow2(125);
    errors::lemma_scales();
    rounding::lemma_pow2_facts(125, 10);
    order::lemma_one();
    order::lemma_units_of(Single { bits: NINE_TENTHS }, 0xe6_6666, 125);
    order::lemma_units_of(Single { bits: EIGHT_TENTHS }, 0xcc_cccd, 125);
    order::lemma_units_of(Single { bits: SEVEN_TENTHS }, 0xb3_3333, 125);
    order::lemma_units_of(Single { bits: SIX_TENTHS }, 0x99_999a, 125);
    rounding::lemma_pow2_facts(125, 24);
    power2::lemma2_to64();
    assert(power2::pow2(149) == 0x100_0000 * w) by (nonlinear_arith)
        requires
            power2::pow2(149) == w * 0x100_0000,
    ;
    assert(HPS_WEIGHTS@[0] == ONE && HPS_WEIGHTS@[1] == NINE_TENTHS && HPS_WEIGHTS@[2]
        == EIGHT_TENTHS && HPS_WEIGHTS@[3] == SEVEN_TENTHS && HPS_WEIGHTS@[4] == SIX_TENTHS);
}

/// The weights of the harmonics of bin `j` that the spectrum has.
pub open spec fn share(len: nat, j: nat, h: nat) -> nat
    decreases h,
{
    if h == 0 {
        0
    } else if h * j < len {
        share(len, j, (h - 1) as nat) + weight(h).units()
    } else {
        share(len, j, (h - 1) as nat)
    }
}

/// One more harmonic in a sum.
pub proof fn lemma_one_more(sum: Single, w: Single, x: Single, exact: int, h: nat)
    requires
        h <= 4,
        sum.finite(),
        w.finite(),
        x.finite(),
        !w.negative(),
        w.units() <= errors::big(),
        errors::near(x.value(), 0, 300 * errors::big()),
        errors::near(sum.value() * errors::big(), exact, 2 * h * (errors::slack() * errors::big())),
        errors::near(exact, 0, 300 * h * (errors::big() * errors::big())),
    ensures
        sum.plus(w.times(x)).finite(),
        errors::near(
            sum.plus(w.times(x)).value() * errors::big(),
            exact + w.value() * x.value(),
            2 * (h + 1) * (errors::slack() * errors::big()),
        ),
        errors::near(exact + w.value() * x.value(), 0, 300 * (h + 1) * (errors::big() * errors::big())),
{
    let (big, e) = (errors::big(), errors::slack());
    errors::lemma_scales();
    assert(w.units() * x.units() <= 300 * (big * big)) by (nonlinear_arith)
        requires
            0 <= w.units() <= big,
            0 <= x.units() <= 300 * big,
    ;
    assert(300 * (big * big) < big * power2::pow2(160)) by (nonlinear_arith)
        requires
            power2::pow2(160) == 2048 * big,
            big > 0,
    ;
    errors::lemma_product_error(w, x, 136);
    let t = w.times(x);
    let (wv, xv, tv, sv) = (w.value(), x.value(), t.value(), sum.value());
    assert(errors::near(wv * xv, 0, 300 * (big * big))) by (nonlinear_arith)
        requires
            0 <= wv <= big,
            -300 * big <= xv <= 300 * big,
    ;
    assert(e * big == big * e) by (nonlinear_arith);
    // The sizes of the term and of the sum so far.
    assert(-301 * big <= tv <= 301 * big) by (nonlinear_arith)
        requires
            errors::near(tv * big, wv * xv, big * e),
            errors::near(wv * xv, 0, 300 * (big * big)),
            big == 0x4000 * e,
            e > 0,
    ;
    assert(-1201 * big <= sv <= 1201 * big) by (nonlinear_arith)
        requires
            errors::near(sv * big, exact, 2 * h * (e * big)),
            errors::near(exact, 0, 300 * h * (big * big)),
            h <= 4,
            big == 0x4000 * e,
            e > 0,
    ;
    errors::lemma_sum_error(sum, t, 136);
    let nv = sum.plus(t).value();
    assert(errors::near(nv * big, sv * big + tv * big, e * big)) by (nonlinear_arith)
        requires
            errors::near(nv, sv + tv, e),
            big > 0,
    ;
    let (small_square, square) = (e * big, big * big);
    assert(2 * (h + 1) * small_square == 2 * h * small_square + 2 * small_square) by (nonlinear_arith);
    assert(300 * (h + 1) * square == 300 * h * square + 300 * square) by (nonlinear_arith);
}

pub proof fn lemma_not_negative(a: Single, b: Single)
    requires
        a.finite(),
        b.finite(),
        !a.negative(),
        !b.negative(),
    ensures
        !a.plus(b).negative(),
{
    reveal(Single::plus);
    let n = a.units() + b.units();
    order::lemma_nearest_increases(n, n, 1);
}

/// A comb has the weight of its first harmonic at least.
pub proof fn lemma_share(len: nat, j: nat)
    requires
        j < len,
    ensures
        share(len, j, 5) >= errors::big(),
{
    reveal_with_fuel(share, 6);
    lemma_weight(1);
}

/// A lower bin has no fewer harmonics.
pub proof fn lemma_share_grows(len: nat, j: nat, k: nat, h: nat)
    requires
        j <= k,
    ensures
        share(len, k, h) <= share(len, j, h),
    decreases h,
{
    if h > 0 {
        lemma_share_grows(len, j, k, (h - 1) as nat);
        assert(h * j <= h * k) by (nonlinear_arith)
            requires
                j <= k,
        ;
    }
}

pub proof fn lemma_score_bounds(q: int, v: int, s: int, whole: int, exact: int)
    requires
        errors::near(q * v, s * errors::big(), v * errors::slack()),
        errors::near(s * errors::big(), exact, 10 * (errors::slack() * errors::big())),
        errors::near(exact, 0, 1500 * (errors::big() * errors::big())),
        errors::near(v, whole, 5 * errors::slack()),
        errors::big() <= whole <= 5 * errors::big(),
        -1501 * errors::big() <= s <= 1501 * errors::big(),
    ensures
        errors::near(q, 0, 1600 * errors::big()),
        errors::near(q * whole, exact, 8100 * (errors::slack() * errors::big())),
{
    let (big, e) = (errors::big(), errors::slack());
    errors::lemma_scales();
    assert(v * e <= 6 * (e * big)) by (nonlinear_arith)
        requires
            v <= 5 * big + 5 * e,
            big == 0x4000 * e,
            e > 0,
    ;
    assert(errors::near(s * big, 0, 1501 * (big * big))) by (nonlinear_arith)
        requires
            -1501 * big <= s <= 1501 * big,
            big > 0,
    ;
    assert(e * big <= big * big) by (nonlinear_arith)
        requires
            big == 0x4000 * e,
            e > 0,
    ;
    assert(errors::near(q * v, 0, 1507 * (big * big)));
    assert(q <= 1600 * big) by (nonlinear_arith)
        requires
            q * v <= 1507 * (big * big),
            v >= big - 5 * e,
            big == 0x4000 * e,
            e > 0,
    ;
    assert(q >= -1600 * big) by (nonlinear_arith)
        requires
            q * v >= -1507 * (big * big),
            v >= big - 5 * e,
            big == 0x4000 * e,
            e > 0,
    ;
    assert(errors::near(q * whole, q * v, 8000 * (e * big))) by (nonlinear_arith)
        requires
            errors::near(v, whole, 5 * e),
            -1600 * big <= q <= 1600 * big,
            big > 0,
            e > 0,
    ;
}

/// A level is finite and within 300 dB of full scale.
pub open spec fn tame(x: Single) -> bool {
    x.finite() && errors::near(x.value(), 0, 300 * errors::big())
}

/// The levels, raised to the floor, are tame.
pub open spec fn tame_levels(db: Seq<Single>, floor: Single) -> bool {
    forall|i: int| 0 <= i < db.len() ==> tame((#[trigger] db[i]).larger(floor))
}

/// The exact weighted sum of the levels that a comb meets.
pub open spec fn exact_sum(db: Seq<Single>, j: nat, floor: Single, h: nat) -> int
    decreases h,
{
    if h == 0 {
        0
    } else {
        let rest = exact_sum(db, j, floor, (h - 1) as nat);
        if h * j < db.len() {
            rest + weight(h).value() * db[(h * j) as int].larger(floor).value()
        } else {
            rest
        }
    }
}

/// The exact sums are not far from those that a comb has.
spec fn sums_near(db: Seq<Single>, j: nat, floor: Single, h: nat) -> bool {
    let (big, e) = (errors::big(), errors::slack());
    let (sum, weights) = pitch::comb(db, j, floor, h);
    let exact = exact_sum(db, j, floor, h);
    &&& sum.finite()
    &&& weights.finite()
    &&& !weights.negative()
    &&& errors::near(sum.value() * big, exact, 2 * h * (e * big))
    &&& errors::near(exact, 0, 300 * h * (big * big))
    &&& errors::near(weights.value(), share(db.len(), j, h) as int, h * e)
    &&& share(db.len(), j, h) <= h * big
}

/// The sums of a comb, harmonic by harmonic.
proof fn lemma_sums(db: Seq<Single>, j: nat, floor: Single, h: nat)
    requires
        tame_levels(db, floor),
        h <= 5,
    ensures
        sums_near(db, j, floor, h),
    decreases h,
{
    let (big, e) = (errors::big(), errors::slack());
    errors::lemma_scales();
    if h == 0 {
        single::lemma_parts(Single { bits: 0 });
        assert(0 * big == 0);
    } else {
        let g = (h - 1) as nat;
        lemma_sums(db, j, floor, g);
        lemma_weight(h);
        let w = weight(h);
        let (sum, weights) = pitch::comb(db, j, floor, g);
        let exact = exact_sum(db, j, floor, g);
        assert(h * e == g * e + e && h * big == g * big + big) by (nonlinear_arith)
            requires
                h == g + 1,
        ;
        if h * j < db.len() {
            let x = db[(h * j) as int].larger(floor);
            assert(tame(x));
            lemma_one_more(sum, w, x, exact, g);
            assert(g * e <= 4 * e && g * big <= 4 * big) by (nonlinear_arith)
                requires
                    g <= 4,
                    e > 0,
                    big > 0,
            ;
            errors::lemma_sum_error(weights, w, 136);
            lemma_not_negative(weights, w);
        } else {
            let (small_square, square) = (e * big, big * big);
            assert(2 * g * small_square <= 2 * h * small_square) by (nonlinear_arith)
                requires
                    g <= h,
                    small_square == e * big,
                    e > 0,
                    big > 0,
            ;
            assert(300 * g * square <= 300 * h * square) by (nonlinear_arith)
                requires
                    g <= h,
                    square == big * big,
            ;
        }
    }
}

/// The score of a bin, times the weights of its comb, is not far from the exact
/// weighted sum.
pub proof fn lemma_score(db: Seq<Single>, j: nat, floor: Single)
    requires
        tame_levels(db, floor),
        j < db.len(),
    ensures
        ({
            let q = pitch::score_of(db, j, floor);
            let whole = share(db.len(), j, 5);
            &&& q.finite()
            &&& errors::near(q.value(), 0, 1600 * errors::big())
            &&& errors::big() <= whole <= 5 * errors::big()
            &&& errors::near(
                q.value() * whole,
                exact_sum(db, j, floor, 5),
                8100 * (errors::slack() * errors::big()),
            )
        }),
{
    let (big, e) = (errors::big(), errors::slack());
    let (sum, weights) = pitch::comb(db, j, floor, 5);
    let whole = share(db.len(), j, 5) as int;
    let exact = exact_sum(db, j, floor, 5);
    errors::lemma_scales();
    lemma_sums(db, j, floor, 5);
    lemma_share(db.len(), j);
    let (s, v) = (sum.value(), weights.value());
    assert(-1501 * big <= s <= 1501 * big) by (nonlinear_arith)
        requires
            errors::near(s * big, exact, 10 * (e * big)),
            errors::near(exact, 0, 1500 * (big * big)),
            big == 0x4000 * e,
            e > 0,
    ;
    assert(sum.units() * big < v * power2::pow2(160)) by (nonlinear_arith)
        requires
            0 <= sum.units() <= 1501 * big,
            v >= big - 5 * e,
            power2::pow2(160) == 2048 * big,
            big == 0x4000 * e,
            e > 0,
    ;
    errors::lemma_quotient_error(sum, weights, 136);
    lemma_score_bounds(sum.over(weights).value(), v, s, whole, exact);
}

/// A score is above the least number.
pub proof fn lemma_above_least(score: Single)
    requires
        score.finite(),
        errors::near(score.value(), 0, 1600 * errors::big()),
    ensures
        (Single { bits: LEAST }).less(score),
{
    let least = Single { bits: LEAST };
    errors::lemma_scales();
    order::lemma_units_of(least, 0xff_ffff, 253);
    rounding::lemma_pow2_facts(160, 253);
    assert(0xff_ffff * power2::pow2(253) >= power2::pow2(253)) by (nonlinear_arith);
    single::lemma_less_is_order(least, score);
}

} // verus!
