//! A tone whose first three partials stand out is found at its fundamental, however
//! loud its further partials are.
use crate::analysis::Analyzer;
use crate::combs;
use crate::errors;
use crate::missing;
use crate::pitch;
use crate::single;
use crate::single::Single;
use vstd::prelude::*;

verus! {

/// A spectrum in which bin `k` and its second and third harmonic stand within 20 dB
/// of the loudest level. The fourth and the fifth are at any level up to that, or
/// absent.
pub open spec fn partials_stand_out(
    db: Seq<Single>,
    k: nat,
    peak: Single,
    floor: Single,
) -> bool {
    &&& missing::spaced(db, k, peak, floor)
    &&& missing::loud(db[k as int], peak)
    &&& missing::loud(db[2 * k as int], peak)
    &&& missing::loud(db[3 * k as int], peak)
}

/// How far a bin stands above the floor.
spec fn above(db: Seq<Single>, floor: Single, i: int) -> int {
    db[i].larger(floor).value() - floor.value()
}

/// What the fundamental's own comb sums up over the floor, tooth by tooth.
proof fn lemma_own(db: Seq<Single>, k: nat, floor: Single)
    requires
        0 < k,
        5 * k < db.len(),
    ensures
        combs::exact_sum(db, k, floor, 5) - floor.value() * combs::share(db.len(), k, 5)
            == combs::weight(1).value() * above(db, floor, k as int) + combs::weight(2).value()
            * above(db, floor, 2 * k as int) + combs::weight(3).value() * above(
            db,
            floor,
            3 * k as int,
        ) + combs::weight(4).value() * above(db, floor, 4 * k as int) + combs::weight(5).value()
            * above(db, floor, 5 * k as int),
{
    reveal_with_fuel(combs::share, 6);
    reveal_with_fuel(combs::exact_sum, 6);
    combs::lemma_weight(1);
    combs::lemma_weight(2);
    combs::lemma_weight(3);
    combs::lemma_weight(4);
    combs::lemma_weight(5);
    let f = floor.value();
    let (a, b, c, d, e) = (
        combs::weight(1).value(),
        combs::weight(2).value(),
        combs::weight(3).value(),
        combs::weight(4).value(),
        combs::weight(5).value(),
    );
    let (p, q, r, s, t) = (
        above(db, floor, k as int),
        above(db, floor, 2 * k as int),
        above(db, floor, 3 * k as int),
        above(db, floor, 4 * k as int),
        above(db, floor, 5 * k as int),
    );
    assert(a * (p + f) == a * p + a * f && b * (q + f) == b * q + b * f && c * (r + f) == c * r + c
        * f && d * (s + f) == d * s + d * f && e * (t + f) == e * t + e * f) by (nonlinear_arith);
    assert(f * (a + b + c + d + e) == a * f + b * f + c * f + d * f + e * f) by (nonlinear_arith);
    assert(combs::share(db.len(), k, 5) == a + b + c + d + e);
}

/// The fundamental's own comb sums up the three partials that stand out and its part
/// of the others.
proof fn lemma_gain(db: Seq<Single>, k: nat, peak: Single, floor: Single)
    requires
        partials_stand_out(db, k, peak, floor),
    ensures
        ({
            let big = errors::big();
            let gain = combs::exact_sum(db, k, floor, 5) - floor.value() * combs::share(
                db.len(),
                k,
                5,
            );
            let (g, h) = (above(db, floor, 4 * k as int), above(db, floor, 5 * k as int));
            &&& g >= 0
            &&& h >= 0
            &&& 100 * gain >= 16190 * (big * big) + 59 * (big * g) + 59 * (big * h)
        }),
{
    let big = errors::big();
    errors::lemma_scales();
    lemma_own(db, k, floor);
    combs::lemma_weight(1);
    combs::lemma_weight(2);
    combs::lemma_weight(3);
    combs::lemma_weight(4);
    combs::lemma_weight(5);
    missing::lemma_counted(db, k, peak, floor, k as int);
    missing::lemma_counted(db, k, peak, floor, 2 * k as int);
    missing::lemma_counted(db, k, peak, floor, 3 * k as int);
    missing::lemma_counted(db, k, peak, floor, 4 * k as int);
    missing::lemma_counted(db, k, peak, floor, 5 * k as int);
    lemma_products(combs::weight(1).value(), above(db, floor, k as int), 10);
    lemma_products(combs::weight(2).value(), above(db, floor, 2 * k as int), 9);
    lemma_products(combs::weight(3).value(), above(db, floor, 3 * k as int), 8);
    let (g, h) = (above(db, floor, 4 * k as int), above(db, floor, 5 * k as int));
    assert(100 * (combs::weight(1).value() * above(db, floor, k as int)) >= 5997 * (big * big));
    assert(100 * (combs::weight(2).value() * above(db, floor, 2 * k as int)) >= 5397 * (big * big));
    assert(100 * (combs::weight(3).value() * above(db, floor, 3 * k as int)) >= 4797 * (big * big));
    let (v, w) = (combs::weight(4).value(), combs::weight(5).value());
    assert(big * big >= 0) by (nonlinear_arith);
    assert(100 * (v * g) >= 59 * (big * g)) by (nonlinear_arith)
        requires
            100 * v >= 59 * big,
            g >= 0,
    ;
    assert(100 * (w * h) >= 59 * (big * h)) by (nonlinear_arith)
        requires
            100 * w >= 59 * big,
            h >= 0,
    ;
}

/// What a partial that stands out adds.
proof fn lemma_products(w: int, x: int, tenths: int)
    requires
        8 <= tenths <= 10,
        10 * w >= tenths * errors::big() - errors::slack(),
        x >= 60 * errors::big() - 2 * errors::slack(),
    ensures
        100 * (w * x) >= (600 * tenths - 3) * (errors::big() * errors::big()),
{
    let (b, e) = (errors::big(), errors::slack());
    errors::lemma_scales();
    assert(10 * (w * x) >= (tenths * b - e) * x) by (nonlinear_arith)
        requires
            10 * w >= tenths * b - e,
            x >= 0,
    ;
    let t = tenths * b - e;
    assert(0 <= t <= 10 * b) by (nonlinear_arith)
        requires
            t == tenths * b - e,
            8 <= tenths <= 10,
            b == 0x4000 * e,
            e > 0,
    ;
    assert(t * x >= t * (60 * b - 2 * e)) by (nonlinear_arith)
        requires
            x >= 60 * b - 2 * e,
            t >= 0,
    ;
    assert(t * (60 * b - 2 * e) == 60 * tenths * (b * b) - 60 * (b * e) - 2 * (t * e))
        by (nonlinear_arith)
        requires
            t == tenths * b - e,
    ;
    assert(t * e <= 10 * (b * e)) by (nonlinear_arith)
        requires
            t <= 10 * b,
            e > 0,
    ;
    assert(0x4000 * (b * e) == b * b) by (nonlinear_arith)
        requires
            b == 0x4000 * e,
    ;
    assert((600 * tenths - 3) * (b * b) == 10 * (60 * tenths * (b * b)) - 3 * (b * b))
        by (nonlinear_arith);
}

/// A comb whose further teeth all miss has only its first one over the floor.
proof fn lemma_lone(db: Seq<Single>, k: nat, peak: Single, floor: Single, j: nat, h: nat)
    requires
        missing::spaced(db, k, peak, floor),
        3 * k <= j < db.len(),
        1 <= h <= 5,
    ensures
        combs::exact_sum(db, j, floor, h) == floor.value() * combs::share(db.len(), j, h)
            + errors::big() * above(db, floor, j as int),
    decreases h,
{
    let f = floor.value();
    let x = above(db, floor, j as int);
    combs::lemma_weight(h);
    let w = combs::weight(h).value();
    if h == 1 {
        reveal_with_fuel(combs::share, 2);
        reveal_with_fuel(combs::exact_sum, 2);
        assert(w * (x + f) == f * w + w * x) by (nonlinear_arith);
    } else {
        let g = (h - 1) as nat;
        lemma_lone(db, k, peak, floor, j, g);
        let held = combs::share(db.len(), j, g) as int;
        assert(f * (held + w) == f * held + w * f) by (nonlinear_arith);
        if h * j < db.len() {
            assert(h * j >= 6 * k) by (nonlinear_arith)
                requires
                    h >= 2,
                    j >= 3 * k,
            ;
            missing::lemma_counted(db, k, peak, floor, (h * j) as int);
        }
    }
}

/// The other combs that more than one partial may fall on hit less than half of
/// their weight.
proof fn lemma_other_hits(len: nat, j: nat, k: nat)
    requires
        0 < k,
        10 * k < len,
        0 < j,
        j != k,
        j != 4 * k,
        j != 5 * k,
    ensures
        100 * missing::hits(j, k, 5) <= 48 * combs::share(len, j, 5),
{
    errors::lemma_scales();
    missing::lemma_shares(len, j);
    combs::lemma_weight(1);
    combs::lemma_weight(2);
    combs::lemma_weight(3);
    combs::lemma_weight(4);
    combs::lemma_weight(5);
    reveal_with_fuel(missing::hits, 6);
    if missing::harmonic(j as int, k) {
        if j == 2 * k {
        } else {
            assert(j == 3 * k);
        }
    } else {
        missing::lemma_two_hits(j, k);
    }
}

/// The scores are far enough apart where the other comb has one tooth over the floor.
proof fn lemma_one_tooth_apart(a: int, b: int, own: int, other: int, x: int)
    requires
        100 * (a * own) >= 16190 * (errors::big() * errors::big()) + 59 * (errors::big() * x)
            - 810000 * (errors::slack() * errors::big()),
        b * other <= errors::big() * x + 8100 * (errors::slack() * errors::big()),
        errors::near(10 * own, 40 * errors::big(), 4 * errors::slack()),
        10 * other >= 19 * errors::big() - errors::slack(),
        0 <= x <= 80 * errors::big() + errors::slack(),
    ensures
        b < a,
{
    let (big, e) = (errors::big(), errors::slack());
    let square = big * big;
    errors::lemma_scales();
    assert(0x4000 * (e * big) == square) by (nonlinear_arith)
        requires
            big == 0x4000 * e,
            square == big * big,
    ;
    assert(square > 0) by (nonlinear_arith)
        requires
            square == big * big,
            big > 0,
    ;
    assert(0 <= big * x <= 81 * square) by (nonlinear_arith)
        requires
            0 <= x <= 81 * big,
            square == big * big,
    ;
    // The fundamental's score.
    let c = 16100 * big + 59 * x;
    assert(100 * (a * own) >= big * c) by (nonlinear_arith)
        requires
            100 * (a * own) >= 16100 * square + 59 * (big * x),
            square == big * big,
            c == 16100 * big + 59 * x,
    ;
    assert(401 * a >= c) by (nonlinear_arith)
        requires
            100 * (a * own) >= big * c,
            0 < 100 * own <= 401 * big,
            c > 0,
    ;
    // The other score.
    let d = 2 * x + big;
    assert(2 * (b * other) <= big * d) by (nonlinear_arith)
        requires
            2 * (b * other) <= 2 * (big * x) + square,
            square == big * big,
            d == 2 * x + big,
    ;
    assert(18 * (2 * b) <= 10 * d) by (nonlinear_arith)
        requires
            2 * (b * other) <= big * d,
            10 * other >= 18 * big,
            d > 0,
            big > 0,
    ;
}

/// The scores are far enough apart where the other comb hits less than half of its
/// weight.
proof fn lemma_half_apart(a: int, b: int, own: int, other: int, extra: int, gap: int)
    requires
        100 * (a * own) >= 16190 * (errors::big() * errors::big()) - 810000 * (errors::slack()
            * errors::big()),
        b * other <= extra * gap + 8100 * (errors::slack() * errors::big()),
        errors::near(10 * own, 40 * errors::big(), 4 * errors::slack()),
        other >= errors::big(),
        0 <= gap <= 80 * errors::big() + errors::slack(),
        100 * extra <= 48 * other,
    ensures
        b < a,
{
    let (big, e) = (errors::big(), errors::slack());
    let square = big * big;
    errors::lemma_scales();
    assert(0x4000 * (e * big) == square) by (nonlinear_arith)
        requires
            big == 0x4000 * e,
            square == big * big,
    ;
    assert(square > 0) by (nonlinear_arith)
        requires
            square == big * big,
            big > 0,
    ;
    assert(a >= 40 * big) by (nonlinear_arith)
        requires
            100 * (a * own) >= 16100 * square,
            0 < 100 * own <= 401 * big,
            square == big * big,
            big > 0,
    ;
    assert(100 * (extra * gap) <= 48 * (other * gap)) by (nonlinear_arith)
        requires
            100 * extra <= 48 * other,
            gap >= 0,
    ;
    assert(other * gap <= 81 * (other * big)) by (nonlinear_arith)
        requires
            gap <= 81 * big,
            other >= 0,
    ;
    assert(square <= other * big) by (nonlinear_arith)
        requires
            square == big * big,
            other >= big,
            big > 0,
    ;
    assert(b < 40 * big) by (nonlinear_arith)
        requires
            100 * (b * other) <= 3938 * (other * big),
            other > 0,
            big > 0,
    ;
}

/// A bin whose first three partials stand out outscores every other one.
pub proof fn law_tone_outscores(
    db: Seq<Single>,
    k: nat,
    peak: Single,
    floor: Single,
    j: nat,
)
    requires
        partials_stand_out(db, k, peak, floor),
        0 < j < db.len(),
        j != k,
    ensures
        pitch::score_of(db, j, floor).less(pitch::score_of(db, k, floor)),
{
    let (a, b) = (pitch::score_of(db, k, floor), pitch::score_of(db, j, floor));
    let (p, f, big) = (peak.value(), floor.value(), errors::big());
    let (own, other) = (
        combs::share(db.len(), k, 5) as int,
        combs::share(db.len(), j, 5) as int,
    );
    errors::lemma_scales();
    missing::lemma_levels(peak);
    missing::lemma_tame(db, k, peak, floor);
    combs::lemma_score(db, k, floor);
    combs::lemma_score(db, j, floor);
    lemma_gain(db, k, peak, floor);
    missing::lemma_own_share(db, k);
    let (av, bv) = (a.value(), b.value());
    assert((av - f) * own == av * own - f * own && (bv - f) * other == bv * other - f * other)
        by (nonlinear_arith);
    let (g, h) = (above(db, floor, 4 * k as int), above(db, floor, 5 * k as int));
    assert(big * g >= 0 && big * h >= 0) by (nonlinear_arith)
        requires
            g >= 0,
            h >= 0,
            big > 0,
    ;
    if j == 4 * k || j == 5 * k {
        lemma_lone(db, k, peak, floor, j, 5);
        missing::lemma_counted(db, k, peak, floor, j as int);
        missing::lemma_shares(db.len(), j);
        lemma_one_tooth_apart(av - f, bv - f, own, other, above(db, floor, j as int));
    } else {
        missing::lemma_at_most(db, k, peak, floor, j, 5);
        lemma_other_hits(db.len(), j, k);
        lemma_half_apart(av - f, bv - f, own, other, missing::hits(j, k, 5) as int, p - f);
    }
    single::lemma_less_is_order(b, a);
}

/// The search finds the fundamental of a tone whose first three partials stand out,
/// wherever it is within the range.
pub proof fn law_tone_is_found(
    db: Seq<Single>,
    k: nat,
    peak: Single,
    floor: Single,
    lo: nat,
    end: nat,
)
    requires
        partials_stand_out(db, k, peak, floor),
        0 < lo <= k < end <= db.len(),
    ensures
        pitch::best_of(db, floor, lo, end) == (k, pitch::score_of(db, k, floor)),
{
    let (b, _) = pitch::best_of(db, floor, lo, end);
    let score = pitch::score_of(db, k, floor);
    pitch::law_best_is_first_maximum(db, floor, lo, end, k);
    missing::lemma_tame(db, k, peak, floor);
    combs::lemma_score(db, k, floor);
    combs::lemma_above_least(score);
    if b > 0 && b != k {
        law_tone_outscores(db, k, peak, floor, b);
    }
}

/// A tone within the range whose first three partials stand out is detected at its
/// fundamental, with the level of its loudest partial.
pub proof fn law_tone_is_detected(a: Analyzer, power_lo: Single, power_hi: Single, k: nat)
    requires
        a.wf(),
        partials_stand_out(a.db@, k, a.peak_db, pitch::noise_floor(a)),
        a.first_bin(power_lo) <= k <= a.last_bin(power_hi),
        a.first_bin(power_lo) < a.last_bin(power_hi),
    ensures
        a.fundamental_in(power_lo, power_hi) == Some(missing::pitch_at(a, k)),
        missing::loud(missing::pitch_at(a, k).db, a.peak_db),
{
    let floor = pitch::noise_floor(a);
    let (lo, hi) = (a.first_bin(power_lo), a.last_bin(power_hi));
    law_tone_is_found(a.db@, k, a.peak_db, floor, lo as nat, (hi + 1) as nat);
    missing::lemma_loudest(a.db@, k, a.peak_db, floor, 5);
    assert(a.db@[(2 * k) as int].rank() <= missing::pitch_at(a, k).db.rank());
}

} // verus!
