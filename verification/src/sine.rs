//! A pure sine is found: where one bin stands out of the spectrum, its comb
//! outscores that of every other bin, those of its subharmonics too.
use crate::analysis::Analyzer;
use crate::combs;
use crate::errors;
use crate::order;
use crate::pitch;
use crate::rounding;
use crate::single;
use crate::single::Single;
use crate::values::{EIGHTY, HUNDRED, MINUS_200};
use vstd::arithmetic::power2;
use vstd::prelude::*;

verus! {

/// A spectrum in which one bin stands out: all others are at the floor, 80 dB
/// below it, or under that.
pub open spec fn stands_out(db: Seq<Single>, k: nat, floor: Single) -> bool {
    &&& 0 < k < db.len()
    &&& !db[k as int].nan()
    &&& db[k as int].lies_in(Single { bits: MINUS_200 }, Single { bits: HUNDRED })
    &&& floor == db[k as int].minus(Single { bits: EIGHTY })
    &&& forall|i: int| 0 <= i < db.len() && i != k ==> !floor.less(#[trigger] db[i])
}

/// The levels of the bin that stands out and of the floor, in units.
proof fn lemma_levels(db: Seq<Single>, k: nat, floor: Single)
    requires
        stands_out(db, k, floor),
    ensures
        ({
            let big = power2::pow2(149) as int;
            let (p, f) = (db[k as int].value(), floor.value());
            &&& db[k as int].finite()
            &&& floor.finite()
            &&& -200 * big <= p <= 100 * big
            &&& -281 * big <= f <= 100 * big
            &&& p - f >= 79 * big
            &&& floor.rank() < db[k as int].rank()
        }),
{
    let big = power2::pow2(149) as int;
    let (least, most, eighty) = (
        Single { bits: MINUS_200 },
        Single { bits: HUNDRED },
        Single { bits: EIGHTY },
    );
    let peak = db[k as int];
    power2::lemma2_to64();
    order::lemma_units_of(least, 0xc8_0000, 133);
    order::lemma_units_of(most, 0xc8_0000, 132);
    order::lemma_units_of(eighty, 0xa0_0000, 132);
    rounding::lemma_pow2_facts(133, 16);
    rounding::lemma_pow2_facts(132, 17);
    assert(0xc8_0000 * power2::pow2(133) == 200 * big) by (nonlinear_arith)
        requires
            big == power2::pow2(133) * 0x1_0000,
    ;
    assert(0xc8_0000 * power2::pow2(132) == 100 * big) by (nonlinear_arith)
        requires
            big == power2::pow2(132) * 0x2_0000,
    ;
    assert(0xa0_0000 * power2::pow2(132) == 80 * big) by (nonlinear_arith)
        requires
            big == power2::pow2(132) * 0x2_0000,
    ;
    assert(peak.finite());
    single::lemma_less_is_order(peak, least);
    single::lemma_less_is_order(most, peak);
    errors::lemma_scales();
    errors::lemma_sum_error(peak, eighty.negated(), 136);
    single::lemma_less_is_order(floor, peak);
}

/// What a harmonic counts: the level of the bin that stands out, or the floor.
proof fn lemma_counted(db: Seq<Single>, k: nat, floor: Single, i: int)
    requires
        stands_out(db, k, floor),
        0 <= i < db.len(),
    ensures
        db[i].larger(floor).finite(),
        i == k ==> db[i].larger(floor).value() == db[i].value(),
        i != k ==> db[i].larger(floor).value() == floor.value(),
{
    lemma_levels(db, k, floor);
    let x = db[i];
    if i != k && !x.nan() && !x.less(floor) {
        assert(x.rank() == floor.rank());
        single::lemma_parts(x);
        single::lemma_parts(floor);
    }
}

/// The weight of the harmonic of bin `j` that is bin `k`.
spec fn bonus(j: nat, k: nat, h: nat) -> nat
    decreases h,
{
    if h == 0 {
        0
    } else if h * j == k {
        bonus(j, k, (h - 1) as nat) + combs::weight(h).units()
    } else {
        bonus(j, k, (h - 1) as nat)
    }
}

/// The bin that stands out counts fully in its own comb.
proof fn lemma_own_bonus(k: nat)
    requires
        k > 0,
    ensures
        bonus(k, k, 5) == errors::big(),
{
    reveal_with_fuel(bonus, 6);
    combs::lemma_weight(1);
}

/// In another comb it counts less, and only where that of a lower bin has it.
proof fn lemma_other_bonus(j: nat, k: nat)
    requires
        j > 0,
        j != k,
    ensures
        100 * bonus(j, k, 5) <= 91 * errors::big(),
        bonus(j, k, 5) > 0 ==> j < k,
{
    reveal_with_fuel(bonus, 6);
    errors::lemma_scales();
    combs::lemma_weight(2);
    combs::lemma_weight(3);
    combs::lemma_weight(4);
    combs::lemma_weight(5);
}

/// What a comb sums up: the floor, and its share of what stands out.
proof fn lemma_sum(db: Seq<Single>, k: nat, floor: Single, j: nat, h: nat)
    requires
        stands_out(db, k, floor),
        h <= 5,
    ensures
        combs::exact_sum(db, j, floor, h) == floor.value() * combs::share(db.len(), j, h) + bonus(
            j,
            k,
            h,
        ) * (db[k as int].value() - floor.value()),
    decreases h,
{
    let (p, f) = (db[k as int].value(), floor.value());
    if h == 0 {
        assert(f * 0 == 0 && 0 * (p - f) == 0);
    } else {
        let g = (h - 1) as nat;
        lemma_sum(db, k, floor, j, g);
        combs::lemma_weight(h);
        let wv = combs::weight(h).value();
        let (held, extra) = (combs::share(db.len(), j, g), bonus(j, k, g));
        if h * j < db.len() {
            lemma_counted(db, k, floor, (h * j) as int);
            if h * j == k {
                assert(f * (held + wv) + (extra + wv) * (p - f) == f * held + extra * (p - f) + wv
                    * p) by (nonlinear_arith);
            } else {
                assert(f * (held + wv) == f * held + wv * f) by (nonlinear_arith);
            }
        }
    }
}

/// The score of a bin is not far from the floor and its share of what stands out.
proof fn lemma_score(db: Seq<Single>, k: nat, floor: Single, j: nat)
    requires
        stands_out(db, k, floor),
        0 < j < db.len(),
    ensures
        ({
            let q = pitch::score_of(db, j, floor);
            let whole = combs::share(db.len(), j, 5);
            let (p, f) = (db[k as int].value(), floor.value());
            &&& q.finite()
            &&& errors::near(q.value(), 0, 1600 * errors::big())
            &&& errors::big() <= whole <= 5 * errors::big()
            &&& errors::near(
                (q.value() - f) * whole,
                bonus(j, k, 5) * (p - f),
                8100 * (errors::slack() * errors::big()),
            )
        }),
{
    let f = floor.value();
    let q = pitch::score_of(db, j, floor).value();
    let whole = combs::share(db.len(), j, 5) as int;
    lemma_levels(db, k, floor);
    lemma_sum(db, k, floor, j, 5);
    assert forall|i: int| 0 <= i < db.len() implies combs::tame(
        (#[trigger] db[i]).larger(floor),
    ) by {
        lemma_counted(db, k, floor, i);
    }
    combs::lemma_score(db, j, floor);
    assert(q * whole - f * whole == (q - f) * whole) by (nonlinear_arith);
}

/// The score that has all of what stands out lies above one that has part of it.
proof fn lemma_all_beats_part(a: int, b: int, own: int, other: int, extra: int, gap: int)
    requires
        errors::near(a * own, errors::big() * gap, 8100 * (errors::slack() * errors::big())),
        errors::near(b * other, extra * gap, 8100 * (errors::slack() * errors::big())),
        errors::big() <= own <= 5 * errors::big(),
        errors::big() <= other <= 5 * errors::big(),
        gap >= 79 * errors::big(),
        0 <= extra,
        100 * extra <= 91 * errors::big(),
        extra > 0 ==> own <= other,
    ensures
        b < a,
{
    let (big, e) = (errors::big(), errors::slack());
    errors::lemma_scales();
    assert(big * big > 0) by (nonlinear_arith)
        requires
            big > 0,
    ;
    assert(2 * (8100 * (e * big)) <= big * big) by (nonlinear_arith)
        requires
            big == 0x4000 * e,
            e > 0,
    ;
    assert(big * gap >= 79 * (big * big)) by (nonlinear_arith)
        requires
            gap >= 79 * big,
            big > 0,
    ;
    assert(a > 15 * big) by (nonlinear_arith)
        requires
            a * own >= 78 * (big * big),
            0 < own <= 5 * big,
            big > 0,
    ;
    if b >= a {
        if extra == 0 {
            assert(extra * gap == 0);
            assert(b * other > 15 * (big * big)) by (nonlinear_arith)
                requires
                    b > 15 * big,
                    other >= big,
                    big > 0,
            ;
        } else {
            assert(a * own <= b * other) by (nonlinear_arith)
                requires
                    0 < a <= b,
                    0 < own <= other,
            ;
            assert(100 * (extra * gap) <= 91 * (big * gap)) by (nonlinear_arith)
                requires
                    100 * extra <= 91 * big,
                    gap > 0,
            ;
        }
    }
}

/// The bin that stands out outscores every other one. Its subharmonics have it
/// in their combs too, but the weights decrease.
pub proof fn law_sine_outscores(db: Seq<Single>, k: nat, floor: Single, j: nat)
    requires
        stands_out(db, k, floor),
        0 < j < db.len(),
        j != k,
    ensures
        pitch::score_of(db, j, floor).less(pitch::score_of(db, k, floor)),
{
    let (a, b) = (pitch::score_of(db, k, floor), pitch::score_of(db, j, floor));
    let (p, f) = (db[k as int].value(), floor.value());
    let (own, other) = (combs::share(db.len(), k, 5), combs::share(db.len(), j, 5));
    lemma_levels(db, k, floor);
    lemma_score(db, k, floor, k);
    lemma_score(db, k, floor, j);
    lemma_own_bonus(k);
    lemma_other_bonus(j, k);
    if j < k {
        combs::lemma_share_grows(db.len(), j, k, 5);
    }
    lemma_all_beats_part(
        a.value() - f,
        b.value() - f,
        own as int,
        other as int,
        bonus(j, k, 5) as int,
        p - f,
    );
    single::lemma_less_is_order(b, a);
}

/// The search finds the bin that stands out, wherever it is within the range.
pub proof fn law_sine_is_found(db: Seq<Single>, k: nat, floor: Single, lo: nat, end: nat)
    requires
        stands_out(db, k, floor),
        0 < lo <= k < end <= db.len(),
    ensures
        pitch::best_of(db, floor, lo, end) == (k, pitch::score_of(db, k, floor)),
{
    let (b, _) = pitch::best_of(db, floor, lo, end);
    let score = pitch::score_of(db, k, floor);
    pitch::law_best_is_first_maximum(db, floor, lo, end, k);
    lemma_score(db, k, floor, k);
    combs::lemma_above_least(score);
    if b > 0 && b != k {
        law_sine_outscores(db, k, floor, b);
    }
}

/// The loudest harmonic of the bin that stands out is that bin.
proof fn lemma_loudest(db: Seq<Single>, k: nat, floor: Single, h: nat)
    requires
        stands_out(db, k, floor),
        h >= 1,
    ensures
        pitch::loudest_harmonic(db, k, h).equals(db[k as int]),
    decreases h,
{
    lemma_levels(db, k, floor);
    if h == 1 {
        reveal_with_fuel(pitch::loudest_harmonic, 2);
        assert(h * k == k);
    } else {
        lemma_loudest(db, k, floor, (h - 1) as nat);
        assert(h * k > k) by (nonlinear_arith)
            requires
                h >= 2,
                k > 0,
        ;
    }
}

/// A pure sine within the range is detected: at the frequency of the bin that
/// stands out, refined by its neighbours, and with that bin's level.
pub proof fn law_sine_is_detected(a: Analyzer, power_lo: Single, power_hi: Single, k: nat)
    requires
        a.wf(),
        stands_out(a.db@, k, pitch::noise_floor(a)),
        a.first_bin(power_lo) <= k <= a.last_bin(power_hi),
        a.first_bin(power_lo) < a.last_bin(power_hi),
    ensures
        ({
            let floor = pitch::noise_floor(a);
            let delta = pitch::lean(
                pitch::score_of(a.db@, (k - 1) as nat, floor),
                pitch::score_of(a.db@, k, floor),
                pitch::score_of(a.db@, k + 1, floor),
            );
            a.fundamental_in(power_lo, power_hi) matches Some(c) && c.db.equals(a.db@[k as int])
                && c.freq == Single::whole(k as int).plus(delta).times(a.sample_rate).over(
                Single::whole(a.fft_size as int),
            )
        }),
{
    let floor = pitch::noise_floor(a);
    let (lo, hi) = (a.first_bin(power_lo), a.last_bin(power_hi));
    law_sine_is_found(a.db@, k, floor, lo as nat, (hi + 1) as nat);
    lemma_loudest(a.db@, k, floor, 5);
}

} // verus!
