//! A fundamental is found where it is quieter than its harmonics, or absent: only
//! its own comb meets all of them.
use crate::analysis::Analyzer;
use crate::combs;
use crate::errors;
use crate::order;
use crate::pitch;
use crate::pitch::Candidate;
use crate::rounding;
use crate::single;
use crate::single::Single;
use crate::values::{EIGHTY, HUNDRED, MINUS_200, TWENTY};
use vstd::arithmetic::power2;
use vstd::prelude::*;

verus! {

/// Bin `i` is bin `k` or one of its harmonics up to the fifth.
pub open spec fn harmonic(i: int, k: nat) -> bool {
    i == k || i == 2 * k || i == 3 * k || i == 4 * k || i == 5 * k
}

/// A level is within 20 dB of the loudest.
pub open spec fn loud(x: Single, peak: Single) -> bool {
    !x.nan() && !peak.less(x) && !x.less(peak.minus(Single { bits: TWENTY }))
}

/// A spectrum in which bin `k` and its harmonics up to the fifth are at any levels up
/// to the loudest, or absent, and all others are at the floor, 80 dB down, or under
/// it.
pub open spec fn spaced(db: Seq<Single>, k: nat, peak: Single, floor: Single) -> bool {
    &&& 0 < k
    &&& 10 * k < db.len()
    &&& !peak.nan()
    &&& peak.lies_in(Single { bits: MINUS_200 }, Single { bits: HUNDRED })
    &&& floor == peak.minus(Single { bits: EIGHTY })
    &&& forall|i: int| 0 <= i < db.len() ==> !(if harmonic(i, k) {
        peak
    } else {
        floor
    }).less(#[trigger] db[i])
}

/// A spectrum in which the harmonics of bin `k`, from the second to the fifth,
/// stand within 20 dB of the loudest level. Bin `k` itself is at any level up to
/// that, or absent.
pub open spec fn harmonics_stand_out(
    db: Seq<Single>,
    k: nat,
    peak: Single,
    floor: Single,
) -> bool {
    &&& spaced(db, k, peak, floor)
    &&& loud(db[2 * k as int], peak)
    &&& loud(db[3 * k as int], peak)
    &&& loud(db[4 * k as int], peak)
    &&& loud(db[5 * k as int], peak)
}

/// The levels in units: the loudest, the floor, and the least of the harmonics.
pub proof fn lemma_levels(peak: Single)
    requires
        !peak.nan(),
        peak.lies_in(Single { bits: MINUS_200 }, Single { bits: HUNDRED }),
    ensures
        ({
            let (floor, soft) = (
                peak.minus(Single { bits: EIGHTY }),
                peak.minus(Single { bits: TWENTY }),
            );
            let p = peak.value();
            &&& peak.finite()
            &&& floor.finite()
            &&& soft.finite()
            &&& -200 * errors::big() <= p <= 100 * errors::big()
            &&& errors::near(floor.value(), p - 80 * errors::big(), errors::slack())
            &&& errors::near(soft.value(), p - 20 * errors::big(), errors::slack())
        }),
{
    let big = errors::big();
    let (least, most) = (Single { bits: MINUS_200 }, Single { bits: HUNDRED });
    let (eighty, twenty) = (Single { bits: EIGHTY }, Single { bits: TWENTY });
    power2::lemma2_to64();
    order::lemma_units_of(least, 0xc8_0000, 133);
    order::lemma_units_of(most, 0xc8_0000, 132);
    order::lemma_units_of(eighty, 0xa0_0000, 132);
    order::lemma_units_of(twenty, 0xa0_0000, 130);
    rounding::lemma_pow2_facts(133, 16);
    rounding::lemma_pow2_facts(132, 17);
    rounding::lemma_pow2_facts(130, 19);
    assert(0xc8_0000 * power2::pow2(133) == 200 * big) by (nonlinear_arith)
        requires
            big == power2::pow2(133) * 0x1_0000,
    ;
    assert(0xc8_0000 * power2::pow2(132) == 100 * big) by (nonlinear_arith)
        requires
            big == power2::pow2(132) * 0x2_0000,
    ;
    assert(0xa0_0000 * power2::pow2(132) == 80 * big) by (nonlinear_arith)
        requires
            big == power2::pow2(132) * 0x2_0000,
    ;
    assert(0xa0_0000 * power2::pow2(130) == 20 * big) by (nonlinear_arith)
        requires
            big == power2::pow2(130) * 0x8_0000,
    ;
    assert(peak.finite());
    single::lemma_less_is_order(peak, least);
    single::lemma_less_is_order(most, peak);
    errors::lemma_scales();
    errors::lemma_sum_error(peak, eighty.negated(), 136);
    errors::lemma_sum_error(peak, twenty.negated(), 136);
}

/// What a bin counts.
pub proof fn lemma_counted(db: Seq<Single>, k: nat, peak: Single, floor: Single, i: int)
    requires
        spaced(db, k, peak, floor),
        0 <= i < db.len(),
    ensures
        ({
            let x = db[i].larger(floor);
            &&& combs::tame(x)
            &&& floor.value() <= x.value() <= peak.value()
            &&& !harmonic(i, k) ==> x.value() == floor.value()
            &&& loud(db[i], peak) ==> x.value() - floor.value() >= 60 * errors::big() - 2
                * errors::slack()
        }),
{
    lemma_levels(peak);
    errors::lemma_scales();
    let soft = peak.minus(Single { bits: TWENTY });
    let x = db[i];
    if !x.nan() {
        assert(!harmonic(i, k) ==> !floor.less(x));
        assert(harmonic(i, k) ==> !peak.less(x));
        single::lemma_less_is_order(floor, peak);
        if x.less(floor) {
            if loud(x, peak) {
                single::lemma_less_is_order(floor, soft);
            }
        } else {
            assert(x.finite());
            single::lemma_less_is_order(peak, x);
            single::lemma_less_is_order(x, floor);
            single::lemma_less_is_order(floor, x);
            single::lemma_less_is_order(x, soft);
        }
    }
}

/// The weights of the harmonics of bin `j` that are among those of bin `k`.
pub open spec fn hits(j: nat, k: nat, h: nat) -> nat
    decreases h,
{
    if h == 0 {
        0
    } else if harmonic((h * j) as int, k) {
        hits(j, k, (h - 1) as nat) + combs::weight(h).units()
    } else {
        hits(j, k, (h - 1) as nat)
    }
}

/// A comb sums up no more than the floor and the loudest level where it hits.
pub proof fn lemma_at_most(db: Seq<Single>, k: nat, peak: Single, floor: Single, j: nat, h: nat)
    requires
        spaced(db, k, peak, floor),
        h <= 5,
    ensures
        combs::exact_sum(db, j, floor, h) <= floor.value() * combs::share(db.len(), j, h) + hits(
            j,
            k,
            h,
        ) * (peak.value() - floor.value()),
    decreases h,
{
    let (p, f) = (peak.value(), floor.value());
    if h == 0 {
        assert(f * 0 == 0 && 0 * (p - f) == 0);
    } else {
        let g = (h - 1) as nat;
        lemma_at_most(db, k, peak, floor, j, g);
        combs::lemma_weight(h);
        let wv = combs::weight(h).value();
        let (held, extra) = (combs::share(db.len(), j, g) as int, hits(j, k, g) as int);
        lemma_levels(peak);
        errors::lemma_scales();
        if h * j < db.len() {
            let i = (h * j) as int;
            lemma_counted(db, k, peak, floor, i);
            let x = db[i].larger(floor).value();
            assert(f * (held + wv) == f * held + wv * f) by (nonlinear_arith);
            if harmonic(i, k) {
                assert((extra + wv) * (p - f) == extra * (p - f) + wv * (p - f) && wv * x <= wv * f
                    + wv * (p - f)) by (nonlinear_arith)
                    requires
                        x <= p,
                        wv >= 0,
                ;
            }
        } else if harmonic((h * j) as int, k) {
            assert(false);
        }
    }
}

/// The teeth of the fundamental's own comb are its harmonics.
proof fn lemma_tooth(h: nat, k: nat)
    requires
        1 <= h <= 5,
    ensures
        harmonic((h * k) as int, k),
        h * k <= 5 * k,
{
    assert(h == 1 ==> h * k == k) by (nonlinear_arith);
    assert(h == 2 ==> h * k == 2 * k) by (nonlinear_arith);
    assert(h == 3 ==> h * k == 3 * k) by (nonlinear_arith);
    assert(h == 4 ==> h * k == 4 * k) by (nonlinear_arith);
    assert(h == 5 ==> h * k == 5 * k) by (nonlinear_arith);
}

/// The fundamental's own comb sums up the floor and all the harmonics.
proof fn lemma_at_least(db: Seq<Single>, k: nat, peak: Single, floor: Single, h: nat)
    requires
        harmonics_stand_out(db, k, peak, floor),
        1 <= h <= 5,
    ensures
        combs::share(db.len(), k, h) >= errors::big(),
        combs::exact_sum(db, k, floor, h) >= floor.value() * combs::share(db.len(), k, h) + (
        combs::share(db.len(), k, h) - errors::big()) * (60 * errors::big() - 2
            * errors::slack()),
    decreases h,
{
    let f = floor.value();
    let (big, gap) = (errors::big(), 60 * errors::big() - 2 * errors::slack());
    combs::lemma_weight(h);
    let wv = combs::weight(h).value();
    lemma_tooth(h, k);
    let i = (h * k) as int;
    lemma_counted(db, k, peak, floor, i);
    let x = db[i].larger(floor).value();
    if h == 1 {
        reveal_with_fuel(combs::share, 2);
        reveal_with_fuel(combs::exact_sum, 2);
        assert(wv == big);
        assert(big * x >= f * big + 0 * gap) by (nonlinear_arith)
            requires
                x >= f,
                big >= 0,
        ;
        assert((big - big) * gap == 0 * gap);
    } else {
        let g = (h - 1) as nat;
        lemma_at_least(db, k, peak, floor, g);
        assert(h * k != k) by (nonlinear_arith)
            requires
                h >= 2,
                k > 0,
        ;
        assert(i == 2 * k || i == 3 * k || i == 4 * k || i == 5 * k);
        assert(loud(db[i], peak));
        let held = combs::share(db.len(), k, g) as int;
        assert(f * (held + wv) + (held + wv - big) * gap <= f * held + (held - big) * gap + wv * x)
            by (nonlinear_arith)
            requires
                x - f >= gap,
                wv >= 0,
        ;
    }
}

/// The whole comb of the fundamental is there.
pub proof fn lemma_own_share(db: Seq<Single>, k: nat)
    requires
        0 < k,
        10 * k < db.len(),
    ensures
        errors::near(
            10 * combs::share(db.len(), k, 5) as int,
            40 * errors::big(),
            4 * errors::slack(),
        ),
{
    lemma_shares(db.len(), k);
}

/// The shares of the first harmonics.
pub proof fn lemma_shares(len: nat, j: nat)
    ensures
        ({
            let (s, big, e) = (
                10 * combs::share(len, j, 5) as int,
                errors::big(),
                errors::slack(),
            );
            &&& 2 * j < len ==> s >= 19 * big - e
            &&& 3 * j < len ==> s >= 27 * big - 2 * e
            &&& 4 * j < len ==> s >= 34 * big - 3 * e
            &&& 5 * j < len ==> errors::near(s, 40 * big, 4 * e)
        }),
{
    reveal_with_fuel(combs::share, 6);
    errors::lemma_scales();
    combs::lemma_weight(1);
    combs::lemma_weight(2);
    combs::lemma_weight(3);
    combs::lemma_weight(4);
    combs::lemma_weight(5);
}

/// The other combs hit little more than half of their weight.
proof fn lemma_other_hits(len: nat, j: nat, k: nat)
    requires
        0 < k,
        10 * k < len,
        0 < j,
        j != k,
    ensures
        100 * hits(j, k, 5) <= 53 * combs::share(len, j, 5),
{
    errors::lemma_scales();
    lemma_shares(len, j);
    combs::lemma_weight(1);
    combs::lemma_weight(2);
    combs::lemma_weight(3);
    combs::lemma_weight(4);
    combs::lemma_weight(5);
    reveal_with_fuel(hits, 6);
    if harmonic(j as int, k) {
        if j == 2 * k {
        } else if j == 3 * k {
        } else if j == 4 * k {
        } else {
            assert(j == 5 * k);
        }
    } else {
        lemma_two_hits(j, k);
    }
}

/// A comb that does not begin with a harmonic hits its second and fourth tooth
/// together, or one of the four alone.
pub proof fn lemma_two_hits(j: nat, k: nat)
    requires
        0 < k,
        0 < j,
        !harmonic(j as int, k),
    ensures
        harmonic(2 * j as int, k) ==> !harmonic(3 * j as int, k) && !harmonic(5 * j as int, k),
        harmonic(3 * j as int, k) ==> !harmonic(4 * j as int, k) && !harmonic(5 * j as int, k),
        harmonic(4 * j as int, k) ==> !harmonic(5 * j as int, k),
{
}

/// The scores are far enough apart.
proof fn lemma_apart(a: int, b: int, own: int, other: int, extra: int, gap: int)
    requires
        a * own >= (own - errors::big()) * (60 * errors::big() - 2 * errors::slack()) - 8100 * (
        errors::slack() * errors::big()),
        b * other <= extra * gap + 8100 * (errors::slack() * errors::big()),
        errors::near(10 * own, 40 * errors::big(), 4 * errors::slack()),
        other >= errors::big(),
        0 <= gap <= 80 * errors::big() + errors::slack(),
        100 * extra <= 53 * other,
    ensures
        b < a,
{
    let (big, e) = (errors::big(), errors::slack());
    errors::lemma_scales();
    assert(2 * (8100 * (e * big)) <= big * big) by (nonlinear_arith)
        requires
            big == 0x4000 * e,
            e > 0,
    ;
    assert(big * big > 0) by (nonlinear_arith)
        requires
            big > 0,
    ;
    assert(a > 44 * big) by (nonlinear_arith)
        requires
            a * own >= (own - big) * (60 * big - 2 * e) - big * big,
            10 * own <= 40 * big + 4 * e,
            10 * own >= 40 * big - 4 * e,
            big == 0x4000 * e,
            e > 0,
    ;
    assert(100 * (extra * gap) <= 53 * (other * gap)) by (nonlinear_arith)
        requires
            100 * extra <= 53 * other,
            gap >= 0,
    ;
    assert(b < 44 * big) by (nonlinear_arith)
        requires
            100 * (b * other) <= 53 * (other * gap) + 50 * (big * big),
            other >= big,
            0 <= gap <= 80 * big + e,
            big == 0x4000 * e,
            e > 0,
    ;
}

/// Where the second to the fifth harmonic of a bin stand out, the bin outscores
/// every other one, whether it is there itself or not.
pub proof fn law_fundamental_outscores(
    db: Seq<Single>,
    k: nat,
    peak: Single,
    floor: Single,
    j: nat,
)
    requires
        harmonics_stand_out(db, k, peak, floor),
        0 < j < db.len(),
        j != k,
    ensures
        pitch::score_of(db, j, floor).less(pitch::score_of(db, k, floor)),
{
    let (a, b) = (pitch::score_of(db, k, floor), pitch::score_of(db, j, floor));
    let (p, f) = (peak.value(), floor.value());
    let (own, other) = (
        combs::share(db.len(), k, 5) as int,
        combs::share(db.len(), j, 5) as int,
    );
    errors::lemma_scales();
    lemma_levels(peak);
    lemma_tame(db, k, peak, floor);
    combs::lemma_score(db, k, floor);
    combs::lemma_score(db, j, floor);
    lemma_at_least(db, k, peak, floor, 5);
    lemma_at_most(db, k, peak, floor, j, 5);
    lemma_own_share(db, k);
    lemma_other_hits(db.len(), j, k);
    let (av, bv) = (a.value(), b.value());
    assert((av - f) * own == av * own - f * own && (bv - f) * other == bv * other - f * other)
        by (nonlinear_arith);
    lemma_apart(av - f, bv - f, own, other, hits(j, k, 5) as int, p - f);
    single::lemma_less_is_order(b, a);
}

pub proof fn lemma_tame(db: Seq<Single>, k: nat, peak: Single, floor: Single)
    requires
        spaced(db, k, peak, floor),
    ensures
        combs::tame_levels(db, floor),
{
    assert forall|i: int| 0 <= i < db.len() implies combs::tame(
        (#[trigger] db[i]).larger(floor),
    ) by {
        lemma_counted(db, k, peak, floor, i);
    }
}

/// The search finds a fundamental that is quieter than its harmonics, or absent.
pub proof fn law_fundamental_is_found(
    db: Seq<Single>,
    k: nat,
    peak: Single,
    floor: Single,
    lo: nat,
    end: nat,
)
    requires
        harmonics_stand_out(db, k, peak, floor),
        0 < lo <= k < end <= db.len(),
    ensures
        pitch::best_of(db, floor, lo, end) == (k, pitch::score_of(db, k, floor)),
{
    let (b, _) = pitch::best_of(db, floor, lo, end);
    let score = pitch::score_of(db, k, floor);
    pitch::law_best_is_first_maximum(db, floor, lo, end, k);
    lemma_tame(db, k, peak, floor);
    combs::lemma_score(db, k, floor);
    combs::lemma_above_least(score);
    if b > 0 && b != k {
        law_fundamental_outscores(db, k, peak, floor, b);
    }
}

/// The loudest harmonic is no louder than the loudest level, and no quieter than any
/// harmonic that is there.
pub proof fn lemma_loudest(db: Seq<Single>, k: nat, peak: Single, floor: Single, h: nat)
    requires
        spaced(db, k, peak, floor),
        h <= 5,
    ensures
        !pitch::loudest_harmonic(db, k, h).nan(),
        pitch::loudest_harmonic(db, k, h).rank() <= peak.rank(),
        forall|m: nat|
            1 <= m <= h && !db[(m * k) as int].nan() ==> #[trigger] db[(m * k) as int].rank()
                <= pitch::loudest_harmonic(db, k, h).rank(),
    decreases h,
{
    if h > 0 {
        lemma_loudest(db, k, peak, floor, (h - 1) as nat);
        lemma_tooth(h, k);
    }
}

/// What is made of bin `k` once the search has found it: its frequency, refined by its
/// neighbours, and the level of its loudest harmonic.
pub open spec fn pitch_at(a: Analyzer, k: nat) -> Candidate {
    let floor = pitch::noise_floor(a);
    let delta = pitch::lean(
        pitch::score_of(a.db@, (k - 1) as nat, floor),
        pitch::score_of(a.db@, k, floor),
        pitch::score_of(a.db@, k + 1, floor),
    );
    Candidate {
        freq: Single::whole(k as int).plus(delta).times(a.sample_rate).over(
            Single::whole(a.fft_size as int),
        ),
        db: pitch::loudest_harmonic(a.db@, k, 5),
    }
}

/// A fundamental within the range that is quieter than its harmonics, or absent, is
/// detected, with the level of its loudest harmonic.
pub proof fn law_fundamental_is_detected(
    a: Analyzer,
    power_lo: Single,
    power_hi: Single,
    k: nat,
)
    requires
        a.wf(),
        harmonics_stand_out(a.db@, k, a.peak_db, pitch::noise_floor(a)),
        a.first_bin(power_lo) <= k <= a.last_bin(power_hi),
        a.first_bin(power_lo) < a.last_bin(power_hi),
    ensures
        a.fundamental_in(power_lo, power_hi) == Some(pitch_at(a, k)),
        loud(pitch_at(a, k).db, a.peak_db),
{
    let floor = pitch::noise_floor(a);
    let (lo, hi) = (a.first_bin(power_lo), a.last_bin(power_hi));
    law_fundamental_is_found(a.db@, k, a.peak_db, floor, lo as nat, (hi + 1) as nat);
    lemma_loudest(a.db@, k, a.peak_db, floor, 5);
    assert(a.db@[(2 * k) as int].rank() <= pitch_at(a, k).db.rank());
}

} // verus!
