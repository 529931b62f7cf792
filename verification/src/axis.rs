//! The pitch axis in exact arithmetic: evenly spaced notes, and hues that follow them.
use crate::analysis;
use crate::combs;
use crate::errors;
use crate::formulas;
use crate::hues;
use crate::order;
use crate::pitch;
use crate::shades;
use crate::single;
use crate::single::Single;
use crate::values::{HALF, ONE, TWELVE, TWENTY_ONE};
use vstd::arithmetic::div_mod;
use vstd::prelude::*;

verus! {

/// The notes of the bands are evenly spaced over the range: the band of pixel `i` of `n`
/// stands `i` and a half `n`ths of the way up, within a hundredth of a semitone.
pub proof fn law_bands_are_evenly_spaced(lo: int, hi: int, i: nat, n: nat)
    requires
        -200 <= lo <= hi <= 200,
        i < n < 2047,
    ensures
        ({
            let note = analysis::slice_at(lo, hi, i, n).note;
            let b = errors::big();
            &&& note.finite()
            &&& errors::near(
                2 * (n * (note.value() - lo * b)),
                (2 * i + 1) * (hi - lo) * b,
                n * (1000 * errors::slack()),
            )
        }),
{
    let (b, e, s) = (errors::big(), errors::slack(), formulas::speck());
    let span = hi - lo;
    let (at, all, half) = (
        Single::whole(i as int),
        Single::whole(n as int),
        Single { bits: HALF },
    );
    formulas::lemma_specks();
    shades::lemma_grains();
    shades::lemma_constants();
    order::lemma_whole_exact(i as int);
    order::lemma_whole_exact(n as int);
    order::lemma_whole_exact(lo);
    order::lemma_whole_exact(span);
    assert(0 <= i * b <= n * b - b && b <= n * b <= 2046 * b) by (nonlinear_arith)
        requires
            0 <= i < n,
            n <= 2046,
            b > 0,
    ;
    errors::lemma_sum_error(at, half, 136);
    let m = at.plus(half);
    let mv = m.value();
    single::lemma_parts(all);
    assert(m.units() * b < all.units() * (2 * b)) by (nonlinear_arith)
        requires
            0 <= m.units() <= all.units(),
            all.units() > 0,
            b > 0,
    ;
    errors::lemma_quotient_error(m, all, 126);
    let q = m.over(all);
    let qv = q.value();
    errors::lemma_quotient_value(qv, mv, n as int, s);
    assert(-b <= qv <= b + 2 * s) by (nonlinear_arith)
        requires
            errors::near(n * qv, mv, n * s),
            0 <= mv <= n * b,
            n >= 1,
            b > s,
            s > 0,
    ;
    let width = Single::whole(span);
    assert(0 <= span * b <= 400 * b && -200 * b <= lo * b <= 200 * b) by (nonlinear_arith)
        requires
            0 <= span <= 400,
            -200 <= lo <= 200,
            b > 0,
    ;
    assert(q.units() * width.units() < b * (2048 * b)) by (nonlinear_arith)
        requires
            0 <= q.units() <= 2 * b,
            0 <= width.units() <= 400 * b,
            b > 0,
    ;
    errors::lemma_product_error(q, width, 136);
    let t = q.times(width);
    let tv = t.value();
    errors::lemma_product_value(tv, qv, span, e);
    assert(-400 * b <= span * qv <= 401 * b) by (nonlinear_arith)
        requires
            -b <= qv <= b + 2 * s,
            0 <= span <= 400,
            b == 0x100_0000 * s,
            s > 0,
    ;
    errors::lemma_sum_error(Single::whole(lo), t, 136);
    lemma_even(i as int, n as int, span, mv, qv, tv, Single::whole(lo).plus(t).value() - lo * b);
}

proof fn lemma_even(i: int, n: int, span: int, mv: int, qv: int, tv: int, v: int)
    requires
        0 <= i < n <= 2046,
        0 <= span <= 400,
        errors::near(2 * mv, 2 * (i * errors::big()) + errors::big(), 2 * errors::slack()),
        errors::near(n * qv, mv, n * formulas::speck()),
        errors::near(tv, span * qv, errors::slack()),
        errors::near(v, tv, errors::slack()),
    ensures
        errors::near(
            2 * (n * v),
            (2 * i + 1) * span * errors::big(),
            n * (1000 * errors::slack()),
        ),
{
    let (b, e, s) = (errors::big(), errors::slack(), formulas::speck());
    formulas::lemma_specks();
    let ne = n * e;
    assert(errors::near(2 * (n * v), 2 * (n * (span * qv)), 4 * ne)) by (nonlinear_arith)
        requires
            errors::near(v, span * qv, 2 * e),
            ne == n * e,
            n >= 1,
    ;
    assert(n * (span * qv) == span * (n * qv)) by (nonlinear_arith);
    assert(errors::near(2 * (span * (n * qv)), 2 * (span * mv), ne)) by (nonlinear_arith)
        requires
            errors::near(n * qv, mv, n * s),
            0 <= span <= 400,
            ne == n * e,
            e == 1024 * s,
            s > 0,
            n >= 1,
    ;
    let twice = (2 * i + 1) * b;
    assert(twice == 2 * (i * b) + b) by (nonlinear_arith)
        requires
            twice == (2 * i + 1) * b,
    ;
    assert(errors::near(2 * (span * mv), span * twice, 800 * ne)) by (nonlinear_arith)
        requires
            errors::near(2 * mv, twice, 2 * e),
            0 <= span <= 400,
            ne == n * e,
            e > 0,
            n >= 1,
    ;
    assert(span * twice == (2 * i + 1) * span * b) by (nonlinear_arith)
        requires
            twice == (2 * i + 1) * b,
    ;
    assert(n * (1000 * e) == 1000 * ne && ne > 0) by (nonlinear_arith)
        requires
            ne == n * e,
            n >= 1,
            e > 0,
    ;
}

/// The hue of a note is its way up from the A below it, in octaves: with some whole number
/// of turns it is a twelfth of the semitones above the lowest A.
pub proof fn law_hue_is_way_up_the_octave(note: Single)
    requires
        note.finite(),
        21 * errors::big() <= note.value() <= 200 * errors::big(),
    ensures
        ({
            let (hue, b) = (analysis::hue_at(note), errors::big());
            &&& hue.finite()
            &&& 0 <= hue.value() < b
            &&& exists|turns: int|
                errors::near(
                    12 * hue.value() + 12 * #[trigger] (turns * b),
                    note.value() - 21 * b,
                    errors::slack(),
                )
        }),
{
    let (b, s, e) = (errors::big(), formulas::speck(), errors::slack());
    let (base, twelve) = (Single { bits: TWENTY_ONE }, Single { bits: TWELVE });
    formulas::lemma_specks();
    shades::lemma_grains();
    shades::lemma_constants();
    analysis::lemma_values();
    let less = base.negated();
    assert(less.units() == base.units());
    assert(less.value() == -(21 * b));
    errors::lemma_sum_error(note, less, 134);
    let above = note.minus(base);
    single::lemma_less_is_order(note, base);
    hues::lemma_above(note);
    single::lemma_parts(twelve);
    assert(above.units() * b < twelve.units() * (64 * b)) by (nonlinear_arith)
        requires
            0 <= above.units() <= 180 * b,
            twelve.units() == 12 * b,
            b > 0,
    ;
    errors::lemma_quotient_error(above, twelve, 131);
    let turns = above.over(twelve);
    errors::lemma_quotient_value(turns.value(), above.value(), 12, 32 * s);
    hues::lemma_fraction(turns);
    let hue = analysis::hue_at(note);
    single::lemma_parts(hue);
    single::lemma_less_is_order(hue, Single { bits: ONE });
    let u = turns.units() as int;
    div_mod::lemma_fundamental_div_mod(u, b);
    let k = u / b;
    assert(k * b == b * k) by (nonlinear_arith);
    assert(errors::near(12 * hue.value() + 12 * (k * b), note.value() - 21 * b, e));
}

/// The score of a bin is the mean level of its first five harmonics, each raised to the
/// floor, with weights of 1, 0.9, 0.8, 0.7 and 0.6; those beyond the spectrum do not count.
pub proof fn law_score_is_weighted_mean(db: Seq<Single>, j: nat, floor: Single)
    requires
        combs::tame_levels(db, floor),
        0 < j,
        5 * j < db.len(),
    ensures
        ({
            let (b, e) = (errors::big(), errors::slack());
            let q = pitch::score_of(db, j, floor);
            let x = |h: int| db[h * j].larger(floor).value();
            &&& q.finite()
            &&& errors::near(
                40 * q.value(),
                10 * x(1) + 9 * x(2) + 8 * x(3) + 7 * x(4) + 6 * x(5),
                100_000 * e,
            )
        }),
{
    let (b, e) = (errors::big(), errors::slack());
    errors::lemma_scales();
    combs::lemma_score(db, j, floor);
    combs::lemma_weight(1);
    combs::lemma_weight(2);
    combs::lemma_weight(3);
    combs::lemma_weight(4);
    combs::lemma_weight(5);
    reveal_with_fuel(combs::share, 6);
    reveal_with_fuel(combs::exact_sum, 6);
    let q = pitch::score_of(db, j, floor).value();
    let (v, w, x, y, z) = (
        db[j as int].larger(floor).value(),
        db[2 * j as int].larger(floor).value(),
        db[3 * j as int].larger(floor).value(),
        db[4 * j as int].larger(floor).value(),
        db[5 * j as int].larger(floor).value(),
    );
    assert(combs::tame(db[j as int].larger(floor)) && combs::tame(db[2 * j as int].larger(floor))
        && combs::tame(db[3 * j as int].larger(floor)) && combs::tame(
        db[4 * j as int].larger(floor),
    ) && combs::tame(db[5 * j as int].larger(floor)));
    lemma_term(combs::weight(1).value(), v, 10);
    lemma_term(combs::weight(2).value(), w, 9);
    lemma_term(combs::weight(3).value(), x, 8);
    lemma_term(combs::weight(4).value(), y, 7);
    lemma_term(combs::weight(5).value(), z, 6);
    let share = combs::share(db.len(), j, 5) as int;
    let sum = 10 * v + 9 * w + 8 * x + 7 * y + 6 * z;
    let eb = e * b;
    assert(errors::near(10 * (q * share), 40 * (q * b), 8000 * eb)) by (nonlinear_arith)
        requires
            errors::near(10 * share, 40 * b, 5 * e),
            errors::near(q, 0, 1600 * b),
            eb == e * b,
            e > 0,
            b > 0,
    ;
    let exact = combs::exact_sum(db, j, floor, 5);
    assert(errors::near(10 * exact, 10 * (v * b) + 9 * (w * b) + 8 * (x * b) + 7 * (y * b) + 6 * (z
        * b), 1500 * eb));
    assert(sum * b == 10 * (v * b) + 9 * (w * b) + 8 * (x * b) + 7 * (y * b) + 6 * (z * b))
        by (nonlinear_arith)
        requires
            sum == 10 * v + 9 * w + 8 * x + 7 * y + 6 * z,
    ;
    assert(40 * (q * b) == (40 * q) * b && (100_000 * e) * b == 100_000 * eb) by (nonlinear_arith)
        requires
            eb == e * b,
    ;
    assert(eb > 0) by (nonlinear_arith)
        requires
            eb == e * b,
            e > 0,
            b > 0,
    ;
    errors::lemma_divided(40 * q, sum, 100_000 * e, b);
}

proof fn lemma_term(w: int, x: int, tenths: int)
    requires
        errors::near(10 * w, tenths * errors::big(), errors::slack()),
        errors::near(x, 0, 300 * errors::big()),
    ensures
        errors::near(
            10 * (w * x),
            tenths * (x * errors::big()),
            300 * (errors::slack() * errors::big()),
        ),
{
    let (b, e) = (errors::big(), errors::slack());
    errors::lemma_scales();
    assert(10 * (w * x) - tenths * (x * b) == (10 * w - tenths * b) * x) by (nonlinear_arith);
    let d = 10 * w - tenths * b;
    assert(errors::near(d * x, 0, 300 * (e * b))) by (nonlinear_arith)
        requires
            -e <= d <= e,
            -300 * b <= x <= 300 * b,
            e > 0,
            b > 0,
    ;
}

} // verus!
