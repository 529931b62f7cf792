//! Where the hues lie: within one turn, from the lowest A up.
use crate::analysis;
use crate::analysis::{Analyzer, Tones};
use crate::errors;
use crate::order;
use crate::rounding;
use crate::shades;
use crate::single;
use crate::single::Single;
use crate::values::{HALF, ONE, TWELVE, TWENTY_ONE, ZERO};
use vstd::arithmetic::div_mod;
use vstd::arithmetic::power2;
use vstd::prelude::*;

verus! {

/// The remainder by one of a scaled number is scaled alike.
proof fn lemma_part(s: nat, e: nat) -> (r: (nat, nat))
    requires
        s < 0x100_0000,
    ensures
        r.0 < 0x100_0000,
        (s * power2::pow2(e)) % power2::pow2(149) == r.0 * power2::pow2(r.1),
{
    let big = power2::pow2(149);
    rounding::lemma_pow2_facts(149, 0);
    if e >= 149 {
        let f = (e - 149) as nat;
        rounding::lemma_pow2_facts(149, f);
        let w = power2::pow2(f);
        assert(s * power2::pow2(e) == (s * w) * big) by (nonlinear_arith)
            requires
                power2::pow2(e) == big * w,
        ;
        div_mod::lemma_mod_multiples_basic((s * w) as int, big as int);
        assert(0 * power2::pow2(0) == 0);
        (0, 0)
    } else {
        let d = (149 - e) as nat;
        rounding::lemma_pow2_facts(e, d);
        rounding::lemma_pow2_facts(d, 0);
        rounding::lemma_pow2_facts(e, 0);
        let (w, t) = (power2::pow2(e), power2::pow2(d));
        div_mod::lemma_truncate_middle(s as int, w as int, t as int);
        assert(s * w == w * s) by (nonlinear_arith);
        div_mod::lemma_mod_decreases(s, t);
        assert((s % t) * w == w * (s % t)) by (nonlinear_arith);
        (s % t, e)
    }
}

/// The part after the point is exact.
pub proof fn lemma_fraction(t: Single)
    requires
        t.finite(),
        !t.negative(),
    ensures
        ({
            let r = t.wrapped(Single { bits: ONE });
            &&& r.finite()
            &&& r.rank() >= 0
            &&& r.units() == t.units() % power2::pow2(149)
            &&& r.less(Single { bits: ONE })
        }),
{
    reveal(Single::modulo);
    let one = Single { bits: ONE };
    let big = power2::pow2(149);
    shades::lemma_grains();
    shades::lemma_constants();
    single::lemma_parts(one);
    single::lemma_parts(t);
    let n = t.units() % big;
    let r = t.modulo(one);
    order::lemma_nearest_increases(n, n, 1);
    assert(r.magnitude() == rounding::nearest(n, 1) && !r.negative());
    errors::lemma_error(n, 1, r, 129);
    let (s, e) = lemma_part(t.significand(), t.exponent());
    order::lemma_scaled_exact(s, e, r);
    single::lemma_less_is_order(r, Single { bits: ZERO });
    single::lemma_parts(Single { bits: ZERO });
    single::lemma_less_is_order(r, one);
}

/// From the lowest A up the turns are not negative.
pub proof fn lemma_above(note: Single)
    requires
        note.finite(),
        !note.less(Single { bits: TWENTY_ONE }),
    ensures
        ({
            let turns = note.minus(Single { bits: TWENTY_ONE }).over(Single { bits: TWELVE });
            &&& note.minus(Single { bits: TWENTY_ONE }).finite()
            &&& !note.minus(Single { bits: TWENTY_ONE }).negative()
            &&& turns.finite()
            &&& !turns.negative()
        }),
{
    reveal(Single::plus);
    reveal(Single::over);
    let (base, twelve) = (Single { bits: TWENTY_ONE }, Single { bits: TWELVE });
    let big = power2::pow2(149);
    shades::lemma_grains();
    analysis::lemma_values();
    single::lemma_less_is_order(note, base);
    single::lemma_parts(note);
    assert(base.negated().units() == base.units());
    let n = (note.value() - base.value()) as nat;
    order::lemma_nearest_increases(n, note.units(), 1);
    order::lemma_nearest_of(note, 1);
    let above = note.minus(base);
    assert(above.finite() && !above.negative());
    single::lemma_parts(above);
    let m = above.units() * big;
    order::lemma_nearest_of(above, twelve.units());
    assert(m <= above.units() * twelve.units()) by (nonlinear_arith)
        requires
            m == above.units() * big,
            twelve.units() == 12 * big,
    ;
    order::lemma_nearest_increases(m, above.units() * twelve.units(), twelve.units());
}

/// A note from the lowest A up has its hue within one turn.
pub proof fn law_hue_within_turn(note: Single)
    requires
        note.finite(),
        !note.less(Single { bits: TWENTY_ONE }),
    ensures
        ({
            let hue = analysis::hue_at(note);
            hue.finite() && hue.rank() >= 0 && hue.less(Single { bits: ONE })
        }),
{
    lemma_above(note);
    lemma_fraction(note.minus(Single { bits: TWENTY_ONE }).over(Single { bits: TWELVE }));
}

/// The middle of a pixel, as a part of all the pixels.
proof fn lemma_middle(i: nat, pixels: nat)
    requires
        i < pixels < 0x100_0000,
    ensures
        ({
            let q = Single::whole(i as int).plus(Single { bits: HALF }).over(
                Single::whole(pixels as int),
            );
            q.finite() && 0 <= q.rank() <= (Single { bits: ONE }).rank()
        }),
{
    reveal(Single::over);
    let (at, all, half) = (
        Single::whole(i as int),
        Single::whole(pixels as int),
        Single { bits: HALF },
    );
    let (zero, one) = (Single { bits: ZERO }, Single { bits: ONE });
    let big = power2::pow2(149);
    shades::lemma_grains();
    shades::lemma_constants();
    order::lemma_one();
    order::lemma_whole_exact(i as int);
    order::lemma_whole_exact(pixels as int);
    order::lemma_whole_sum(i as int, 1);
    order::lemma_whole_exact(i as int + 1);
    single::lemma_less_is_order(half, one);
    single::lemma_less_is_order(half, zero);
    order::lemma_plus_commutes(at, half);
    order::lemma_plus_commutes(at, one);
    order::lemma_plus_increases(half, one, at);
    let m = at.plus(half);
    assert(0 <= i * big && (i + 1) * big <= pixels * big && big <= pixels * big)
        by (nonlinear_arith)
        requires
            i + 1 <= pixels,
            big > 0,
    ;
    single::lemma_less_is_order(at, zero);
    order::lemma_plus_increases(zero, at, half);
    order::lemma_sum_exact(zero, half, half);
    single::lemma_less_is_order(all, Single::whole(i as int + 1));
    assert(0 < half.rank() <= m.rank() <= all.rank());
    assert(m.finite());
    single::lemma_less_is_order(m, zero);
    single::lemma_less_is_order(all, m);
    single::lemma_parts(all);
    single::lemma_parts(m);
    assert(m.units() <= all.units() && all.units() > 0);
    assert(m.units() * big <= big * all.units()) by (nonlinear_arith)
        requires
            m.units() <= all.units(),
    ;
    order::lemma_nearest_increases(m.units() * big, big * all.units(), all.units());
    order::lemma_nearest_of(one, all.units());
}

/// The notes of the bands lie within the range.
pub proof fn law_notes_within_range(lo: int, hi: int, i: nat, pixels: nat)
    requires
        -0x100_0000 < lo <= hi < 0x100_0000,
        hi - lo < 0x100_0000,
        i < pixels < 0x100_0000,
    ensures
        ({
            let note = analysis::slice_at(lo, hi, i, pixels).note;
            &&& note.finite()
            &&& !note.less(Single::whole(lo))
            &&& !Single::whole(hi).less(note)
        }),
{
    let (zero, one) = (Single { bits: ZERO }, Single { bits: ONE });
    let q = Single::whole(i as int).plus(Single { bits: HALF }).over(Single::whole(pixels as int));
    let (low, span) = (Single::whole(lo), Single::whole(hi - lo));
    shades::lemma_grains();
    shades::lemma_constants();
    lemma_middle(i, pixels);
    order::lemma_one();
    order::lemma_whole_exact(lo);
    order::lemma_whole_exact(hi);
    order::lemma_whole_exact(hi - lo);
    assert((hi - lo) * errors::big() >= 0) by (nonlinear_arith)
        requires
            hi >= lo,
            errors::big() > 0,
    ;
    single::lemma_less_is_order(span, zero);
    order::lemma_times_increases(q, one, span);
    order::lemma_one_times(span);
    order::lemma_product_place(q, span);
    let t = q.times(span);
    order::lemma_plus_commutes(low, t);
    order::lemma_plus_commutes(low, span);
    order::lemma_plus_commutes(low, zero);
    order::lemma_plus_increases(t, span, low);
    order::lemma_plus_increases(zero, t, low);
    order::lemma_sum_exact(low, zero, low);
    order::lemma_whole_sum(lo, hi - lo);
}

/// In a range from the lowest A up every band has its hue within one turn, and the
/// column of that hue.
pub proof fn law_band_hues_within_turn(a: Analyzer, lo: int, hi: int, tones: Seq<Tones>, i: int)
    requires
        a.banded(lo, hi, tones),
        21 <= lo <= hi < 0x100_0000,
        0 <= i < tones.len() < 0x100_0000,
    ensures
        ({
            let b = a.bands@[i];
            &&& b.hue.finite()
            &&& b.hue.rank() >= 0
            &&& b.hue.less(Single { bits: ONE })
            &&& b.hue_idx == analysis::column_of(b.hue)
        }),
{
    let note = analysis::slice_at(lo, hi, i as nat, tones.len()).note;
    let base = Single { bits: TWENTY_ONE };
    shades::lemma_grains();
    analysis::lemma_values();
    law_notes_within_range(lo, hi, i as nat, tones.len());
    order::lemma_whole_exact(lo);
    assert(lo * errors::big() >= 21 * errors::big()) by (nonlinear_arith)
        requires
            lo >= 21,
            errors::big() > 0,
    ;
    single::lemma_less_is_order(note, Single::whole(lo));
    single::lemma_less_is_order(note, base);
    law_hue_within_turn(note);
    assert(a.bands@[i].note == note);
}

} // verus!
