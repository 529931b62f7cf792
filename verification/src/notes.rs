//! The colours that stand for the notes: which of the channels is full, half or
//! faint depends on the note within its octave alone.
use crate::analysis;
use crate::color;
use crate::errors;
use crate::order;
use crate::rounding;
use crate::shades;
use crate::single;
use crate::single::Single;
use crate::values::{FOUR, NINE_TENTHS, ONE, SIX_TENTHS, TWELVE, TWENTY_ONE, TWO, ZERO};
use vstd::arithmetic::div_mod;
use vstd::arithmetic::power2;
use vstd::prelude::*;

verus! {

/// How much of a channel there is at a twelfth of the wheel: none, half or all.
pub open spec fn step_at(t: int) -> int {
    shades::held(shades::size_of(t % 12 - 6) - 2, 0, 2)
}

/// The byte of a channel of which there is none, half or all.
pub open spec fn level_at(step: int) -> u8 {
    if step == 0 {
        61
    } else if step == 1 {
        153
    } else {
        245
    }
}

/// The colour of a note `k` above A.
pub open spec fn colour_at(k: int) -> (u8, u8, u8) {
    (level_at(step_at(k)), level_at(step_at(k + 8)), level_at(step_at(k + 4)))
}

proof fn lemma_bend_at(t: int, place: int)
    requires
        0 <= t < 20,
        2 * place == t * errors::big(),
    ensures
        0 <= place < 12 * errors::big(),
        2 * shades::bend(place) == step_at(t) * errors::big(),
{
    let big = errors::big();
    shades::lemma_grains();
    let round = if t < 12 {
        t
    } else {
        t - 12
    };
    assert(t % 12 == round);
    assert(t < 12 ==> t * big <= 11 * big) by (nonlinear_arith)
        requires
            big > 0,
    ;
    assert(t >= 12 ==> t * big >= 12 * big) by (nonlinear_arith)
        requires
            big > 0,
    ;
    assert(0 <= t * big <= 19 * big) by (nonlinear_arith)
        requires
            0 <= t <= 19,
            big > 0,
    ;
    shades::lemma_remainder(place);
    let d = shades::size_of(round - 6);
    assert((round - 6) * big == t * big - (if t < 12 {
        0
    } else {
        12 * big
    }) - 6 * big) by (nonlinear_arith)
        requires
            round == (if t < 12 {
                t
            } else {
                t - 12
            }),
    ;
    assert(d * big == shades::size_of((round - 6) * big)) by (nonlinear_arith)
        requires
            d == shades::size_of(round - 6),
            big > 0,
    ;
    assert(d <= 2 ==> d * big <= 2 * big) by (nonlinear_arith)
        requires
            big > 0,
    ;
    assert(d >= 4 ==> d * big >= 4 * big) by (nonlinear_arith)
        requires
            big > 0,
    ;
    assert(d == 3 ==> d * big == 3 * big);
    assert(step_at(t) == 0 || step_at(t) == 1 || step_at(t) == 2);
}

/// The hue of a whole note, computed.
proof fn lemma_hue(n: int)
    requires
        -100 <= n <= 200,
    ensures
        ({
            let hue = analysis::hue_at(Single::whole(n));
            &&& hue.finite()
            &&& hue.rank() >= 0
            &&& hue.value() <= errors::big()
            &&& errors::near(
                12 * hue.value(),
                ((n - 21) % 12) * errors::big(),
                36 * shades::grain(),
            )
        }),
{
    let m = n - 21;
    let (q, k) = (m / 12, m % 12);
    let hue = analysis::hue_at(Single::whole(n));
    if k == 0 {
        analysis::law_every_a_has_hue_zero(q);
        assert(n == 21 + 12 * q);
        single::lemma_parts(hue);
        shades::lemma_grains();
        assert(0 * errors::big() == 0);
    } else {
        lemma_turns(n);
        let turns = Single::whole(n).minus(Single { bits: TWENTY_ONE }).over(
            Single { bits: TWELVE },
        );
        lemma_wrapped_turns(turns, m, q, k);
    }
}

/// The turns of a whole note, computed.
proof fn lemma_turns(n: int)
    requires
        -100 <= n <= 200,
    ensures
        ({
            let turns = Single::whole(n).minus(Single { bits: TWENTY_ONE }).over(
                Single { bits: TWELVE },
            );
            &&& turns.finite()
            &&& errors::near(
                12 * turns.value(),
                (n - 21) * errors::big(),
                12 * shades::grain(),
            )
        }),
{
    let big = errors::big();
    let (note, twelve) = (Single::whole(n), Single { bits: TWELVE });
    let minus = (Single { bits: TWENTY_ONE }).negated();
    shades::lemma_grains();
    analysis::lemma_values();
    order::lemma_whole_exact(n);
    order::lemma_whole_exact(n - 21);
    assert(minus.value() == -(21 * big));
    assert(n * big - 21 * big == (n - 21) * big) by (nonlinear_arith);
    order::lemma_sum_exact(note, minus, Single::whole(n - 21));
    let above = note.minus(Single { bits: TWENTY_ONE });
    assert(above.value() == (n - 21) * big);
    assert(above.units() <= 180 * big) by (nonlinear_arith)
        requires
            above.units() == (n - 21) * big || above.units() == -((n - 21) * big),
            -121 <= n - 21 <= 179,
            big > 0,
    ;
    assert(above.units() * big < twelve.units() * (16 * big)) by (nonlinear_arith)
        requires
            0 <= above.units() <= 180 * big,
            twelve.units() == 12 * big,
            big > 0,
    ;
    errors::lemma_quotient_error(above, twelve, 129);
    let t = above.over(twelve).value();
    errors::lemma_quotient_value(t, (n - 21) * big, 12, shades::grain());
}

/// The part of the turns that is not whole, computed.
proof fn lemma_wrapped_turns(turns: Single, m: int, q: int, k: int)
    requires
        turns.finite(),
        m == 12 * q + k,
        0 < k < 12,
        -121 <= m <= 179,
        errors::near(12 * turns.value(), m * errors::big(), 12 * shades::grain()),
    ensures
        ({
            let hue = turns.wrapped(Single { bits: ONE });
            &&& hue.finite()
            &&& hue.rank() >= 0
            &&& hue.value() <= errors::big()
            &&& errors::near(12 * hue.value(), k * errors::big(), 36 * shades::grain())
        }),
{
    reveal(Single::modulo);
    let (big, g) = (errors::big(), shades::grain());
    let one = Single { bits: ONE };
    shades::lemma_grains();
    shades::lemma_constants();
    single::lemma_parts(turns);
    single::lemma_parts(one);
    let t = turns.units() as int;
    let (q0, k0) = if m > 0 {
        (q, k)
    } else {
        (-q - 1, 12 - k)
    };
    assert(m * big == 12 * (q * big) + k * big) by (nonlinear_arith)
        requires
            m == 12 * q + k,
    ;
    assert(m > 0 ==> m * big >= big) by (nonlinear_arith)
        requires
            big > 0,
    ;
    assert(m < 0 ==> m * big <= -big) by (nonlinear_arith)
        requires
            big > 0,
    ;
    assert((-q - 1) * big == -(q * big) - big && (12 - k) * big == 12 * big - k * big)
        by (nonlinear_arith);
    assert(big <= k * big <= 11 * big) by (nonlinear_arith)
        requires
            1 <= k <= 11,
            big > 0,
    ;
    assert(m != 0);
    assert(errors::near(12 * t, 12 * (q0 * big) + k0 * big, 12 * g));
    let rest = t - q0 * big;
    div_mod::lemma_fundamental_div_mod_converse(t, big, q0, rest);
    let n = turns.units() % one.units();
    assert(n == rest);
    let r = turns.modulo(one);
    order::lemma_nearest_increases(n, n, 1);
    errors::lemma_error(n, 1, r, 129);
    single::lemma_parts(r);
    if m < 0 {
        let zero = Single { bits: ZERO };
        single::lemma_less_is_order(r, zero);
        assert(Single::of(false, one.magnitude()) == one);
        errors::lemma_sum_error(r, one, 129);
        let hue = r.plus(one);
        single::lemma_parts(hue);
        assert(hue.value() > 0);
    }
}

/// The strength and the lightness of the colours that stand for notes.
proof fn lemma_tenths()
    ensures
        ({
            let (s, l) = (Single { bits: NINE_TENTHS }, Single { bits: SIX_TENTHS });
            &&& s.finite()
            &&& l.finite()
            &&& errors::near(10 * s.value(), 9 * errors::big(), shades::grain())
            &&& errors::near(10 * l.value(), 6 * errors::big(), shades::grain())
        }),
{
    order::lemma_units_of(Single { bits: NINE_TENTHS }, 0xe6_6666, 125);
    order::lemma_units_of(Single { bits: SIX_TENTHS }, 0x99_999a, 125);
    power2::lemma2_to64();
    rounding::lemma_pow2_facts(125, 24);
    rounding::lemma_pow2_facts(125, 3);
    let w = power2::pow2(125) as int;
    assert(errors::big() == 0x100_0000 * w) by (nonlinear_arith)
        requires
            errors::big() == w * 0x100_0000,
    ;
    assert(shades::grain() == 8 * w) by (nonlinear_arith)
        requires
            shades::grain() == w * 8,
    ;
}

/// A channel's intensity, from how much of it there is.
proof fn lemma_swing(x: int, s: int, l: int, step: int)
    requires
        0 <= step <= 2,
        errors::near(2 * x, step * errors::big(), 46 * shades::grain()),
        errors::near(10 * s, 9 * errors::big(), shades::grain()),
        errors::near(10 * l, 6 * errors::big(), shades::grain()),
    ensures
        ({
            let (b, g) = (errors::big(), shades::grain());
            errors::near(
                100 * shades::swung(x, s, l),
                (48 + 72 * step) * (b * b * b),
                3440 * (b * b * g),
            )
        }),
{
    let (b, g) = (errors::big(), shades::grain());
    shades::lemma_grains();
    let r = shades::room(l);
    let (cube, small) = (b * b * b, b * b * g);
    let u = 2 * x - b;
    assert(errors::near(10 * r, 8 * b, 2 * g));
    assert(errors::near((10 * s) * (10 * r), 72 * (b * b), 27 * (b * g))) by (nonlinear_arith)
        requires
            errors::near(10 * s, 9 * b, g),
            errors::near(10 * r, 8 * b, 2 * g),
            b == 0x20_0000 * g,
            g > 0,
    ;
    let p = (10 * s) * (10 * r);
    assert((step - 1) * b == step * b - b) by (nonlinear_arith);
    assert(errors::near(u, (step - 1) * b, 46 * g));
    assert(errors::near(p * u, (72 * (b * b)) * ((step - 1) * b), 3400 * small))
        by (nonlinear_arith)
        requires
            errors::near(p, 72 * (b * b), 27 * (b * g)),
            errors::near(u, (step - 1) * b, 46 * g),
            -1 <= step - 1 <= 1,
            small == b * b * g,
            b == 0x20_0000 * g,
            g > 0,
    ;
    assert((72 * (b * b)) * ((step - 1) * b) == 72 * (step - 1) * cube) by (nonlinear_arith)
        requires
            cube == b * b * b,
    ;
    assert(errors::near(100 * (2 * (b * b * l)), 120 * cube, 20 * small)) by (nonlinear_arith)
        requires
            errors::near(10 * l, 6 * b, g),
            cube == b * b * b,
            small == b * b * g,
    ;
    assert(100 * (s * u * r) == p * u) by (nonlinear_arith)
        requires
            p == (10 * s) * (10 * r),
    ;
    assert((48 + 72 * step) * cube == 120 * cube + 72 * (step - 1) * cube) by (nonlinear_arith);
}

/// The byte of a channel, from how much of it there is.
proof fn lemma_level(x: Single, step: int)
    requires
        x.finite(),
        0 <= x.value() <= errors::big(),
        0 <= step <= 2,
        errors::near(2 * x.value(), step * errors::big(), 46 * shades::grain()),
    ensures
        color::byte_of(
            color::intensity(x, Single { bits: NINE_TENTHS }, Single { bits: SIX_TENTHS }),
        ) == level_at(step),
{
    let (s, l) = (Single { bits: NINE_TENTHS }, Single { bits: SIX_TENTHS });
    let (b, g) = (errors::big(), shades::grain());
    shades::lemma_grains();
    lemma_tenths();
    lemma_swing(x.value(), s.value(), l.value(), step);
    shades::lemma_intensity(x, s, l);
    let v = color::intensity(x, s, l);
    let i = v.value();
    let f = 48 + 72 * step;
    assert(errors::near(200 * i, f * b, 4740 * g)) by (nonlinear_arith)
        requires
            errors::near(100 * (2 * (b * b * i)), f * (b * b * b), 4740 * (b * b * g)),
            b > 0,
    ;
    assert(step == 0 || step == 1 || step == 2);
    assert(f * b == 48 * b || f * b == 120 * b || f * b == 192 * b);
    shades::lemma_byte(v);
    let n = color::byte_of(v) as int;
    lemma_nearest_level(n, i, step);
}

proof fn lemma_nearest_level(n: int, i: int, step: int)
    requires
        0 <= step <= 2,
        errors::near(
            2 * n * errors::big(),
            510 * i,
            errors::big() + 2 * errors::slack(),
        ),
        errors::near(200 * i, (48 + 72 * step) * errors::big(), 4740 * shades::grain()),
    ensures
        n == level_at(step),
{
    let b = errors::big();
    shades::lemma_grains();
    assert(2 * n * b == 2 * (n * b)) by (nonlinear_arith);
    let f = 48 + 72 * step;
    assert(f * b == 48 * b || f * b == 120 * b || f * b == 192 * b) by {
        assert(step == 0 || step == 1 || step == 2);
    }
    let want = level_at(step) as int;
    assert(n <= want) by {
        if n >= want + 1 {
            assert(n * b >= (want + 1) * b) by (nonlinear_arith)
                requires
                    n >= want + 1,
                    b > 0,
            ;
        }
    }
    assert(n >= want) by {
        if n <= want - 1 {
            assert(n * b <= (want - 1) * b) by (nonlinear_arith)
                requires
                    n <= want - 1,
                    b > 0,
            ;
        }
    }
}

/// A channel of a whole note's colour.
proof fn lemma_channel(n: int, offset: Single, o: int)
    requires
        -100 <= n <= 200,
        offset.finite(),
        !offset.negative(),
        0 <= o <= 4,
        offset.value() == o * errors::big(),
    ensures
        color::byte_of(
            color::intensity(
                color::presence(analysis::hue_at(Single::whole(n)), offset),
                Single { bits: NINE_TENTHS },
                Single { bits: SIX_TENTHS },
            ),
        ) == level_at(step_at((n - 21) % 12 + 2 * o)),
{
    let (b, g) = (errors::big(), shades::grain());
    let k = (n - 21) % 12;
    let t = k + 2 * o;
    let hue = analysis::hue_at(Single::whole(n));
    shades::lemma_grains();
    lemma_hue(n);
    shades::lemma_presence(hue, offset, o);
    single::lemma_parts(hue);
    let x = color::presence(hue, offset);
    let half = b / 2;
    assert(b == 2 * half);
    let place = t * half;
    assert(2 * place == t * b) by (nonlinear_arith)
        requires
            place == t * half,
            b == 2 * half,
    ;
    lemma_bend_at(t, place);
    let computed = 6 * hue.value() + o * b;
    assert(2 * place == k * b + 2 * (o * b)) by (nonlinear_arith)
        requires
            2 * place == t * b,
            t == k + 2 * o,
    ;
    assert(0 <= o * b <= 4 * b) by (nonlinear_arith)
        requires
            0 <= o <= 4,
            b > 0,
    ;
    shades::lemma_bend_smooth(computed, place, 18 * g);
    lemma_level(x, step_at(t));
}

/// The colour that stands for a whole note depends on the note within its octave
/// alone.
pub proof fn law_note_colours(n: int)
    requires
        -100 <= n <= 200,
    ensures
        color::reference(Single::whole(n)) == colour_at((n - 21) % 12),
{
    let b = errors::big();
    shades::lemma_constants();
    assert(0 * b == 0);
    lemma_channel(n, Single { bits: ZERO }, 0);
    lemma_channel(n, Single { bits: FOUR }, 4);
    lemma_channel(n, Single { bits: TWO }, 2);
}

/// One full rainbow per octave: twelve notes up the colour is the same again, and
/// every A has the same red.
pub proof fn law_colours_repeat(n: int)
    requires
        -100 <= n <= 188,
    ensures
        color::reference(Single::whole(n + 12)) == color::reference(Single::whole(n)),
        n % 12 == 9 ==> color::reference(Single::whole(n)) == (245u8, 61u8, 61u8),
{
    lemma_classes(n);
    lemma_a();
    law_note_colours(n);
    law_note_colours(n + 12);
}

proof fn lemma_classes(n: int)
    ensures
        (n + 12 - 21) % 12 == (n - 21) % 12,
        n % 12 == 9 ==> (n - 21) % 12 == 0,
{
}

proof fn lemma_a()
    ensures
        colour_at(0) == (245u8, 61u8, 61u8),
{
}

} // verus!
