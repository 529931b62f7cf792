//! The colours of the waterfall in exact arithmetic: each channel from the hue and the
//! brightness.
use crate::color;
use crate::errors;
use crate::shades;
use crate::single;
use crate::single::Single;
use crate::table;
use crate::values::{FOUR, TWO, ZERO};
use vstd::prelude::*;

verus! {

/// How much of a channel there is in a hue, out of one: all of it within a sixth of a turn
/// of the channel's own hue, none beyond a third, and in between on a line. `o` sixths of a
/// turn bring the channel's own hue to the start of the wheel.
pub open spec fn part_of_hue(hue: int, o: int) -> int {
    let b = errors::big();
    let turn = (6 * hue + o * b) % (6 * b);
    let away = if turn < 3 * b {
        3 * b - turn
    } else {
        turn - 3 * b
    };
    if away < b {
        0
    } else if away > 2 * b {
        b
    } else {
        away - b
    }
}

/// Four times the intensity of a channel of which there is `x`, at brightness `v`, and times
/// the square of one: three quarters of the brightness, and around it a swing as far as the
/// lightness leaves room.
pub open spec fn four_intensities(x: int, v: int) -> int {
    let b = errors::big();
    let tilt = if 3 * v < 2 * b {
        2 * b - 3 * v
    } else {
        3 * v - 2 * b
    };
    3 * (b * b * v) + (2 * x - b) * (v * (2 * b - tilt))
}

/// A channel of a shade lies within five eighths of a step of the exact one.
proof fn lemma_channel(h: Single, v: Single, offset: Single, o: int)
    requires
        h.finite(),
        h.rank() >= 0,
        h.value() <= errors::big(),
        v.finite(),
        v.rank() >= 0,
        v.value() <= errors::big(),
        offset.finite(),
        !offset.negative(),
        0 <= o <= 4,
        offset.value() == o * errors::big(),
    ensures
        within_a_step(table::channel_of(h, v, offset), h.value(), v.value(), o),
{
    let (b, g) = (errors::big(), shades::grain());
    shades::lemma_grains();
    single::lemma_parts(v);
    shades::lemma_presence(h, offset, o);
    let x = color::presence(h, offset);
    let y = part_of_hue(h.value(), o);
    assert(shades::bend(6 * h.value() + o * b) == y);
    table::lemma_bright(x, v);
    let i = table::intensity_of(x, v);
    shades::lemma_byte(i);
    let n = table::channel_of(h, v, offset) as int;
    let (p, q) = (table::lift(x.value(), v.value()), four_intensities(y, v.value()));
    assert(q == table::lift(y, v.value()));
    assert(0 <= y <= b);
    table::lemma_lifts(x.value(), v.value(), y, v.value(), 5 * g, 0);
    lemma_scaled(n, i.value(), p, q);
}

/// The byte of a channel against the exact channel.
pub open spec fn within_a_step(n: u8, hue: int, v: int, o: int) -> bool {
    let b = errors::big();
    errors::near(
        8 * (n * (b * b * b)),
        510 * shades::held(four_intensities(part_of_hue(hue, o), v), 0, 4 * (b * b * b)),
        5 * (b * b * b),
    )
}

proof fn lemma_scaled(n: int, i: int, p: int, q: int)
    requires
        errors::near(
            2 * n * errors::big(),
            510 * shades::held(i, 0, errors::big()),
            errors::big() + 2 * errors::slack(),
        ),
        errors::near(
            4 * (errors::big() * errors::big() * i),
            p,
            34 * (errors::big() * errors::big() * shades::grain()),
        ),
        errors::near(
            3 * p,
            3 * q,
            21 * (errors::big() * errors::big() * 0) + 8 * (errors::big() * errors::big() * (5
                * shades::grain())),
        ),
    ensures
        errors::near(
            8 * (n * (errors::big() * errors::big() * errors::big())),
            510 * shades::held(
                q,
                0,
                4 * (errors::big() * errors::big() * errors::big()),
            ),
            5 * (errors::big() * errors::big() * errors::big()),
        ),
{
    let (b, g, e) = (errors::big(), shades::grain(), errors::slack());
    shades::lemma_grains();
    let square = b * b;
    let (cube, sg, se) = (square * b, square * g, square * e);
    assert(square > 0) by (nonlinear_arith)
        requires
            square == b * b,
            b > 0,
    ;
    assert(cube == 0x20_0000 * sg && cube == 0x4000 * se && sg > 0) by (nonlinear_arith)
        requires
            cube == square * b,
            sg == square * g,
            se == square * e,
            b == 0x20_0000 * g,
            b == 0x4000 * e,
            square > 0,
            g > 0,
    ;
    assert(square * 0 == 0 && square * (5 * g) == 5 * sg) by (nonlinear_arith)
        requires
            sg == square * g,
    ;
    let h = shades::held(i, 0, b);
    let hs = square * h;
    assert(4 * hs == shades::held(4 * (square * i), 0, 4 * cube)) by (nonlinear_arith)
        requires
            hs == square * h,
            h == shades::held(i, 0, b),
            cube == square * b,
            square > 0,
            b > 0,
    ;
    assert(errors::near(8 * (n * cube), 4 * (510 * hs), 4 * cube + 8 * se)) by (nonlinear_arith)
        requires
            errors::near(2 * n * b, 510 * h, b + 2 * e),
            hs == square * h,
            cube == square * b,
            se == square * e,
            square > 0,
    ;
    assert(b * b * b == cube) by (nonlinear_arith)
        requires
            cube == square * b,
            square == b * b,
    ;
}

/// Each channel of a shade comes from the hue and the brightness: red has its own hue at
/// the start of the wheel, green a third of a turn on and blue two thirds. The bytes lie
/// within five eighths of a step of the exact channels.
pub proof fn law_shade_channels(h: Single, v: Single)
    requires
        h.finite(),
        h.rank() >= 0,
        h.value() <= errors::big(),
        v.finite(),
        v.rank() >= 0,
        v.value() <= errors::big(),
    ensures
        ({
            let (r, g, b) = color::lit(h, v);
            &&& within_a_step(r, h.value(), v.value(), 0)
            &&& within_a_step(g, h.value(), v.value(), 4)
            &&& within_a_step(b, h.value(), v.value(), 2)
        }),
{
    shades::lemma_constants();
    assert(0 * errors::big() == 0);
    lemma_channel(h, v, Single { bits: ZERO }, 0);
    lemma_channel(h, v, Single { bits: FOUR }, 4);
    lemma_channel(h, v, Single { bits: TWO }, 2);
}

/// Twice the intensity of a channel of which there is `x`, at saturation `s` and lightness
/// `l`, and times the square of one: the lightness, and around it a swing as strong as the
/// saturation, as far as the lightness leaves room.
pub open spec fn two_intensities(x: int, s: int, l: int) -> int {
    let b = errors::big();
    let tilt = if 2 * l < b {
        b - 2 * l
    } else {
        2 * l - b
    };
    2 * (b * b * l) + s * (2 * x - b) * (b - tilt)
}

/// The byte of a channel of a colour against the exact channel.
pub open spec fn near_colour(n: u8, hue: int, s: int, l: int, o: int) -> bool {
    let b = errors::big();
    errors::near(
        8 * (n * (b * b * b)),
        1020 * shades::held(two_intensities(part_of_hue(hue, o), s, l), 0, 2 * (b * b * b)),
        5 * (b * b * b),
    )
}

proof fn lemma_colour_channel(h: Single, s: Single, l: Single, offset: Single, o: int)
    requires
        h.finite(),
        h.rank() >= 0,
        h.value() <= errors::big(),
        s.finite(),
        0 <= s.value() <= errors::big(),
        l.finite(),
        0 <= l.value() <= errors::big(),
        offset.finite(),
        !offset.negative(),
        0 <= o <= 4,
        offset.value() == o * errors::big(),
    ensures
        near_colour(
            color::byte_of(color::intensity(color::presence(h, offset), s, l)),
            h.value(),
            s.value(),
            l.value(),
            o,
        ),
{
    let (b, g) = (errors::big(), shades::grain());
    shades::lemma_grains();
    shades::lemma_presence(h, offset, o);
    let x = color::presence(h, offset);
    let y = part_of_hue(h.value(), o);
    assert(shades::bend(6 * h.value() + o * b) == y);
    shades::lemma_intensity(x, s, l);
    let i = color::intensity(x, s, l);
    shades::lemma_byte(i);
    let (xv, sv, lv) = (x.value(), s.value(), l.value());
    let r = shades::room(lv);
    assert(0 <= r <= b);
    let (p, q) = (shades::swung(xv, sv, lv), two_intensities(y, sv, lv));
    assert(q == shades::swung(y, sv, lv));
    assert(errors::near(sv * (2 * xv - b), sv * (2 * y - b), 10 * (b * g))) by (nonlinear_arith)
        requires
            errors::near(xv, y, 5 * g),
            0 <= sv <= b,
            g > 0,
    ;
    let (m, n) = (sv * (2 * xv - b), sv * (2 * y - b));
    assert(errors::near(m * r, n * r, 10 * (b * b * g))) by (nonlinear_arith)
        requires
            errors::near(m, n, 10 * (b * g)),
            0 <= r <= b,
            b > 0,
            g > 0,
    ;
    lemma_colour_scaled(color::byte_of(i) as int, i.value(), p, q);
}

proof fn lemma_colour_scaled(n: int, i: int, p: int, q: int)
    requires
        errors::near(
            2 * n * errors::big(),
            510 * shades::held(i, 0, errors::big()),
            errors::big() + 2 * errors::slack(),
        ),
        errors::near(
            2 * (errors::big() * errors::big() * i),
            p,
            13 * (errors::big() * errors::big() * shades::grain()),
        ),
        errors::near(p, q, 10 * (errors::big() * errors::big() * shades::grain())),
    ensures
        errors::near(
            8 * (n * (errors::big() * errors::big() * errors::big())),
            1020 * shades::held(
                q,
                0,
                2 * (errors::big() * errors::big() * errors::big()),
            ),
            5 * (errors::big() * errors::big() * errors::big()),
        ),
{
    let (b, g, e) = (errors::big(), shades::grain(), errors::slack());
    shades::lemma_grains();
    let square = b * b;
    let (cube, sg, se) = (square * b, square * g, square * e);
    assert(square > 0) by (nonlinear_arith)
        requires
            square == b * b,
            b > 0,
    ;
    assert(cube == 0x20_0000 * sg && cube == 0x4000 * se && sg > 0) by (nonlinear_arith)
        requires
            cube == square * b,
            sg == square * g,
            se == square * e,
            b == 0x20_0000 * g,
            b == 0x4000 * e,
            square > 0,
            g > 0,
    ;
    let h = shades::held(i, 0, b);
    let hs = square * h;
    assert(2 * hs == shades::held(2 * (square * i), 0, 2 * cube)) by (nonlinear_arith)
        requires
            hs == square * h,
            h == shades::held(i, 0, b),
            cube == square * b,
            square > 0,
            b > 0,
    ;
    assert(errors::near(8 * (n * cube), 4 * (510 * hs), 4 * cube + 8 * se)) by (nonlinear_arith)
        requires
            errors::near(2 * n * b, 510 * h, b + 2 * e),
            hs == square * h,
            cube == square * b,
            se == square * e,
            square > 0,
    ;
    assert(b * b * b == cube) by (nonlinear_arith)
        requires
            cube == square * b,
            square == b * b,
    ;
}

/// Each channel of a colour comes from the hue, the saturation and the lightness. The bytes
/// lie within five eighths of a step of the exact channels.
pub proof fn law_colour_channels(h: Single, s: Single, l: Single)
    requires
        h.finite(),
        h.rank() >= 0,
        h.value() <= errors::big(),
        s.finite(),
        0 <= s.value() <= errors::big(),
        l.finite(),
        0 <= l.value() <= errors::big(),
    ensures
        ({
            let (r, g, b) = color::rgb_of(h, s, l);
            &&& near_colour(r, h.value(), s.value(), l.value(), 0)
            &&& near_colour(g, h.value(), s.value(), l.value(), 4)
            &&& near_colour(b, h.value(), s.value(), l.value(), 2)
        }),
{
    shades::lemma_constants();
    assert(0 * errors::big() == 0);
    lemma_colour_channel(h, s, l, Single { bits: ZERO }, 0);
    lemma_colour_channel(h, s, l, Single { bits: FOUR }, 4);
    lemma_colour_channel(h, s, l, Single { bits: TWO }, 2);
}

} // verus!
