//! How far the computed channels of a colour lie from the exact ones.
use crate::color;
use crate::errors;
use crate::order;
use crate::rounding;
use crate::rounding::BINADE;
use crate::single;
use crate::single::Single;
use crate::values::{BYTE, FOUR, HALF, ONE, SIX, THREE, TWO, ZERO};
use vstd::arithmetic::div_mod;
use vstd::arithmetic::power2;
use vstd::prelude::*;

verus! {

/// Half the spacing of the values up to 16, in units.
pub open spec fn grain() -> int {
    power2::pow2(128) as int
}

/// A whole number moved into `lo..=hi`.
pub open spec fn held(n: int, lo: int, hi: int) -> int {
    if n < lo {
        lo
    } else if n > hi {
        hi
    } else {
        n
    }
}

pub open spec fn size_of(n: int) -> int {
    if n < 0 {
        -n
    } else {
        n
    }
}

/// The scales that the bounds speak of.
pub proof fn lemma_grains()
    ensures
        errors::big() == 0x20_0000 * grain(),
        errors::big() == 0x4000 * errors::slack(),
        errors::slack() == 0x80 * grain(),
        power2::pow2(153) == 16 * errors::big(),
        power2::pow2(160) == 2048 * errors::big(),
        grain() > 0,
        grain() % 2 == 0,
{
    power2::lemma2_to64();
    errors::lemma_scales();
    rounding::lemma_pow2_facts(128, 21);
    rounding::lemma_pow2_facts(128, 7);
    rounding::lemma_pow2_facts(149, 4);
    rounding::lemma_pow2_facts(127, 0);
}

/// The values of the constants that colours are made of.
pub proof fn lemma_constants()
    ensures
        (Single { bits: ZERO }).value() == 0,
        2 * (Single { bits: HALF }).value() == errors::big(),
        (Single { bits: ONE }).value() == errors::big(),
        (Single { bits: TWO }).value() == 2 * errors::big(),
        (Single { bits: THREE }).value() == 3 * errors::big(),
        (Single { bits: FOUR }).value() == 4 * errors::big(),
        (Single { bits: SIX }).value() == 6 * errors::big(),
        (Single { bits: BYTE }).value() == 255 * errors::big(),
{
    single::lemma_parts(Single { bits: ZERO });
    order::lemma_units_of(Single { bits: HALF }, BINADE as nat, 125);
    order::lemma_units_of(Single { bits: ONE }, BINADE as nat, 126);
    order::lemma_units_of(Single { bits: TWO }, BINADE as nat, 127);
    order::lemma_units_of(Single { bits: FOUR }, BINADE as nat, 128);
    order::lemma_units_of(Single { bits: THREE }, 0xc0_0000, 127);
    order::lemma_units_of(Single { bits: SIX }, 0xc0_0000, 128);
    order::lemma_units_of(Single { bits: BYTE }, 0xff_0000, 133);
    power2::lemma2_to64();
    rounding::lemma_pow2_facts(23, 126);
    rounding::lemma_pow2_facts(125, 0);
    rounding::lemma_pow2_facts(126, 0);
    rounding::lemma_pow2_facts(127, 0);
    rounding::lemma_pow2_facts(128, 5);
    let w = power2::pow2(125) as int;
    assert(power2::pow2(126) == 2 * w && power2::pow2(127) == 4 * w && power2::pow2(128) == 8 * w
        && power2::pow2(133) == 256 * w);
    assert(errors::big() == 0x80_0000 * (2 * w));
    assert(0xc0_0000 * (4 * w) == 3 * (0x80_0000 * (2 * w))) by (nonlinear_arith);
    assert(0xc0_0000 * (8 * w) == 6 * (0x80_0000 * (2 * w))) by (nonlinear_arith);
    assert(0xff_0000 * (256 * w) == 255 * (0x80_0000 * (2 * w))) by (nonlinear_arith);
}

/// How much of a channel there is at a place on the wheel, exactly.
pub open spec fn bend(t: int) -> int {
    let turn = t % (6 * errors::big());
    held(size_of(turn - 3 * errors::big()) - errors::big(), 0, errors::big())
}

/// Places near each other have about as much of a channel.
pub proof fn lemma_bend_smooth(s: int, t: int, by: int)
    requires
        0 <= s < 12 * errors::big(),
        0 <= t < 12 * errors::big(),
        errors::near(s, t, by),
        by < errors::big(),
    ensures
        errors::near(bend(s), bend(t), by),
{
    let six = 6 * errors::big();
    lemma_grains();
    lemma_remainder(s);
    lemma_remainder(t);
}

/// The remainder by six of a place within two rounds.
pub proof fn lemma_remainder(s: int)
    requires
        0 <= s < 12 * errors::big(),
    ensures
        s % (6 * errors::big()) == if s < 6 * errors::big() {
            s
        } else {
            s - 6 * errors::big()
        },
{
    let six = 6 * errors::big();
    lemma_grains();
    if s < six {
        div_mod::lemma_small_mod(s as nat, six as nat);
    } else {
        div_mod::lemma_mod_multiples_vanish(-1, s, six);
        div_mod::lemma_small_mod((s - six) as nat, six as nat);
    }
}

/// The remainder by six, computed.
proof fn lemma_wrapped(v: Single)
    requires
        v.finite(),
        !v.negative(),
        v.value() < 12 * errors::big(),
    ensures
        v.wrapped(Single { bits: SIX }).finite(),
        errors::near(
            v.wrapped(Single { bits: SIX }).value(),
            v.value() % (6 * errors::big()),
            grain(),
        ),
        0 <= v.wrapped(Single { bits: SIX }).value() <= 6 * errors::big() + grain(),
{
    reveal(Single::modulo);
    let six = Single { bits: SIX };
    lemma_grains();
    lemma_constants();
    single::lemma_parts(six);
    lemma_remainder(v.value());
    let n = v.units() % six.units();
    assert(n == v.value() % (6 * errors::big()));
    let r = v.modulo(six);
    order::lemma_nearest_increases(n, n, 1);
    errors::lemma_error(n, 1, r, 129);
}

/// A value moved between 0 and 1.
pub proof fn lemma_clamped(x: Single)
    requires
        x.finite(),
    ensures
        x.clamped(Single { bits: ZERO }, Single { bits: ONE }).finite(),
        x.clamped(Single { bits: ZERO }, Single { bits: ONE }).value() == held(
            x.value(),
            0,
            errors::big(),
        ),
        x.clamped(Single { bits: ZERO }, Single { bits: ONE }).rank() >= 0,
{
    let (zero, one) = (Single { bits: ZERO }, Single { bits: ONE });
    lemma_constants();
    lemma_grains();
    single::lemma_less_is_order(x, zero);
    single::lemma_less_is_order(one, x);
    single::lemma_parts(x);
}

/// The size of a value.
proof fn lemma_size(x: Single)
    requires
        x.finite(),
    ensures
        Single::of(false, x.magnitude()).finite(),
        Single::of(false, x.magnitude()).value() == size_of(x.value()),
{
    let y = Single::of(false, x.magnitude());
    assert(y.magnitude() == x.magnitude());
    assert(y.units() == x.units());
}

/// A difference of values up to 16.
proof fn lemma_less(a: Single, b: Single)
    requires
        a.finite(),
        b.finite(),
        -16 * errors::big() < a.value() - b.value() < 16 * errors::big(),
    ensures
        a.minus(b).finite(),
        errors::near(a.minus(b).value(), a.value() - b.value(), grain()),
{
    lemma_grains();
    let c = b.negated();
    assert(c.units() == b.units());
    assert(c.value() == -b.value());
    errors::lemma_sum_error(a, c, 129);
}

/// Where a hue lies on the wheel.
proof fn lemma_place(h: Single, offset: Single, o: int)
    requires
        h.finite(),
        h.rank() >= 0,
        h.value() <= errors::big(),
        offset.finite(),
        !offset.negative(),
        0 <= o <= 4,
        offset.value() == o * errors::big(),
    ensures
        ({
            let v = h.times(Single { bits: SIX }).plus(offset);
            &&& v.finite()
            &&& !v.negative()
            &&& errors::near(v.value(), 6 * h.value() + o * errors::big(), 2 * grain())
        }),
{
    let six = Single { bits: SIX };
    let big = errors::big();
    lemma_grains();
    lemma_constants();
    single::lemma_parts(h);
    assert(h.units() * six.units() < big * (16 * big)) by (nonlinear_arith)
        requires
            0 <= h.units() <= big,
            six.units() == 6 * big,
            big > 0,
    ;
    errors::lemma_product_error(h, six, 129);
    order::lemma_product_place(h, six);
    let g = h.times(six);
    errors::lemma_product_value(g.value(), h.value(), 6, grain());
    assert(0 <= o * big <= 4 * big) by (nonlinear_arith)
        requires
            0 <= o <= 4,
            big > 0,
    ;
    errors::lemma_sum_error(g, offset, 129);
    assert(!g.plus(offset).negative()) by {
        reveal(Single::plus);
        single::lemma_parts(g);
        let n = g.units() + offset.units();
        order::lemma_nearest_increases(n, n, 1);
    }
}

/// How much of a channel there is in a hue, computed.
pub proof fn lemma_presence(h: Single, offset: Single, o: int)
    requires
        h.finite(),
        h.rank() >= 0,
        h.value() <= errors::big(),
        offset.finite(),
        !offset.negative(),
        0 <= o <= 4,
        offset.value() == o * errors::big(),
    ensures
        color::presence(h, offset).finite(),
        color::presence(h, offset).rank() >= 0,
        0 <= color::presence(h, offset).value() <= errors::big(),
        errors::near(
            color::presence(h, offset).value(),
            bend(6 * h.value() + o * errors::big()),
            5 * grain(),
        ),
{
    let (one, three, six) = (Single { bits: ONE }, Single { bits: THREE }, Single { bits: SIX });
    let big = errors::big();
    lemma_grains();
    lemma_constants();
    lemma_place(h, offset, o);
    let v = h.times(six).plus(offset);
    assert(0 <= o * big <= 4 * big) by (nonlinear_arith)
        requires
            0 <= o <= 4,
            big > 0,
    ;
    single::lemma_parts(h);
    let exact = 6 * h.value() + o * big;
    lemma_wrapped(v);
    let turn = v.wrapped(six);
    lemma_less(turn, three);
    let away = turn.minus(three);
    lemma_size(away);
    let far = Single::of(false, away.magnitude());
    lemma_less(far, one);
    lemma_clamped(far.minus(one));
    lemma_bend_smooth(v.value(), exact, 2 * grain());
}

/// The product of values up to 4.
pub proof fn lemma_product(a: Single, b: Single, n: int, m: int)
    requires
        a.finite(),
        b.finite(),
        errors::near(a.value(), 0, n * errors::big()),
        errors::near(b.value(), 0, m * errors::big()),
        0 <= n,
        0 <= m,
        n * m < 16,
    ensures
        a.times(b).finite(),
        errors::near(
            a.times(b).value() * errors::big(),
            a.value() * b.value(),
            errors::big() * grain(),
        ),
{
    let big = errors::big();
    lemma_grains();
    assert(a.units() * b.units() <= (n * m) * (big * big)) by (nonlinear_arith)
        requires
            0 <= a.units() <= n * big,
            0 <= b.units() <= m * big,
    ;
    assert((n * m) * (big * big) < big * (16 * big)) by (nonlinear_arith)
        requires
            n * m < 16,
            big > 0,
    ;
    errors::lemma_product_error(a, b, 129);
}

/// The room that a lightness leaves for colour, exactly.
pub open spec fn room(l: int) -> int {
    errors::big() - size_of(2 * l - errors::big())
}

/// The room that a lightness leaves for colour, computed.
proof fn lemma_room(l: Single)
    requires
        l.finite(),
        0 <= l.value() <= errors::big(),
    ensures
        ({
            let tilt = (Single { bits: TWO }).times(l).minus(Single { bits: ONE });
            let left = (Single { bits: ONE }).minus(Single::of(false, tilt.magnitude()));
            left.finite() && errors::near(left.value(), room(l.value()), 3 * grain())
        }),
{
    let (one, two) = (Single { bits: ONE }, Single { bits: TWO });
    let big = errors::big();
    lemma_grains();
    lemma_constants();
    lemma_product(two, l, 2, 1);
    let d = two.times(l);
    assert((2 * big) * l.value() == l.value() * (2 * big)) by (nonlinear_arith);
    errors::lemma_product_value(d.value(), l.value(), 2, grain());
    lemma_less(d, one);
    let tilt = d.minus(one);
    lemma_size(tilt);
    lemma_less(one, Single::of(false, tilt.magnitude()));
}

/// Twice a channel's intensity, exactly, times the square of one.
pub open spec fn swung(x: int, s: int, l: int) -> int {
    let big = errors::big();
    2 * (big * big * l) + s * (2 * x - big) * room(l)
}

/// A channel's intensity, computed.
pub proof fn lemma_intensity(x: Single, s: Single, l: Single)
    requires
        x.finite(),
        s.finite(),
        l.finite(),
        0 <= x.value() <= errors::big(),
        0 <= s.value() <= errors::big(),
        0 <= l.value() <= errors::big(),
    ensures
        color::intensity(x, s, l).finite(),
        errors::near(
            2 * (errors::big() * errors::big() * color::intensity(x, s, l).value()),
            swung(x.value(), s.value(), l.value()),
            13 * (errors::big() * errors::big() * grain()),
        ),
{
    let (one, two, half) = (Single { bits: ONE }, Single { bits: TWO }, Single { bits: HALF });
    let (big, g) = (errors::big(), grain());
    lemma_grains();
    lemma_constants();
    lemma_room(l);
    let tilt = two.times(l).minus(one);
    let left = one.minus(Single::of(false, tilt.magnitude()));
    lemma_less(x, half);
    let u = x.minus(half);
    lemma_product(s, u, 1, 1);
    let su = s.times(u);
    let (xv, sv, lv) = (x.value(), s.value(), l.value());
    let (uv, suv, rv) = (u.value(), su.value(), left.value());
    assert(errors::near(suv, 0, big)) by (nonlinear_arith)
        requires
            errors::near(suv * big, sv * uv, big * g),
            0 <= sv <= big,
            errors::near(2 * uv, 2 * xv - big, 2 * g),
            0 <= xv <= big,
            big == 0x20_0000 * g,
            g > 0,
    ;
    lemma_product(su, left, 1, 2);
    let sr = su.times(left);
    let srv = sr.value();
    assert(errors::near(srv, 0, 3 * big)) by (nonlinear_arith)
        requires
            errors::near(srv * big, suv * rv, big * g),
            errors::near(suv, 0, big),
            errors::near(rv, 0, 2 * big),
            big == 0x20_0000 * g,
            g > 0,
    ;
    errors::lemma_sum_error(l, sr, 129);
    lemma_intensity_bounds(xv, sv, lv, uv, suv, rv, srv, color::intensity(x, s, l).value());
}

proof fn lemma_intensity_bounds(
    xv: int,
    sv: int,
    lv: int,
    uv: int,
    suv: int,
    rv: int,
    srv: int,
    iv: int,
)
    requires
        0 <= xv <= errors::big(),
        0 <= sv <= errors::big(),
        0 <= lv <= errors::big(),
        errors::near(2 * uv, 2 * xv - errors::big(), 2 * grain()),
        errors::near(suv * errors::big(), sv * uv, errors::big() * grain()),
        errors::near(srv * errors::big(), suv * rv, errors::big() * grain()),
        errors::near(rv, room(lv), 3 * grain()),
        errors::near(iv, lv + srv, grain()),
    ensures
        errors::near(
            2 * (errors::big() * errors::big() * iv),
            swung(xv, sv, lv),
            13 * (errors::big() * errors::big() * grain()),
        ),
{
    let (b, g) = (errors::big(), grain());
    lemma_grains();
    let r = room(lv);
    let cube = b * b * g;
    assert(0 <= r <= b);
    // The sum.
    assert(errors::near(b * b * iv, b * b * lv + b * b * srv, cube)) by (nonlinear_arith)
        requires
            errors::near(iv, lv + srv, g),
            cube == b * b * g,
    ;
    // The swing.
    assert(errors::near(b * b * srv, b * (suv * rv), cube)) by (nonlinear_arith)
        requires
            errors::near(srv * b, suv * rv, b * g),
            cube == b * b * g,
            b > 0,
    ;
    assert(errors::near(2 * (b * (suv * rv)), rv * (sv * (2 * uv)), 3 * cube)) by (nonlinear_arith)
        requires
            errors::near(suv * b, sv * uv, b * g),
            -3 * g <= rv <= b + 3 * g,
            cube == b * b * g,
            b == 0x20_0000 * g,
            g > 0,
    ;
    let (m, n) = (sv * (2 * uv), sv * (2 * xv - b));
    assert(errors::near(m, n, 2 * (b * g))) by (nonlinear_arith)
        requires
            m == sv * (2 * uv),
            n == sv * (2 * xv - b),
            errors::near(2 * uv, 2 * xv - b, 2 * g),
            0 <= sv <= b,
            g > 0,
    ;
    assert(errors::near(n, 0, b * b)) by (nonlinear_arith)
        requires
            n == sv * (2 * xv - b),
            0 <= sv <= b,
            0 <= xv <= b,
    ;
    assert(errors::near(rv * m, rv * n, 3 * cube)) by (nonlinear_arith)
        requires
            errors::near(m, n, 2 * (b * g)),
            -3 * g <= rv <= b + 3 * g,
            cube == b * b * g,
            b == 0x20_0000 * g,
            g > 0,
    ;
    assert(errors::near(rv * n, r * n, 3 * cube)) by (nonlinear_arith)
        requires
            errors::near(rv, r, 3 * g),
            errors::near(n, 0, b * b),
            cube == b * b * g,
            g > 0,
    ;
    assert(r * n == n * r) by (nonlinear_arith);
}

/// A value between 0 and 1 lies within half a step of its byte.
pub proof fn lemma_rounded(c: Single, byte: Single)
    requires
        c.finite(),
        c.rank() >= 0,
        c.value() <= errors::big(),
        byte.finite(),
        !byte.negative(),
        byte.value() == 255 * errors::big(),
    ensures
        errors::near(
            2 * c.times(byte).round_within(0, 255) * errors::big(),
            510 * c.value(),
            errors::big() + 2 * errors::slack(),
        ),
        0 <= c.times(byte).round_within(0, 255) <= 255,
{
    let (big, e) = (errors::big(), errors::slack());
    lemma_grains();
    single::lemma_parts(c);
    assert(c.units() * byte.units() < big * (2048 * big)) by (nonlinear_arith)
        requires
            0 <= c.units() <= big,
            byte.units() == 255 * big,
            big > 0,
    ;
    errors::lemma_product_error(c, byte, 136);
    order::lemma_product_place(c, byte);
    let y = c.times(byte);
    errors::lemma_product_value(y.value(), c.value(), 255, e);
    single::lemma_parts(y);
    div_mod::lemma_fundamental_div_mod(y.units() as int, big);
    let n = y.round_size() as int;
    let q = y.units() as int / big;
    assert(big * (q + 1) == big * q + big) by (nonlinear_arith);
    assert(errors::near(2 * (big * n), 2 * y.units() as int, big));
    assert(n <= 255) by (nonlinear_arith)
        requires
            2 * (big * n) <= 2 * y.units() as int + big,
            y.units() <= 255 * big + e,
            big == 0x4000 * e,
            e > 0,
    ;
    assert(y.round_within(0, 255) == n);
    assert(2 * n * big == 2 * (big * n)) by (nonlinear_arith);
}

/// A byte of a channel lies within half a step of its intensity.
pub proof fn lemma_byte(v: Single)
    requires
        v.finite(),
    ensures
        errors::near(
            2 * color::byte_of(v) * errors::big(),
            510 * held(v.value(), 0, errors::big()),
            errors::big() + 2 * errors::slack(),
        ),
{
    let (zero, one, byte) = (Single { bits: ZERO }, Single { bits: ONE }, Single { bits: BYTE });
    lemma_grains();
    lemma_constants();
    lemma_clamped(v);
    lemma_rounded(v.clamped(zero, one), byte);
}

} // verus!
