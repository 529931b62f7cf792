//! The colour table against the exact colours: no channel differs by more than
//! four.
use crate::analysis;
use crate::analysis::{Band, HUE_STEPS};
use crate::color;
use crate::color::{ColorMap, VAL_STEPS};
use crate::contrast;
use crate::errors;
use crate::order;
use crate::rounding;
use crate::shades;
use crate::single;
use crate::single::Single;
use crate::values::{FOUR, HALF, HUNDREDTH, ONE, THREE_QUARTERS, TWO, ZERO};
use vstd::arithmetic::div_mod;
use vstd::arithmetic::power2;
use vstd::prelude::*;

verus! {

/// Twice the brightness times the room that it leaves for colour, exactly.
pub open spec fn swell(v: int) -> int {
    v * (2 * errors::big() - shades::size_of(3 * v - 2 * errors::big()))
}

/// Four times the intensity of a channel at a brightness, exactly, times the
/// square of one.
pub open spec fn lift(x: int, v: int) -> int {
    let big = errors::big();
    3 * (big * big * v) + (2 * x - big) * swell(v)
}

/// Brightnesses near each other swell about as much.
proof fn lemma_swell(v: int, w: int)
    requires
        0 <= v <= errors::big(),
        0 <= w <= errors::big(),
    ensures
        0 <= 3 * swell(v) <= 4 * (errors::big() * errors::big()),
        errors::near(
            swell(v),
            swell(w),
            4 * (errors::big() * shades::size_of(v - w)),
        ),
{
    lemma_swell_size(v);
    if v <= w {
        lemma_swell_up(v, w);
    } else {
        lemma_swell_up(w, v);
    }
}

proof fn lemma_swell_size(v: int)
    requires
        0 <= v <= errors::big(),
    ensures
        0 <= 3 * swell(v) <= 4 * (errors::big() * errors::big()),
{
    let b = errors::big();
    if 3 * v <= 2 * b {
        assert(swell(v) == v * (3 * v));
        assert(0 <= 3 * (v * (3 * v)) <= 4 * (b * b)) by (nonlinear_arith)
            requires
                0 <= 3 * v <= 2 * b,
        ;
    } else {
        assert(swell(v) == v * (4 * b - 3 * v));
        assert(0 <= 3 * (v * (4 * b - 3 * v)) <= 4 * (b * b)) by (nonlinear_arith)
            requires
                0 <= v <= b,
        ;
    }
}

proof fn lemma_swell_up(v: int, w: int)
    requires
        0 <= v <= w <= errors::big(),
    ensures
        errors::near(swell(v), swell(w), 4 * (errors::big() * (w - v))),
{
    let b = errors::big();
    if 3 * w <= 2 * b {
        assert(swell(v) == v * (3 * v) && swell(w) == w * (3 * w));
        assert(errors::near(v * (3 * v), w * (3 * w), 4 * (b * (w - v)))) by (nonlinear_arith)
            requires
                0 <= v <= w,
                3 * w <= 2 * b,
        ;
    } else if 3 * v > 2 * b {
        assert(swell(v) == v * (4 * b - 3 * v) && swell(w) == w * (4 * b - 3 * w));
        assert(errors::near(v * (4 * b - 3 * v), w * (4 * b - 3 * w), 4 * (b * (w - v))))
            by (nonlinear_arith)
            requires
                2 * b < 3 * v,
                v <= w <= b,
        ;
    } else {
        assert(swell(v) == v * (3 * v) && swell(w) == w * (4 * b - 3 * w));
        assert(errors::near(v * (3 * v), w * (4 * b - 3 * w), 4 * (b * (w - v))))
            by (nonlinear_arith)
            requires
                0 <= 3 * v <= 2 * b,
                2 * b < 3 * w,
                w <= b,
        ;
    }
}

/// Channels of colours near each other.
pub proof fn lemma_lifts(x: int, v: int, y: int, w: int, dx: int, dv: int)
    requires
        0 <= x <= errors::big(),
        0 <= y <= errors::big(),
        0 <= v <= errors::big(),
        0 <= w <= errors::big(),
        errors::near(x, y, dx),
        errors::near(v, w, dv),
    ensures
        errors::near(
            3 * lift(x, v),
            3 * lift(y, w),
            21 * (errors::big() * errors::big() * dv) + 8 * (errors::big() * errors::big() * dx),
        ),
{
    let b = errors::big();
    let (p, q) = (swell(v), swell(w));
    shades::lemma_grains();
    lemma_swell(v, w);
    lemma_swell(w, v);
    let d = shades::size_of(v - w);
    let square = b * b;
    assert(errors::near(p, q, 4 * (b * dv))) by (nonlinear_arith)
        requires
            errors::near(p, q, 4 * (b * d)),
            0 <= d <= dv,
            b > 0,
    ;
    assert(errors::near(square * v, square * w, square * dv)) by (nonlinear_arith)
        requires
            errors::near(v, w, dv),
            square == b * b,
    ;
    assert(errors::near((2 * x - b) * p, (2 * x - b) * q, 4 * (square * dv))) by (nonlinear_arith)
        requires
            errors::near(p, q, 4 * (b * dv)),
            -b <= 2 * x - b <= b,
            square == b * b,
            b > 0,
    ;
    assert(errors::near(3 * ((2 * x - b) * q), 3 * ((2 * y - b) * q), 8 * (square * dx)))
        by (nonlinear_arith)
        requires
            errors::near(x, y, dx),
            0 <= 3 * q <= 4 * square,
    ;
}

/// Two exponentials of about one place on the contrast curve: within a 63rd part of
/// each other, or both so large or so small that the curve is flat there.
pub open spec fn alike(a: Single, b: Single) -> bool {
    &&& !a.nan() && !b.nan()
    &&& a.rank() >= 0 && b.rank() >= 0
    &&& {
        ||| large(a) && large(b)
        ||| small(a) && small(b)
        ||| a.finite() && b.finite() && 63 * a.value() <= 64 * b.value() && 63 * b.value() <= 64
            * a.value()
    }
}

/// At least 1024.
pub open spec fn large(a: Single) -> bool {
    a.infinite() || a.value() >= 1024 * errors::big()
}

/// At most a 1024th part.
pub open spec fn small(a: Single) -> bool {
    a.finite() && 1024 * a.value() <= errors::big()
}

/// The contrast curve up to 2000, computed.
pub proof fn lemma_curve(e: Single)
    requires
        e.finite(),
        e.rank() >= 0,
        e.value() <= 2000 * errors::big(),
    ensures
        ({
            let c = analysis::curve(e);
            let (b, g, k) = (errors::big(), shades::grain(), errors::slack());
            &&& c.finite()
            &&& 0 <= c.value() <= b
            &&& e.value() >= 0
            &&& errors::near(c.value() * (b + e.value()), b * b, (b + e.value()) * g + 2 * (b * k))
        }),
{
    let one = Single { bits: ONE };
    let (b, g, k) = (errors::big(), shades::grain(), errors::slack());
    shades::lemma_grains();
    shades::lemma_constants();
    single::lemma_parts(e);
    contrast::law_curve_falls(e, e);
    errors::lemma_sum_error(one, e, 136);
    let s = one.plus(e);
    let (sv, ev) = (s.value(), e.value());
    single::lemma_parts(s);
    assert(one.units() * b < s.units() * (16 * b)) by (nonlinear_arith)
        requires
            one.units() == b,
            2 * s.units() >= b,
            b > 0,
    ;
    errors::lemma_quotient_error(one, s, 129);
    let c = analysis::curve(e);
    let cv = c.value();
    single::lemma_less_is_order(one, c);
    single::lemma_parts(c);
    assert(sv * g <= (b + ev) * g + b * k) by (nonlinear_arith)
        requires
            sv <= b + ev + k,
            0 < g <= b,
            k > 0,
    ;
    assert(errors::near(cv * sv, cv * (b + ev), b * k)) by (nonlinear_arith)
        requires
            errors::near(sv, b + ev, k),
            0 <= cv <= b,
    ;
}

/// Exponentials within a 63rd part of each other have places on the curve that
/// differ by little more than a step of a byte.
proof fn lemma_within_part(a: int, d: int, x: int, y: int)
    requires
        0 <= a <= d,
        63 * d <= 64 * a,
        0 <= x <= errors::big(),
        0 <= y <= errors::big(),
        errors::near(
            x * (errors::big() + a),
            errors::big() * errors::big(),
            (errors::big() + a) * shades::grain() + 2 * (errors::big() * errors::slack()),
        ),
        errors::near(
            y * (errors::big() + d),
            errors::big() * errors::big(),
            (errors::big() + d) * shades::grain() + 2 * (errors::big() * errors::slack()),
        ),
    ensures
        errors::near(2550 * x, 2550 * y, 11 * errors::big()),
{
    let (b, g, k) = (errors::big(), shades::grain(), errors::slack());
    shades::lemma_grains();
    let (p, q) = (b + a, b + d);
    let square = b * b;
    let pq = p * q;
    assert(pq > 0 && b * p <= pq && b * q <= pq) by (nonlinear_arith)
        requires
            pq == p * q,
            p >= b,
            q >= b,
            b > 0,
    ;
    // Each place against the exact one.
    assert(errors::near(x * pq, square * q, pq * g + 2 * (k * pq))) by (nonlinear_arith)
        requires
            errors::near(x * p, square, p * g + 2 * (b * k)),
            pq == p * q,
            b * q <= pq,
            q > 0,
            k > 0,
    ;
    assert(errors::near(y * pq, square * p, pq * g + 2 * (k * pq))) by (nonlinear_arith)
        requires
            errors::near(y * q, square, q * g + 2 * (b * k)),
            pq == p * q,
            b * p <= pq,
            p > 0,
            k > 0,
    ;
    // The exact ones against each other.
    assert(252 * (b * (d - a)) <= pq) by (nonlinear_arith)
        requires
            63 * (d - a) <= a,
            pq == (b + a) * (b + d),
            0 <= a <= d,
            b > 0,
    ;
    assert(0 <= 252 * (square * q - square * p) <= b * pq) by (nonlinear_arith)
        requires
            0 <= 252 * (b * (d - a)) <= pq,
            q - p == d - a,
            square == b * b,
            b > 0,
            d >= a,
    ;
    let gap = 2 * (pq * g + 2 * (k * pq));
    assert(errors::near(252 * (x * pq), 252 * (y * pq), b * pq + 252 * gap));
    assert(errors::near(252 * x, 252 * y, b + 504 * g + 1008 * k)) by (nonlinear_arith)
        requires
            errors::near(252 * (x * pq), 252 * (y * pq), b * pq + 252 * gap),
            gap == 2 * (pq * g + 2 * (k * pq)),
            pq > 0,
    ;
}

/// Exponentials that are alike have places on the curve that differ by little more
/// than a step of a byte.
proof fn lemma_alike(a: Single, d: Single)
    requires
        alike(a, d),
    ensures
        ({
            let (x, y) = (analysis::curve(a), analysis::curve(d));
            &&& x.finite() && y.finite()
            &&& 0 <= x.value() <= errors::big()
            &&& 0 <= y.value() <= errors::big()
            &&& errors::near(2550 * x.value(), 2550 * y.value(), 11 * errors::big())
        }),
{
    shades::lemma_grains();
    lemma_curve_bounds(a);
    lemma_curve_bounds(d);
    if !(large(a) && large(d)) && !(small(a) && small(d)) {
        lemma_curve(a);
        lemma_curve(d);
        let (x, y) = (analysis::curve(a).value(), analysis::curve(d).value());
        if a.value() <= d.value() {
            lemma_within_part(a.value(), d.value(), x, y);
        } else {
            lemma_within_part(d.value(), a.value(), y, x);
        }
    }
}

/// The ends of the contrast curve.
proof fn lemma_curve_bounds(e: Single)
    requires
        !e.nan(),
        e.rank() >= 0,
    ensures
        ({
            let c = analysis::curve(e);
            &&& c.finite()
            &&& 0 <= c.value() <= errors::big()
            &&& large(e) ==> 1000 * c.value() <= errors::big()
            &&& small(e) ==> 1000 * c.value() >= 998 * errors::big()
        }),
{
    let (b, g, k) = (errors::big(), shades::grain(), errors::slack());
    let one = Single { bits: ONE };
    let c = analysis::curve(e);
    shades::lemma_grains();
    shades::lemma_constants();
    contrast::law_curve_falls(e, e);
    single::lemma_less_is_order(one, c);
    single::lemma_parts(c);
    if large(e) {
        let start = Single::whole(1024);
        order::lemma_whole_exact(1024);
        lemma_curve(start);
        if e.finite() {
            single::lemma_less_is_order(e, start);
        }
        contrast::law_curve_falls(start, e);
        let top = analysis::curve(start);
        single::lemma_less_is_order(top, c);
        assert(1000 * top.value() <= b) by (nonlinear_arith)
            requires
                top.value() * (b + 1024 * b) <= b * b + ((b + 1024 * b) * g + 2 * (b * k)),
                b == 0x20_0000 * g,
                b == 0x4000 * k,
                g > 0,
                k > 0,
        ;
    }
    if small(e) {
        lemma_curve(e);
        let ev = e.value();
        let cv = c.value();
        assert(cv * (b + ev) <= (cv + ev) * b && (b + ev) * g + 2 * (b * k) <= (2 * g + 2 * k) * b)
            by (nonlinear_arith)
            requires
                0 <= cv <= b,
                0 <= ev <= b,
                g > 0,
        ;
        assert(cv + ev >= b - (2 * g + 2 * k)) by (nonlinear_arith)
            requires
                (cv + ev) * b >= b * b - (2 * g + 2 * k) * b,
                b > 0,
        ;
    }
}

/// The intensity of a channel at a brightness.
pub open spec fn intensity_of(x: Single, v: Single) -> Single {
    color::intensity(
        x,
        v.smaller(Single { bits: ONE }),
        v.times(Single { bits: THREE_QUARTERS }),
    )
}

/// A channel of a hue at a brightness.
pub open spec fn channel_of(h: Single, v: Single, offset: Single) -> u8 {
    color::byte_of(intensity_of(color::presence(h, offset), v))
}

proof fn lemma_lift_close(x: int, v: int, l: int)
    requires
        0 <= x <= errors::big(),
        0 <= v <= errors::big(),
        errors::near(4 * l, 3 * v, 4 * shades::grain()),
    ensures
        errors::near(
            2 * shades::swung(x, v, l),
            lift(x, v),
            8 * (errors::big() * errors::big() * shades::grain()),
        ),
{
    let (b, g) = (errors::big(), shades::grain());
    shades::lemma_grains();
    let cube = b * b * g;
    let m = v * (2 * x - b);
    let r = 2 * b - shades::size_of(3 * v - 2 * b);
    let near_r = shades::room(l);
    assert(errors::near(2 * near_r, r, 4 * g));
    assert(errors::near(4 * (b * b * l), 3 * (b * b * v), 4 * cube)) by (nonlinear_arith)
        requires
            errors::near(4 * l, 3 * v, 4 * g),
            cube == b * b * g,
    ;
    assert(errors::near(m, 0, b * b)) by (nonlinear_arith)
        requires
            m == v * (2 * x - b),
            0 <= v <= b,
            0 <= x <= b,
    ;
    assert(errors::near(2 * (m * near_r), m * r, 4 * cube)) by (nonlinear_arith)
        requires
            errors::near(2 * near_r, r, 4 * g),
            errors::near(m, 0, b * b),
            cube == b * b * g,
            g > 0,
    ;
    assert(m * r == (2 * x - b) * (v * r)) by (nonlinear_arith)
        requires
            m == v * (2 * x - b),
    ;
}

/// The intensity of a channel at a brightness, computed.
pub proof fn lemma_bright(x: Single, v: Single)
    requires
        x.finite(),
        0 <= x.value() <= errors::big(),
        v.finite(),
        v.rank() >= 0,
        v.value() <= errors::big(),
    ensures
        ({
            let i = color::intensity(
                x,
                v.smaller(Single { bits: ONE }),
                v.times(Single { bits: THREE_QUARTERS }),
            );
            let cube = errors::big() * errors::big() * shades::grain();
            &&& i.finite()
            &&& errors::near(
                4 * (errors::big() * errors::big() * i.value()),
                lift(x.value(), v.value()),
                34 * cube,
            )
        }),
{
    let (one, part) = (Single { bits: ONE }, Single { bits: THREE_QUARTERS });
    let (b, g) = (errors::big(), shades::grain());
    shades::lemma_grains();
    shades::lemma_constants();
    lemma_parts_of_one();
    single::lemma_parts(v);
    single::lemma_less_is_order(one, v);
    assert(v.smaller(one) == v);
    shades::lemma_product(v, part, 1, 1);
    order::lemma_product_place(v, part);
    let l = v.times(part);
    single::lemma_parts(l);
    assert(errors::near(4 * l.value(), 3 * v.value(), 4 * g)) by (nonlinear_arith)
        requires
            errors::near(l.value() * b, v.value() * part.value(), b * g),
            4 * part.value() == 3 * b,
            b > 0,
    ;
    lemma_lift_close(x.value(), v.value(), l.value());
    shades::lemma_intensity(x, v, l);
}

/// The fractions that the shades are made of.
proof fn lemma_parts_of_one()
    ensures
        (Single { bits: THREE_QUARTERS }).finite(),
        !(Single { bits: THREE_QUARTERS }).negative(),
        4 * (Single { bits: THREE_QUARTERS }).value() == 3 * errors::big(),
        (Single { bits: HUNDREDTH }).finite(),
        1000 * (Single { bits: HUNDREDTH }).value() <= 11 * errors::big(),
{
    order::lemma_units_of(Single { bits: THREE_QUARTERS }, 0xc0_0000, 125);
    order::lemma_units_of(Single { bits: HUNDREDTH }, 0xa3_d70a, 119);
    power2::lemma2_to64();
    rounding::lemma_pow2_facts(119, 6);
    rounding::lemma_pow2_facts(119, 30);
    let w = power2::pow2(119) as int;
    assert(errors::big() == 0x4000_0000 * w) by (nonlinear_arith)
        requires
            errors::big() == w * 0x4000_0000,
    ;
    assert(power2::pow2(125) == 64 * w) by (nonlinear_arith)
        requires
            power2::pow2(125) == w * 64,
    ;
}

/// A channel of a dark colour.
proof fn lemma_dark(h: Single, v: Single, offset: Single, o: int)
    requires
        h.finite(),
        h.rank() >= 0,
        h.value() <= errors::big(),
        v.finite(),
        v.rank() >= 0,
        1000 * v.value() <= 18 * errors::big(),
        offset.finite(),
        !offset.negative(),
        0 <= o <= 4,
        offset.value() == o * errors::big(),
    ensures
        channel_of(h, v, offset) <= 4,
{
    let (b, g) = (errors::big(), shades::grain());
    shades::lemma_grains();
    shades::lemma_presence(h, offset, o);
    single::lemma_parts(v);
    let x = color::presence(h, offset);
    lemma_bright(x, v);
    let i = color::intensity(
        x,
        v.smaller(Single { bits: ONE }),
        v.times(Single { bits: THREE_QUARTERS }),
    );
    let (xv, vv, iv) = (x.value(), v.value(), i.value());
    let p = swell(vv);
    lemma_swell(vv, vv);
    assert(p == vv * (3 * vv));
    assert((2 * xv - b) * p <= b * (vv * (3 * vv))) by (nonlinear_arith)
        requires
            2 * xv - b <= b,
            p == vv * (3 * vv),
            vv >= 0,
    ;
    assert(1000 * iv <= 14 * b) by (nonlinear_arith)
        requires
            4 * (b * b * iv) <= 3 * (b * b * vv) + b * (vv * (3 * vv)) + 34 * (b * b * g),
            0 <= 1000 * vv <= 18 * b,
            b == 0x20_0000 * g,
            g > 0,
    ;
    shades::lemma_byte(i);
    let n = channel_of(h, v, offset) as int;
    assert(n <= 4) by (nonlinear_arith)
        requires
            2 * n * b <= 510 * shades::held(iv, 0, b) + b + 2 * errors::slack(),
            1000 * iv <= 14 * b,
            b == 0x4000 * errors::slack(),
            b > 0,
    ;
}

/// A channel of colours near each other.
proof fn lemma_channels(
    h: Single,
    v: Single,
    k: Single,
    w: Single,
    offset: Single,
    o: int,
)
    requires
        h.finite() && k.finite() && v.finite() && w.finite(),
        h.rank() >= 0 && k.rank() >= 0 && v.rank() >= 0 && w.rank() >= 0,
        h.value() <= errors::big() && k.value() <= errors::big(),
        v.value() <= errors::big() && w.value() <= errors::big(),
        errors::near(
            1024 * h.value(),
            1024 * k.value(),
            errors::big() + 4 * errors::slack() + 1024 * shades::grain(),
        ),
        errors::near(10000 * v.value(), 10000 * w.value(), 63 * errors::big()),
        offset.finite(),
        !offset.negative(),
        0 <= o <= 4,
        offset.value() == o * errors::big(),
    ensures
        errors::near(channel_of(h, v, offset) as int, channel_of(k, w, offset) as int, 4),
{
    let (b, g) = (errors::big(), shades::grain());
    shades::lemma_grains();
    single::lemma_parts(h);
    single::lemma_parts(k);
    single::lemma_parts(v);
    single::lemma_parts(w);
    shades::lemma_presence(h, offset, o);
    shades::lemma_presence(k, offset, o);
    let (x, y) = (color::presence(h, offset), color::presence(k, offset));
    let turn = shades::size_of(6 * h.value() - 6 * k.value());
    assert(0 <= o * b <= 4 * b) by (nonlinear_arith)
        requires
            0 <= o <= 4,
            b > 0,
    ;
    shades::lemma_bend_smooth(6 * h.value() + o * b, 6 * k.value() + o * b, turn);
    let (dx, dv) = (turn + 10 * g, shades::size_of(v.value() - w.value()));
    lemma_lifts(x.value(), v.value(), y.value(), w.value(), dx, dv);
    lemma_bright(x, v);
    lemma_bright(y, w);
    let (one, part) = (Single { bits: ONE }, Single { bits: THREE_QUARTERS });
    let i = color::intensity(x, v.smaller(one), v.times(part));
    let j = color::intensity(y, w.smaller(one), w.times(part));
    shades::lemma_byte(i);
    shades::lemma_byte(j);
    lemma_bytes(
        i.value(),
        j.value(),
        lift(x.value(), v.value()),
        lift(y.value(), w.value()),
        dx,
        dv,
        color::byte_of(i) as int,
        color::byte_of(j) as int,
    );
}

proof fn lemma_bytes(i: int, j: int, p: int, q: int, dx: int, dv: int, n: int, m: int)
    requires
        errors::near(
            4 * (errors::big() * errors::big() * i),
            p,
            34 * (errors::big() * errors::big() * shades::grain()),
        ),
        errors::near(
            4 * (errors::big() * errors::big() * j),
            q,
            34 * (errors::big() * errors::big() * shades::grain()),
        ),
        errors::near(
            3 * p,
            3 * q,
            21 * (errors::big() * errors::big() * dv) + 8 * (errors::big() * errors::big() * dx),
        ),
        10000 * dx <= 59 * errors::big(),
        10000 * dv <= 63 * errors::big(),
        errors::near(
            2 * n * errors::big(),
            510 * shades::held(i, 0, errors::big()),
            errors::big() + 2 * errors::slack(),
        ),
        errors::near(
            2 * m * errors::big(),
            510 * shades::held(j, 0, errors::big()),
            errors::big() + 2 * errors::slack(),
        ),
    ensures
        errors::near(n, m, 4),
{
    let (b, g) = (errors::big(), shades::grain());
    shades::lemma_grains();
    let square = b * b;
    assert(errors::near(12 * i, 12 * j, 204 * g + 21 * dv + 8 * dx)) by (nonlinear_arith)
        requires
            errors::near(
                12 * (square * i),
                12 * (square * j),
                204 * (square * g) + 21 * (square * dv) + 8 * (square * dx),
            ),
            square == b * b,
            b > 0,
    ;
    let d = n - m;
    assert(2 * n * b - 2 * m * b == 2 * (d * b)) by (nonlinear_arith)
        requires
            d == n - m,
    ;
    assert(errors::near(2 * (d * b), 0, 10 * b - 1));
    assert(errors::near(d, 0, 4)) by (nonlinear_arith)
        requires
            errors::near(2 * (d * b), 0, 10 * b - 1),
            b > 0,
    ;
}

/// The column of a hue has its centre near the hue.
proof fn lemma_columns(h: Single)
    requires
        h.finite(),
        h.rank() >= 0,
        h.value() < errors::big(),
    ensures
        ({
            let k = Single::whole(analysis::column_of(h)).plus(Single { bits: HALF }).over(
                Single::whole(HUE_STEPS as int),
            );
            &&& k.finite()
            &&& k.rank() >= 0
            &&& k.value() <= errors::big()
            &&& errors::near(
                1024 * h.value(),
                1024 * k.value(),
                errors::big() + 4 * errors::slack() + 1024 * shades::grain(),
            )
        }),
{
    let (b, g, e) = (errors::big(), shades::grain(), errors::slack());
    let (steps, half) = (Single::whole(HUE_STEPS as int), Single { bits: HALF });
    shades::lemma_grains();
    shades::lemma_constants();
    order::lemma_whole_exact(HUE_STEPS as int);
    single::lemma_parts(h);
    assert(h.units() * steps.units() < b * (2048 * b)) by (nonlinear_arith)
        requires
            0 <= h.units() <= b,
            steps.units() == 512 * b,
            b > 0,
    ;
    errors::lemma_product_error(h, steps, 136);
    order::lemma_product_place(h, steps);
    let t = h.times(steps);
    errors::lemma_product_value(t.value(), h.value(), 512, e);
    single::lemma_parts(t);
    let q = t.units() as int / b;
    div_mod::lemma_fundamental_div_mod(t.units() as int, b);
    assert(0 <= q <= 512) by (nonlinear_arith)
        requires
            b * q <= t.units(),
            t.units() < b * q + b,
            t.units() <= 512 * b + e,
            e < b,
            b > 0,
    ;
    let c = analysis::column_of(h);
    assert(t.index(false) == q);
    assert(c == if q < 512 {
        q
    } else {
        511
    });
    assert(b * c == c * b) by (nonlinear_arith);
    assert(0 <= c * b <= 511 * b) by (nonlinear_arith)
        requires
            0 <= c <= 511,
            b > 0,
    ;
    if q < 512 {
        assert(c == q);
    } else {
        assert(b * q == 512 * b) by (nonlinear_arith)
            requires
                q == 512,
        ;
        assert(c * b == 511 * b) by (nonlinear_arith)
            requires
                c == 511,
        ;
    }
    assert(errors::near(1024 * h.value(), 2 * (c * b) + b, b + 2 * e));
    order::lemma_whole_exact(c);
    errors::lemma_sum_error(Single::whole(c), half, 136);
    let s = Single::whole(c).plus(half);
    single::lemma_parts(s);
    assert(s.units() * b < steps.units() * (16 * b)) by (nonlinear_arith)
        requires
            0 <= s.units() <= 513 * b,
            steps.units() == 512 * b,
            b > 0,
    ;
    errors::lemma_quotient_error(s, steps, 129);
    let k = s.over(steps);
    errors::lemma_quotient_value(k.value(), s.value(), 512, g);
    single::lemma_parts(k);
}

/// A brightness byte of the contrast table stands for about the place on the curve
/// that it was made from.
proof fn lemma_level(exponential: Single)
    requires
        !exponential.nan(),
        exponential.rank() >= 0,
    ensures
        ({
            let c = analysis::curve(exponential);
            let n = color::level_of(exponential);
            let w = Single::whole(n as int).over(Single::whole(VAL_STEPS - 1));
            &&& n == 0 ==> 1000 * c.value() <= 11 * errors::big()
            &&& n != 0 ==> {
                &&& w.finite()
                &&& w.rank() >= 0
                &&& w.value() <= errors::big()
                &&& errors::near(
                    510 * c.value(),
                    510 * w.value(),
                    errors::big() + 2 * errors::slack() + 510 * shades::grain(),
                )
            }
        }),
{
    let (b, g) = (errors::big(), shades::grain());
    let top = Single::whole(VAL_STEPS - 1);
    let c = analysis::curve(exponential);
    let n = color::level_of(exponential) as int;
    shades::lemma_grains();
    lemma_parts_of_one();
    lemma_curve_bounds(exponential);
    contrast::law_curve_falls(exponential, exponential);
    order::lemma_whole_exact(VAL_STEPS - 1);
    order::lemma_whole_exact(n);
    single::lemma_less_is_order(c, Single { bits: HUNDREDTH });
    shades::lemma_rounded(c, top);
    if !c.less(Single { bits: HUNDREDTH }) {
        assert(n == c.times(top).round_within(0, 255));
    }
    let v = Single::whole(n);
    assert(0 <= n * b <= 255 * b) by (nonlinear_arith)
        requires
            0 <= n <= 255,
            b > 0,
    ;
    single::lemma_parts(v);
    assert(v.units() * b < top.units() * (16 * b)) by (nonlinear_arith)
        requires
            0 <= v.units() <= 255 * b,
            top.units() == 255 * b,
            b > 0,
    ;
    errors::lemma_quotient_error(v, top, 129);
    let w = v.over(top);
    errors::lemma_quotient_value(w.value(), n * b, 255, g);
    single::lemma_parts(w);
    if n == 255 {
        order::lemma_over_itself(top);
        shades::lemma_constants();
    } else {
        assert(n * b <= 254 * b) by (nonlinear_arith)
            requires
                n <= 254,
                b > 0,
        ;
    }
    assert(n > 0 ==> n * b >= b) by (nonlinear_arith)
        requires
            b > 0,
    ;
    assert(2 * n * b == 2 * (n * b)) by (nonlinear_arith);
}

/// A channel of the table's colour and of the exact one.
proof fn lemma_channel(band: Band, tabled: Single, exact: Single, offset: Single, o: int)
    requires
        alike(tabled, exact),
        band.hue.finite(),
        band.hue.rank() >= 0,
        band.hue.value() < errors::big(),
        offset.finite(),
        !offset.negative(),
        0 <= o <= 4,
        offset.value() == o * errors::big(),
    ensures
        ({
            let (v, n) = (analysis::curve(exact), color::level_of(tabled));
            let k = Single::whole(analysis::column_of(band.hue)).plus(Single { bits: HALF }).over(
                Single::whole(HUE_STEPS as int),
            );
            let w = Single::whole(n as int).over(Single::whole(VAL_STEPS - 1));
            let dark = v.less(Single { bits: HUNDREDTH });
            &&& !dark && n != 0 ==> errors::near(
                channel_of(band.hue, v, offset) as int,
                channel_of(k, w, offset) as int,
                4,
            )
            &&& !dark && n == 0 ==> channel_of(band.hue, v, offset) <= 4
            &&& dark && n != 0 ==> channel_of(k, w, offset) <= 4
        }),
{
    let k = Single::whole(analysis::column_of(band.hue)).plus(Single { bits: HALF }).over(
        Single::whole(HUE_STEPS as int),
    );
    let (v, n) = (analysis::curve(exact), color::level_of(tabled));
    let w = Single::whole(n as int).over(Single::whole(VAL_STEPS - 1));
    shades::lemma_grains();
    lemma_alike(tabled, exact);
    lemma_level(tabled);
    lemma_columns(band.hue);
    lemma_parts_of_one();
    contrast::law_curve_falls(exact, exact);
    single::lemma_less_is_order(v, Single { bits: HUNDREDTH });
    if n == 0 {
        lemma_dark(band.hue, v, offset, o);
    } else if v.less(Single { bits: HUNDREDTH }) {
        lemma_dark(k, w, offset, o);
    } else {
        lemma_channels(band.hue, v, k, w, offset, o);
    }
}

/// No channel of the table's colour differs from the exact colour by more than
/// four, where the exact exponential is about that of the step that the value
/// falls on. Half a step of the table changes the exponential by less than a 63rd
/// part at the steepest contrast there is.
pub proof fn law_table_near_exact(
    map: ColorMap,
    exponentials: Seq<Single>,
    raw: Single,
    band: Band,
    exact: Single,
)
    requires
        map.tabulates(exponentials),
        band.hue.finite(),
        band.hue.rank() >= 0,
        band.hue.less(Single { bits: ONE }),
        band.hue_idx == analysis::column_of(band.hue),
        alike(exponentials[color::step_of(raw, band.pink)], exact),
    ensures
        ({
            let (fast, slow) = (map.colour(raw, band), color::shaded(band, exact));
            &&& errors::near(fast.0 as int, slow.0 as int, 4)
            &&& errors::near(fast.1 as int, slow.1 as int, 4)
            &&& errors::near(fast.2 as int, slow.2 as int, 4)
        }),
{
    let tabled = exponentials[color::step_of(raw, band.pink)];
    let b = errors::big();
    shades::lemma_constants();
    single::lemma_less_is_order(band.hue, Single { bits: ONE });
    color::law_step_in_table(raw, band.pink);
    assert(map.sigmoid_lut@[color::step_of(raw, band.pink)] == color::level_of(tabled));
    assert(0 * b == 0);
    lemma_channel(band, tabled, exact, Single { bits: ZERO }, 0);
    lemma_channel(band, tabled, exact, Single { bits: FOUR }, 4);
    lemma_channel(band, tabled, exact, Single { bits: TWO }, 2);
}

} // verus!
