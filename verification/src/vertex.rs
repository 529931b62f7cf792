//! The refinement of a peak: the vertex of the parabola through three scores.
use crate::errors;
use crate::order;
use crate::pitch;
use crate::rounding;
use crate::shades;
use crate::single;
use crate::single::Single;
use crate::values::{FLAT, HALF, MINUS_HALF, TWO, ZERO};
use vstd::arithmetic::power2;
use vstd::prelude::*;

verus! {

/// A score within 500 dB of full scale.
pub open spec fn usual(y: Single) -> bool {
    y.finite() && errors::near(y.value(), 0, 500 * errors::big())
}

/// The middle one of three scores is the highest.
pub open spec fn peaked(yl: Single, yc: Single, yr: Single) -> bool {
    &&& usual(yl) && usual(yc) && usual(yr)
    &&& yl.value() <= yc.value()
    &&& yr.value() <= yc.value()
}

/// The numerator, computed.
proof fn lemma_top(yl: Single, yr: Single)
    requires
        usual(yl),
        usual(yr),
    ensures
        ({
            let n = (Single { bits: HALF }).times(yl.minus(yr));
            &&& n.finite()
            &&& errors::near(2 * n.value(), yl.value() - yr.value(), 3 * errors::slack())
            &&& yl.value() >= yr.value() ==> n.rank() >= 0
            &&& yl.value() <= yr.value() ==> n.rank() <= 0
        }),
{
    let (b, e) = (errors::big(), errors::slack());
    let half = Single { bits: HALF };
    shades::lemma_grains();
    shades::lemma_constants();
    let less = yr.negated();
    assert(less.units() == yr.units());
    assert(less.value() == -yr.value());
    errors::lemma_sum_error(yl, less, 136);
    let d = yl.minus(yr);
    assert(half.units() * d.units() < b * (2048 * b)) by (nonlinear_arith)
        requires
            2 * half.units() == b,
            0 <= d.units() <= 1001 * b,
            b > 0,
    ;
    errors::lemma_product_error(half, d, 136);
    let n = half.times(d);
    let (nv, dv, hv) = (n.value(), d.value(), half.value());
    assert(2 * (hv * dv) == dv * b && 2 * (b * e) == (2 * e) * b && 2 * (nv * b) == (2 * nv) * b)
        by (nonlinear_arith)
        requires
            2 * hv == b,
    ;
    errors::lemma_divided(2 * nv, dv, 2 * e, b);
    // The sign.
    reveal(Single::plus);
    reveal(Single::times);
    single::lemma_parts(d);
    let m = half.units() * d.units();
    order::lemma_nearest_increases(m, m, power2::pow2(149));
    lemma_difference_sign(yl, yr);
    if d.zero() {
        order::lemma_times_nothing(half, d);
    }
}

/// A difference has the sign of the exact one.
proof fn lemma_difference_sign(a: Single, b: Single)
    requires
        usual(a),
        usual(b),
    ensures
        a.value() >= b.value() ==> a.minus(b).rank() >= 0,
        a.value() <= b.value() ==> a.minus(b).rank() <= 0,
{
    let less = b.negated();
    assert(less.units() == b.units());
    assert(less.value() == -b.value());
    order::lemma_sum_place(a, less);
    let sum = a.value() + less.value();
    let n = (if sum < 0 {
        -sum
    } else {
        sum
    }) as nat;
    order::lemma_nearest_increases(n, n, 1);
    rounding::lemma_nearest_exact(0, 0);
    power2::lemma2_to64();
    assert(0nat * power2::pow2(0) == 0);
}

/// The denominator, computed.
proof fn lemma_bottom(yl: Single, yc: Single, yr: Single)
    requires
        peaked(yl, yc, yr),
    ensures
        ({
            let d = yl.minus((Single { bits: TWO }).times(yc)).plus(yr);
            &&& d.finite()
            &&& d.rank() <= 0
            &&& errors::near(
                d.value(),
                yl.value() - 2 * yc.value() + yr.value(),
                3 * errors::slack(),
            )
        }),
{
    let (b, e) = (errors::big(), errors::slack());
    let two = Single { bits: TWO };
    shades::lemma_grains();
    shades::lemma_constants();
    assert(two.units() * yc.units() < b * (2048 * b)) by (nonlinear_arith)
        requires
            two.units() == 2 * b,
            0 <= yc.units() <= 500 * b,
            b > 0,
    ;
    errors::lemma_product_error(two, yc, 136);
    let t = two.times(yc);
    assert((2 * b) * yc.value() == yc.value() * (2 * b)) by (nonlinear_arith);
    errors::lemma_product_value(t.value(), yc.value(), 2, e);
    let less = t.negated();
    assert(less.units() == t.units());
    assert(less.value() == -t.value());
    errors::lemma_sum_error(yl, less, 136);
    let u = yl.minus(t);
    errors::lemma_sum_error(u, yr, 136);
    // The sign: with the middle score in place of its neighbours nothing is left.
    lemma_doubled(yc);
    let minus = yc.negated();
    assert(minus.units() == yc.units());
    assert(minus.value() == -yc.value());
    single::lemma_less_is_order(yc, yl);
    single::lemma_less_is_order(yc, yr);
    order::lemma_plus_increases(yl, yc, less);
    order::lemma_sum_exact(yc, less, minus);
    order::lemma_plus_increases(u, minus, yr);
    order::lemma_plus_commutes(minus, yr);
    order::lemma_plus_commutes(minus, yc);
    order::lemma_plus_increases(yr, yc, minus);
    let zero = Single { bits: ZERO };
    single::lemma_parts(zero);
    order::lemma_sum_exact(yc, minus, zero);
}

/// Doubling is exact.
proof fn lemma_doubled(y: Single)
    requires
        usual(y),
    ensures
        (Single { bits: TWO }).times(y).value() == 2 * y.value(),
{
    reveal(Single::times);
    let two = Single { bits: TWO };
    let b = power2::pow2(149);
    let t = two.times(y);
    shades::lemma_grains();
    shades::lemma_constants();
    single::lemma_parts(y);
    let n = 2 * y.units();
    order::lemma_nearest_increases(two.units() * y.units(), two.units() * y.units(), b);
    assert(two.units() * y.units() == n * b) by (nonlinear_arith)
        requires
            two.units() == 2 * b,
            n == 2 * y.units(),
    ;
    rounding::lemma_nearest_scale(n, 1, b);
    assert(1 * b == b);
    let (s, e) = (y.significand(), y.exponent());
    rounding::lemma_pow2_facts(e, 0);
    assert(n == s * power2::pow2(e + 1)) by (nonlinear_arith)
        requires
            n == 2 * (s * power2::pow2(e)),
            power2::pow2(e + 1) == 2 * power2::pow2(e),
    ;
    assert(two.units() * y.units() < b * (2048 * b)) by (nonlinear_arith)
        requires
            two.units() == 2 * b,
            0 <= y.units() <= 500 * b,
            b > 0,
    ;
    errors::lemma_product_error(two, y, 136);
    order::lemma_scaled_exact(s, e + 1, t);
}

/// A quotient by a negative value, kept between -1/2 and 1/2.
proof fn lemma_kept_quotient(n: Single, d: Single)
    requires
        n.finite(),
        d.finite(),
        d.negative(),
        d.units() > 0,
    ensures
        ({
            let q = n.over(d).clamped(Single { bits: MINUS_HALF }, Single { bits: HALF });
            let (b, a, m) = (errors::big(), n.units() as int, d.units() as int);
            &&& q.finite()
            &&& q.negative() == !n.negative()
            &&& 2 * q.units() <= b
            &&& a == 0 ==> q.units() == 0
            &&& 2 * a >= m ==> 2 * q.units() == b
            &&& 2 * a < m ==> errors::near(q.units() * m, a * b, m * power2::pow2(125))
        }),
{
    reveal(Single::over);
    let (half, minus) = (Single { bits: HALF }, Single { bits: MINUS_HALF });
    let big = power2::pow2(149);
    let (a, m) = (n.units(), d.units());
    shades::lemma_grains();
    shades::lemma_constants();
    power2::lemma2_to64();
    rounding::lemma_pow2_facts(149, 0);
    rounding::lemma_pow2_facts(125, 0);
    single::lemma_parts(d);
    let q = n.over(d);
    let top = a * big;
    order::lemma_nearest_increases(top, top, m);
    assert(q.magnitude() == rounding::nearest(top, m) && q.negative() == !n.negative());
    order::lemma_nearest_of(half, m);
    assert(minus.magnitude() == half.magnitude() && minus.negative() && !half.negative());
    assert(minus.units() == half.units());
    let mid = half.units() * m;
    if 2 * a >= m {
        assert(mid <= top) by (nonlinear_arith)
            requires
                mid == half.units() * m,
                top == a * big,
                2 * half.units() == big,
                2 * a >= m,
        ;
        order::lemma_nearest_increases(mid, top, m);
        assert(q.magnitude() >= half.magnitude());
    } else {
        assert(top <= mid) by (nonlinear_arith)
            requires
                mid == half.units() * m,
                top == a * big,
                2 * half.units() == big,
                2 * a < m,
        ;
        order::lemma_nearest_increases(top, mid, m);
        assert(q.magnitude() <= half.magnitude());
        assert(top < m * power2::pow2(150)) by (nonlinear_arith)
            requires
                top == a * big,
                2 * a < m,
                power2::pow2(150) == 2 * big,
                big > 0,
        ;
        errors::lemma_error(top, m, q, 126);
        if a == 0 {
            let zero = Single { bits: ZERO };
            single::lemma_parts(zero);
            order::lemma_nearest_of(zero, m);
            assert(zero.units() * m == 0 && top == 0) by (nonlinear_arith)
                requires
                    zero.units() == 0,
                    top == a * big,
                    a == 0,
            ;
            single::lemma_parts(q);
        }
        if q.magnitude() < half.magnitude() {
            single::lemma_units_increase(q, half);
        } else {
            assert(q.units() == half.units());
        }
    }
}

/// What counts as flat is next to nothing.
proof fn lemma_flat()
    ensures
        (Single { bits: FLAT }).finite(),
        0 < (Single { bits: FLAT }).value() <= errors::slack(),
{
    order::lemma_units_of(Single { bits: FLAT }, 0x89_705f, 96);
    power2::lemma2_to64();
    rounding::lemma_pow2_facts(24, 96);
    rounding::lemma_pow2_facts(120, 135);
    rounding::lemma_pow2_facts(96, 0);
    let w = power2::pow2(96) as int;
    assert(0 < 0x89_705f * w <= 0x100_0000 * w) by (nonlinear_arith)
        requires
            w > 0,
    ;
}

/// The bounds on the offset, in whole numbers: `top` and `bottom` are the exact
/// difference and curvature, `n` and `d` the computed sizes.
proof fn lemma_offset(delta: int, top: int, bottom: int, n: int, d: int)
    requires
        errors::near(2 * n, top, 3 * errors::slack()),
        errors::near(d, bottom, 3 * errors::slack()),
        0 <= n,
        0 < d <= 2048 * errors::big(),
        0 <= top <= bottom,
        0 <= 2 * delta <= errors::big(),
        2 * n >= d ==> 2 * delta == errors::big(),
        2 * n < d ==> errors::near(delta * d, n * errors::big(), d * power2::pow2(125)),
    ensures
        errors::near(
            2 * (delta * bottom),
            top * errors::big(),
            10 * (errors::slack() * errors::big()),
        ),
{
    let (b, e) = (errors::big(), errors::slack());
    let t = power2::pow2(125) as int;
    shades::lemma_grains();
    power2::lemma2_to64();
    rounding::lemma_pow2_facts(10, 125);
    rounding::lemma_pow2_facts(125, 0);
    assert(e == 1024 * t);
    let eb = e * b;
    assert(eb > 0) by (nonlinear_arith)
        requires
            eb == e * b,
            e > 0,
            b > 0,
    ;
    if 2 * n >= d {
        assert(2 * (delta * bottom) == b * bottom) by (nonlinear_arith)
            requires
                2 * delta == b,
        ;
        assert(errors::near(b * bottom, top * b, 6 * eb)) by (nonlinear_arith)
            requires
                0 <= bottom - top <= 6 * e,
                eb == e * b,
                b > 0,
        ;
    } else {
        assert(errors::near(2 * (delta * bottom), 2 * (delta * d), 3 * eb)) by (nonlinear_arith)
            requires
                errors::near(d, bottom, 3 * e),
                0 <= 2 * delta <= b,
                eb == e * b,
                e > 0,
        ;
        assert(2 * (d * t) <= 4 * eb) by (nonlinear_arith)
            requires
                d <= 2048 * b,
                e == 1024 * t,
                eb == e * b,
                t > 0,
        ;
        assert(errors::near(2 * (n * b), top * b, 3 * eb)) by (nonlinear_arith)
            requires
                errors::near(2 * n, top, 3 * e),
                eb == e * b,
                b > 0,
        ;
    }
}

/// The offset and the difference of the neighbours, for the left one or the right one
/// higher.
proof fn lemma_lean(yl: Single, yc: Single, yr: Single)
    requires
        peaked(yl, yc, yr),
    ensures
        ({
            let delta = pitch::lean(yl, yc, yr);
            let (top, bottom) = (
                yr.value() - yl.value(),
                2 * yc.value() - yl.value() - yr.value(),
            );
            &&& delta.finite()
            &&& top >= 0 ==> delta.value() >= 0
            &&& top <= 0 ==> delta.value() <= 0
            &&& errors::near(
                2 * (delta.value() * bottom),
                top * errors::big(),
                10 * (errors::slack() * errors::big()),
            )
        }),
{
    let (b, e) = (errors::big(), errors::slack());
    let (top, bottom) = (yr.value() - yl.value(), 2 * yc.value() - yl.value() - yr.value());
    let denom = yl.minus((Single { bits: TWO }).times(yc)).plus(yr);
    let n = (Single { bits: HALF }).times(yl.minus(yr));
    let size = Single::of(false, denom.magnitude());
    let delta = pitch::lean(yl, yc, yr);
    shades::lemma_grains();
    lemma_top(yl, yr);
    lemma_bottom(yl, yc, yr);
    lemma_flat();
    single::lemma_parts(denom);
    single::lemma_parts(n);
    assert(size.magnitude() == denom.magnitude() && !size.negative());
    assert(size.units() == denom.units());
    single::lemma_less_is_order(Single { bits: FLAT }, size);
    if (Single { bits: FLAT }).less(size) {
        assert(denom.negative() && denom.units() > 0);
        lemma_kept_quotient(n, denom);
        let far = shades::size_of(top);
        lemma_offset(
            delta.units() as int,
            far,
            bottom,
            n.units() as int,
            denom.units() as int,
        );
        let (u, v) = (delta.units() as int, delta.value());
        assert((-u) * bottom == -(u * bottom) && (-far) * b == -(far * b)) by (nonlinear_arith);
        assert(v == u || v == -u);
        assert(top > 0 ==> v >= 0);
        assert(top < 0 ==> v <= 0);
        assert(top == 0 ==> n.units() == 0);
    } else {
        single::lemma_parts(Single { bits: ZERO });
        assert(delta.value() == 0);
        assert(errors::near(top, 0, 4 * e));
        assert(errors::near(top * b, 0, 10 * (e * b))) by (nonlinear_arith)
            requires
                errors::near(top, 0, 4 * e),
                e > 0,
                b > 0,
        ;
        assert(2 * (0 * bottom) == 0);
    }
}

/// The refined peak lies on the side of the higher neighbour: left of the middle where the
/// left score is above the right one, right of it where the right one is higher, and
/// truly so where they differ by a thousandth of a dB.
pub proof fn law_peak_leans_to_higher_neighbour(yl: Single, yc: Single, yr: Single)
    requires
        peaked(yl, yc, yr),
    ensures
        ({
            let delta = pitch::lean(yl, yc, yr);
            &&& delta.finite()
            &&& yl.value() >= yr.value() ==> delta.value() <= 0
            &&& yr.value() >= yl.value() ==> delta.value() >= 0
            &&& 1000 * (yl.value() - yr.value()) >= errors::big() ==> delta.value() < 0
            &&& 1000 * (yr.value() - yl.value()) >= errors::big() ==> delta.value() > 0
        }),
{
    let (b, e) = (errors::big(), errors::slack());
    let (top, bottom) = (yr.value() - yl.value(), 2 * yc.value() - yl.value() - yr.value());
    let delta = pitch::lean(yl, yc, yr).value();
    shades::lemma_grains();
    lemma_lean(yl, yc, yr);
    if delta == 0 {
        assert(2 * (0 * bottom) == 0);
        assert(errors::near(top, 0, 10 * e)) by (nonlinear_arith)
            requires
                errors::near(0, top * b, 10 * (e * b)),
                b > 0,
        ;
    }
}

/// The slope of the parabola through the three scores is next to nothing at the refined
/// peak: less than a thousandth of a dB per bin.
pub proof fn law_peak_is_level(yl: Single, yc: Single, yr: Single)
    requires
        peaked(yl, yc, yr),
    ensures
        ({
            let (b, delta) = (errors::big(), pitch::lean(yl, yc, yr).value());
            let (slope, bend) = (
                yr.value() - yl.value(),
                yl.value() - 2 * yc.value() + yr.value(),
            );
            errors::near(1000 * (slope * b + 2 * (delta * bend)), 0, b * b)
        }),
{
    let (b, e) = (errors::big(), errors::slack());
    let bottom = 2 * yc.value() - yl.value() - yr.value();
    let bend = yl.value() - 2 * yc.value() + yr.value();
    let delta = pitch::lean(yl, yc, yr).value();
    shades::lemma_grains();
    lemma_lean(yl, yc, yr);
    assert(delta * bend == -(delta * bottom)) by (nonlinear_arith)
        requires
            bend == -bottom,
    ;
    assert(0x4000 * (e * b) == b * b && e * b > 0) by (nonlinear_arith)
        requires
            b == 0x4000 * e,
            e > 0,
    ;
}

/// A score is the value of a parabola at `x`, up to rounding: `a` is how far it has fallen
/// one bin from its vertex `v`, where it is `c`.
pub open spec fn on_parabola(y: Single, x: int, a: int, v: int, c: int) -> bool {
    let b = errors::big();
    errors::near(b * b * (c - y.value()), a * ((x - v) * (x - v)), b * b * errors::slack())
}

/// Three samples of a parabola whose vertex lies within half a bin of the middle one are
/// refined to that vertex: up to a few thousandths of a bin where the parabola falls by a
/// tenth of a dB in a bin, and the better the steeper it is.
pub proof fn law_vertex_is_found(
    yl: Single,
    yc: Single,
    yr: Single,
    a: int,
    v: int,
    c: int,
)
    requires
        peaked(yl, yc, yr),
        a > 0,
        -errors::big() <= 2 * v <= errors::big(),
        on_parabola(yl, -errors::big(), a, v, c),
        on_parabola(yc, 0, a, v, c),
        on_parabola(yr, errors::big(), a, v, c),
    ensures
        errors::near(
            a * pitch::lean(yl, yc, yr).value(),
            a * v,
            4 * (errors::slack() * errors::big()),
        ),
{
    let (b, e) = (errors::big(), errors::slack());
    let bottom = 2 * yc.value() - yl.value() - yr.value();
    let delta = pitch::lean(yl, yc, yr).value();
    shades::lemma_grains();
    lemma_lean(yl, yc, yr);
    lemma_lean_bounds(yl, yc, yr);
    lemma_samples(yl.value(), yc.value(), yr.value(), a, v, c);
    let eb = e * b;
    assert(errors::near(2 * (delta * bottom), 4 * (a * delta), 4 * eb)) by (nonlinear_arith)
        requires
            errors::near(bottom, 2 * a, 4 * e),
            -b <= 2 * delta <= b,
            eb == e * b,
            e > 0,
    ;
}

pub proof fn lemma_lean_bounds(yl: Single, yc: Single, yr: Single)
    requires
        peaked(yl, yc, yr),
    ensures
        -errors::big() <= 2 * pitch::lean(yl, yc, yr).value() <= errors::big(),
{
    let (half, minus) = (Single { bits: HALF }, Single { bits: MINUS_HALF });
    let delta = pitch::lean(yl, yc, yr);
    shades::lemma_grains();
    shades::lemma_constants();
    lemma_lean(yl, yc, yr);
    pitch::law_lean_within_half(yl, yc, yr);
    assert(minus.units() == half.units());
    single::lemma_less_is_order(delta, minus);
    single::lemma_less_is_order(half, delta);
}

/// What three samples of a parabola say of its curvature and its vertex.
proof fn lemma_samples(l: int, m: int, r: int, a: int, v: int, c: int)
    requires
        errors::near(
            errors::big() * errors::big() * (c - l),
            a * ((-errors::big() - v) * (-errors::big() - v)),
            errors::big() * errors::big() * errors::slack(),
        ),
        errors::near(
            errors::big() * errors::big() * (c - m),
            a * ((0 - v) * (0 - v)),
            errors::big() * errors::big() * errors::slack(),
        ),
        errors::near(
            errors::big() * errors::big() * (c - r),
            a * ((errors::big() - v) * (errors::big() - v)),
            errors::big() * errors::big() * errors::slack(),
        ),
    ensures
        errors::near(2 * m - l - r, 2 * a, 4 * errors::slack()),
        errors::near((r - l) * errors::big(), 4 * (a * v), 2 * (errors::slack() * errors::big())),
{
    let (b, e) = (errors::big(), errors::slack());
    let square = b * b;
    let (x, y, z) = (a * ((-b - v) * (-b - v)), a * ((0 - v) * (0 - v)), a * ((b - v) * (b - v)));
    shades::lemma_grains();
    assert(square > 0) by (nonlinear_arith)
        requires
            square == b * b,
            b > 0,
    ;
    assert(x + z - 2 * y == 2 * a * square) by (nonlinear_arith)
        requires
            x == a * ((-b - v) * (-b - v)),
            y == a * ((0 - v) * (0 - v)),
            z == a * ((b - v) * (b - v)),
            square == b * b,
    ;
    assert(x - z == 4 * (a * v) * b) by (nonlinear_arith)
        requires
            x == a * ((-b - v) * (-b - v)),
            z == a * ((b - v) * (b - v)),
    ;
    let (bottom, top) = (2 * m - l - r, r - l);
    assert(square * (c - l) + square * (c - r) - 2 * (square * (c - m)) == bottom * square && square
        * (c - l) - square * (c - r) == top * square) by (nonlinear_arith)
        requires
            bottom == 2 * m - l - r,
            top == r - l,
    ;
    assert((4 * e) * square == 4 * (square * e)) by (nonlinear_arith);
    errors::lemma_divided(bottom, 2 * a, 4 * e, square);
    let (tb, av) = (top * b, 4 * (a * v));
    let eb = 2 * (e * b);
    assert(top * square == tb * b && 2 * (square * e) == eb * b) by (nonlinear_arith)
        requires
            tb == top * b,
            eb == 2 * (e * b),
            square == b * b,
    ;
    errors::lemma_divided(tb, av, eb, b);
}

} // verus!
