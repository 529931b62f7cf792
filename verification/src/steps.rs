//! The steps of the contrast table: how near the step that a value falls on lies to the
//! value, and what that does to the contrast curve.
use crate::analysis;
use crate::analysis::Band;
use crate::color;
use crate::color::{ColorMap, SIG_MAX, SIG_MIN, SIG_STEPS};
use crate::contrast;
use crate::errors;
use crate::order;
use crate::rounding;
use crate::shades;
use crate::single;
use crate::single::Single;
use crate::table;
use crate::values::{FORTY, HALF, ONE, ZERO};
use vstd::arithmetic::div_mod;
use vstd::arithmetic::power2;
use vstd::prelude::*;

verus! {

/// Half the spacing of the values from 1 to 2, in units.
pub open spec fn speck() -> int {
    power2::pow2(125) as int
}

/// The scales that the bounds speak of.
pub proof fn lemma_specks()
    ensures
        errors::big() == 0x100_0000 * speck(),
        errors::slack() == 1024 * speck(),
        power2::pow2(150) == 2 * errors::big(),
        power2::pow2(155) == 64 * errors::big(),
        power2::pow2(160) == 2048 * errors::big(),
        power2::pow2(130) == 32 * speck(),
        speck() > 0,
{
    power2::lemma2_to64();
    rounding::lemma_pow2_facts(24, 125);
    rounding::lemma_pow2_facts(10, 125);
    rounding::lemma_pow2_facts(5, 125);
    rounding::lemma_pow2_facts(125, 0);
    rounding::lemma_pow2_facts(149, 0);
    rounding::lemma_pow2_facts(6, 149);
    rounding::lemma_pow2_facts(11, 149);
}

/// The domain of the table.
proof fn lemma_domain()
    ensures
        (Single { bits: SIG_MIN }).finite(),
        (Single { bits: SIG_MAX }).finite(),
        8 * (Single { bits: SIG_MIN }).value() == -0xcc_cccd * speck(),
        2 * (Single { bits: SIG_MAX }).value() == 3 * errors::big(),
        color::width().finite(),
        !color::width().negative(),
        color::width().value() == 0x199_999a * speck(),
{
    order::lemma_units_of(Single { bits: SIG_MIN }, 0xcc_cccd, 122);
    order::lemma_units_of(Single { bits: SIG_MAX }, 0xc0_0000, 126);
    color::lemma_width();
    lemma_specks();
    power2::lemma2_to64();
    rounding::lemma_pow2_facts(122, 3);
    rounding::lemma_pow2_facts(125, 1);
    let w = power2::pow2(122) as int;
    assert(speck() == 8 * w) by (nonlinear_arith)
        requires
            speck() == w * 8,
    ;
    let s = speck();
    assert(0xc0_0000 * (2 * s) == 0x180_0000 * s) by (nonlinear_arith);
    assert(0xcc_cccd * (2 * s) == 0x199_999a * s) by (nonlinear_arith);
    assert(8 * (0xcc_cccd * w) == 0xcc_cccd * (8 * w)) by (nonlinear_arith);
}

/// Steps per unit, computed.
proof fn lemma_density()
    ensures
        ({
            let d = color::density();
            let (b, w) = (errors::big(), color::width().value());
            &&& d.finite()
            &&& !d.negative()
            &&& errors::near(d.value() * w, 2047 * (b * b), w * errors::slack())
            &&& 1279 * b <= d.value() <= 1280 * b
        }),
{
    reveal(Single::over);
    let (last, width) = (Single::whole(SIG_STEPS - 1), color::width());
    let (b, w) = (errors::big(), color::width().value());
    lemma_specks();
    lemma_domain();
    order::lemma_whole_exact(SIG_STEPS - 1);
    assert(last.units() * b < width.units() * (2048 * b)) by (nonlinear_arith)
        requires
            last.units() == 2047 * b,
            width.units() >= b,
            b > 0,
    ;
    errors::lemma_quotient_error(last, width, 136);
    let n = last.units() * power2::pow2(149);
    order::lemma_nearest_increases(n, n, width.units());
    let d = color::density().value();
    assert((2047 * b) * b == 2047 * (b * b)) by (nonlinear_arith);
    let s = speck();
    assert(1279 * b <= d <= 1280 * b) by (nonlinear_arith)
        requires
            errors::near(d * w, 2047 * (b * b), w * (1024 * s)),
            w == 0x199_999a * s,
            b == 0x100_0000 * s,
            s > 0,
    ;
}

/// The step that a value in the domain falls on, against the value's distance from the
/// domain's lower end.
proof fn lemma_step(x: Single) -> (r: (int, int))
    requires
        x.finite(),
        x.lies_in(Single { bits: SIG_MIN }, Single { bits: SIG_MAX }),
    ensures
        ({
            let (i, z) = r;
            let (b, e) = (errors::big(), errors::slack());
            let low = Single { bits: SIG_MIN };
            &&& i == x.minus(low).times(color::density()).plus(Single { bits: HALF }).index(false)
            &&& 0 <= i < SIG_STEPS
            &&& errors::near(z, x.value() - low.value(), speck())
            &&& errors::near(2 * (z * color::density().value()), 2 * (i * (b * b)), (b + 4 * e) * b)
        }),
{
    let (low, high, half) = (
        Single { bits: SIG_MIN },
        Single { bits: SIG_MAX },
        Single { bits: HALF },
    );
    let (b, e, s) = (errors::big(), errors::slack(), speck());
    lemma_specks();
    lemma_domain();
    lemma_density();
    shades::lemma_constants();
    single::lemma_less_is_order(x, low);
    single::lemma_less_is_order(high, x);
    let below = low.negated();
    assert(below.units() == low.units());
    errors::lemma_sum_error(x, below, 126);
    let away = x.minus(low);
    let d = color::density();
    let (z, dv) = (away.value(), d.value());
    let zero = Single { bits: ZERO };
    single::lemma_parts(zero);
    order::lemma_plus_increases(low, x, below);
    order::lemma_sum_exact(low, below, zero);
    single::lemma_less_is_order(away, zero);
    single::lemma_parts(away);
    assert(0 <= z <= 0x199_999c * s);
    let w = color::width().value();
    assert(z * dv <= dv * w + 2 * (s * dv)) by (nonlinear_arith)
        requires
            z <= w + 2 * s,
            0 <= dv,
    ;
    assert(s * dv <= 1280 * (s * b) && w * e <= 2 * (e * b)) by (nonlinear_arith)
        requires
            dv <= 1280 * b,
            w <= 2 * b,
            e > 0,
            s > 0,
    ;
    assert(4096 * (s * b) == 4 * (e * b) && 0x4000 * (e * b) == b * b) by (nonlinear_arith)
        requires
            e == 1024 * s,
            b == 0x4000 * e,
    ;
    assert(e * b > 0 && s * b > 0) by (nonlinear_arith)
        requires
            e > 0,
            s > 0,
            b > 0,
    ;
    assert(away.units() * d.units() < b * (2048 * b)) by (nonlinear_arith)
        requires
            away.units() * d.units() <= 2047 * (b * b) + 6 * (e * b),
            0x4000 * (e * b) == b * b,
            e * b > 0,
    ;
    errors::lemma_product_error(away, d, 136);
    let y = away.times(d);
    order::lemma_product_place(away, d);
    let yv = y.value();
    assert(yv <= 2047 * b + 8 * e) by (nonlinear_arith)
        requires
            yv * b <= 2047 * (b * b) + 6 * (e * b) + b * e,
            b > 0,
            e > 0,
    ;
    single::lemma_parts(y);
    assert(0 <= yv);
    errors::lemma_sum_error(y, half, 136);
    let u = y.plus(half);
    single::lemma_parts(u);
    let i = u.units() as int / b;
    div_mod::lemma_fundamental_div_mod(u.units() as int, b);
    assert(0 <= i < 2048) by (nonlinear_arith)
        requires
            b * i <= u.units(),
            u.units() < b * i + b,
            u.units() < 2048 * b,
            b > 0,
    ;
    assert(u.index(false) == i);
    assert(errors::near(2 * yv, 2 * (b * i), b + 2 * e));
    assert(errors::near(2 * (yv * b), 2 * (i * (b * b)), (b + 2 * e) * b)) by (nonlinear_arith)
        requires
            errors::near(2 * yv, 2 * (b * i), b + 2 * e),
            b > 0,
    ;
    assert((b + 4 * e) * b == (b + 2 * e) * b + 2 * (b * e)) by (nonlinear_arith);
    (i, z)
}

/// The value that a step stands for, against the domain's lower end.
proof fn lemma_step_value(i: int) -> (r: int)
    requires
        0 <= i < SIG_STEPS,
    ensures
        color::step_value(i).finite(),
        errors::near(
            color::step_value(i).value(),
            (Single { bits: SIG_MIN }).value() + r,
            speck(),
        ),
        errors::near(2047 * r, i * color::width().value(), 6141 * speck()),
{
    let (at, last, width) = (Single::whole(i), Single::whole(SIG_STEPS - 1), color::width());
    let low = Single { bits: SIG_MIN };
    let (b, s) = (errors::big(), speck());
    let w = width.value();
    lemma_specks();
    lemma_domain();
    order::lemma_whole_exact(i);
    order::lemma_whole_exact(SIG_STEPS - 1);
    assert(0 <= i * b <= 2047 * b) by (nonlinear_arith)
        requires
            0 <= i <= 2047,
            b > 0,
    ;
    assert(at.units() * b < last.units() * (2 * b)) by (nonlinear_arith)
        requires
            0 <= at.units() <= 2047 * b,
            last.units() == 2047 * b,
            b > 0,
    ;
    single::lemma_parts(last);
    errors::lemma_quotient_error(at, last, 126);
    let q = at.over(last);
    let qv = q.value();
    errors::lemma_quotient_value(qv, i * b, 2047, s);
    assert(q.units() * width.units() < b * (2 * b)) by (nonlinear_arith)
        requires
            0 <= q.units() <= b + s,
            width.units() == 0x199_999a * s,
            b == 0x100_0000 * s,
            s > 0,
    ;
    errors::lemma_product_error(q, width, 126);
    let part = q.times(width);
    let pv = part.value();
    assert(errors::near(2047 * pv, i * w, 6141 * s)) by (nonlinear_arith)
        requires
            errors::near(pv * b, qv * w, b * s),
            errors::near(2047 * qv, i * b, 2047 * s),
            w == 0x199_999a * s,
            b == 0x100_0000 * s,
            s > 0,
    ;
    assert(0 <= i * w <= 2047 * w) by (nonlinear_arith)
        requires
            0 <= i <= 2047,
            w > 0,
    ;
    errors::lemma_sum_error(low, part, 126);
    pv
}

/// A value in the domain lies within little more than half a step of the step that it
/// falls on.
proof fn lemma_half_step(x: Single)
    requires
        x.finite(),
        x.lies_in(Single { bits: SIG_MIN }, Single { bits: SIG_MAX }),
    ensures
        ({
            let i = x.minus(Single { bits: SIG_MIN }).times(color::density()).plus(
                Single { bits: HALF },
            ).index(false);
            &&& 0 <= i < SIG_STEPS
            &&& color::step_value(i).finite()
            &&& errors::near(
                10_000_000 * x.value(),
                10_000_000 * color::step_value(i).value(),
                3915 * errors::big(),
            )
        }),
{
    let (i, z) = lemma_step(x);
    let p = lemma_step_value(i);
    lemma_specks();
    lemma_domain();
    lemma_density();
    let (d, w) = (color::density().value(), color::width().value());
    lemma_apart(i, z, p, d, w);
}

proof fn lemma_apart(i: int, z: int, p: int, d: int, w: int)
    requires
        0 <= i <= 2047,
        w == 0x199_999a * speck(),
        1279 * errors::big() <= d <= 1280 * errors::big(),
        errors::near(d * w, 2047 * (errors::big() * errors::big()), w * errors::slack()),
        errors::near(
            2 * (z * d),
            2 * (i * (errors::big() * errors::big())),
            (errors::big() + 4 * errors::slack()) * errors::big(),
        ),
        errors::near(2047 * p, i * w, 6141 * speck()),
    ensures
        errors::near(2558 * z, 2558 * p, errors::big() + 15 * errors::slack()),
{
    let (b, e, s) = (errors::big(), errors::slack(), speck());
    lemma_specks();
    let square = b * b;
    let (sb, eb) = (s * b, e * b);
    assert(eb == 1024 * sb && square == 0x4000 * eb && eb > 0) by (nonlinear_arith)
        requires
            eb == e * b,
            sb == s * b,
            square == b * b,
            e == 1024 * s,
            b == 0x4000 * e,
            s > 0,
    ;
    // Steps against the domain.
    assert(errors::near(2047 * (p * d), i * (d * w), 7_860_480 * sb)) by (nonlinear_arith)
        requires
            errors::near(2047 * p, i * w, 6141 * s),
            0 <= d <= 1280 * b,
            sb == s * b,
            s > 0,
    ;
    assert(errors::near(i * (d * w), 2047 * (i * square), i * (w * e))) by (nonlinear_arith)
        requires
            errors::near(d * w, 2047 * square, w * e),
            i >= 0,
    ;
    assert(0 <= i * (w * e) <= 2047 * (w * e)) by (nonlinear_arith)
        requires
            0 <= i <= 2047,
            w * e >= 0,
    ;
    assert(100 * (w * e) <= 161 * eb) by (nonlinear_arith)
        requires
            100 * w <= 161 * b,
            eb == e * b,
            e > 0,
    ;
    assert(2 * (p * d) - 2 * (i * square) <= 11 * eb && 2 * (i * square) - 2 * (p * d) <= 11 * eb);
    assert((b + 4 * e) * b == square + 4 * eb) by (nonlinear_arith)
        requires
            square == b * b,
            eb == e * b,
    ;
    let a = z - p;
    assert(a * d == z * d - p * d) by (nonlinear_arith)
        requires
            a == z - p,
    ;
    assert(errors::near(2 * (a * d), 0, square + 15 * eb));
    let limit = b + 15 * e;
    assert(square + 15 * eb == limit * b) by (nonlinear_arith)
        requires
            square == b * b,
            eb == e * b,
            limit == b + 15 * e,
    ;
    assert(errors::near(2558 * a, 0, limit)) by (nonlinear_arith)
        requires
            errors::near(2 * (a * d), 0, limit * b),
            d >= 1279 * b,
            b > 0,
            limit > 0,
    ;
}

/// The exponent of the contrast curve, computed.
pub proof fn lemma_exponent(x: Single, m: Single, k: Single) -> (u: int)
    requires
        x.finite(),
        m.finite(),
        k.finite(),
        -errors::big() <= 8 * x.value(),
        100 * x.value() <= 152 * errors::big(),
        0 <= m.value() <= errors::big(),
        0 <= k.value() <= 40 * errors::big(),
    ensures
        ({
            let e = analysis::curve_exponent(x, m, k);
            &&& e.finite()
            &&& errors::near(u, x.value() - m.value(), speck())
            &&& errors::near(
                e.value() * errors::big(),
                -(k.value() * u),
                32 * (speck() * errors::big()),
            )
        }),
{
    let (b, s) = (errors::big(), speck());
    lemma_specks();
    let (less, down) = (m.negated(), k.negated());
    assert(less.units() == m.units() && down.units() == k.units());
    assert(less.value() == -m.value() && down.value() == -k.value());
    errors::lemma_sum_error(x, less, 126);
    let away = x.minus(m);
    assert(down.units() * away.units() < b * (64 * b)) by (nonlinear_arith)
        requires
            0 <= down.units() <= 40 * b,
            0 <= 100 * away.units() <= 153 * b,
            b > 0,
    ;
    errors::lemma_product_error(down, away, 131);
    let (u, kv) = (away.value(), k.value());
    assert((-kv) * u == -(kv * u)) by (nonlinear_arith);
    assert(b * (32 * s) == 32 * (s * b)) by (nonlinear_arith);
    u
}

/// Values near each other have exponents near each other.
proof fn lemma_exponents(x: Single, y: Single, m: Single, k: Single)
    requires
        x.finite() && y.finite(),
        m.finite(),
        k.finite(),
        -errors::big() <= 8 * x.value(),
        100 * x.value() <= 152 * errors::big(),
        -errors::big() <= 8 * y.value(),
        100 * y.value() <= 152 * errors::big(),
        errors::near(10_000_000 * x.value(), 10_000_000 * y.value(), 3915 * errors::big()),
        0 <= m.value() <= errors::big(),
        0 <= k.value() <= 40 * errors::big(),
    ensures
        analysis::curve_exponent(x, m, k).finite(),
        analysis::curve_exponent(y, m, k).finite(),
        errors::near(
            10_000 * analysis::curve_exponent(x, m, k).value(),
            10_000 * analysis::curve_exponent(y, m, k).value(),
            157 * errors::big(),
        ),
{
    let (b, s) = (errors::big(), speck());
    lemma_specks();
    let u = lemma_exponent(x, m, k);
    let v = lemma_exponent(y, m, k);
    let (e, f) = (
        analysis::curve_exponent(x, m, k).value(),
        analysis::curve_exponent(y, m, k).value(),
    );
    let kv = k.value();
    let d = shades::size_of(u - v);
    assert(errors::near(kv * u, kv * v, 40 * (d * b))) by (nonlinear_arith)
        requires
            0 <= kv <= 40 * b,
            u - v <= d,
            v - u <= d,
            d >= 0,
    ;
    assert((40 * d + 64 * s) * b == 40 * (d * b) + 64 * (s * b)) by (nonlinear_arith);
    errors::lemma_divided(e, f, 40 * d + 64 * s, b);
}

/// `exp` behaves as the exponential does: arguments that differ by 0.0157 at most have
/// exponentials within a 63rd part of each other, or both very large or very small.
pub open spec fn gentle(exp: spec_fn(Single) -> Single) -> bool {
    forall|x: Single, y: Single|
        x.finite() && y.finite() && errors::near(
            10_000 * x.value(),
            10_000 * y.value(),
            157 * errors::big(),
        ) ==> table::alike(#[trigger] exp(x), #[trigger] exp(y))
}

/// For all contrast knobs that can be set, and all values within the table's domain, no
/// channel of the table's colour differs from the exact colour by more than four.
pub proof fn law_table_matches_exact_shade(
    map: ColorMap,
    exp: spec_fn(Single) -> Single,
    midpoint: Single,
    steep: Single,
    raw: Single,
    band: Band,
)
    requires
        gentle(exp),
        map.tabulates(contrast::raised(exp, midpoint, steep)),
        !midpoint.nan(),
        midpoint.lies_in(Single { bits: ZERO }, Single { bits: ONE }),
        !steep.nan(),
        steep.lies_in(Single { bits: ZERO }, Single { bits: FORTY }),
        !raw.plus(band.pink).nan(),
        raw.plus(band.pink).lies_in(Single { bits: SIG_MIN }, Single { bits: SIG_MAX }),
        band.hue.finite(),
        band.hue.rank() >= 0,
        band.hue.less(Single { bits: ONE }),
        band.hue_idx == analysis::column_of(band.hue),
    ensures
        ({
            let exact = exp(analysis::curve_exponent(raw.plus(band.pink), midpoint, steep));
            let (fast, slow) = (map.colour(raw, band), color::shaded(band, exact));
            &&& errors::near(fast.0 as int, slow.0 as int, 4)
            &&& errors::near(fast.1 as int, slow.1 as int, 4)
            &&& errors::near(fast.2 as int, slow.2 as int, 4)
        }),
{
    let x = raw.plus(band.pink);
    let (low, high) = (Single { bits: SIG_MIN }, Single { bits: SIG_MAX });
    let (zero, one, forty) = (Single { bits: ZERO }, Single { bits: ONE }, Single { bits: FORTY });
    lemma_specks();
    lemma_domain();
    shades::lemma_constants();
    lemma_forty();
    assert(x.finite());
    lemma_half_step(x);
    let i = color::step_of(raw, band.pink);
    assert(x.clamped(low, high) == x);
    single::lemma_less_is_order(x, low);
    single::lemma_less_is_order(high, x);
    assert(midpoint.finite() && steep.finite());
    single::lemma_less_is_order(midpoint, zero);
    single::lemma_less_is_order(one, midpoint);
    single::lemma_less_is_order(steep, zero);
    single::lemma_less_is_order(forty, steep);
    lemma_exponents(color::step_value(i), x, midpoint, steep);
    let exponentials = contrast::raised(exp, midpoint, steep);
    let exact = exp(analysis::curve_exponent(x, midpoint, steep));
    assert(table::alike(exponentials[i], exact));
    table::law_table_near_exact(map, exponentials, raw, band, exact);
}

proof fn lemma_forty()
    ensures
        (Single { bits: FORTY }).finite(),
        (Single { bits: FORTY }).value() == 40 * errors::big(),
{
    order::lemma_units_of(Single { bits: FORTY }, 0xa0_0000, 131);
    power2::lemma2_to64();
    rounding::lemma_pow2_facts(131, 18);
    assert(0xa0_0000 * power2::pow2(131) == 40 * errors::big()) by (nonlinear_arith)
        requires
            errors::big() == power2::pow2(131) * 0x4_0000,
    ;
}

} // verus!
