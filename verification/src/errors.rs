//! How far a computed value may lie from the exact one.
use crate::order;
use crate::rounding;
use crate::rounding::BINADE;
use crate::single;
use crate::single::Single;
use vstd::arithmetic::div_mod;
use vstd::arithmetic::mul;
use vstd::arithmetic::power2;
use vstd::prelude::*;

verus! {

/// Two numbers differ by no more than `by`.
pub open spec fn near(a: int, b: int, by: int) -> bool {
    a - b <= by && b - a <= by
}

/// The value one, in units.
pub open spec fn big() -> int {
    power2::pow2(149) as int
}

/// Half the spacing of the values up to 2048, in units.
pub open spec fn slack() -> int {
    power2::pow2(135) as int
}

/// Rounding a quotient below two to the power of `24 + c` moves it by at most half
/// a spacing of the values there.
pub proof fn lemma_error(n: nat, d: nat, p: Single, c: nat)
    requires
        d > 0,
        1 <= c <= 136,
        n < d * power2::pow2(24 + c),
        p.magnitude() == rounding::nearest(n, d),
    ensures
        p.finite(),
        near((p.units() * d) as int, n as int, (d * power2::pow2((c - 1) as nat)) as int),
{
    let k = rounding::lemma_binade_exists(n, d);
    if k > c {
        rounding::lemma_pow2_facts(24 + c, 23 + k);
        mul::lemma_mul_left_inequality(
            d as int,
            power2::pow2(24 + c) as int,
            power2::pow2(23 + k) as int,
        );
    }
    let w = power2::pow2(k);
    let half = power2::pow2((c - 1) as nat);
    let dw = d * w;
    let r = rounding::round_half_even(n, dw);
    rounding::lemma_pow2_facts(k, c);
    rounding::lemma_pow2_facts((c - 1) as nat, 0);
    rounding::lemma_nearest_at(n, d, k);
    order::lemma_rounded_fits(n, d, k);
    assert(k * BINADE + r <= 138 * BINADE) by (nonlinear_arith)
        requires
            k <= 136,
            r <= 2 * BINADE,
    ;
    order::lemma_units_of_nearest(n, d, k, p);
    assert(dw > 0) by (nonlinear_arith)
        requires
            dw == d * w,
            d > 0,
            w > 0,
    ;
    div_mod::lemma_fundamental_div_mod(n as int, dw as int);
    let q = (n / dw) as int;
    assert(dw * (q + 1) == dw * q + dw) by (nonlinear_arith);
    assert(near((2 * (dw * r)) as int, (2 * n) as int, dw as int));
    assert(p.units() * d == dw * r) by (nonlinear_arith)
        requires
            p.units() == r * w,
            dw == d * w,
    ;
    assert(dw <= 2 * (d * half)) by (nonlinear_arith)
        requires
            dw == d * w,
            w <= 2 * half,
            d > 0,
    ;
}

/// Rounding a quotient of ordinary size moves it by at most a part of itself.
pub proof fn lemma_relative(n: nat, d: nat, p: Single)
    requires
        d > 0,
        d * power2::pow2(23) <= n < d * power2::pow2(250),
        p.magnitude() == rounding::nearest(n, d),
    ensures
        p.finite(),
        near((0x100_0000 * (p.units() * d)) as int, (0x100_0000 * n) as int, n as int),
{
    let k = rounding::lemma_binade_exists(n, d);
    if k > 226 {
        rounding::lemma_pow2_facts(250, 23 + k);
        mul::lemma_mul_left_inequality(
            d as int,
            power2::pow2(250) as int,
            power2::pow2(23 + k) as int,
        );
    }
    let w = power2::pow2(k);
    let dw = d * w;
    let r = rounding::round_half_even(n, dw);
    rounding::lemma_pow2_facts(k, 0);
    rounding::lemma_pow2_facts(23, k);
    rounding::lemma_nearest_at(n, d, k);
    order::lemma_rounded_fits(n, d, k);
    assert(k * BINADE + r <= 228 * BINADE) by (nonlinear_arith)
        requires
            k <= 226,
            r <= 2 * BINADE,
    ;
    order::lemma_units_of_nearest(n, d, k, p);
    assert(dw > 0) by (nonlinear_arith)
        requires
            dw == d * w,
            d > 0,
            w > 0,
    ;
    div_mod::lemma_fundamental_div_mod(n as int, dw as int);
    let q = (n / dw) as int;
    assert(dw * (q + 1) == dw * q + dw) by (nonlinear_arith);
    assert(near((2 * (dw * r)) as int, (2 * n) as int, dw as int));
    assert(p.units() * d == dw * r) by (nonlinear_arith)
        requires
            p.units() == r * w,
            dw == d * w,
    ;
    power2::lemma2_to64();
    assert(d * power2::pow2(23 + k) == 0x80_0000 * dw) by (nonlinear_arith)
        requires
            power2::pow2(23 + k) == 0x80_0000 * w,
            dw == d * w,
    ;
    assert(0x80_0000 * dw <= n);
}

/// Of a product, relative to it.
pub proof fn lemma_product_relative(a: Single, b: Single)
    requires
        a.finite(),
        b.finite(),
        !a.negative(),
        !b.negative(),
        power2::pow2(149) * power2::pow2(23) <= a.units() * b.units() < power2::pow2(149)
            * power2::pow2(250),
    ensures
        a.times(b).finite(),
        !a.times(b).negative(),
        near(
            0x100_0000 * (a.times(b).value() * big()),
            0x100_0000 * (a.value() * b.value()),
            a.value() * b.value(),
        ),
{
    reveal(Single::times);
    let n = a.units() * b.units();
    let d = power2::pow2(149);
    rounding::lemma_pow2_facts(149, 0);
    order::lemma_nearest_increases(n, n, d);
    lemma_relative(n, d, a.times(b));
}

/// Of a quotient, relative to it.
pub proof fn lemma_quotient_relative(a: Single, b: Single)
    requires
        a.finite(),
        b.finite(),
        !a.negative(),
        !b.negative(),
        b.units() > 0,
        b.units() * power2::pow2(23) <= a.units() * power2::pow2(149) < b.units() * power2::pow2(
            250,
        ),
    ensures
        a.over(b).finite(),
        !a.over(b).negative(),
        near(
            0x100_0000 * (a.over(b).value() * b.value()),
            0x100_0000 * (a.value() * big()),
            a.value() * big(),
        ),
{
    reveal(Single::over);
    let n = a.units() * power2::pow2(149);
    let d = b.units();
    single::lemma_parts(b);
    order::lemma_nearest_increases(n, n, d);
    lemma_relative(n, d, a.over(b));
}

/// Of a sum, relative to it.
pub proof fn lemma_sum_relative(a: Single, b: Single)
    requires
        a.finite(),
        b.finite(),
        -power2::pow2(250) < a.value() + b.value() < power2::pow2(250),
    ensures
        a.plus(b).finite(),
        a.value() + b.value() >= 0 ==> near(
            0x100_0000 * a.plus(b).value(),
            0x100_0000 * (a.value() + b.value()),
            a.value() + b.value(),
        ),
        a.value() + b.value() <= 0 ==> near(
            0x100_0000 * a.plus(b).value(),
            0x100_0000 * (a.value() + b.value()),
            -(a.value() + b.value()),
        ),
{
    reveal(Single::plus);
    let sum = a.value() + b.value();
    let p = a.plus(b);
    if sum == 0 {
        single::lemma_parts(p);
    } else {
        let n = (if sum < 0 {
            -sum
        } else {
            sum
        }) as nat;
        order::lemma_nearest_increases(n, n, 1);
        power2::lemma2_to64();
        if n < 0x80_0000 {
            rounding::lemma_pow2_facts(24, 0);
            lemma_error(n, 1, p, 1);
            assert(n * power2::pow2(0) == n);
            order::lemma_scaled_exact(n, 0, p);
        } else {
            lemma_relative(n, 1, p);
            assert(p.units() * 1 == p.units());
        }
    }
}

/// Of a sum.
pub proof fn lemma_sum_error(a: Single, b: Single, c: nat)
    requires
        a.finite(),
        b.finite(),
        1 <= c <= 136,
        -power2::pow2(24 + c) < a.value() + b.value() < power2::pow2(24 + c),
    ensures
        a.plus(b).finite(),
        near(a.plus(b).value(), a.value() + b.value(), power2::pow2((c - 1) as nat) as int),
{
    reveal(Single::plus);
    let sum = a.value() + b.value();
    let p = a.plus(b);
    rounding::lemma_pow2_facts((c - 1) as nat, 0);
    if sum == 0 {
        single::lemma_parts(p);
    } else {
        let n = (if sum < 0 {
            -sum
        } else {
            sum
        }) as nat;
        order::lemma_nearest_increases(n, n, 1);
        lemma_error(n, 1, p, c);
    }
}

/// Of a product.
pub proof fn lemma_product_error(a: Single, b: Single, c: nat)
    requires
        a.finite(),
        b.finite(),
        1 <= c <= 136,
        a.units() * b.units() < power2::pow2(149) * power2::pow2(24 + c),
    ensures
        a.times(b).finite(),
        near(
            a.times(b).value() * big(),
            a.value() * b.value(),
            (power2::pow2(149) * power2::pow2((c - 1) as nat)) as int,
        ),
{
    reveal(Single::times);
    let big = power2::pow2(149);
    let n = a.units() * b.units();
    let p = a.times(b);
    rounding::lemma_pow2_facts(149, 0);
    order::lemma_nearest_increases(n, n, big);
    lemma_error(n, big, p, c);
    let (x, y, z) = (a.units() as int, b.units() as int, p.units() as int);
    assert((-x) * y == -(x * y) && x * (-y) == -(x * y) && (-x) * (-y) == x * y && (-z) * big == -(
    z * big)) by (nonlinear_arith);
}

/// Of a division by a positive value.
pub proof fn lemma_quotient_error(a: Single, b: Single, c: nat)
    requires
        a.finite(),
        b.finite(),
        !b.negative(),
        b.units() > 0,
        1 <= c <= 136,
        a.units() * power2::pow2(149) < b.units() * power2::pow2(24 + c),
    ensures
        a.over(b).finite(),
        near(
            a.over(b).value() * b.value(),
            a.value() * big(),
            b.value() * power2::pow2((c - 1) as nat),
        ),
{
    reveal(Single::over);
    let big = power2::pow2(149);
    let n = a.units() * big;
    let d = b.units();
    let p = a.over(b);
    single::lemma_parts(b);
    order::lemma_nearest_increases(n, n, d);
    lemma_error(n, d, p, c);
    let (x, z) = (a.units() as int, p.units() as int);
    assert((-x) * big == -(x * big) && (-z) * d == -(z * d)) by (nonlinear_arith);
}

/// What holds of multiples holds of the numbers.
pub proof fn lemma_divided(x: int, v: int, by: int, d: int)
    requires
        d > 0,
        near(x * d, v * d, by * d),
    ensures
        near(x, v, by),
{
    assert(x - v <= by) by (nonlinear_arith)
        requires
            x * d - v * d <= by * d,
            d > 0,
    ;
    assert(v - x <= by) by (nonlinear_arith)
        requires
            v * d - x * d <= by * d,
            d > 0,
    ;
}

/// A product with a whole number.
pub proof fn lemma_product_value(y: int, a: int, n: int, e: int)
    requires
        near(y * big(), a * (n * big()), big() * e),
    ensures
        near(y, n * a, e),
{
    let b = big();
    lemma_scales();
    assert(a * (n * b) == (n * a) * b) by (nonlinear_arith);
    assert(b * e == e * b) by (nonlinear_arith);
    lemma_divided(y, n * a, e, b);
}

/// A quotient by a whole number.
pub proof fn lemma_quotient_value(q: int, a: int, n: int, e: int)
    requires
        near(q * (n * big()), a * big(), (n * big()) * e),
    ensures
        near(n * q, a, n * e),
{
    let b = big();
    lemma_scales();
    assert(q * (n * b) == (n * q) * b) by (nonlinear_arith);
    assert((n * b) * e == (n * e) * b) by (nonlinear_arith);
    lemma_divided(n * q, a, n * e, b);
}

/// The scales that the bounds speak of.
pub proof fn lemma_scales()
    ensures
        power2::pow2(149) == 0x4000 * power2::pow2(135),
        power2::pow2(160) == 2048 * power2::pow2(149),
        power2::pow2(135) > 0,
{
    power2::lemma2_to64();
    rounding::lemma_pow2_facts(135, 14);
    rounding::lemma_pow2_facts(149, 11);
}

} // verus!
