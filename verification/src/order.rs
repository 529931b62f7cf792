//! How rounding and the operations keep the order of the numbers, and which
//! results are exact.
use crate::rounding;
use crate::rounding::{BINADE, INFINITE};
use crate::single;
use crate::single::Single;
use crate::values::ONE;
use vstd::arithmetic::div_mod;
use vstd::arithmetic::mul;
use vstd::arithmetic::power2;
use vstd::prelude::*;

verus! {

proof fn lemma_round_increases(a: nat, b: nat, d: nat)
    requires
        a <= b,
        d > 0,
    ensures
        rounding::round_half_even(a, d) <= rounding::round_half_even(b, d),
{
    div_mod::lemma_div_is_ordered(a as int, b as int, d as int);
    if a / d == b / d {
        div_mod::lemma_fundamental_div_mod(a as int, d as int);
        div_mod::lemma_fundamental_div_mod(b as int, d as int);
    }
}

/// The pattern of a quotient lies in the binade of the quotient.
proof fn lemma_nearest_in_binade(n: nat, d: nat, k: nat)
    requires
        d > 0,
        rounding::in_binade(n, d, k),
    ensures
        rounding::round_half_even(n, d * power2::pow2(k)) <= 2 * BINADE,
        k > 0 ==> rounding::round_half_even(n, d * power2::pow2(k)) >= BINADE,
{
    let w = power2::pow2(k);
    rounding::lemma_pow2_facts(k, 24);
    rounding::lemma_pow2_facts(k, 23);
    power2::lemma2_to64();
    assert(k + 24 == 24 + k && k + 23 == 23 + k);
    assert(d * w > 0) by (nonlinear_arith)
        requires
            d > 0,
            w > 0,
    ;
    mul::lemma_mul_is_associative(d as int, w as int, 0x100_0000);
    mul::lemma_mul_is_associative(d as int, w as int, 0x80_0000);
    rounding::lemma_round_bounds(
        n,
        d * w,
        if k > 0 {
            0x80_0000
        } else {
            0
        },
        0x100_0000,
    );
}

/// A rounded quotient has at most 24 bits.
pub proof fn lemma_rounded_fits(n: nat, d: nat, k: nat)
    requires
        d > 0,
        rounding::in_binade(n, d, k),
    ensures
        rounding::round_half_even(n, d * power2::pow2(k)) <= 2 * BINADE,
{
    lemma_nearest_in_binade(n, d, k);
}

/// A larger quotient rounds to no smaller a pattern.
pub proof fn lemma_nearest_increases(a: nat, b: nat, d: nat)
    requires
        a <= b,
        d > 0,
    ensures
        rounding::nearest(a, d) <= rounding::nearest(b, d) <= INFINITE,
{
    let j = rounding::lemma_binade_exists(a, d);
    let k = rounding::lemma_binade_exists(b, d);
    rounding::lemma_nearest_at(a, d, j);
    rounding::lemma_nearest_at(b, d, k);
    lemma_nearest_in_binade(a, d, j);
    lemma_nearest_in_binade(b, d, k);
    if j > k {
        rounding::lemma_pow2_facts(24 + k, (23 + j) as nat);
        mul::lemma_mul_left_inequality(
            d as int,
            power2::pow2(24 + k) as int,
            power2::pow2(23 + j) as int,
        );
    } else if j == k {
        rounding::lemma_pow2_facts(k, 0);
        assert(d * power2::pow2(k) > 0) by (nonlinear_arith)
            requires
                d > 0,
                power2::pow2(k) > 0,
        ;
        lemma_round_increases(a, b, d * power2::pow2(k));
    }
}

/// A pattern's own size rounds to the pattern, over any denominator.
pub proof fn lemma_nearest_of(a: Single, d: nat)
    requires
        a.finite(),
        d > 0,
    ensures
        rounding::nearest(a.units() * d, d) == a.magnitude(),
{
    single::lemma_parts(a);
    rounding::lemma_nearest_exact(a.significand(), a.exponent());
    rounding::lemma_nearest_scale(a.units(), 1, d);
    assert(1 * d == d);
}

/// The place on the number line that a number of units rounds to.
pub open spec fn place(v: int) -> int {
    if v < 0 {
        -(rounding::nearest((-v) as nat, 1) as int)
    } else {
        rounding::nearest(v as nat, 1) as int
    }
}

/// Rounding keeps the order.
pub proof fn lemma_place_increases(v: int, w: int)
    ensures
        v <= w ==> place(v) <= place(w),
{
    if v <= w {
        if w < 0 {
            lemma_nearest_increases((-w) as nat, (-v) as nat, 1);
        } else if v >= 0 {
            lemma_nearest_increases(v as nat, w as nat, 1);
        }
    }
}

/// A pattern made of its sign and its magnitude.
proof fn lemma_of(negative: bool, magnitude: nat)
    requires
        magnitude <= INFINITE,
    ensures
        Single::of(negative, magnitude).magnitude() == magnitude,
        Single::of(negative, magnitude).negative() == negative,
{
}

/// A sum lies where the exact sum rounds to.
pub proof fn lemma_sum_place(a: Single, b: Single)
    requires
        a.finite(),
        b.finite(),
    ensures
        !a.plus(b).nan(),
        a.plus(b).rank() == place(a.value() + b.value()),
{
    reveal(Single::plus);
    let sum = a.value() + b.value();
    rounding::lemma_nearest_exact(0, 0);
    power2::lemma2_to64();
    assert(0nat * power2::pow2(0) == 0);
    if sum < 0 {
        lemma_nearest_increases((-sum) as nat, (-sum) as nat, 1);
    } else {
        lemma_nearest_increases(sum as nat, sum as nat, 1);
    }
}

/// Adding the same value to both sides keeps the order.
pub proof fn lemma_plus_increases(a: Single, b: Single, c: Single)
    requires
        a.finite(),
        b.finite(),
        c.finite(),
        a.rank() <= b.rank(),
    ensures
        !a.plus(c).nan(),
        !b.plus(c).nan(),
        a.plus(c).rank() <= b.plus(c).rank(),
{
    single::lemma_less_is_order(b, a);
    lemma_sum_place(a, c);
    lemma_sum_place(b, c);
    lemma_place_increases(a.value() + c.value(), b.value() + c.value());
}

/// A product of values that are not below zero.
pub proof fn lemma_product_place(a: Single, b: Single)
    requires
        a.finite(),
        b.finite(),
        a.rank() >= 0,
        b.rank() >= 0,
    ensures
        !a.times(b).nan(),
        a.times(b).magnitude() == rounding::nearest(a.units() * b.units(), power2::pow2(149)),
        a.times(b).rank() == a.times(b).magnitude(),
{
    reveal(Single::times);
    rounding::lemma_pow2_facts(149, 0);
    lemma_nearest_increases(a.units() * b.units(), a.units() * b.units(), power2::pow2(149));
    single::lemma_parts(a);
    single::lemma_parts(b);
    if a.negative() || b.negative() {
        rounding::lemma_nearest_exact(0, 0);
        power2::lemma2_to64();
        rounding::lemma_nearest_scale(0, 1, power2::pow2(149));
        assert(0nat * power2::pow2(0) == 0);
        assert(1 * power2::pow2(149) == power2::pow2(149));
        assert(0 * power2::pow2(149) == 0);
        assert(a.units() == 0 || b.units() == 0);
        assert(a.units() * b.units() == 0) by (nonlinear_arith)
            requires
                a.units() == 0 || b.units() == 0,
        ;
    }
}

/// Multiplying by a value not below zero keeps the order of such values.
pub proof fn lemma_times_increases(a: Single, b: Single, c: Single)
    requires
        a.finite(),
        b.finite(),
        c.finite(),
        0 <= a.rank() <= b.rank(),
        c.rank() >= 0,
    ensures
        !a.times(c).nan(),
        !b.times(c).nan(),
        0 <= a.times(c).rank() <= b.times(c).rank(),
{
    lemma_product_place(a, c);
    lemma_product_place(b, c);
    rounding::lemma_pow2_facts(149, 0);
    if a.magnitude() < b.magnitude() {
        single::lemma_units_increase(a, b);
    } else {
        single::lemma_parts(a);
        single::lemma_parts(b);
    }
    assert(a.units() <= b.units());
    mul::lemma_mul_inequality(a.units() as int, b.units() as int, c.units() as int);
    lemma_nearest_increases(
        a.units() * c.units(),
        b.units() * c.units(),
        power2::pow2(149),
    );
}

/// The size of a pattern that is put together from its parts.
pub proof fn lemma_units_of(a: Single, s: nat, e: nat)
    requires
        s < 2 * BINADE,
        e > 0 ==> s >= BINADE,
        e <= 253,
        a.magnitude() == e * BINADE as nat + s,
    ensures
        a.finite(),
        a.significand() == s,
        a.exponent() == e,
        a.units() == s * power2::pow2(e),
{
    let b = BINADE as int;
    if e > 0 {
        div_mod::lemma_fundamental_div_mod_converse(
            a.magnitude() as int,
            b,
            (e + 1) as int,
            s - b,
        );
    }
}

/// A whole number of at most 24 bits is its own value.
pub proof fn lemma_whole_exact(n: int)
    requires
        -0x100_0000 < n < 0x100_0000,
    ensures
        Single::whole(n).finite(),
        Single::whole(n).value() == n * power2::pow2(149),
        Single::whole(n).negative() == (n < 0),
{
    reveal(Single::whole);
    let size = (if n < 0 {
        -n
    } else {
        n
    }) as nat;
    let big = power2::pow2(149);
    rounding::lemma_pow2_facts(149, 0);
    if size == 0 {
        rounding::lemma_nearest_exact(0, 0);
        power2::lemma2_to64();
        assert(0nat * power2::pow2(0) == 0);
        assert(0 * big == 0);
        assert(n * big == 0);
        lemma_units_of(Single::whole(n), 0, 0);
    } else {
        let k = rounding::lemma_binade_exists(size * big, 1);
        rounding::lemma_nearest_at(size * big, 1, k);
        assert(1 * power2::pow2(24 + k) == power2::pow2(24 + k));
        assert(1 * power2::pow2(23 + k) == power2::pow2(23 + k));
        assert(1 * power2::pow2(k) == power2::pow2(k));
        power2::lemma2_to64();
        rounding::lemma_pow2_facts(24, 149);
        rounding::lemma_pow2_facts(173, 23 + k);
        rounding::lemma_pow2_facts(24 + k, 149);
        assert(big <= size * big < 0x100_0000 * big) by (nonlinear_arith)
            requires
                1 <= size < 0x100_0000,
                big > 0,
        ;
        assert(0 < k <= 149);
        let s = size * power2::pow2((149 - k) as nat);
        let w = power2::pow2(k);
        rounding::lemma_pow2_facts((149 - k) as nat, k);
        rounding::lemma_pow2_facts(k, 24);
        rounding::lemma_pow2_facts(k, 23);
        assert(k + 24 == 24 + k && k + 23 == 23 + k);
        mul::lemma_mul_is_associative(
            size as int,
            power2::pow2((149 - k) as nat) as int,
            w as int,
        );
        assert(size * big == s * w);
        rounding::lemma_round_scale(s, 1, w);
        assert(1 * w == w);
        assert(0x80_0000 <= s < 0x100_0000) by (nonlinear_arith)
            requires
                w * 0x80_0000 <= s * w < w * 0x100_0000,
                w > 0,
        ;
        assert(k * BINADE as nat + s < INFINITE);
        lemma_units_of(Single::whole(n), s, k);
        if n < 0 {
            mul::lemma_mul_unary_negation(size as int, big as int);
        }
    }
}

/// A sum that is a value is that value.
pub proof fn lemma_sum_exact(a: Single, b: Single, c: Single)
    requires
        a.finite(),
        b.finite(),
        c.finite(),
        a.value() + b.value() == c.value(),
    ensures
        a.plus(b).rank() == c.rank(),
        a.plus(b).finite(),
        c.value() != 0 ==> a.plus(b) == c,
        a.plus(b).value() == c.value(),
{
    reveal(Single::plus);
    lemma_nearest_of(c, 1);
    single::lemma_parts(c);
    assert(c.units() * 1 == c.units());
    if c.value() == 0 {
        single::lemma_parts(a.plus(b));
    }
}

/// The size that a quotient rounds to.
pub proof fn lemma_units_of_nearest(n: nat, d: nat, k: nat, p: Single)
    requires
        d > 0,
        rounding::in_binade(n, d, k),
        p.magnitude() == rounding::nearest(n, d),
        p.finite(),
    ensures
        p.units() == rounding::round_half_even(n, d * power2::pow2(k)) * power2::pow2(k),
{
    let r = rounding::round_half_even(n, d * power2::pow2(k));
    rounding::lemma_nearest_at(n, d, k);
    lemma_nearest_in_binade(n, d, k);
    assert(p.magnitude() == k * BINADE as nat + r);
    if r < 2 * BINADE {
        lemma_units_of(p, r, k);
    } else {
        lemma_units_of(p, BINADE as nat, k + 1);
        rounding::lemma_pow2_facts(k, 0);
        assert(BINADE * (2 * power2::pow2(k)) == (2 * BINADE) * power2::pow2(k))
            by (nonlinear_arith);
    }
}

/// Rounding at most doubles a quotient of one unit or more, and takes a smaller
/// one to no more than a unit.
pub proof fn lemma_nearest_limit(n: nat, d: nat, p: Single)
    requires
        d > 0,
        p.magnitude() == rounding::nearest(n, d),
        p.finite(),
    ensures
        n >= d ==> p.units() * d <= 2 * n,
        n < d ==> p.units() <= 1,
        n == 0 ==> p.units() == 0,
{
    let k = rounding::lemma_binade_exists(n, d);
    lemma_units_of_nearest(n, d, k, p);
    let w = power2::pow2(k);
    rounding::lemma_pow2_facts(k, 23);
    power2::lemma2_to64();
    assert(k + 23 == 23 + k);
    let dw = d * w;
    assert(dw > 0) by (nonlinear_arith)
        requires
            dw == d * w,
            d > 0,
            w > 0,
    ;
    let r = rounding::round_half_even(n, dw);
    div_mod::lemma_fundamental_div_mod(n as int, dw as int);
    assert(2 * (r * dw) <= 2 * n + dw) by (nonlinear_arith)
        requires
            n == dw * (n / dw) + n % dw,
            r == n / dw && n % dw >= 0 || r == n / dw + 1 && 2 * (n % dw) >= dw,
            dw > 0,
    ;
    assert((r * w) * d == r * dw) by (nonlinear_arith)
        requires
            dw == d * w,
    ;
    if k > 0 {
        assert(d <= dw <= n) by (nonlinear_arith)
            requires
                dw == d * w,
                d * (w * 0x80_0000) <= n,
                d > 0,
                w > 0,
        ;
    } else {
        mul::lemma_mul_basics(d as int);
        mul::lemma_mul_basics(r as int);
        if n < d {
            div_mod::lemma_basic_div(n as int, d as int);
            div_mod::lemma_small_mod(n, d);
        }
    }
}

/// Rounding to a whole number keeps the order.
pub proof fn lemma_round_size_increases(a: Single, b: Single)
    requires
        a.finite(),
        b.finite(),
        a.units() <= b.units(),
    ensures
        a.round_size() <= b.round_size(),
{
    let d = power2::pow2(149);
    rounding::lemma_pow2_facts(149, 0);
    div_mod::lemma_div_is_ordered(a.units() as int, b.units() as int, d as int);
    if a.units() / d == b.units() / d {
        div_mod::lemma_fundamental_div_mod(a.units() as int, d as int);
        div_mod::lemma_fundamental_div_mod(b.units() as int, d as int);
    }
}

/// Rounding to a whole number within bounds keeps the order.
pub proof fn lemma_round_within_increases(a: Single, b: Single, lo: int, hi: int)
    requires
        a.finite(),
        b.finite(),
        a.rank() <= b.rank(),
        lo <= hi,
    ensures
        a.round_within(lo, hi) <= b.round_within(lo, hi),
{
    single::lemma_less_is_order(b, a);
    if a.negative() == b.negative() {
        if a.negative() {
            lemma_round_size_increases(b, a);
        } else {
            lemma_round_size_increases(a, b);
        }
    } else if b.negative() {
        single::lemma_parts(a);
        single::lemma_parts(b);
        rounding::lemma_pow2_facts(149, 0);
        div_mod::lemma_basic_div(0, power2::pow2(149) as int);
        div_mod::lemma_small_mod(0, power2::pow2(149));
    }
}

/// A product with one sign changed.
pub proof fn lemma_times_negated(a: Single, b: Single)
    requires
        a.finite(),
        b.finite(),
    ensures
        a.times(b.negated()) == a.times(b).negated(),
        a.negated().times(b) == a.times(b).negated(),
{
    reveal(Single::times);
    let n = a.units() * b.units();
    assert(a.negated().units() == a.units());
    assert(b.negated().units() == b.units());
    rounding::lemma_pow2_facts(149, 0);
    lemma_nearest_increases(n, n, power2::pow2(149));
    lemma_of(a.negative() != b.negative(), rounding::nearest(n, power2::pow2(149)));
}

/// Whole numbers of at most 24 bits add up exactly.
pub proof fn lemma_whole_sum(a: int, b: int)
    requires
        -0x100_0000 < a < 0x100_0000,
        -0x100_0000 < b < 0x100_0000,
        -0x100_0000 < a + b < 0x100_0000,
    ensures
        Single::whole(a).plus(Single::whole(b)) == Single::whole(a + b),
{
    let big = power2::pow2(149) as int;
    let (x, y, z) = (Single::whole(a), Single::whole(b), Single::whole(a + b));
    rounding::lemma_pow2_facts(149, 0);
    lemma_whole_exact(a);
    lemma_whole_exact(b);
    lemma_whole_exact(a + b);
    assert(a * big + b * big == (a + b) * big) by (nonlinear_arith);
    lemma_sum_exact(x, y, z);
    if a + b == 0 {
        assert(0 * big == 0);
        reveal(Single::plus);
        single::lemma_parts(z);
    } else {
        assert((a + b) * big != 0) by (nonlinear_arith)
            requires
                a + b != 0,
                big > 0,
        ;
    }
}

/// One, as a whole number and as a pattern.
pub proof fn lemma_one()
    ensures
        Single::whole(1) == (Single { bits: ONE }),
        (Single { bits: ONE }).finite(),
        (Single { bits: ONE }).units() == power2::pow2(149),
        power2::pow2(149) > 0,
{
    let one = Single { bits: ONE };
    lemma_units_of(one, BINADE as nat, 126);
    rounding::lemma_pow2_facts(23, 126);
    rounding::lemma_pow2_facts(149, 0);
    power2::lemma2_to64();
    lemma_whole_exact(1);
    assert(1 * power2::pow2(149) == power2::pow2(149));
    lemma_nearest_of(one, 1);
    lemma_nearest_of(Single::whole(1), 1);
}

/// A value over itself is one.
pub proof fn lemma_over_itself(a: Single)
    requires
        a.finite(),
        !a.zero(),
    ensures
        a.over(a) == (Single { bits: ONE }),
{
    let one = Single { bits: ONE };
    reveal(Single::over);
    lemma_one();
    single::lemma_parts(a);
    lemma_nearest_of(one, a.units());
    mul::lemma_mul_is_commutative(one.units() as int, a.units() as int);
}

/// One times a value is that value.
pub proof fn lemma_one_times(a: Single)
    requires
        a.finite(),
    ensures
        (Single { bits: ONE }).times(a) == a,
{
    let one = Single { bits: ONE };
    let big = power2::pow2(149);
    reveal(Single::times);
    lemma_one();
    lemma_nearest_of(a, big);
    mul::lemma_mul_is_commutative(one.units() as int, a.units() as int);
}

/// A whole number rounds to itself.
pub proof fn lemma_round_whole(n: nat)
    ensures
        rounding::round_half_even(n, 1) == n,
{
    div_mod::lemma_div_basics(n as int);
    div_mod::lemma_mod_division_less_than_divisor(n as int, 1);
}

/// A number of at most 24 bits, scaled by a power of two, rounds to itself.
pub proof fn lemma_scaled_exact(t: nat, j: nat, p: Single)
    requires
        t <= 0x100_0000,
        p.magnitude() == rounding::nearest(t * power2::pow2(j), 1),
        p.finite(),
    ensures
        p.units() == t * power2::pow2(j),
{
    let n = t * power2::pow2(j);
    let k = rounding::lemma_binade_exists(n, 1);
    lemma_units_of_nearest(n, 1, k, p);
    assert(1 * power2::pow2(k) == power2::pow2(k));
    assert(1 * power2::pow2(23 + k) == power2::pow2(23 + k));
    rounding::lemma_pow2_facts(24, j);
    rounding::lemma_pow2_facts(j, 0);
    rounding::lemma_pow2_facts(k, 0);
    power2::lemma2_to64();
    mul::lemma_mul_inequality(t as int, 0x100_0000, power2::pow2(j) as int);
    if k > j {
        rounding::lemma_pow2_facts(24 + j, 23 + k);
        assert(k == j + 1);
        assert(n == power2::pow2(24 + j));
        rounding::lemma_pow2_facts(23, k);
        assert(n == 0x80_0000 * power2::pow2(k));
        rounding::lemma_round_scale(0x80_0000, 1, power2::pow2(k));
        lemma_round_whole(0x80_0000);
        assert(rounding::round_half_even(n, power2::pow2(k)) == 0x80_0000);
    } else {
        let d = (j - k) as nat;
        rounding::lemma_pow2_facts(d, k);
        let s = t * power2::pow2(d);
        mul::lemma_mul_is_associative(
            t as int,
            power2::pow2(d) as int,
            power2::pow2(k) as int,
        );
        assert(n == s * power2::pow2(k));
        rounding::lemma_round_scale(s, 1, power2::pow2(k));
        lemma_round_whole(s);
        assert(rounding::round_half_even(n, power2::pow2(k)) == s);
    }
}

/// Cutting to an index keeps the order.
pub proof fn lemma_index_increases(a: Single, b: Single)
    requires
        a.finite(),
        b.finite(),
        a.rank() <= b.rank(),
    ensures
        a.index(false) <= b.index(false),
{
    single::lemma_less_is_order(b, a);
    if !a.negative() && !b.negative() {
        rounding::lemma_pow2_facts(149, 0);
        div_mod::lemma_div_is_ordered(
            a.units() as int,
            b.units() as int,
            power2::pow2(149) as int,
        );
    } else if !a.negative() {
        single::lemma_parts(a);
        single::lemma_parts(b);
        rounding::lemma_pow2_facts(149, 0);
        div_mod::lemma_basic_div(0, power2::pow2(149) as int);
    }
}

/// The order of two summands does not matter.
pub proof fn lemma_plus_commutes(a: Single, b: Single)
    requires
        a.finite(),
        b.finite(),
    ensures
        a.plus(b) == b.plus(a),
{
    reveal(Single::plus);
}

/// The order of two factors does not matter.
pub proof fn lemma_times_commutes(a: Single, b: Single)
    requires
        a.finite(),
        b.finite(),
    ensures
        a.times(b) == b.times(a),
{
    reveal(Single::times);
    mul::lemma_mul_is_commutative(a.units() as int, b.units() as int);
}

/// Nothing times a value is nothing.
pub proof fn lemma_times_nothing(a: Single, b: Single)
    requires
        a.finite(),
        b.zero(),
    ensures
        a.times(b).zero(),
{
    reveal(Single::times);
    let zero = Single { bits: 0 };
    single::lemma_parts(b);
    single::lemma_parts(zero);
    rounding::lemma_pow2_facts(149, 0);
    lemma_nearest_of(zero, power2::pow2(149));
    assert(a.units() * b.units() == zero.units() * power2::pow2(149)) by (nonlinear_arith)
        requires
            b.units() == 0,
            zero.units() == 0,
    ;
}

} // verus!
