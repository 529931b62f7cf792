//! One full rainbow per octave: which column of the colour table a whole note
//! has.
use crate::analysis;
use crate::analysis::HUE_STEPS;
use crate::order;
use crate::rounding;
use crate::single;
use crate::single::Single;
use crate::values::{ONE, TWELVE, TWENTY_ONE};
use vstd::arithmetic::div_mod;
use vstd::arithmetic::mul;
use vstd::arithmetic::power2;
use vstd::prelude::*;

verus! {

/// A twelfth of a whole number, as it is computed: in units, its distance from
/// the exact one is small, and there is none where the exact one is a multiple
/// of a quarter.
proof fn lemma_twelfth(x: nat, p: Single) -> (r: (nat, nat))
    requires
        x < 0x4000,
        p.finite(),
        p.magnitude() == rounding::nearest(x * power2::pow2(149), 12),
    ensures
        p.units() == r.0 * power2::pow2(r.1),
        r.0 <= 0x100_0000,
        r.1 <= 149,
        1024 * (12 * p.units() - x * power2::pow2(149)) <= power2::pow2(149),
        1024 * (x * power2::pow2(149) - 12 * p.units()) <= power2::pow2(149),
        x % 3 == 0 ==> 12 * p.units() == x * power2::pow2(149),
{
    let big = power2::pow2(149);
    let n = x * big;
    let j = rounding::lemma_binade_exists(n, 12);
    order::lemma_units_of_nearest(n, 12, j, p);
    let w = power2::pow2(j);
    let r = rounding::round_half_even(n, 12 * w);
    rounding::lemma_pow2_facts(j, 23);
    rounding::lemma_pow2_facts(149, 0);
    power2::lemma2_to64();
    assert(j + 23 == 23 + j);
    // The spacing is small against a unit of the whole numbers.
    assert(6144 * w <= big) by {
        if j > 0 {
            assert(n <= 0x4000 * big) by (nonlinear_arith)
                requires
                    n == x * big,
                    x < 0x4000,
                    big > 0,
            ;
            assert(12 * (w * 0x80_0000) <= 0x4000 * big);
        } else {
            rounding::lemma_pow2_facts(13, 149);
            assert(w == 1);
        }
    }
    assert(j <= 149) by {
        if j > 149 {
            rounding::lemma_pow2_facts(149, j);
        }
    }
    // Rounding moves by half a spacing at most.
    div_mod::lemma_fundamental_div_mod(n as int, (12 * w) as int);
    assert(2 * (r * (12 * w)) <= 2 * n + 12 * w && 2 * n <= 2 * (r * (12 * w)) + 12 * w)
        by (nonlinear_arith)
        requires
            w > 0,
            n == (12 * w) * (n / (12 * w)) + n % (12 * w),
            0 <= n % (12 * w) < 12 * w,
            r == n / (12 * w) && 2 * (n % (12 * w)) <= 12 * w || r == n / (12 * w) + 1 && 2 * (n % (
            12 * w)) >= 12 * w,
    ;
    assert(r * (12 * w) == 12 * (r * w)) by (nonlinear_arith);
    // Quarters are exact.
    if x % 3 == 0 {
        lemma_quarter_exact(x, j, r);
    }
    order::lemma_rounded_fits(n, 12, j);
    (r, j)
}

proof fn lemma_quarter_exact(x: nat, j: nat, r: nat)
    requires
        x < 0x4000,
        x % 3 == 0,
        6144 * power2::pow2(j) <= power2::pow2(149),
        r == rounding::round_half_even(x * power2::pow2(149), 12 * power2::pow2(j)),
    ensures
        12 * (r * power2::pow2(j)) == x * power2::pow2(149),
{
    let m = x / 3;
    let w = power2::pow2(j);
    power2::lemma2_to64();
    rounding::lemma_pow2_facts(j, 0);
    assert(j <= 147) by {
        if j > 147 {
            rounding::lemma_pow2_facts(148, j);
            rounding::lemma_pow2_facts(148, 0);
        }
    }
    let d = (147 - j) as nat;
    rounding::lemma_pow2_facts(d, j);
    rounding::lemma_pow2_facts(147, 0);
    rounding::lemma_pow2_facts(148, 0);
    let c = power2::pow2(147);
    assert(power2::pow2(149) == 4 * c);
    let t = m * power2::pow2(d);
    assert(x * (4 * c) == t * (12 * w)) by (nonlinear_arith)
        requires
            x == 3 * m,
            t == m * power2::pow2(d),
            c == power2::pow2(d) * w,
    ;
    rounding::lemma_round_scale(t, 1, 12 * w);
    assert(1 * (12 * w) == 12 * w);
    order::lemma_round_whole(t);
    assert(t * (12 * w) == 12 * (t * w)) by (nonlinear_arith);
}

/// The octaves of a note above A0, as they are computed.
proof fn lemma_turns(n: int)
    requires
        21 <= n < 21 + 0x4000,
    ensures
        ({
            let p = Single::whole(n).minus(Single { bits: TWENTY_ONE }).over(
                Single { bits: TWELVE },
            );
            &&& p.finite()
            &&& !p.negative()
            &&& p.magnitude() == rounding::nearest((n - 21) as nat * power2::pow2(149), 12)
        }),
{
    let big = power2::pow2(149);
    let x = (n - 21) as nat;
    let a = Single::whole(n);
    let minus = (Single { bits: TWENTY_ONE }).negated();
    let twelve = Single { bits: TWELVE };
    analysis::lemma_values();
    order::lemma_whole_exact(n);
    order::lemma_whole_exact(x as int);
    assert(n * big - 21 * big == x * big) by (nonlinear_arith)
        requires
            x == n - 21,
    ;
    assert(minus.value() == -(21 * big));
    order::lemma_sum_exact(a, minus, Single::whole(x as int));
    let above = a.minus(Single { bits: TWENTY_ONE });
    single::lemma_parts(above);
    assert(above.value() == x * big);
    assert(!above.negative()) by {
        if x == 0 {
            reveal(Single::plus);
            assert(0 * big == 0);
        } else {
            assert(x * big > 0) by (nonlinear_arith)
                requires
                    x > 0,
                    big > 0,
            ;
        }
    }
    assert(above.units() == x * big);
    reveal(Single::over);
    single::lemma_parts(twelve);
    rounding::lemma_nearest_scale(x * big, 12, big);
    let p = above.over(twelve);
    order::lemma_nearest_increases(x * big, above.units() * 12, 12);
    order::lemma_nearest_of(above, 12);
    assert(p.magnitude() == rounding::nearest(x * big, 12));
}

/// The part of a value after the point, and 512 times that, are exact.
proof fn lemma_after_point(p: Single, t: nat, j: nat)
    requires
        p.finite(),
        !p.negative(),
        p.units() == t * power2::pow2(j),
        t <= 0x100_0000,
        j <= 149,
    ensures
        ({
            let hue = p.wrapped(Single { bits: ONE });
            let at = hue.times(Single::whole(512));
            &&& !at.nan()
            &&& !at.negative()
            &&& at.finite()
            &&& at.units() == 512 * (p.units() % power2::pow2(149))
        }),
{
    let big = power2::pow2(149);
    let w = power2::pow2(j);
    let one = Single { bits: ONE };
    let wide = Single::whole(512);
    let left = p.units() % big;
    let c = power2::pow2((149 - j) as nat);
    analysis::lemma_values();
    order::lemma_whole_exact(512);
    rounding::lemma_pow2_facts((149 - j) as nat, j);
    rounding::lemma_pow2_facts(j, 0);
    rounding::lemma_pow2_facts(j, 9);
    power2::lemma2_to64();
    assert(big == c * w);
    mul::lemma_mul_is_commutative(t as int, w as int);
    mul::lemma_mul_is_commutative(c as int, w as int);
    div_mod::lemma_truncate_middle(t as int, w as int, c as int);
    let t2 = t % c;
    assert(left == t2 * w) by {
        mul::lemma_mul_is_commutative(t2 as int, w as int);
    }
    assert(t2 <= t) by {
        div_mod::lemma_mod_decreases(t, c);
    }
    reveal(Single::modulo);
    single::lemma_parts(one);
    let hue = p.modulo(one);
    assert(left < big);
    order::lemma_nearest_increases(left, big, 1);
    order::lemma_nearest_of(one, 1);
    assert(one.units() * 1 == one.units());
    assert(hue.magnitude() == rounding::nearest(left, 1));
    assert(hue.finite() && !hue.negative());
    order::lemma_scaled_exact(t2, j, hue);
    assert(p.wrapped(one) == hue);
    let at = hue.times(wide);
    assert(wide.units() == 512 * big);
    assert(left * (512 * big) == (512 * left) * big) by (nonlinear_arith);
    order::lemma_product_place(hue, wide);
    rounding::lemma_nearest_scale(512 * left, 1, big);
    assert(1 * big == big);
    assert(at.magnitude() == rounding::nearest(512 * left, 1));
    order::lemma_nearest_increases(512 * left, 512 * big, 1);
    order::lemma_nearest_of(wide, 1);
    assert(wide.units() * 1 == wide.units());
    assert(at.finite());
    assert(512 * left == t2 * power2::pow2(j + 9)) by (nonlinear_arith)
        requires
            left == t2 * w,
            power2::pow2(j + 9) == w * 512,
    ;
    order::lemma_scaled_exact(t2, j + 9, at);
    assert(!at.negative()) by {
        reveal(Single::times);
    }
}

/// One full rainbow per octave: the twelve notes from an A on stand at even
/// steps along the colour table, the A at its beginning, and so do the notes of
/// every other octave.
pub proof fn law_one_rainbow_per_octave(n: int)
    requires
        21 <= n < 21 + 0x4000,
    ensures
        analysis::column_of(analysis::hue_at(Single::whole(n))) == (HUE_STEPS * ((n - 21) % 12)) / 12,
{
    let big = power2::pow2(149) as int;
    let x = n - 21;
    let p = Single::whole(n).minus(Single { bits: TWENTY_ONE }).over(Single { bits: TWELVE });
    lemma_turns(n);
    let (t, j) = lemma_twelfth(x as nat, p);
    lemma_after_point(p, t, j);
    rounding::lemma_pow2_facts(149, 0);
    let (q, k) = (x / 12, x % 12);
    let u = p.units() as int;
    let e = 12 * u - x * big;
    // What follows the point is a twelfth of `k`, and a little.
    assert(12 * (u - q * big) == k * big + e) by (nonlinear_arith)
        requires
            e == 12 * u - x * big,
            x == 12 * q + k,
    ;
    assert(0 <= u - q * big < big) by (nonlinear_arith)
        requires
            12 * (u - q * big) == k * big + e,
            0 <= k <= 11,
            -big <= 1024 * e <= big,
            k == 0 ==> e == 0,
            big > 0,
    ;
    div_mod::lemma_fundamental_div_mod_converse(u, big, q, u - q * big);
    let left = u % big;
    assert(left == u - q * big);
    let c = (512 * k) / 12;
    assert(c * big <= 512 * left < (c + 1) * big) by (nonlinear_arith)
        requires
            12 * left == k * big + e,
            0 <= k <= 11,
            c == (512 * k) / 12,
            -big <= 1024 * e <= big,
            k % 3 == 0 ==> e == 0,
            big > 0,
    ;
    assert((c + 1) * big == c * big + big) by (nonlinear_arith);
    div_mod::lemma_fundamental_div_mod_converse(512 * left, big, c, 512 * left - c * big);
    let at = p.wrapped(Single { bits: ONE }).times(Single::whole(512));
    assert(at.floor_size() == c);
    assert(analysis::hue_at(Single::whole(n)) == p.wrapped(Single { bits: ONE }));
    assert(c < 512);
}

} // verus!
