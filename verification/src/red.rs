//! Every A is red: what a hue of zero, and the hues next to it, look like.
use crate::analysis;
use crate::analysis::HUE_STEPS;
use crate::color;
use crate::order;
use crate::rounding;
use crate::rounding::BINADE;
use crate::single;
use crate::single::Single;
use crate::values::{
    BYTE, FIVE, FOUR, HALF, NINE_TENTHS, ONE, SIX, SIX_TENTHS, THREE, THREE_HALVES, THREE_QUARTERS,
    TWO, ZERO,
};
use vstd::arithmetic::div_mod;
use vstd::arithmetic::mul;
use vstd::arithmetic::power2;
use vstd::prelude::*;

verus! {

/// The patterns of small whole numbers.
proof fn lemma_small()
    ensures
        (Single { bits: ONE }).value() == power2::pow2(149),
        (Single { bits: TWO }).value() == 2 * power2::pow2(149),
        (Single { bits: THREE }).value() == 3 * power2::pow2(149),
        (Single { bits: FOUR }).value() == 4 * power2::pow2(149),
        (Single { bits: SIX }).value() == 6 * power2::pow2(149),
        2 * (Single { bits: HALF }).value() == power2::pow2(149),
        power2::pow2(149) > 0,
{
    order::lemma_units_of(Single { bits: HALF }, BINADE as nat, 125);
    order::lemma_units_of(Single { bits: ONE }, BINADE as nat, 126);
    order::lemma_units_of(Single { bits: TWO }, BINADE as nat, 127);
    order::lemma_units_of(Single { bits: FOUR }, BINADE as nat, 128);
    order::lemma_units_of(Single { bits: THREE }, 0xc0_0000, 127);
    order::lemma_units_of(Single { bits: SIX }, 0xc0_0000, 128);
    rounding::lemma_pow2_facts(23, 125);
    rounding::lemma_pow2_facts(23, 126);
    rounding::lemma_pow2_facts(125, 0);
    rounding::lemma_pow2_facts(126, 0);
    rounding::lemma_pow2_facts(127, 0);
    rounding::lemma_pow2_facts(149, 0);
    power2::lemma2_to64();
    let w = power2::pow2(125) as int;
    assert(power2::pow2(126) == 2 * w);
    assert(power2::pow2(127) == 4 * w);
    assert(power2::pow2(128) == 8 * w);
    assert(power2::pow2(149) == 0x80_0000 * (2 * w));
    assert((Single { bits: TWO }).units() == 0x80_0000 * (4 * w));
    assert((Single { bits: TWO }).value() == (Single { bits: TWO }).units());
    assert(0x80_0000 * (4 * w) == 2 * power2::pow2(149));
    assert((Single { bits: THREE }).units() == 0xc0_0000 * (4 * w));
    assert((Single { bits: FOUR }).units() == 0x80_0000 * (8 * w));
    assert((Single { bits: SIX }).units() == 0xc0_0000 * (8 * w));
}

/// The remainder of a value below six.
proof fn lemma_wrapped_small(a: Single)
    requires
        a.finite(),
        !a.negative(),
        a.value() < (Single { bits: SIX }).value(),
    ensures
        a.wrapped(Single { bits: SIX }) == a,
{
    reveal(Single::modulo);
    let six = Single { bits: SIX };
    lemma_small();
    div_mod::lemma_small_mod(a.units(), six.units());
    order::lemma_nearest_of(a, 1);
    assert(a.units() * 1 == a.units());
    single::lemma_parts(six);
}

/// At hue zero there is all of red and nothing of green and blue.
proof fn lemma_hue_zero(h: Single)
    requires
        h.zero(),
    ensures
        color::presence(h, Single { bits: ZERO }) == (Single { bits: ONE }),
        color::presence(h, Single { bits: FOUR }) == (Single { bits: ZERO }),
        color::presence(h, Single { bits: TWO }) == (Single { bits: ZERO }),
{
    reveal(Single::times);
    reveal(Single::plus);
    let (zero, one, two) = (Single { bits: ZERO }, Single { bits: ONE }, Single { bits: TWO });
    let (three, four, six) = (Single { bits: THREE }, Single { bits: FOUR }, Single { bits: SIX });
    lemma_small();
    single::lemma_parts(h);
    single::lemma_parts(zero);
    let g = h.times(six);
    assert(h.units() * six.units() == 0) by (nonlinear_arith)
        requires
            h.units() == 0,
    ;
    order::lemma_nearest_of(zero, power2::pow2(149));
    assert(0 * power2::pow2(149) == 0);
    assert(g.zero());
    single::lemma_parts(g);
    // Red.
    assert(g.plus(zero) == zero);
    lemma_wrapped_small(zero);
    order::lemma_sum_exact(zero, three.negated(), three.negated());
    order::lemma_sum_exact(three, one.negated(), two);
    // Green.
    order::lemma_sum_exact(g, four, four);
    lemma_wrapped_small(four);
    order::lemma_sum_exact(four, three.negated(), one);
    assert(one.minus(one) == zero);
    // Blue.
    order::lemma_sum_exact(g, two, two);
    lemma_wrapped_small(two);
    order::lemma_sum_exact(two, three.negated(), one.negated());
}

/// A brighter intensity makes no smaller a byte.
proof fn lemma_byte_increases(a: Single, b: Single)
    requires
        !a.nan(),
        !b.nan(),
        a.rank() <= b.rank(),
    ensures
        color::byte_of(a) <= color::byte_of(b),
{
    let (zero, one, byte) = (Single { bits: ZERO }, Single { bits: ONE }, Single { bits: BYTE });
    let (x, y) = (a.clamped(zero, one), b.clamped(zero, one));
    assert(0 <= x.rank() <= y.rank() <= one.rank());
    order::lemma_times_increases(x, y, byte);
    order::lemma_times_increases(y, one, byte);
    lemma_small();
    order::lemma_product_place(one, byte);
    order::lemma_nearest_of(byte, power2::pow2(149));
    mul::lemma_mul_is_commutative(byte.units() as int, one.units() as int);
    assert(one.times(byte).magnitude() == byte.magnitude());
    order::lemma_round_within_increases(x.times(byte), y.times(byte), 0, 255);
}

/// The room that a lightness between black and white leaves for colour.
proof fn lemma_room(l: Single)
    requires
        l.finite(),
        0 <= l.rank() <= (Single { bits: ONE }).rank(),
    ensures
        ({
            let tilt = (Single { bits: TWO }).times(l).minus(Single { bits: ONE });
            let room = (Single { bits: ONE }).minus(Single::of(false, tilt.magnitude()));
            room.finite() && 0 <= room.rank() <= (Single { bits: ONE }).rank()
        }),
{
    let (zero, one, two) = (Single { bits: ZERO }, Single { bits: ONE }, Single { bits: TWO });
    let big = power2::pow2(149);
    lemma_small();
    single::lemma_parts(zero);
    // Twice the lightness lies between 0 and 2.
    let d = two.times(l);
    if l.magnitude() < one.magnitude() {
        single::lemma_units_increase(l, one);
    } else {
        single::lemma_parts(l);
    }
    assert(l.units() <= one.units());
    order::lemma_product_place(two, l);
    mul::lemma_mul_inequality(l.units() as int, one.units() as int, two.units() as int);
    mul::lemma_mul_is_commutative(l.units() as int, two.units() as int);
    mul::lemma_mul_is_commutative(one.units() as int, two.units() as int);
    order::lemma_nearest_increases(two.units() * l.units(), two.units() * one.units(), big);
    order::lemma_nearest_of(two, big);
    assert(0 <= d.rank() <= two.rank());
    // Less one, between -1 and 1.
    let minus = one.negated();
    order::lemma_plus_increases(d, two, minus);
    order::lemma_sum_exact(two, minus, one);
    order::lemma_plus_increases(zero, d, minus);
    order::lemma_sum_exact(zero, minus, minus);
    let tilt = d.minus(one);
    assert(tilt.magnitude() <= one.magnitude());
    // One less the size of that, between 0 and 1.
    let size = Single::of(false, tilt.magnitude());
    let less = size.negated();
    order::lemma_plus_increases(minus, less, one);
    order::lemma_plus_increases(less, zero, one);
    order::lemma_sum_exact(minus, one, zero);
    order::lemma_sum_exact(zero, one, one);
    order::lemma_plus_commutes(one, less);
}

proof fn lemma_halves()
    ensures
        (Single { bits: ONE }).minus(Single { bits: HALF }) == (Single { bits: HALF }),
        (Single { bits: ZERO }).minus(Single { bits: HALF }) == (Single { bits: HALF }).negated(),
{
    let (zero, one, half) = (Single { bits: ZERO }, Single { bits: ONE }, Single { bits: HALF });
    lemma_small();
    single::lemma_parts(zero);
    order::lemma_sum_exact(one, half.negated(), half);
    order::lemma_sum_exact(zero, half.negated(), half.negated());
}

/// A product that is a value is that value.
proof fn lemma_product_exact(a: Single, b: Single, c: Single)
    requires
        a.finite(),
        b.finite(),
        c.finite(),
        a.rank() >= 0,
        b.rank() >= 0,
        a.units() * b.units() == c.units() * power2::pow2(149),
    ensures
        a.times(b).rank() == c.magnitude(),
        a.times(b).finite(),
{
    rounding::lemma_pow2_facts(149, 0);
    order::lemma_product_place(a, b);
    order::lemma_nearest_of(c, power2::pow2(149));
}

/// More of a factor between 0 and 1 makes more of a product, whatever its sign.
proof fn lemma_scaled(s: Single, u: Single, v: Single)
    requires
        s.finite(),
        u.finite(),
        v.finite(),
        0 <= s.rank() <= (Single { bits: ONE }).rank(),
        -(Single { bits: HALF }).rank() <= u.rank() <= v.rank() <= (Single { bits: HALF }).rank(),
    ensures
        s.times(u).finite(),
        s.times(v).finite(),
        -(Single { bits: HALF }).rank() <= s.times(u).rank() <= s.times(v).rank() <= (Single {
            bits: HALF,
        }).rank(),
{
    let (u_size, v_size) = (Single::of(false, u.magnitude()), Single::of(false, v.magnitude()));
    lemma_shrunk(s, u_size);
    lemma_shrunk(s, v_size);
    order::lemma_times_negated(s, u_size);
    order::lemma_times_negated(s, v_size);
    order::lemma_times_commutes(s, u_size);
    order::lemma_times_commutes(s, v_size);
    if u.rank() >= 0 && v.rank() >= 0 {
        order::lemma_times_increases(u_size, v_size, s);
    }
    if u.rank() <= 0 && v.rank() <= 0 {
        order::lemma_times_increases(v_size, u_size, s);
    }
    let zero = Single { bits: ZERO };
    order::lemma_times_nothing(s, zero);
    assert(u == u_size || u == u_size.negated());
    assert(v == v_size || v == v_size.negated());
}

/// A factor of at most 1 makes a product of at most the other factor.
proof fn lemma_shrunk(s: Single, u: Single)
    requires
        s.finite(),
        u.finite(),
        0 <= s.rank() <= (Single { bits: ONE }).rank(),
        0 <= u.rank() <= (Single { bits: HALF }).rank(),
    ensures
        s.times(u).finite(),
        0 <= s.times(u).rank() <= (Single { bits: HALF }).rank(),
{
    let one = Single { bits: ONE };
    order::lemma_times_increases(s, one, u);
    order::lemma_one_times(u);
}

/// More of a channel in the hue makes no darker a channel.
proof fn lemma_more_presence(x: Single, y: Single, s: Single, l: Single)
    requires
        x.finite(),
        y.finite(),
        0 <= x.rank() <= y.rank() <= (Single { bits: ONE }).rank(),
        s.finite(),
        0 <= s.rank() <= (Single { bits: ONE }).rank(),
        l.finite(),
        0 <= l.rank() <= (Single { bits: ONE }).rank(),
    ensures
        color::byte_of(color::intensity(x, s, l)) <= color::byte_of(color::intensity(y, s, l)),
{
    let (zero, one, half) = (Single { bits: ZERO }, Single { bits: ONE }, Single { bits: HALF });
    let tilt = (Single { bits: TWO }).times(l).minus(one);
    let room = one.minus(Single::of(false, tilt.magnitude()));
    lemma_room(l);
    lemma_halves();
    let (u, v) = (x.minus(half), y.minus(half));
    order::lemma_plus_increases(zero, x, half.negated());
    order::lemma_plus_increases(x, y, half.negated());
    order::lemma_plus_increases(y, one, half.negated());
    lemma_scaled(s, u, v);
    let (su, sv) = (s.times(u), s.times(v));
    lemma_scaled(room, su, sv);
    order::lemma_times_commutes(room, su);
    order::lemma_times_commutes(room, sv);
    let (down, up) = (su.times(room), sv.times(room));
    order::lemma_plus_increases(down, up, l);
    order::lemma_plus_commutes(l, up);
    order::lemma_plus_commutes(l, down);
    lemma_byte_increases(l.plus(down), l.plus(up));
}

/// From red to yellow there is all of red, some green and no blue.
proof fn lemma_warm(h: Single)
    requires
        h.times(Single { bits: SIX }).finite(),
        0 <= h.times(Single { bits: SIX }).rank() <= (Single { bits: ONE }).rank(),
    ensures
        color::presence(h, Single { bits: ZERO }) == (Single { bits: ONE }),
        color::presence(h, Single { bits: FOUR }).finite(),
        0 <= color::presence(h, Single { bits: FOUR }).rank() <= (Single { bits: ONE }).rank(),
        color::presence(h, Single { bits: TWO }).rank() == 0,
{
    let (zero, one, two) = (Single { bits: ZERO }, Single { bits: ONE }, Single { bits: TWO });
    let (three, four, five) = (
        Single { bits: THREE },
        Single { bits: FOUR },
        Single { bits: FIVE },
    );
    let less = three.negated();
    let g = h.times(Single { bits: SIX });
    lemma_small();
    lemma_five();
    single::lemma_parts(zero);
    // Red.
    let red = g.plus(zero);
    order::lemma_plus_increases(zero, g, zero);
    order::lemma_plus_increases(g, one, zero);
    order::lemma_sum_exact(zero, zero, zero);
    order::lemma_sum_exact(one, zero, one);
    assert(!red.negative()) by {
        reveal(Single::plus);
        single::lemma_parts(g);
        order::lemma_nearest_increases(g.units(), g.units(), 1);
    }
    lemma_at_most_five(red);
    let away = red.wrapped(Single { bits: SIX }).minus(three);
    order::lemma_plus_increases(zero, red, less);
    order::lemma_plus_increases(red, one, less);
    order::lemma_sum_exact(zero, less, less);
    order::lemma_sum_exact(one, less, two.negated());
    let far = Single::of(false, away.magnitude());
    order::lemma_plus_increases(two, far, one.negated());
    order::lemma_sum_exact(two, one.negated(), one);
    // Green.
    let green = g.plus(four);
    order::lemma_plus_increases(zero, g, four);
    order::lemma_plus_increases(g, one, four);
    order::lemma_sum_exact(zero, four, four);
    order::lemma_sum_exact(one, four, five);
    lemma_at_most_five(green);
    order::lemma_plus_increases(four, green, less);
    order::lemma_plus_increases(green, five, less);
    order::lemma_sum_exact(four, less, one);
    order::lemma_sum_exact(five, less, two);
    let green_away = green.wrapped(Single { bits: SIX }).minus(three);
    let green_far = Single::of(false, green_away.magnitude());
    order::lemma_sum_place(green_far, one.negated());
    // Blue.
    let blue = g.plus(two);
    order::lemma_plus_increases(zero, g, two);
    order::lemma_plus_increases(g, one, two);
    order::lemma_sum_exact(zero, two, two);
    order::lemma_sum_exact(one, two, three);
    lemma_at_most_five(blue);
    order::lemma_plus_increases(two, blue, less);
    order::lemma_plus_increases(blue, three, less);
    order::lemma_sum_exact(two, less, one.negated());
    order::lemma_sum_exact(three, less, zero);
    let blue_away = blue.wrapped(Single { bits: SIX }).minus(three);
    let blue_far = Single::of(false, blue_away.magnitude());
    order::lemma_plus_increases(blue_far, one, one.negated());
    order::lemma_sum_exact(one, one.negated(), zero);
}

proof fn lemma_five()
    ensures
        (Single { bits: FIVE }).value() == 5 * power2::pow2(149),
{
    order::lemma_units_of(Single { bits: FIVE }, 0xa0_0000, 128);
    rounding::lemma_pow2_facts(21, 128);
    power2::lemma2_to64();
    assert(0xa0_0000 * power2::pow2(128) == 5 * (0x20_0000 * power2::pow2(128)))
        by (nonlinear_arith);
}

/// A value up to five is its own remainder by six.
proof fn lemma_at_most_five(a: Single)
    requires
        !a.nan(),
        0 <= a.rank() <= (Single { bits: FIVE }).rank(),
        a.zero() ==> !a.negative(),
    ensures
        a.wrapped(Single { bits: SIX }) == a,
{
    let five = Single { bits: FIVE };
    lemma_small();
    lemma_five();
    single::lemma_less_is_order(five, a);
    lemma_wrapped_small(a);
}

/// Every hue of zero, which is that of every A, is red: green and blue are alike
/// and red is no darker than they are.
pub proof fn law_hue_zero_is_red(h: Single, s: Single, l: Single)
    requires
        h.zero(),
        s.finite(),
        0 <= s.rank() <= (Single { bits: ONE }).rank(),
        l.finite(),
        0 <= l.rank() <= (Single { bits: ONE }).rank(),
    ensures
        ({
            let (r, g, b) = color::rgb_of(h, s, l);
            g == b && r >= g
        }),
{
    lemma_hue_zero(h);
    lemma_more_presence(Single { bits: ZERO }, Single { bits: ONE }, s, l);
}

/// The hues from red to yellow are warm: red is no darker than green, and green
/// no darker than blue.
pub proof fn law_warm_hues(h: Single, s: Single, l: Single)
    requires
        h.times(Single { bits: SIX }).finite(),
        0 <= h.times(Single { bits: SIX }).rank() <= (Single { bits: ONE }).rank(),
        s.finite(),
        0 <= s.rank() <= (Single { bits: ONE }).rank(),
        l.finite(),
        0 <= l.rank() <= (Single { bits: ONE }).rank(),
    ensures
        ({
            let (r, g, b) = color::rgb_of(h, s, l);
            r >= g >= b
        }),
{
    let green = color::presence(h, Single { bits: FOUR });
    let blue = color::presence(h, Single { bits: TWO });
    lemma_warm(h);
    lemma_more_presence(green, Single { bits: ONE }, s, l);
    lemma_more_presence(blue, green, s, l);
}

/// The hue of the first column of the colour table.
proof fn lemma_first_hue()
    ensures
        ({
            let h = Single::whole(0).plus(Single { bits: HALF }).over(
                Single::whole(HUE_STEPS as int),
            );
            let g = h.times(Single { bits: SIX });
            g.finite() && 0 <= g.rank() <= (Single { bits: ONE }).rank()
        }),
{
    reveal(Single::over);
    let (half, six) = (Single { bits: HALF }, Single { bits: SIX });
    let eighth = Single { bits: 0x3e00_0000 };
    let (none, count) = (Single::whole(0), Single::whole(HUE_STEPS as int));
    let big = power2::pow2(149);
    lemma_small();
    order::lemma_units_of(eighth, BINADE as nat, 123);
    order::lemma_units_of(half, BINADE as nat, 125);
    rounding::lemma_pow2_facts(123, 2);
    rounding::lemma_pow2_facts(23, 123);
    power2::lemma2_to64();
    assert(power2::pow2(125) == 4 * power2::pow2(123));
    assert(half.units() == 4 * eighth.units()) by (nonlinear_arith)
        requires
            half.units() == 0x80_0000 * power2::pow2(125),
            eighth.units() == 0x80_0000 * power2::pow2(123),
            power2::pow2(125) == 4 * power2::pow2(123),
    ;
    order::lemma_whole_exact(0);
    order::lemma_whole_exact(HUE_STEPS as int);
    assert(0 * big == 0);
    order::lemma_sum_exact(none, half, half);
    let h = half.over(count);
    let d = count.units();
    assert(d == 512 * big);
    single::lemma_parts(count);
    order::lemma_nearest_of(eighth, d);
    assert(half.units() * big <= eighth.units() * d) by (nonlinear_arith)
        requires
            half.units() == 4 * eighth.units(),
            d == 512 * big,
            big > 0,
            eighth.units() >= 0,
    ;
    order::lemma_nearest_increases(half.units() * big, eighth.units() * d, d);
    assert(0 <= h.rank() <= eighth.rank());
    order::lemma_times_increases(h, eighth, six);
    let (e, b) = (eighth.units() as int, big as int);
    assert(8 * e == b) by {
        assert(2 * half.units() == big);
    }
    let three_quarters = Single { bits: THREE_QUARTERS };
    lemma_three_quarters();
    assert(eighth.units() * six.units() == three_quarters.units() * big) by (nonlinear_arith)
        requires
            six.units() == 6 * big,
            4 * three_quarters.units() == 3 * big,
            8 * eighth.units() == big,
    ;
    lemma_product_exact(eighth, six, three_quarters);
}

proof fn lemma_three_quarters()
    ensures
        4 * (Single { bits: THREE_QUARTERS }).value() == 3 * power2::pow2(149),
{
    lemma_small();
    order::lemma_units_of(Single { bits: THREE_QUARTERS }, 0xc0_0000, 125);
    order::lemma_units_of(Single { bits: HALF }, BINADE as nat, 125);
    assert(2 * (0xc0_0000 * power2::pow2(125)) == 3 * (0x80_0000 * power2::pow2(125)))
        by (nonlinear_arith);
}

/// A brightness of the colour table lies between 0 and 1.
proof fn lemma_brightness(v: int)
    requires
        0 <= v < color::VAL_STEPS,
    ensures
        ({
            let x = Single::whole(v).over(Single::whole(color::VAL_STEPS - 1));
            x.finite() && 0 <= x.rank() <= (Single { bits: ONE }).rank()
        }),
{
    reveal(Single::over);
    let (part, all, one) = (
        Single::whole(v),
        Single::whole(color::VAL_STEPS - 1),
        Single { bits: ONE },
    );
    let big = power2::pow2(149);
    lemma_small();
    order::lemma_whole_exact(v);
    order::lemma_whole_exact(color::VAL_STEPS - 1);
    mul::lemma_mul_inequality(v, color::VAL_STEPS - 1, big as int);
    assert(part.units() == v * big && all.units() == 255 * big);
    single::lemma_parts(all);
    mul::lemma_mul_inequality(part.units() as int, all.units() as int, big as int);
    order::lemma_nearest_increases(part.units() * big, all.units() * big, all.units());
    mul::lemma_mul_is_commutative(all.units() as int, big as int);
    order::lemma_nearest_of(one, all.units());
}

/// In the colour table too an A is red at any brightness: red is no darker than
/// green, and green no darker than blue.
pub proof fn law_first_column_is_red(v: int)
    requires
        0 <= v < color::VAL_STEPS,
    ensures
        ({
            let (r, g, b) = color::entry(v, 0);
            r >= g >= b
        }),
{
    let (one, q) = (Single { bits: ONE }, Single { bits: THREE_QUARTERS });
    let h = Single::whole(0).plus(Single { bits: HALF }).over(Single::whole(HUE_STEPS as int));
    let x = Single::whole(v).over(Single::whole(color::VAL_STEPS - 1));
    lemma_first_hue();
    lemma_brightness(v);
    order::lemma_times_increases(x, one, q);
    order::lemma_one_times(q);
    law_warm_hues(h, x.smaller(one), x.times(q));
}

/// A number of sixteenths.
spec fn sixteenths(x: Single, n: nat) -> bool {
    x.finite() && !x.negative() && x.units() == n * power2::pow2(145)
}

proof fn lemma_sixteenths_of(x: Single, n: nat, s: nat, e: nat)
    requires
        s < 2 * BINADE,
        s >= BINADE,
        0 < e <= 145,
        !x.negative(),
        x.magnitude() == e * BINADE as nat + s,
        s * power2::pow2(e) == n * power2::pow2(145),
    ensures
        sixteenths(x, n),
{
    order::lemma_units_of(x, s, e);
}

/// Some numbers of sixteenths.
proof fn lemma_sixteenths()
    ensures
        sixteenths(Single { bits: 0x3e40_0000 }, 3),
        sixteenths(Single { bits: 0x3ec0_0000 }, 6),
        sixteenths(Single { bits: HALF }, 8),
        sixteenths(Single { bits: 0x3f10_0000 }, 9),
        sixteenths(Single { bits: 0x3f30_0000 }, 11),
        sixteenths(Single { bits: THREE_QUARTERS }, 12),
        sixteenths(Single { bits: ONE }, 16),
        sixteenths(Single { bits: THREE_HALVES }, 24),
        sixteenths(Single { bits: TWO }, 32),
        sixteenths(Single { bits: 0x430f_7000 }, 2295),
        sixteenths(Single { bits: 0x432f_5000 }, 2805),
        sixteenths(Single { bits: BYTE }, 4080),
        power2::pow2(149) == 16 * power2::pow2(145),
        power2::pow2(145) > 0,
{
    power2::lemma2_to64();
    rounding::lemma_pow2_facts(123, 22);
    rounding::lemma_pow2_facts(124, 21);
    rounding::lemma_pow2_facts(125, 20);
    rounding::lemma_pow2_facts(126, 19);
    rounding::lemma_pow2_facts(127, 18);
    rounding::lemma_pow2_facts(133, 12);
    rounding::lemma_pow2_facts(145, 4);
    lemma_sixteenths_of(Single { bits: 0x3e40_0000 }, 3, 0xc0_0000, 123);
    lemma_sixteenths_of(Single { bits: 0x3ec0_0000 }, 6, 0xc0_0000, 124);
    lemma_sixteenths_of(Single { bits: HALF }, 8, 0x80_0000, 125);
    lemma_sixteenths_of(Single { bits: 0x3f10_0000 }, 9, 0x90_0000, 125);
    lemma_sixteenths_of(Single { bits: 0x3f30_0000 }, 11, 0xb0_0000, 125);
    lemma_sixteenths_of(Single { bits: THREE_QUARTERS }, 12, 0xc0_0000, 125);
    lemma_sixteenths_of(Single { bits: ONE }, 16, 0x80_0000, 126);
    lemma_sixteenths_of(Single { bits: THREE_HALVES }, 24, 0xc0_0000, 126);
    lemma_sixteenths_of(Single { bits: TWO }, 32, 0x80_0000, 127);
    lemma_sixteenths_of(Single { bits: 0x430f_7000 }, 2295, 0x8f_7000, 133);
    lemma_sixteenths_of(Single { bits: 0x432f_5000 }, 2805, 0xaf_5000, 133);
    lemma_sixteenths_of(Single { bits: BYTE }, 4080, 0xff_0000, 133);
}

/// The product of numbers of sixteenths.
proof fn lemma_product_of_sixteenths(a: Single, m: nat, b: Single, n: nat, c: Single, k: nat)
    requires
        sixteenths(a, m),
        sixteenths(b, n),
        sixteenths(c, k),
        m * n == 16 * k,
    ensures
        a.times(b).finite(),
        a.times(b).rank() == c.rank(),
{
    lemma_sixteenths();
    let w = power2::pow2(145);
    assert((m * w) * (n * w) == (k * w) * (16 * w)) by (nonlinear_arith)
        requires
            m * n == 16 * k,
    ;
    lemma_product_exact(a, b, c);
}

/// The byte of a number of sixteenths.
proof fn lemma_byte_of_sixteenths(x: Single, m: nat, p: Single, n: nat)
    requires
        sixteenths(x, m),
        m <= 16,
        sixteenths(p, 255 * m),
        n == 255 * m / 16,
        255 * m % 16 < 8,
    ensures
        color::byte_of(x) == n,
{
    let (zero, one, byte) = (Single { bits: ZERO }, Single { bits: ONE }, Single { bits: BYTE });
    let w = power2::pow2(145);
    lemma_sixteenths();
    assert(x.rank() <= one.rank()) by {
        mul::lemma_mul_inequality(m as int, 16, w as int);
        single::lemma_less_is_order(one, x);
    }
    assert(x.clamped(zero, one) == x);
    lemma_product_of_sixteenths(x, m, byte, 4080, p, 255 * m);
    let y = x.times(byte);
    assert(y.magnitude() == p.magnitude());
    let rest = (255 * m) % 16;
    assert(p.units() == n * power2::pow2(149) + rest * w) by (nonlinear_arith)
        requires
            p.units() == (255 * m) * w,
            power2::pow2(149) == 16 * w,
            255 * m == 16 * n + rest,
    ;
    assert(0 <= rest * w < power2::pow2(149)) by (nonlinear_arith)
        requires
            0 <= rest < 8,
            w > 0,
            power2::pow2(149) == 16 * w,
    ;
    assert(2 * (rest * w) < power2::pow2(149)) by (nonlinear_arith)
        requires
            0 <= rest < 8,
            w > 0,
            power2::pow2(149) == 16 * w,
    ;
    div_mod::lemma_fundamental_div_mod_converse(
        p.units() as int,
        power2::pow2(149) as int,
        n as int,
        (rest * w) as int,
    );
    assert(y.units() == p.units());
    assert(y.round_size() == n);
    assert(n <= 255);
    single::lemma_parts(y);
    assert(y.negative() ==> n == 0);
}

/// The room that a lightness between a half and three quarters leaves for
/// colour is at least a half.
proof fn lemma_wide_room(l: Single)
    requires
        l.finite(),
        (Single { bits: HALF }).rank() <= l.rank() <= (Single { bits: THREE_QUARTERS }).rank(),
    ensures
        ({
            let tilt = (Single { bits: TWO }).times(l).minus(Single { bits: ONE });
            let room = (Single { bits: ONE }).minus(Single::of(false, tilt.magnitude()));
            room.finite() && (Single { bits: HALF }).rank() <= room.rank() <= (Single {
                bits: ONE,
            }).rank()
        }),
{
    let (one, two, half) = (Single { bits: ONE }, Single { bits: TWO }, Single { bits: HALF });
    let (q, wide) = (Single { bits: THREE_QUARTERS }, Single { bits: THREE_HALVES });
    let zero = Single { bits: ZERO };
    lemma_sixteenths();
    lemma_room(l);
    // Twice the lightness lies between 1 and 3/2.
    order::lemma_times_commutes(two, l);
    order::lemma_times_increases(half, l, two);
    order::lemma_times_increases(l, q, two);
    lemma_product_of_sixteenths(half, 8, two, 32, one, 16);
    lemma_product_of_sixteenths(q, 12, two, 32, wide, 24);
    let d = two.times(l);
    // Less one, between 0 and 1/2.
    let minus = one.negated();
    single::lemma_parts(zero);
    order::lemma_plus_increases(one, d, minus);
    order::lemma_plus_increases(d, wide, minus);
    order::lemma_sum_exact(one, minus, zero);
    order::lemma_sum_exact(wide, minus, half);
    let size = Single::of(false, d.minus(one).magnitude());
    // One less that, at least 1/2.
    let less = size.negated();
    order::lemma_plus_increases(half.negated(), less, one);
    order::lemma_sum_exact(half.negated(), one, half);
    order::lemma_plus_commutes(one, less);
}

/// A strong colour swings by three sixteenths at least.
proof fn lemma_wide_swing(s: Single, room: Single)
    requires
        s.finite(),
        room.finite(),
        (Single { bits: THREE_QUARTERS }).rank() <= s.rank() <= (Single { bits: ONE }).rank(),
        (Single { bits: HALF }).rank() <= room.rank() <= (Single { bits: ONE }).rank(),
    ensures
        ({
            let up = s.times(Single { bits: HALF }).times(room);
            let down = s.times((Single { bits: HALF }).negated()).times(room);
            &&& up.finite()
            &&& up.rank() >= (Single { bits: 0x3e40_0000 }).rank()
            &&& down == up.negated()
        }),
{
    let (half, q) = (Single { bits: HALF }, Single { bits: THREE_QUARTERS });
    let (six, three) = (Single { bits: 0x3ec0_0000 }, Single { bits: 0x3e40_0000 });
    lemma_sixteenths();
    let part = s.times(half);
    order::lemma_times_increases(q, s, half);
    lemma_product_of_sixteenths(q, 12, half, 8, six, 6);
    lemma_shrunk(s, half);
    order::lemma_times_increases(six, part, room);
    order::lemma_times_commutes(six, room);
    order::lemma_times_increases(half, room, six);
    lemma_product_of_sixteenths(half, 8, six, 6, three, 3);
    order::lemma_times_commutes(part, room);
    lemma_shrunk(room, part);
    order::lemma_times_negated(s, half);
    order::lemma_times_negated(part, room);
}

/// A strong colour of middling lightness with all of red and nothing of green
/// and blue is plainly red.
proof fn lemma_plainly_red(s: Single, l: Single)
    requires
        s.finite(),
        (Single { bits: THREE_QUARTERS }).rank() <= s.rank() <= (Single { bits: ONE }).rank(),
        l.finite(),
        (Single { bits: HALF }).rank() <= l.rank() <= (Single { bits: THREE_QUARTERS }).rank(),
    ensures
        color::byte_of(color::intensity(Single { bits: ONE }, s, l)) >= 175,
        color::byte_of(color::intensity(Single { bits: ZERO }, s, l)) <= 143,
{
    let (one, half) = (Single { bits: ONE }, Single { bits: HALF });
    let (q, three) = (Single { bits: THREE_QUARTERS }, Single { bits: 0x3e40_0000 });
    let (nine, eleven) = (Single { bits: 0x3f10_0000 }, Single { bits: 0x3f30_0000 });
    let tilt = (Single { bits: TWO }).times(l).minus(one);
    let room = one.minus(Single::of(false, tilt.magnitude()));
    lemma_sixteenths();
    lemma_wide_room(l);
    lemma_halves();
    lemma_wide_swing(s, room);
    let up = s.times(half).times(room);
    let down = s.times(half.negated()).times(room);
    order::lemma_plus_commutes(l, up);
    order::lemma_plus_commutes(l, down);
    order::lemma_plus_commutes(l, three);
    order::lemma_plus_commutes(l, three.negated());
    order::lemma_plus_increases(three, up, l);
    order::lemma_plus_increases(half, l, three);
    order::lemma_sum_exact(half, three, eleven);
    order::lemma_plus_increases(down, three.negated(), l);
    order::lemma_plus_increases(l, q, three.negated());
    order::lemma_sum_exact(q, three.negated(), nine);
    lemma_byte_increases(eleven, l.plus(up));
    lemma_byte_increases(l.plus(down), nine);
    lemma_byte_of_sixteenths(eleven, 11, Single { bits: 0x432f_5000 }, 175);
    lemma_byte_of_sixteenths(nine, 9, Single { bits: 0x430f_7000 }, 143);
}

/// Every A is red: the colour that stands for the note has more red than green
/// and as much green as blue, in every octave.
pub proof fn law_every_a_is_red(octave: int)
    requires
        -0x10_0000 < octave < 0x10_0000,
    ensures
        ({
            let (r, g, b) = color::reference(Single::whole(21 + 12 * octave));
            r >= 175 && g <= 143 && g == b
        }),
{
    analysis::law_every_a_has_hue_zero(octave);
    lemma_hue_zero(analysis::hue_at(Single::whole(21 + 12 * octave)));
    lemma_plainly_red(Single { bits: NINE_TENTHS }, Single { bits: SIX_TENTHS });
}

} // verus!
