//! Mixing down to one channel: a sample for every frame, the mean of its channels.
use crate::audio;
use crate::errors;
use crate::formulas;
use crate::means;
use crate::order;
use crate::shades;
use crate::single;
use crate::single::{Single, SIGN};
use vstd::arithmetic::power2;
use vstd::prelude::*;

verus! {

/// A sample between full scale and its opposite.
pub open spec fn in_scale(x: Single) -> bool {
    x.finite() && errors::near(x.value(), 0, errors::big())
}

pub open spec fn all_in_scale(frame: Seq<Single>) -> bool {
    forall|i: int| 0 <= i < frame.len() ==> in_scale(#[trigger] frame[i])
}

/// The sum of samples, computed.
proof fn lemma_total(frame: Seq<Single>)
    requires
        all_in_scale(frame),
        frame.len() <= 0x1000,
    ensures
        ({
            let n = frame.len() as int;
            let (b, s) = (errors::big(), audio::total(frame));
            &&& s.finite()
            &&& errors::near(means::total_of(frame), 0, n * b)
            &&& errors::near(
                0x100_0000 * s.value(),
                0x100_0000 * means::total_of(frame),
                2 * (n * n * b),
            )
        }),
    decreases frame.len(),
{
    let n = frame.len() as int;
    let b = errors::big();
    shades::lemma_grains();
    if n == 0 {
        single::lemma_parts(Single { bits: SIGN });
        assert(0 * b == 0 && 0 * 0 * b == 0);
    } else {
        let m = n - 1;
        let rest = frame.drop_last();
        assert forall|i: int| 0 <= i < rest.len() implies in_scale(#[trigger] rest[i]) by {
            assert(rest[i] == frame[i]);
        }
        lemma_total(rest);
        assert(in_scale(frame[n - 1]));
        assert(n * b == m * b + b) by (nonlinear_arith)
            requires
                n == m + 1,
        ;
        assert(n * n * b == m * m * b + m * b + n * b) by (nonlinear_arith)
            requires
                n == m + 1,
        ;
        assert(0 <= m * m * b <= 0x1000 * (m * b)) by (nonlinear_arith)
            requires
                0 <= m <= 0x1000,
                b > 0,
        ;
        assert(0 <= m * b <= 0x1000 * b) by (nonlinear_arith)
            requires
                0 <= m <= 0x1000,
                b > 0,
        ;
        means::lemma_room();
        errors::lemma_sum_relative(audio::total(rest), frame.last());
    }
}

/// The mixed sample of a frame is the mean of its channels: times their number it is their
/// exact sum, up to the rounding of a sum of so many terms.
pub proof fn law_mix_is_mean_of_channels(frame: Seq<Single>)
    requires
        all_in_scale(frame),
        1 <= frame.len() <= 0x1000,
    ensures
        ({
            let n = frame.len() as int;
            &&& audio::mean(frame).finite()
            &&& errors::near(
                0x100_0000 * (audio::mean(frame).value() * n),
                0x100_0000 * means::total_of(frame),
                3 * (n * n * errors::big()),
            )
        }),
{
    let n = frame.len() as int;
    let (b, t) = (errors::big(), formulas::speck());
    let (s, count) = (audio::total(frame), Single::whole(n));
    formulas::lemma_specks();
    lemma_total(frame);
    order::lemma_whole_exact(n);
    assert(n * b <= n * n * b && n * b > 0) by (nonlinear_arith)
        requires
            n >= 1,
            b > 0,
    ;
    assert(n * n * b <= 0x1000 * (n * b)) by (nonlinear_arith)
        requires
            1 <= n <= 0x1000,
            b > 0,
    ;
    single::lemma_parts(count);
    assert(s.units() * b < count.units() * (2 * b)) by (nonlinear_arith)
        requires
            0 <= s.units() < 2 * (n * b),
            count.units() == n * b,
            b > 0,
    ;
    errors::lemma_quotient_error(s, count, 126);
    let q = s.over(count).value();
    errors::lemma_quotient_value(q, s.value(), n, t);
    assert(n * q == q * n && 0x100_0000 * (n * t) == n * b) by (nonlinear_arith)
        requires
            b == 0x100_0000 * t,
    ;
}

/// There is one mixed sample for every frame, in their order; a frame at the end may lack
/// channels.
pub proof fn law_one_sample_per_frame(data: Seq<Single>, channels: nat, i: int)
    requires
        channels > 0,
    ensures
        channels * audio::mono(data, channels).len() >= data.len(),
        data.len() > 0 ==> channels * (audio::mono(data, channels).len() - 1) < data.len(),
        0 <= i < audio::mono(data, channels).len() ==> audio::mono(data, channels)[i]
            == audio::mean(
            data.subrange(
                i * channels,
                if (i + 1) * channels < data.len() {
                    (i + 1) * channels
                } else {
                    data.len() as int
                },
            ),
        ),
    decreases data.len(),
{
    let c = channels as int;
    if data.len() == 0 {
        assert(c * 0 == 0);
    } else if data.len() <= channels {
        assert(c * 1 == c && c * 0 == 0);
        if i == 0 {
            assert(0 * c == 0 && 1 * c == c);
            assert(data.subrange(0, data.len() as int) =~= data);
        }
    } else {
        let rest = data.skip(c);
        law_one_sample_per_frame(rest, channels, i - 1);
        let (n, m) = (audio::mono(rest, channels).len() as int, audio::mono(data, channels));
        assert(m.len() == n + 1);
        assert(c * (n + 1) == c * n + c && c * (n + 1 - 1) == c * (n - 1) + c) by (nonlinear_arith);
        if i == 0 {
            assert(0 * c == 0 && (0 + 1) * c == c);
            assert(data.subrange(0, c) =~= data.take(c));
        } else if 0 < i < m.len() {
            assert(m[i] == audio::mono(rest, channels)[i - 1]);
            assert(i * c == (i - 1) * c + c && (i + 1) * c == i * c + c && (i - 1 + 1) * c == i * c)
                by (nonlinear_arith);
            assert((i - 1) * c >= 0) by (nonlinear_arith)
                requires
                    i >= 1,
                    c > 0,
            ;
            let end = if (i + 1) * c < data.len() {
                (i + 1) * c
            } else {
                data.len() as int
            };
            assert((i - 1) * c <= c * (n - 1)) by (nonlinear_arith)
                requires
                    i <= n,
                    c > 0,
            ;
            assert(rest.subrange((i - 1) * c, end - c) =~= data.subrange(i * c, end));
        }
    }
}

/// A whole number over another, computed.
proof fn lemma_part(s: int, n: int)
    requires
        -n <= s <= n || s == -n - 1,
        30000 <= n <= 40000,
    ensures
        Single::whole(s).over(Single::whole(n)).finite(),
        errors::near(
            n * Single::whole(s).over(Single::whole(n)).value(),
            s * errors::big(),
            n * formulas::speck(),
        ),
{
    let (b, t) = (errors::big(), formulas::speck());
    let (top, all) = (Single::whole(s), Single::whole(n));
    formulas::lemma_specks();
    order::lemma_whole_exact(s);
    order::lemma_whole_exact(n);
    assert(-(n * b) - b <= s * b <= n * b && n * b >= 30000 * b) by (nonlinear_arith)
        requires
            -n - 1 <= s <= n,
            n >= 30000,
            b > 0,
    ;
    single::lemma_parts(all);
    assert(top.units() * b < all.units() * (2 * b)) by (nonlinear_arith)
        requires
            0 <= top.units() < 2 * all.units(),
            b > 0,
    ;
    errors::lemma_quotient_error(top, all, 126);
    errors::lemma_quotient_value(top.over(all).value(), s * b, n, t);
}

/// Whole samples are read out of full scale: a signed one out of 32767, an unsigned one by its
/// distance from the middle out of 32768, up to rounding.
pub proof fn law_whole_samples_are_read(s: i16, u: u16)
    ensures
        audio::signed_level(s as int).finite(),
        errors::near(
            32767 * audio::signed_level(s as int).value(),
            s * errors::big(),
            32767 * formulas::speck(),
        ),
        audio::unsigned_level(u as int).finite(),
        errors::near(
            32768 * audio::unsigned_level(u as int).value(),
            (u - 32768) * errors::big(),
            32768 * formulas::speck(),
        ),
{
    let b = errors::big();
    lemma_part(s as int, 32767);
    let d = u - 32768;
    order::lemma_whole_exact(u as int);
    order::lemma_whole_exact(32768);
    order::lemma_whole_exact(d);
    let less = Single::whole(32768).negated();
    assert(less.units() == Single::whole(32768).units());
    formulas::lemma_specks();
    assert(u * b - 32768 * b == d * b) by (nonlinear_arith)
        requires
            d == u - 32768,
    ;
    order::lemma_sum_exact(Single::whole(u as int), less, Single::whole(d));
    lemma_difference(u as int, d);
    lemma_part(d, 32768);
}

/// A difference of whole numbers is the whole number.
proof fn lemma_difference(u: int, d: int)
    requires
        0 <= u <= 0xffff,
        d == u - 32768,
    ensures
        Single::whole(u).minus(Single::whole(32768)).over(Single::whole(32768)).value()
            == Single::whole(d).over(Single::whole(32768)).value(),
        Single::whole(u).minus(Single::whole(32768)).over(Single::whole(32768)).finite()
            == Single::whole(d).over(Single::whole(32768)).finite(),
{
    let b = errors::big();
    formulas::lemma_specks();
    order::lemma_whole_exact(u);
    order::lemma_whole_exact(32768);
    order::lemma_whole_exact(d);
    let less = Single::whole(32768).negated();
    assert(less.units() == Single::whole(32768).units());
    assert(u * b - 32768 * b == d * b) by (nonlinear_arith)
        requires
            d == u - 32768,
    ;
    order::lemma_sum_exact(Single::whole(u), less, Single::whole(d));
    let x = Single::whole(u).minus(Single::whole(32768));
    if d != 0 {
        assert(d * b != 0) by (nonlinear_arith)
            requires
                d != 0,
                b > 0,
        ;
    } else {
        assert(0 * b == 0);
        reveal(Single::over);
        let all = Single::whole(32768);
        single::lemma_parts(all);
        single::lemma_parts(x);
        single::lemma_parts(Single::whole(d));
        let zero = Single { bits: 0 };
        single::lemma_parts(zero);
        order::lemma_nearest_of(zero, all.units());
        assert(zero.units() * all.units() == 0 && x.units() * power2::pow2(149) == 0
            && Single::whole(d).units() * power2::pow2(149) == 0) by (nonlinear_arith)
            requires
                zero.units() == 0,
                x.units() == 0,
                Single::whole(d).units() == 0,
        ;
        single::lemma_parts(x.over(all));
        single::lemma_parts(Single::whole(d).over(all));
    }
}

} // verus!
