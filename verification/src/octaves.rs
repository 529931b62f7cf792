//! Notes and frequencies: the way there and back, and ranges the wrong way round. What
//! powers and logarithms are is handed in.
use crate::analysis;
use crate::analysis::Analyzer;
use crate::errors;
use crate::order;
use crate::pitch;
use crate::rounding;
use crate::shades;
use crate::single;
use crate::single::Single;
use crate::values::{A4, ONE, SIXTY_NINE, TWELVE, ZERO};
use vstd::arithmetic::power2;
use vstd::prelude::*;

verus! {

/// The values that notes are counted by.
proof fn lemma_bases()
    ensures
        (Single { bits: SIXTY_NINE }).finite(),
        (Single { bits: SIXTY_NINE }).value() == 69 * errors::big(),
        (Single { bits: TWELVE }).finite(),
        (Single { bits: TWELVE }).value() == 12 * errors::big(),
        (Single { bits: A4 }).finite(),
        (Single { bits: A4 }).value() == 440 * errors::big(),
{
    analysis::lemma_values();
    order::lemma_units_of(Single { bits: SIXTY_NINE }, 0x8a_0000, 132);
    order::lemma_units_of(Single { bits: A4 }, 0xdc_0000, 134);
    power2::lemma2_to64();
    rounding::lemma_pow2_facts(132, 17);
    rounding::lemma_pow2_facts(134, 15);
    assert(0x8a_0000 * power2::pow2(132) == 69 * errors::big()) by (nonlinear_arith)
        requires
            errors::big() == power2::pow2(132) * 0x2_0000,
    ;
    assert(0xdc_0000 * power2::pow2(134) == 440 * errors::big()) by (nonlinear_arith)
        requires
            errors::big() == power2::pow2(134) * 0x8000,
    ;
}

/// The scales that the bounds speak of.
pub proof fn lemma_wide()
    ensures
        power2::pow2(132) == 16 * shades::grain(),
        power2::pow2(129) == 2 * shades::grain(),
        power2::pow2(154) == 32 * errors::big(),
        power2::pow2(157) == 256 * errors::big(),
        0x1_0000_0000_0000_0000 * errors::big() <= power2::pow2(250),
        0x1_0000_0000_0000_0000 * power2::pow2(23) <= errors::big(),
        power2::pow2(23) == 0x80_0000,
{
    power2::lemma2_to64();
    rounding::lemma_pow2_facts(128, 4);
    rounding::lemma_pow2_facts(128, 1);
    rounding::lemma_pow2_facts(149, 5);
    rounding::lemma_pow2_facts(149, 8);
    rounding::lemma_pow2_facts(64, 149);
    rounding::lemma_pow2_facts(213, 250);
    rounding::lemma_pow2_facts(64, 23);
    rounding::lemma_pow2_facts(87, 149);
}

/// How many octaves a note lies above A4, computed.
pub proof fn lemma_octaves(m: Single)
    requires
        m.finite(),
        errors::near(m.value(), 69 * errors::big(), 200 * errors::big()),
    ensures
        ({
            let o = analysis::octaves_above(m);
            &&& o.finite()
            &&& errors::near(12 * o.value(), m.value() - 69 * errors::big(), 40 * shades::grain())
        }),
{
    let (base, twelve) = (Single { bits: SIXTY_NINE }, Single { bits: TWELVE });
    let (b, g) = (errors::big(), shades::grain());
    shades::lemma_grains();
    lemma_bases();
    lemma_wide();
    let less = base.negated();
    assert(less.units() == base.units());
    assert(less.value() == -(69 * b));
    errors::lemma_sum_error(m, less, 133);
    let above = m.minus(base);
    assert(above.units() * b < twelve.units() * (32 * b)) by (nonlinear_arith)
        requires
            0 <= above.units() <= 201 * b,
            twelve.units() == 12 * b,
            b > 0,
    ;
    errors::lemma_quotient_error(above, twelve, 130);
    let o = above.over(twelve).value();
    errors::lemma_quotient_value(o, above.value(), 12, 2 * g);
}

/// The note so many octaves above A4, computed.
proof fn lemma_note(o: Single)
    requires
        o.finite(),
        errors::near(o.value(), 0, 15 * errors::big()),
    ensures
        ({
            let n = analysis::note_above(o);
            &&& n.finite()
            &&& errors::near(n.value(), 69 * errors::big() + 12 * o.value(), 32 * shades::grain())
        }),
{
    let (base, twelve) = (Single { bits: SIXTY_NINE }, Single { bits: TWELVE });
    let (b, g) = (errors::big(), shades::grain());
    shades::lemma_grains();
    lemma_bases();
    lemma_wide();
    assert(twelve.units() * o.units() < b * (256 * b)) by (nonlinear_arith)
        requires
            twelve.units() == 12 * b,
            0 <= o.units() <= 15 * b,
            b > 0,
    ;
    errors::lemma_product_error(twelve, o, 133);
    let t = twelve.times(o);
    let (tv, ov) = (t.value(), o.value());
    assert((12 * b) * ov == ov * (12 * b)) by (nonlinear_arith);
    errors::lemma_product_value(tv, ov, 12, 16 * g);
    errors::lemma_sum_error(base, t, 133);
}

/// How a power relates to itself after the way through its frequency.
proof fn lemma_ratio(p: Single)
    requires
        in_bounds(p),
    ensures
        ({
            let r = (Single { bits: A4 }).times(p).over(Single { bits: A4 });
            &&& r.finite()
            &&& errors::near(0x100_0000 * r.value(), 0x100_0000 * p.value(), 3 * p.value())
        }),
{
    let base = Single { bits: A4 };
    let b = errors::big();
    let pv = p.value();
    shades::lemma_grains();
    lemma_bases();
    lemma_wide();
    lemma_frequency(p);
    let f = base.times(p);
    let fv = f.value();
    assert(base.units() * power2::pow2(23) <= f.units() * b && f.units() * b < base.units()
        * power2::pow2(250)) by (nonlinear_arith)
        requires
            base.units() == 440 * b,
            f.units() >= 439 * pv,
            f.units() <= 441 * pv,
            b <= 0x40_0000 * pv,
            pv <= 0x40_0000 * b,
            0x1_0000_0000_0000_0000 * b <= power2::pow2(250),
            0x1_0000_0000_0000_0000 * power2::pow2(23) <= b,
            b > 0,
    ;
    errors::lemma_quotient_relative(f, base);
    let rv = f.over(base).value();
    assert(errors::near(0x100_0000 * (440 * rv), 0x100_0000 * fv, fv)) by (nonlinear_arith)
        requires
            errors::near(0x100_0000 * (rv * (440 * b)), 0x100_0000 * (fv * b), fv * b),
            b > 0,
    ;
}

/// Within twenty octaves of A4.
pub open spec fn in_reach(x: Single) -> bool {
    x.finite() && errors::near(x.value(), 0, 20 * errors::big())
}

/// `two` behaves as the power of two does, within twenty octaves of A4: it stays in its
/// range, and a step of an octave, but for a few units in the last place, takes it to
/// nearly twice as much at least.
pub open spec fn raises_two(two: spec_fn(Single) -> Single) -> bool {
    &&& forall|x: Single| in_reach(x) ==> in_bounds(#[trigger] two(x))
    &&& forall|x: Single, y: Single|
        in_reach(x) && in_reach(y) && x.value() - y.value() >= errors::big() - 8
            * shades::grain() ==> 1000 * (#[trigger] two(x)).value() >= 1999 * (#[trigger] two(
            y,
        )).value()
}

/// Between two to the power of -22 and two to the power of 22.
pub open spec fn in_bounds(p: Single) -> bool {
    &&& p.finite()
    &&& !p.negative()
    &&& errors::big() <= 0x40_0000 * p.value()
    &&& p.value() <= 0x40_0000 * errors::big()
}

/// `log` undoes `two` up to an error, for arguments up to three units in the last place
/// off.
pub open spec fn undoes(
    log: spec_fn(Single) -> Single,
    two: spec_fn(Single) -> Single,
    error: int,
) -> bool {
    forall|x: Single, y: Single|
        in_reach(x) && y.finite() && errors::near(
            0x100_0000 * y.value(),
            0x100_0000 * (#[trigger] two(x)).value(),
            3 * two(x).value(),
        ) ==> (#[trigger] log(y)).finite() && errors::near(log(y).value(), x.value(), error)
}

/// The frequency of a note.
pub open spec fn frequency_of(note: Single, two: spec_fn(Single) -> Single) -> Single {
    (Single { bits: A4 }).times(two(analysis::octaves_above(note)))
}

/// The note of a frequency.
pub open spec fn note_of(freq: Single, log: spec_fn(Single) -> Single) -> Single {
    analysis::note_above(log(freq.over(Single { bits: A4 })))
}

/// A note turned into a frequency and back is the same note, up to twelve times the
/// error of the logarithm and a little for rounding: less than a thousandth of a
/// semitone, where the logarithm is right to a 16384th part of an octave.
pub proof fn law_note_there_and_back(
    note: Single,
    two: spec_fn(Single) -> Single,
    log: spec_fn(Single) -> Single,
    error: int,
)
    requires
        note.finite(),
        0 <= note.value() <= 132 * errors::big(),
        raises_two(two),
        undoes(log, two, error),
        0 <= error <= errors::big(),
    ensures
        ({
            let back = note_of(frequency_of(note, two), log);
            &&& back.finite()
            &&& errors::near(back.value(), note.value(), 12 * error + errors::slack())
            &&& error <= errors::slack() ==> errors::near(
                1000 * back.value(),
                1000 * note.value(),
                errors::big() - 1,
            )
        }),
{
    shades::lemma_grains();
    lemma_octaves(note);
    let o = analysis::octaves_above(note);
    assert(in_reach(o));
    let p = two(o);
    assert(in_bounds(p));
    lemma_ratio(p);
    let r = frequency_of(note, two).over(Single { bits: A4 });
    let l = log(r);
    assert(l.finite() && errors::near(l.value(), o.value(), error));
    lemma_note(l);
}

/// The note of A4 is 69, an octave above it 81, and its frequency is 440.
pub proof fn law_a4()
    ensures
        analysis::octaves_above(Single { bits: SIXTY_NINE }).zero(),
        (Single { bits: A4 }).times(Single { bits: ONE }) == (Single { bits: A4 }),
        (Single { bits: A4 }).value() == 440 * errors::big(),
        analysis::note_above(Single { bits: ZERO }).value() == 69 * errors::big(),
        analysis::note_above(Single { bits: ONE }).value() == 81 * errors::big(),
{
    reveal(Single::plus);
    reveal(Single::over);
    let (base, twelve) = (Single { bits: SIXTY_NINE }, Single { bits: TWELVE });
    let (zero, one, a) = (Single { bits: ZERO }, Single { bits: ONE }, Single { bits: A4 });
    shades::lemma_grains();
    shades::lemma_constants();
    lemma_bases();
    order::lemma_one_times(a);
    order::lemma_times_commutes(a, one);
    order::lemma_one_times(twelve);
    order::lemma_times_commutes(twelve, one);
    order::lemma_times_nothing(twelve, zero);
    let none = twelve.times(zero);
    single::lemma_parts(none);
    order::lemma_sum_exact(base, none, base);
    order::lemma_whole_exact(81);
    order::lemma_sum_exact(base, twelve, Single::whole(81));
    let less = base.negated();
    assert(less.units() == base.units());
    order::lemma_sum_exact(base, less, zero);
    let above = base.minus(base);
    single::lemma_parts(above);
    single::lemma_parts(twelve);
    single::lemma_parts(zero);
    assert(above.units() * power2::pow2(149) == zero.units() * twelve.units()) by (nonlinear_arith)
        requires
            above.units() == 0,
            zero.units() == 0,
    ;
    order::lemma_nearest_of(zero, twelve.units());
}

/// A sample rate between one and two to the power of 24.
pub open spec fn usual_rate(rate: Single) -> bool {
    &&& rate.finite()
    &&& !rate.negative()
    &&& errors::big() <= rate.value() <= 0x100_0000 * errors::big()
}

/// The place of a power's frequency on the spectrum, computed.
pub proof fn lemma_place(p: Single, n: nat, rate: Single)
    requires
        in_bounds(p),
        1 <= n < 0x100_0000,
        usual_rate(rate),
    ensures
        ({
            let c = analysis::bin_place(p, n, rate);
            let exact = 440 * p.value() * n * errors::big();
            &&& c.finite()
            &&& !c.negative()
            &&& exact > 0
            &&& errors::near(0x100_0000 * (c.value() * rate.value()), 0x100_0000 * exact, 5 * exact)
        }),
{
    let (base, count) = (Single { bits: A4 }, Single::whole(n as int));
    let b = errors::big();
    let pv = p.value();
    shades::lemma_grains();
    lemma_bases();
    lemma_wide();
    order::lemma_whole_exact(n as int);
    lemma_frequency(p);
    let a = base.times(p);
    let av = a.value();
    assert(n * b >= b) by (nonlinear_arith)
        requires
            n >= 1,
            b > 0,
    ;
    assert(b * power2::pow2(23) <= a.units() * count.units() < b * power2::pow2(250))
        by (nonlinear_arith)
        requires
            count.units() == n * b,
            1 <= n < 0x100_0000,
            439 * pv <= a.units() <= 441 * pv,
            b <= 0x40_0000 * pv,
            pv <= 0x40_0000 * b,
            0x1_0000_0000_0000_0000 * b <= power2::pow2(250),
            0x1_0000_0000_0000_0000 * power2::pow2(23) <= b,
            b > 0,
    ;
    errors::lemma_product_relative(a, count);
    let m = a.times(count);
    let mv = m.value();
    let na = n * av;
    assert(errors::near(0x100_0000 * mv, 0x100_0000 * na, na)) by (nonlinear_arith)
        requires
            errors::near(
                0x100_0000 * (mv * b),
                0x100_0000 * (av * (n * b)),
                av * (n * b),
            ),
            na == n * av,
            b > 0,
    ;
    let e = 440 * pv * n;
    assert(errors::near(0x100_0000 * na, 0x100_0000 * e, e)) by (nonlinear_arith)
        requires
            errors::near(0x100_0000 * av, 0x100_0000 * (440 * pv), 440 * pv),
            na == n * av,
            e == 440 * pv * n,
            n >= 1,
    ;
    assert(e >= 440 * pv && e <= 0x100_0000 * (440 * pv)) by (nonlinear_arith)
        requires
            e == 440 * pv * n,
            1 <= n < 0x100_0000,
            pv >= 0,
    ;
    let (r, m0) = (rate.value(), m.units());
    assert(rate.units() * power2::pow2(23) <= m0 * b && m0 * b < rate.units() * power2::pow2(250))
        by (nonlinear_arith)
        requires
            b <= rate.units() <= 0x100_0000 * b,
            m0 >= 439 * pv,
            m0 <= 0x200_0000 * (440 * pv),
            b <= 0x40_0000 * pv,
            pv <= 0x40_0000 * b,
            0x1_0000_0000_0000_0000 * b <= power2::pow2(250),
            0x1_0000_0000_0000_0000 * power2::pow2(23) <= b,
            b > 0,
    ;
    errors::lemma_quotient_relative(m, rate);
    let c = m.over(rate).value();
    assert(errors::near(0x100_0000 * (mv * b), 0x100_0000 * (e * b), 3 * (e * b)))
        by (nonlinear_arith)
        requires
            errors::near(0x100_0000 * mv, 0x100_0000 * e, 3 * e),
            b > 0,
    ;
    assert(mv * b <= 2 * (e * b)) by (nonlinear_arith)
        requires
            mv <= 2 * e,
            b > 0,
    ;
    assert(e * b > 0) by (nonlinear_arith)
        requires
            e > 0,
            b > 0,
    ;
    assert(c * r == r * c) by (nonlinear_arith);
}

/// A power's frequency, computed.
proof fn lemma_frequency(p: Single)
    requires
        in_bounds(p),
    ensures
        ({
            let f = (Single { bits: A4 }).times(p);
            &&& f.finite()
            &&& !f.negative()
            &&& errors::near(0x100_0000 * f.value(), 0x100_0000 * (440 * p.value()), 440 * p.value())
        }),
{
    let base = Single { bits: A4 };
    let b = errors::big();
    let pv = p.value();
    shades::lemma_grains();
    lemma_bases();
    lemma_wide();
    assert(b * power2::pow2(23) <= base.units() * p.units() < b * power2::pow2(250))
        by (nonlinear_arith)
        requires
            base.units() == 440 * b,
            b <= 0x40_0000 * p.units(),
            p.units() <= 0x40_0000 * b,
            0x1_0000_0000_0000_0000 * b <= power2::pow2(250),
            0x1_0000_0000_0000_0000 * power2::pow2(23) <= b,
            b > 0,
    ;
    errors::lemma_product_relative(base, p);
    let fv = base.times(p).value();
    assert(errors::near(0x100_0000 * fv, 0x100_0000 * (440 * pv), 440 * pv)) by (nonlinear_arith)
        requires
            errors::near(
                0x100_0000 * (fv * b),
                0x100_0000 * ((440 * b) * pv),
                (440 * b) * pv,
            ),
            b > 0,
    ;
}

/// Nearly twice the power lies nearly twice as far up the spectrum.
proof fn lemma_places(p: Single, q: Single, n: nat, rate: Single)
    requires
        in_bounds(p),
        in_bounds(q),
        1000 * p.value() >= 1999 * q.value(),
        1 <= n < 0x100_0000,
        usual_rate(rate),
    ensures
        1000 * analysis::bin_place(p, n, rate).value() >= 1998 * analysis::bin_place(
            q,
            n,
            rate,
        ).value(),
{
    let b = errors::big();
    shades::lemma_grains();
    lemma_place(p, n, rate);
    lemma_place(q, n, rate);
    let (c, d) = (
        analysis::bin_place(p, n, rate).value(),
        analysis::bin_place(q, n, rate).value(),
    );
    let (x, y) = (440 * p.value() * n * b, 440 * q.value() * n * b);
    let r = rate.value();
    let t = n * b;
    assert(t > 0) by (nonlinear_arith)
        requires
            t == n * b,
            n >= 1,
            b > 0,
    ;
    assert(1000 * x >= 1999 * y) by (nonlinear_arith)
        requires
            1000 * p.value() >= 1999 * q.value(),
            x == 440 * p.value() * n * b,
            y == 440 * q.value() * n * b,
            t == n * b,
            t > 0,
    ;
    assert(1000 * (c * r) >= 1998 * (d * r));
    assert(1000 * c >= 1998 * d) by (nonlinear_arith)
        requires
            1000 * (c * r) >= 1998 * (d * r),
            r > 0,
    ;
}

/// Where nearly twice the power lies at the lower end of the range, nothing is found,
/// unless the upper end lies just above the first bin.
pub proof fn law_doubled_power_finds_nothing(a: Analyzer, power_lo: Single, power_hi: Single)
    requires
        in_bounds(power_lo),
        in_bounds(power_hi),
        1000 * power_lo.value() >= 1999 * power_hi.value(),
        1 <= a.fft_size < 0x100_0000,
        usual_rate(a.sample_rate),
        ({
            let place = analysis::bin_place(power_hi, a.fft_size as nat, a.sample_rate);
            place.value() <= errors::big() || 1000 * place.value() >= 1003 * errors::big()
        }),
    ensures
        a.fundamental_in(power_lo, power_hi) is None,
{
    let (n, rate) = (a.fft_size as nat, a.sample_rate);
    shades::lemma_grains();
    lemma_place(power_lo, n, rate);
    lemma_place(power_hi, n, rate);
    lemma_places(power_lo, power_hi, n, rate);
    pitch::law_crossed_range_finds_nothing(a, power_lo, power_hi);
}

/// In a range of notes an octave or more the wrong way round nothing is found, unless
/// its upper end lies just above the first bin.
pub proof fn law_octave_crossed_finds_nothing(
    a: Analyzer,
    lo: int,
    hi: int,
    two: spec_fn(Single) -> Single,
)
    requires
        hi + 12 <= lo,
        -100 <= hi,
        lo <= 200,
        raises_two(two),
        1 <= a.fft_size < 0x100_0000,
        usual_rate(a.sample_rate),
        ({
            let place = analysis::bin_place(
                two(analysis::octaves_above(Single::whole(hi))),
                a.fft_size as nat,
                a.sample_rate,
            );
            place.value() <= errors::big() || 1000 * place.value() >= 1003 * errors::big()
        }),
    ensures
        a.fundamental_in(
            two(analysis::octaves_above(Single::whole(lo))),
            two(analysis::octaves_above(Single::whole(hi))),
        ) is None,
{
    let (p, q) = (Single::whole(lo), Single::whole(hi));
    let b = errors::big();
    shades::lemma_grains();
    order::lemma_whole_exact(lo);
    order::lemma_whole_exact(hi);
    assert(-100 * b <= hi * b && hi * b + 12 * b <= lo * b && lo * b <= 200 * b)
        by (nonlinear_arith)
        requires
            -100 <= hi,
            hi + 12 <= lo,
            lo <= 200,
            b > 0,
    ;
    lemma_octaves(p);
    lemma_octaves(q);
    let (x, y) = (analysis::octaves_above(p), analysis::octaves_above(q));
    assert(in_reach(x) && in_reach(y));
    assert(in_bounds(two(x)) && in_bounds(two(y)));
    assert(1000 * two(x).value() >= 1999 * two(y).value());
    law_doubled_power_finds_nothing(a, two(x), two(y));
}

} // verus!
