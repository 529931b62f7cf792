//! The tuner's readout: the closest whole note and the distance from it in cents give
//! the pitch back.
use crate::controls;
use crate::display;
use crate::errors;
use crate::order;
use crate::rounding;
use crate::shades;
use crate::single::Single;
use crate::text;
use crate::tracker;
use crate::values::HUNDRED;
use crate::view;
use vstd::arithmetic::div_mod;
use vstd::arithmetic::power2;
use vstd::prelude::*;

verus! {

/// Rounding to a whole number moves a value by half a unit at most.
pub proof fn lemma_rounded(x: Single, lo: int, hi: int)
    requires
        x.finite(),
        lo * errors::big() <= x.value() <= hi * errors::big(),
        lo <= 0 <= hi,
    ensures
        errors::near(2 * (x.round_within(lo, hi) * errors::big()), 2 * x.value(), errors::big()),
        lo <= x.round_within(lo, hi) <= hi,
{
    let b = errors::big();
    shades::lemma_grains();
    let u = x.units() as int;
    div_mod::lemma_fundamental_div_mod(u, b);
    let n = x.round_size() as int;
    let q = u / b;
    assert(b * (q + 1) == b * q + b) by (nonlinear_arith);
    assert(errors::near(2 * (b * n), 2 * u, b));
    assert((-n) * b == -(b * n) && n * b == b * n) by (nonlinear_arith);
    let r = if x.negative() {
        -n
    } else {
        n
    };
    assert(errors::near(2 * (r * b), 2 * x.value(), b));
    assert(lo <= r) by (nonlinear_arith)
        requires
            2 * (r * b) >= 2 * x.value() - b,
            lo * b <= x.value(),
            b > 0,
    ;
    assert(r <= hi) by (nonlinear_arith)
        requires
            2 * (r * b) <= 2 * x.value() + b,
            x.value() <= hi * b,
            b > 0,
    ;
}

/// The shown note and its cents, computed.
proof fn lemma_cents(note: Single)
    requires
        note.finite(),
        errors::near(note.value(), 0, 1000 * errors::big()),
    ensures
        ({
            let (n, c) = (tracker::closest(note) as int, view::cents_of(note));
            let b = errors::big();
            &&& errors::near(2 * note.value(), 2 * (n * b), b)
            &&& errors::near(
                2 * (c * b),
                200 * (note.value() - n * b),
                b + 202 * errors::slack(),
            )
        }),
{
    let (b, e) = (errors::big(), errors::slack());
    let hundred = Single { bits: HUNDRED };
    shades::lemma_grains();
    power2::lemma2_to64();
    order::lemma_units_of(hundred, 0xc8_0000, 132);
    rounding::lemma_pow2_facts(132, 17);
    assert(0xc8_0000 * power2::pow2(132) == 100 * b) by (nonlinear_arith)
        requires
            b == power2::pow2(132) * 0x2_0000,
    ;
    lemma_rounded(note, i32::MIN as int, i32::MAX as int);
    let n = tracker::closest(note) as int;
    assert(-1001 <= n <= 1001) by (nonlinear_arith)
        requires
            errors::near(2 * (n * b), 2 * note.value(), b),
            errors::near(note.value(), 0, 1000 * b),
            b > 0,
    ;
    order::lemma_whole_exact(n);
    let less = Single::whole(n).negated();
    assert(less.units() == Single::whole(n).units());
    assert(less.value() == -(n * b));
    errors::lemma_sum_error(note, less, 136);
    let off = note.minus(Single::whole(n));
    assert(off.units() * hundred.units() < b * (2048 * b)) by (nonlinear_arith)
        requires
            0 <= off.units() <= b,
            hundred.units() == 100 * b,
            b > 0,
    ;
    errors::lemma_product_error(off, hundred, 136);
    let y = off.times(hundred);
    errors::lemma_product_value(y.value(), off.value(), 100, e);
    lemma_rounded(y, i32::MIN as int, i32::MAX as int);
}

/// The shown note and cents give the pitch back: a hundred times the note and the cents
/// lie within one of a hundred times the pitch. The note is the closest one, so there are
/// fifty cents at most; they are positive for a sharp pitch and negative for a flat one.
pub proof fn law_readout_gives_pitch_back(note: Single)
    requires
        note.finite(),
        errors::near(note.value(), 0, 1000 * errors::big()),
    ensures
        ({
            let (n, c) = (tracker::closest(note) as int, view::cents_of(note));
            let b = errors::big();
            &&& errors::near((100 * n + c) * b, 100 * note.value(), b)
            &&& errors::near(2 * note.value(), 2 * (n * b), b)
            &&& -50 <= c <= 50
            &&& 100 * (note.value() - n * b) >= b ==> c > 0
            &&& 100 * (n * b - note.value()) >= b ==> c < 0
        }),
{
    let (n, c) = (tracker::closest(note) as int, view::cents_of(note));
    let (b, e) = (errors::big(), errors::slack());
    shades::lemma_grains();
    lemma_cents(note);
    assert((100 * n + c) * b == 100 * (n * b) + c * b) by (nonlinear_arith);
    assert(-50 <= c <= 50) by (nonlinear_arith)
        requires
            errors::near(2 * (c * b), 0, 101 * b + 202 * e),
            b == 0x4000 * e,
            e > 0,
    ;
    assert(2 * (c * b) > 0 ==> c > 0) by (nonlinear_arith)
        requires
            b > 0,
    ;
    assert(2 * (c * b) < 0 ==> c < 0) by (nonlinear_arith)
        requires
            b > 0,
    ;
}

/// The readout says the name of a note and signed cents that together give the pitch back
/// to within a cent, and below them the frequency to a tenth of a hertz.
pub proof fn law_readout_says_pitch(note: Single, freq: Single, strength: Single)
    requires
        note.finite(),
        errors::near(note.value(), 0, 1000 * errors::big()),
    ensures
        ({
            let lines = view::readout_lines(Some((note, freq, strength)));
            &&& lines.len() == 2
            &&& lines[1][0].0 == display::fixed(freq, 1) + " Hz"@
            &&& exists|n: int, c: int|
                {
                    &&& lines[0][0].0 == #[trigger] named_off(n, c)
                    &&& errors::near((100 * n + c) * errors::big(), 100 * note.value(), errors::big())
                    &&& -50 <= c <= 50
                }
        }),
{
    let (n, c) = (tracker::closest(note) as int, view::cents_of(note));
    law_readout_gives_pitch_back(note);
    assert(view::readout_lines(Some((note, freq, strength)))[0][0].0 == named_off(n, c));
}

/// A note and the cents that a pitch lies above it, in words.
pub open spec fn named_off(note: int, cents: int) -> Seq<char> {
    controls::named(note) + " "@ + text::signed(cents) + "¢"@
}

} // verus!
