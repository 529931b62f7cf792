//! The bounds of the settings, and what lies outside them.
use crate::controls::Params;
use crate::errors;
use crate::nudges;
use crate::single;
use crate::single::Single;
use crate::values::{FORTY, ONE, THREE, THREE_TENTHS, TWENTY, ZERO};
use vstd::prelude::*;

verus! {

/// A whole number that was moved to where it may be, by no more than it takes.
pub open spec fn moved_within(before: int, after: int, lo: int, hi: int) -> bool {
    &&& lo <= after <= hi
    &&& lo <= before <= hi ==> after == before
    &&& before < lo ==> after == lo
    &&& before > hi ==> after == hi
}

/// A value that was moved to where it may be, by no more than it takes, or replaced where it
/// was no number.
pub open spec fn repaired_within(before: Single, after: Single, lo: int, hi: int) -> bool {
    let b = errors::big();
    &&& after.finite()
    &&& lo * b <= after.value() <= hi * b
    &&& before.finite() && lo * b <= before.value() <= hi * b ==> after == before
    &&& before.finite() && before.value() < lo * b ==> after.value() == lo * b
    &&& before.finite() && before.value() > hi * b ==> after.value() == hi * b
}

proof fn lemma_repaired(x: Single, lo: u32, hi: u32, otherwise: u32, from: int, to: int)
    requires
        (Single { bits: lo }).finite(),
        (Single { bits: hi }).finite(),
        (Single { bits: otherwise }).finite(),
        (Single { bits: lo }).value() == from * errors::big(),
        (Single { bits: hi }).value() == to * errors::big(),
        from * errors::big() <= (Single { bits: otherwise }).value() <= to * errors::big(),
        from * errors::big() <= to * errors::big(),
    ensures
        repaired_within(x, Params::repaired(x, lo, hi, otherwise), from, to),
{
    let (l, h) = (Single { bits: lo }, Single { bits: hi });
    if !x.nan() {
        if x.finite() {
            single::lemma_less_is_order(x, l);
            single::lemma_less_is_order(h, x);
        } else {
            assert(x.less(l) || h.less(x));
        }
    }
}

/// Making settings valid moves each of them no further than to its nearest bound: windows
/// from 4096 to 16384 samples, six speeds, smoothing and midpoint from 0 to 1, steepness
/// from 3 to 40, and a range of an octave at least between the notes 21 and 132.
pub proof fn law_sanitize_moves_to_bounds(p: Params)
    ensures
        ({
            let q = p.sanitized();
            &&& moved_within(p.fft_exp as int, q.fft_exp as int, 12, 14)
            &&& moved_within(p.speed_idx as int, q.speed_idx as int, 0, 5)
            &&& moved_within(p.range_lo as int, q.range_lo as int, 21, 120)
            &&& moved_within(p.range_hi as int, q.range_hi as int, q.range_lo + 12, 132)
            &&& repaired_within(p.smooth, q.smooth, 0, 1)
            &&& repaired_within(p.midpoint, q.midpoint, 0, 1)
            &&& repaired_within(p.steep, q.steep, 3, 40)
            &&& q.horizontal == p.horizontal
        }),
{
    let b = errors::big();
    nudges::lemma_bounds();
    nudges::lemma_initial_values();
    assert(0 * b == 0 && 1 * b == b);
    lemma_repaired(p.smooth, ZERO, ONE, ZERO, 0, 1);
    lemma_repaired(p.midpoint, ZERO, ONE, THREE_TENTHS, 0, 1);
    lemma_repaired(p.steep, THREE, FORTY, TWENTY, 3, 40);
}

/// What is no number becomes what the settings begin with: no smoothing, a midpoint of 0.3
/// and a steepness of 20.
pub proof fn law_no_number_becomes_initial(p: Params)
    ensures
        p.smooth.nan() ==> p.sanitized().smooth.zero(),
        p.midpoint.nan() ==> errors::near(
            10 * p.sanitized().midpoint.value(),
            3 * errors::big(),
            errors::slack(),
        ),
        p.steep.nan() ==> p.sanitized().steep.value() == 20 * errors::big(),
{
    nudges::lemma_initial_values();
}

} // verus!
