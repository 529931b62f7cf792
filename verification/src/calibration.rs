//! Automatic sensitivity: watch the room for about a second and place the
//! midpoint just above the loudest background level.
use crate::analysis::Band;
use crate::order;
use crate::rounding;
use crate::single;
use crate::single::Single;
use crate::values::{FOUR_TENTHS, ONE, SIX_HUNDREDTHS, TWENTIETH, ZERO};
use vstd::arithmetic::power2;
use vstd::prelude::*;

verus! {

/// The midpoint for internal audio.
///
/// A microphone needs measurement: every room, microphone and gain stage is
/// different. A digital capture does not: full scale is the same on every
/// machine, so one constant maps levels alike every time, and the same track
/// always paints the same picture.
///
/// With the default steepness, band averages around -25 dB read bright, quiet
/// beds near -50 dB stay dim, and digital silence is black.
pub const INTERNAL_BASELINE: u32 = FOUR_TENTHS;

/// Frames that a calibration watches.
pub const WATCHED_FRAMES: u32 = 75;

/// A calibration under way. Internal audio never runs one: the monitor of an
/// idle sink is exact digital silence and has no noise floor to find.
#[derive(Clone, Copy, Debug, PartialEq, Eq, Structural)]
pub struct Calibration {
    pub frames_left: u32,
    /// The loudest corrected level so far.
    pub peak: Single,
}

/// The loudest of `peak` and the first `n` corrected levels.
pub open spec fn peak_over(peak: Single, row: Seq<Single>, bands: Seq<Band>, n: nat) -> Single
    decreases n,
{
    if n == 0 {
        peak
    } else {
        peak_over(peak, row, bands, (n - 1) as nat).larger(row[n - 1].plus(bands[n - 1].pink))
    }
}

/// As many levels as there are values and bands.
pub open spec fn levels(row: Seq<Single>, bands: Seq<Band>) -> nat {
    if row.len() < bands.len() {
        row.len()
    } else {
        bands.len()
    }
}

/// The midpoint for a noise floor.
pub open spec fn midpoint_over(peak: Single) -> Single {
    peak.plus(Single { bits: SIX_HUNDREDTHS }).clamped(
        Single { bits: TWENTIETH },
        Single { bits: ONE },
    )
}

impl Calibration {
    /// The loudest level is a number.
    pub open spec fn wf(self) -> bool {
        !self.peak.nan()
    }

    pub open spec fn fed(self, row: Seq<Single>, bands: Seq<Band>) -> Calibration {
        Calibration {
            frames_left: if self.frames_left > 0 {
                (self.frames_left - 1) as u32
            } else {
                0
            },
            peak: peak_over(self.peak, row, bands, levels(row, bands)),
        }
    }

    pub fn new() -> (r: Calibration)
        ensures
            r == (Calibration { frames_left: WATCHED_FRAMES, peak: Single { bits: ZERO } }),
    {
        Calibration { frames_left: WATCHED_FRAMES, peak: Single { bits: ZERO } }
    }

    /// Feed one row of band values; returns the new midpoint once finished.
    pub fn feed(&mut self, row: &Vec<Single>, bands: &Vec<Band>) -> (r: Option<Single>)
        ensures
            *final(self) == old(self).fed(row@, bands@),
            old(self).wf() ==> final(self).wf(),
            r == if old(self).frames_left <= 1 {
                Some(midpoint_over(final(self).peak))
            } else {
                None
            },
    {
        let n: usize = if row.len() < bands.len() {
            row.len()
        } else {
            bands.len()
        };
        let mut peak: Single = self.peak;
        let mut i: usize = 0;
        while i < n
            invariant
                i <= n,
                n == levels(row@, bands@),
                peak == peak_over(self.peak, row@, bands@, i as nat),
            decreases n - i,
        {
            peak = peak.max(row[i].add(bands[i].pink));
            i = i + 1;
        }
        proof {
            if self.wf() {
                lemma_peak_grows(self.peak, row@, bands@, n as nat);
            }
        }
        self.peak = peak;
        if self.frames_left > 0 {
            self.frames_left = self.frames_left - 1;
        }
        if self.frames_left == 0 {
            Some(
                self.peak.add(Single { bits: SIX_HUNDREDTHS }).clamp(
                    Single { bits: TWENTIETH },
                    Single { bits: ONE },
                ),
            )
        } else {
            None
        }
    }
}

/// A calibration after a sequence of rows.
pub open spec fn watched(c: Calibration, rows: Seq<Seq<Single>>, bands: Seq<Band>) -> Calibration
    decreases rows.len(),
{
    if rows.len() == 0 {
        c
    } else {
        watched(c, rows.drop_last(), bands).fed(rows.last(), bands)
    }
}

/// A new calibration is finished by the last of the watched frames and by no
/// earlier one: before it one frame is left, before any other more than one.
pub proof fn law_watches_exactly(rows: Seq<Seq<Single>>, bands: Seq<Band>)
    requires
        rows.len() < WATCHED_FRAMES,
    ensures
        watched(
            Calibration { frames_left: WATCHED_FRAMES, peak: Single { bits: ZERO } },
            rows,
            bands,
        ).frames_left == WATCHED_FRAMES - rows.len(),
    decreases rows.len(),
{
    if rows.len() > 0 {
        law_watches_exactly(rows.drop_last(), bands);
    }
}

/// The loudest level is a number, and no level that went into it is above it.
pub proof fn law_peak_is_loudest(
    peak: Single,
    row: Seq<Single>,
    bands: Seq<Band>,
    n: nat,
    i: nat,
)
    requires
        !peak.nan(),
        i < n,
    ensures
        !peak_over(peak, row, bands, n).nan(),
        !peak_over(peak, row, bands, n).less(peak),
        !peak_over(peak, row, bands, n).less(row[i as int].plus(bands[i as int].pink)),
    decreases n,
{
    lemma_peak_grows(peak, row, bands, (n - 1) as nat);
    if i < n - 1 {
        law_peak_is_loudest(peak, row, bands, (n - 1) as nat, i);
    }
}

proof fn lemma_peak_grows(peak: Single, row: Seq<Single>, bands: Seq<Band>, n: nat)
    requires
        !peak.nan(),
    ensures
        !peak_over(peak, row, bands, n).nan(),
        !peak_over(peak, row, bands, n).less(peak),
    decreases n,
{
    if n > 0 {
        lemma_peak_grows(peak, row, bands, (n - 1) as nat);
    }
}

/// The midpoint of a calibration is a number within its bounds.
pub proof fn law_midpoint_in_bounds(peak: Single)
    requires
        !peak.nan(),
    ensures
        !midpoint_over(peak).nan(),
        midpoint_over(peak).lies_in(Single { bits: TWENTIETH }, Single { bits: ONE }),
{
    let margin = Single { bits: SIX_HUNDREDTHS };
    if peak.finite() {
        order::lemma_sum_place(peak, margin);
    } else {
        reveal(Single::plus);
    }
}

/// The midpoint is placed above the loudest level that was watched, unless that
/// leaves no room below full scale.
pub proof fn law_midpoint_above_noise(peak: Single)
    requires
        !peak.nan(),
        0 <= peak.rank() < (Single { bits: ONE }).rank(),
    ensures
        peak.less(midpoint_over(peak)),
{
    let margin = Single { bits: SIX_HUNDREDTHS };
    let next = Single { bits: (peak.magnitude() + 1) as u32 };
    assert(!peak.negative() || peak.zero());
    assert(next.finite());
    single::lemma_parts(peak);
    single::lemma_parts(next);
    let w = power2::pow2(125) as int;
    // The next value is at most two to the 125 units further on.
    lemma_gap(peak, next);
    order::lemma_units_of(margin, 0xf5_c28f, 121);
    rounding::lemma_pow2_facts(4, 121);
    rounding::lemma_pow2_facts(121, 0);
    power2::lemma2_to64();
    assert(margin.units() >= w) by {
        let q = power2::pow2(121) as int;
        assert(0xf5_c28f * q >= 16 * q) by (nonlinear_arith)
            requires
                q > 0,
        ;
    }
    order::lemma_sum_place(peak, margin);
    order::lemma_place_increases(next.value(), peak.value() + margin.value());
    order::lemma_nearest_of(next, 1);
    assert(next.units() * 1 == next.units());
    assert(order::place(next.value()) == next.rank());
}

proof fn lemma_watched_peak(
    c: Calibration,
    rows: Seq<Seq<Single>>,
    bands: Seq<Band>,
    r: nat,
    i: nat,
)
    requires
        !c.peak.nan(),
        c.peak.rank() >= 0,
    ensures
        !watched(c, rows, bands).peak.nan(),
        watched(c, rows, bands).peak.rank() >= 0,
        r < rows.len() && i < levels(rows[r as int], bands) ==> !watched(c, rows, bands).peak.less(
            rows[r as int][i as int].plus(bands[i as int].pink),
        ),
    decreases rows.len(),
{
    if rows.len() > 0 {
        let init = rows.drop_last();
        lemma_watched_peak(c, init, bands, r, i);
        let p = watched(c, init, bands).peak;
        let n = levels(rows.last(), bands);
        lemma_peak_grows(p, rows.last(), bands, n);
        if r == rows.len() - 1 && i < n {
            law_peak_is_loudest(p, rows.last(), bands, n, i);
        }
    }
}

/// The midpoint that a calibration leads to lies above every level of every row
/// that it watched, unless they left no room below full scale.
pub proof fn law_midpoint_above_watched(
    rows: Seq<Seq<Single>>,
    bands: Seq<Band>,
    r: nat,
    i: nat,
)
    requires
        r < rows.len(),
        i < levels(rows[r as int], bands),
        !rows[r as int][i as int].plus(bands[i as int].pink).nan(),
        watched(
            Calibration { frames_left: WATCHED_FRAMES, peak: Single { bits: ZERO } },
            rows,
            bands,
        ).peak.less(Single { bits: ONE }),
    ensures
        rows[r as int][i as int].plus(bands[i as int].pink).less(
            midpoint_over(
                watched(
                    Calibration { frames_left: WATCHED_FRAMES, peak: Single { bits: ZERO } },
                    rows,
                    bands,
                ).peak,
            ),
        ),
{
    let c = Calibration { frames_left: WATCHED_FRAMES, peak: Single { bits: ZERO } };
    lemma_watched_peak(c, rows, bands, r, i);
    law_midpoint_above_noise(watched(c, rows, bands).peak);
}

proof fn lemma_gap(a: Single, b: Single)
    requires
        a.finite(),
        b.finite(),
        !b.negative(),
        b.magnitude() == a.magnitude() + 1,
        b.magnitude() <= ONE,
    ensures
        b.units() <= a.units() + power2::pow2(125),
{
    single::lemma_parts(a);
    single::lemma_parts(b);
    let (ea, eb) = (a.exponent(), b.exponent());
    let wa = power2::pow2(ea) as int;
    rounding::lemma_pow2_facts(ea, 125);
    assert(ea <= 125);
    if eb == ea {
        let (s, t) = (a.significand() as int, b.significand() as int);
        assert(t * wa == s * wa + wa) by (nonlinear_arith)
            requires
                t == s + 1,
        ;
    } else {
        assert(eb == ea + 1 && a.significand() == 0xff_ffff && b.significand() == 0x80_0000);
        assert(0x80_0000 * (2 * wa) == 0xff_ffff * wa + wa) by (nonlinear_arith);
    }
}

} // verus!
