//! What a frame does to the waterfall, the readout and the sensitivity.
use crate::calibration;
use crate::errors;
use crate::formulas;
use crate::order;
use crate::paint::Paint;
use crate::rounding;
use crate::shades;
use crate::single;
use crate::single::Single;
use crate::state;
use crate::state::{Desk, Toast};
use crate::tracker;
use crate::tracker::{PitchTracker, Reading};
use crate::values::{ONE, QUARTER, SIX_HUNDREDTHS, TWENTIETH};
use crate::view;
use crate::view::Area;
use vstd::arithmetic::power2;
use vstd::prelude::*;

verus! {

/// Rows per four frames at each of the six speeds: from a quarter of a row per frame to
/// four.
pub open spec fn rows_per_four(speed: int) -> int {
    if speed == 0 {
        1
    } else if speed == 1 {
        2
    } else if speed == 2 {
        4
    } else if speed == 3 {
        8
    } else if speed == 4 {
        12
    } else {
        16
    }
}

/// A frame puts its row in front of the history as often as the speed asks for, fractions
/// carried over, and pushes the older rows back; beyond 1024 rows the oldest go.
pub proof fn law_frame_scrolls(d: Desk, row: Seq<Single>, i: int)
    requires
        d.wf(),
        !d.paused,
    ensures
        ({
            let next = d.scrolling(row);
            let quarters = d.scroll + rows_per_four(d.params.speed_idx as int);
            let n = quarters / 4;
            let all = d.history.len() + n;
            &&& next.scroll == quarters % 4
            &&& next.history.len() == if all > 1024 {
                1024
            } else {
                all
            }
            &&& 0 <= i < n ==> next.history[i] == row
            &&& n <= i < next.history.len() ==> next.history[i] == d.history[i - n]
            &&& next == (Desk { history: next.history, scroll: next.scroll, ..d })
        }),
{
}

/// A message stays for two seconds and is then gone.
pub proof fn law_message_lasts_two_seconds(toast: Toast, now: u64)
    ensures
        now < toast.at + 2_000_000_000 ==> state::unexpired(Some(toast), now) == Some(toast),
        now >= toast.at + 2_000_000_000 ==> state::unexpired(Some(toast), now) is None,
{
}

/// The readout moves a quarter of the way to a new detection of the same note, up to
/// rounding.
pub proof fn law_easing_goes_a_quarter(shown: Single, note: Single)
    requires
        shown.finite(),
        note.finite(),
        errors::near(shown.value(), 0, 200 * errors::big()),
        errors::near(note.value(), 0, 200 * errors::big()),
    ensures
        tracker::eased(shown, note).finite(),
        errors::near(
            4 * tracker::eased(shown, note).value(),
            3 * shown.value() + note.value(),
            3 * errors::slack(),
        ),
{
    let (b, s) = (errors::big(), formulas::speck());
    let part = Single { bits: QUARTER };
    formulas::lemma_specks();
    order::lemma_units_of(part, 0x80_0000, 124);
    power2::lemma2_to64();
    rounding::lemma_pow2_facts(2, 124);
    rounding::lemma_pow2_facts(23, 126);
    let w = power2::pow2(124) as int;
    assert(power2::pow2(126) == 4 * w && b == 0x80_0000 * (4 * w));
    assert(4 * part.value() == b);
    let less = shown.negated();
    assert(less.units() == shown.units());
    assert(less.value() == -shown.value());
    errors::lemma_sum_error(note, less, 134);
    let d = note.minus(shown);
    assert(part.units() * d.units() < b * (512 * b)) by (nonlinear_arith)
        requires
            4 * part.units() == b,
            0 <= d.units() <= 401 * b,
            b > 0,
    ;
    errors::lemma_product_error(part, d, 134);
    let t = part.times(d);
    let (tv, dv, pv) = (t.value(), d.value(), part.value());
    assert(4 * (pv * dv) == dv * b && 4 * (b * (256 * s)) == (1024 * s) * b && 4 * (tv * b) == (4
        * tv) * b) by (nonlinear_arith)
        requires
            4 * pv == b,
    ;
    errors::lemma_divided(4 * tv, dv, 1024 * s, b);
    errors::lemma_sum_error(shown, t, 134);
}

/// The midpoint is set 0.06 above the loudest background level, but within 0.05 and 1.
pub proof fn law_midpoint_is_a_margin_above(peak: Single)
    requires
        peak.finite(),
        errors::near(peak.value(), 0, 2 * errors::big()),
    ensures
        calibration::midpoint_over(peak).finite(),
        errors::near(
            100 * calibration::midpoint_over(peak).value(),
            shades::held(
                100 * peak.value() + 6 * errors::big(),
                5 * errors::big(),
                100 * errors::big(),
            ),
            errors::slack(),
        ),
{
    let (b, s) = (errors::big(), formulas::speck());
    let (margin, lo, hi) = (
        Single { bits: SIX_HUNDREDTHS },
        Single { bits: TWENTIETH },
        Single { bits: ONE },
    );
    formulas::lemma_specks();
    shades::lemma_constants();
    order::lemma_units_of(margin, 0xf5_c28f, 121);
    order::lemma_units_of(lo, 0xcc_cccd, 121);
    power2::lemma2_to64();
    rounding::lemma_pow2_facts(28, 121);
    rounding::lemma_pow2_facts(4, 121);
    let w = power2::pow2(121) as int;
    assert(b == 0x1000_0000 * w && s == 16 * w);
    assert(errors::near(100 * margin.value(), 6 * b, 16 * s));
    assert(errors::near(100 * lo.value(), 5 * b, 16 * s));
    errors::lemma_sum_error(peak, margin, 128);
    let x = peak.plus(margin);
    single::lemma_less_is_order(x, lo);
    single::lemma_less_is_order(hi, x);
}

/// The waterfall needs 80 columns and 24 rows; a screen with less of either asks for more.
pub proof fn law_room_for_the_waterfall(area: Area)
    ensures
        area.roomy() <==> area.width >= 80 && area.height >= 24,
        state::too_small((area.width, area.height)) <==> area.width < 80 || area.height < 24,
{
}

/// The status line says that the room is being measured before all else, then that the
/// waterfall is paused, and a message only where there is neither.
pub proof fn law_status_says_what_matters(d: Desk)
    ensures
        ({
            let status = view::status_of(d);
            &&& d.calibration is Some ==> status == Some(
                ("measuring noise floor — stay quiet…"@, Paint::Yellow),
            )
            &&& d.calibration is None && d.paused ==> status == Some(
                ("⏸ paused (space to resume)"@, Paint::White),
            )
            &&& d.calibration is None && !d.paused ==> match d.toast {
                Some(t) => status == Some((t.0, t.1)),
                None => status is None,
            }
        }),
{
}

/// A challenger takes over after nine frames in a row, and a note that is no longer heard stays
/// for 45.
pub proof fn law_readout_is_patient(t: PitchTracker, reading: Reading, freq: Single)
    requires
        t.wf(),
        t.display is Some,
        tracker::closest(reading.0) != t.shown_note,
        tracker::closest(reading.0) == t.candidate,
    ensures
        t.candidate_frames < 8 ==> t.after(Some(reading), freq).shown_note == t.shown_note || t.hold
            == 1,
        t.candidate_frames == 8 ==> t.after(Some(reading), freq).display == Some(reading) && t.after(
            Some(reading),
            freq,
        ).hold == 45,
{
}

} // verus!
