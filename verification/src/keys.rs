//! What each key does.
use crate::audio::InputSource;
use crate::controls::{Param, Params, PARAMS};
use crate::nudges;
use crate::single::Single;
use crate::state::{Desk, Key};
use vstd::prelude::*;

verus! {

/// Up and Down go to the control above or below and stay at the ends; a digit goes to the
/// control of that number, counted from one. Nothing else changes.
pub proof fn law_keys_select(
    d: Desk,
    shift: bool,
    control: bool,
    source: InputSource,
    now: u64,
    c: char,
)
    requires
        d.wf(),
        !d.pending_reset,
        '1' <= c <= '7',
    ensures
        ({
            let up = d.pressed(Key::Up, shift, control, source, now);
            let down = d.pressed(Key::Down, shift, control, source, now);
            let digit = d.pressed(Key::Char(c), shift, control, source, now);
            &&& d.focus > 0 ==> up.focus + 1 == d.focus
            &&& d.focus == 0 ==> up.focus == 0
            &&& d.focus < 6 ==> down.focus == d.focus + 1
            &&& d.focus == 6 ==> down.focus == 6
            &&& digit.focus + 1 == c as int - '0' as int
            &&& up == (Desk { focus: up.focus, ..d })
            &&& down == (Desk { focus: down.focus, ..d })
            &&& digit == (Desk { focus: digit.focus, ..d })
        }),
{
    assert(PARAMS@.len() == 7);
}

/// Tab and its opposite go round the seven controls.
pub proof fn law_tab_goes_round(
    d: Desk,
    shift: bool,
    control: bool,
    source: InputSource,
    now: u64,
)
    requires
        d.wf(),
        !d.pending_reset,
    ensures
        ({
            let next = d.pressed(Key::Tab, shift, control, source, now);
            let last = d.pressed(Key::BackTab, shift, control, source, now);
            &&& next.focus == (d.focus + 1) % 7
            &&& last.focus == (d.focus + 6) % 7
            &&& next == (Desk { focus: next.focus, ..d })
            &&& last == (Desk { focus: last.focus, ..d })
        }),
{
    assert(PARAMS@.len() == 7);
}

/// The right arrow raises the focused control and the left one lowers it, by a coarse step
/// with Shift and else by a fine one: on the ends of the range by a semitone or an octave,
/// as far as there is room. No other setting changes.
pub proof fn law_arrows_move_range(
    d: Desk,
    right: bool,
    shift: bool,
    control: bool,
    source: InputSource,
    now: u64,
)
    requires
        d.wf(),
        !d.pending_reset,
    ensures
        ({
            let key = if right {
                Key::Right
            } else {
                Key::Left
            };
            let next = d.pressed(key, shift, control, source, now);
            let by = nudges::semitones(shift) * if right {
                1int
            } else {
                -1int
            };
            let (lo, hi) = (d.params.range_lo, d.params.range_hi);
            &&& d.focus == 5 && 21 <= lo + by <= hi - 12 ==> next.params == (Params {
                range_lo: (lo + by) as i32,
                ..d.params
            })
            &&& d.focus == 6 && lo + 12 <= hi + by <= 132 ==> next.params == (Params {
                range_hi: (hi + by) as i32,
                ..d.params
            })
            &&& d.focus == 0 || d.focus >= 5 ==> next.needs_rebuild
            &&& 0 < d.focus < 5 ==> next.needs_rebuild == d.needs_rebuild
            &&& next == (Desk {
                params: next.params,
                needs_rebuild: next.needs_rebuild,
                ..d
            })
        }),
{
    assert(PARAMS@[0] == Param::Fft && PARAMS@[1] == Param::Smooth && PARAMS@[2] == Param::Speed
        && PARAMS@[3] == Param::Midpoint && PARAMS@[4] == Param::Steep && PARAMS@[5]
        == Param::RangeLo && PARAMS@[6] == Param::RangeHi);
}

/// One step up for the right arrow, one down for the left.
pub open spec fn way(right: bool) -> int {
    if right {
        1
    } else {
        -1
    }
}

/// The settings after an arrow.
pub open spec fn after_arrow(
    d: Desk,
    right: bool,
    shift: bool,
    control: bool,
    source: InputSource,
    now: u64,
) -> Params {
    d.pressed(
        if right {
            Key::Right
        } else {
            Key::Left
        },
        shift,
        control,
        source,
        now,
    ).params
}

proof fn lemma_arrow(
    d: Desk,
    right: bool,
    shift: bool,
    control: bool,
    source: InputSource,
    now: u64,
)
    requires
        !d.pending_reset,
    ensures
        after_arrow(d, right, shift, control, source, now) == d.params.adjusted(
            PARAMS@[d.focus as int],
            way(right),
            shift,
        ),
{
}

/// The controls from the top: the window's length and the speed go by one of their grades,
/// fine or coarse.
pub proof fn law_arrows_move_grades(
    d: Desk,
    right: bool,
    shift: bool,
    control: bool,
    source: InputSource,
    now: u64,
)
    requires
        d.wf(),
        !d.pending_reset,
    ensures
        ({
            let (p, q) = (d.params, after_arrow(d, right, shift, control, source, now));
            &&& d.focus == 0 && 12 <= p.fft_exp + way(right) <= 14 ==> q == (Params {
                fft_exp: (p.fft_exp + way(right)) as u32,
                ..p
            })
            &&& d.focus == 2 && 0 <= p.speed_idx + way(right) <= 5 ==> q == (Params {
                speed_idx: (p.speed_idx + way(right)) as usize,
                ..p
            })
        }),
{
    assert(PARAMS@[0] == Param::Fft && PARAMS@[2] == Param::Speed);
    lemma_arrow(d, right, shift, control, source, now);
}

/// The smoothing goes by 0.01, or 0.1 with Shift.
pub proof fn law_arrows_move_smoothing(
    d: Desk,
    right: bool,
    shift: bool,
    control: bool,
    source: InputSource,
    now: u64,
)
    requires
        d.wf(),
        !d.pending_reset,
        d.focus == 1,
    ensures
        ({
            let (p, q) = (d.params, after_arrow(d, right, shift, control, source, now));
            &&& q == (Params { smooth: q.smooth, ..p })
            &&& nudges::moves(
                p.smooth,
                q.smooth,
                way(right) * if shift {
                    100int
                } else {
                    10int
                },
                0,
                1,
            )
        }),
{
    assert(PARAMS@[1] == Param::Smooth);
    lemma_arrow(d, right, shift, control, source, now);
    nudges::law_values_move(d.params, way(right), shift);
}

/// The midpoint goes by 0.01, or 0.05 with Shift.
pub proof fn law_arrows_move_midpoint(
    d: Desk,
    right: bool,
    shift: bool,
    control: bool,
    source: InputSource,
    now: u64,
)
    requires
        d.wf(),
        !d.pending_reset,
        d.focus == 3,
    ensures
        ({
            let (p, q) = (d.params, after_arrow(d, right, shift, control, source, now));
            &&& q == (Params { midpoint: q.midpoint, ..p })
            &&& nudges::moves(
                p.midpoint,
                q.midpoint,
                way(right) * if shift {
                    50int
                } else {
                    10int
                },
                0,
                1,
            )
        }),
{
    assert(PARAMS@[3] == Param::Midpoint);
    lemma_arrow(d, right, shift, control, source, now);
    nudges::law_values_move(d.params, way(right), shift);
}

/// The steepness goes by 0.5, or 5 with Shift.
pub proof fn law_arrows_move_steepness(
    d: Desk,
    right: bool,
    shift: bool,
    control: bool,
    source: InputSource,
    now: u64,
)
    requires
        d.wf(),
        !d.pending_reset,
        d.focus == 4,
    ensures
        ({
            let (p, q) = (d.params, after_arrow(d, right, shift, control, source, now));
            &&& q == (Params { steep: q.steep, ..p })
            &&& nudges::moves(
                p.steep,
                q.steep,
                way(right) * if shift {
                    5000int
                } else {
                    500int
                },
                3,
                40,
            )
        }),
{
    assert(PARAMS@[4] == Param::Steep);
    lemma_arrow(d, right, shift, control, source, now);
    nudges::law_values_move(d.params, way(right), shift);
}

/// The keys that open, close, clear and end: `?` and `f` show help and wheel one at a time
/// and Esc hides both, Enter forgets the history and keeps the settings, a space stops and
/// starts the waterfall, `q` and Ctrl-C end the program.
pub proof fn law_other_keys(
    d: Desk,
    shift: bool,
    control: bool,
    source: InputSource,
    now: u64,
)
    requires
        d.wf(),
        !d.pending_reset,
    ensures
        ({
            let help = d.pressed(Key::Char('?'), shift, control, source, now);
            let wheel = d.pressed(Key::Char('f'), shift, control, source, now);
            let esc = d.pressed(Key::Esc, shift, control, source, now);
            let enter = d.pressed(Key::Enter, shift, control, source, now);
            let space = d.pressed(Key::Char(' '), shift, control, source, now);
            let turn = d.pressed(Key::Char('o'), shift, control, source, now);
            &&& help.help_visible == !d.help_visible && !help.wheel_visible
            &&& wheel.wheel_visible == !d.wheel_visible && !wheel.help_visible
            &&& !esc.help_visible && !esc.wheel_visible
            &&& enter.history.len() == 0 && enter.scroll == 0 && enter.params == d.params
            &&& space.paused == !d.paused && space.history == d.history
            &&& turn.params.horizontal == !d.params.horizontal && turn.needs_rebuild
            &&& d.pressed(Key::Char('q'), shift, control, source, now) == (Desk { quit: true, ..d })
            &&& d.pressed(Key::Char('c'), shift, true, source, now) == (Desk { quit: true, ..d })
            &&& help.params == d.params && wheel.params == d.params && esc.params == d.params
                && space.params == d.params
        }),
{
}

/// Without Ctrl, `c` begins to watch the room for 75 frames on a microphone, and sets the
/// midpoint to 0.4 at once on internal audio.
pub proof fn law_calibration_begins(d: Desk, shift: bool, now: u64)
    requires
        d.wf(),
        !d.pending_reset,
    ensures
        ({
            let mic = d.pressed(Key::Char('c'), shift, false, InputSource::Mic, now);
            let internal = d.pressed(Key::Char('c'), shift, false, InputSource::Internal, now);
            &&& d.calibration is None ==> mic.calibration is Some && mic.calibration->0.frames_left
                == 75 && mic.calibration->0.peak.zero()
            &&& d.calibration is Some ==> mic == d
            &&& mic.params == d.params
            &&& internal.params == (Params {
                midpoint: (Single { bits: 0x3ecc_cccd }),
                ..d.params
            })
            &&& internal.calibration == d.calibration
        }),
{
}

} // verus!
