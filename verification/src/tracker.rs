//! Stabilizing the live note readout. Detection by single frames hops between
//! harmonics and neighbouring bins many times a second; the tracker keeps the
//! shown note steady: it switches only after a new note persists, smooths the
//! wobble within a note, and holds through brief dropouts.
use crate::order;
use crate::rounding;
use crate::rounding::BINADE;
use crate::single;
use crate::single::Single;
use crate::values::{ONE, QUARTER};
use vstd::arithmetic::div_mod;
use vstd::arithmetic::mul;
use vstd::arithmetic::power2;
use vstd::prelude::*;

verus! {

/// Frames a challenger note must dominate before the readout switches (~150 ms).
pub const STABLE_FRAMES: u32 = 9;

/// Frames the last note stays shown after detection drops out (~750 ms).
pub const HOLD_FRAMES: u32 = 45;

/// The place of no note.
pub const NO_NOTE: i32 = -0x8000_0000;

/// A detection: the fractional note, its frequency and its strength.
pub type Reading = (Single, Single, Single);

/// The whole note that a fractional one is closest to.
pub open spec fn closest(note: Single) -> i32 {
    note.round_within(i32::MIN as int, i32::MAX as int) as i32
}

/// A fractional note moved a quarter of the way to a new one.
pub open spec fn eased(shown: Single, note: Single) -> Single {
    shown.plus((Single { bits: QUARTER }).times(note.minus(shown)))
}

#[derive(Clone, Copy, Debug)]
pub struct PitchTracker {
    /// What the readout shows.
    pub display: Option<Reading>,
    /// The whole note that is shown.
    pub shown_note: i32,
    /// The note that challenges it, and for how many frames in a row.
    pub candidate: i32,
    pub candidate_frames: u32,
    /// Frames until the readout is cleared.
    pub hold: u32,
}

impl PitchTracker {
    pub open spec fn wf(self) -> bool {
        &&& self.hold <= HOLD_FRAMES
        &&& self.display is Some <==> self.hold > 0
        &&& self.candidate_frames < STABLE_FRAMES
    }

    /// Nothing is shown and nothing challenges.
    pub open spec fn idle() -> PitchTracker {
        PitchTracker {
            display: None,
            shown_note: NO_NOTE,
            candidate: NO_NOTE,
            candidate_frames: 0,
            hold: 0,
        }
    }

    /// The shown reading is closest to the shown note.
    pub open spec fn names_its_note(self) -> bool {
        match self.display {
            Some(shown) => shown.0.finite() && closest(shown.0) == self.shown_note,
            None => true,
        }
    }

    /// The note that a detection leads to: the eased one where the detection
    /// continues the shown note, else the detected one.
    pub open spec fn target(self, note: Single) -> Single {
        match self.display {
            Some(shown) => if closest(note) == self.shown_note {
                eased(shown.0, note)
            } else {
                note
            },
            None => note,
        }
    }

    /// A reading is shown from now on.
    pub open spec fn showing(self, reading: Reading) -> PitchTracker {
        PitchTracker {
            display: Some(reading),
            shown_note: closest(reading.0),
            candidate_frames: 0,
            hold: HOLD_FRAMES,
            ..self
        }
    }

    /// The shown note was seen again, a little off.
    pub open spec fn refreshed(self, reading: Reading) -> PitchTracker {
        PitchTracker {
            display: Some(reading),
            candidate_frames: 0,
            hold: HOLD_FRAMES,
            ..self
        }
    }

    /// A frame without the shown note.
    pub open spec fn waited(self) -> PitchTracker {
        if self.hold == 0 {
            self
        } else if self.hold == 1 {
            PitchTracker { display: None, shown_note: NO_NOTE, hold: 0, ..self }
        } else {
            PitchTracker { hold: (self.hold - 1) as u32, ..self }
        }
    }

    /// A frame with another note than the shown one.
    pub open spec fn challenged(self, note: i32) -> PitchTracker {
        PitchTracker {
            candidate: note,
            candidate_frames: if note == self.candidate {
                (self.candidate_frames + 1) as u32
            } else {
                1
            },
            ..self
        }
    }

    /// The tracker after a frame. Where the frame continues the shown note,
    /// `eased_freq` is the frequency of the eased note.
    pub open spec fn after(self, raw: Option<Reading>, eased_freq: Single) -> PitchTracker {
        match raw {
            None => (PitchTracker { candidate_frames: 0, ..self }).waited(),
            Some(reading) => match self.display {
                None => self.showing(reading),
                Some(shown) => if closest(reading.0) == self.shown_note {
                    self.refreshed((eased(shown.0, reading.0), eased_freq, reading.2))
                } else {
                    let next = self.challenged(closest(reading.0));
                    if next.candidate_frames >= STABLE_FRAMES {
                        next.showing(reading)
                    } else {
                        next.waited()
                    }
                },
            },
        }
    }

    pub fn new() -> (r: PitchTracker)
        ensures
            r.wf(),
            r == PitchTracker::idle(),
    {
        PitchTracker {
            display: None,
            shown_note: NO_NOTE,
            candidate: NO_NOTE,
            candidate_frames: 0,
            hold: 0,
        }
    }

    /// The note whose frequency the next update needs.
    pub fn eased_note(&self, note: Single) -> (r: Single)
        ensures
            r == self.target(note),
    {
        match self.display {
            Some(shown) => if note.round_i32() == self.shown_note {
                shown.0.add((Single { bits: QUARTER }).mul(note.sub(shown.0)))
            } else {
                note
            },
            None => note,
        }
    }

    /// Feed one frame's raw detection, with the frequency of its eased note;
    /// returns what the readout should show.
    pub fn update(&mut self, raw: Option<Reading>, eased_freq: Single) -> (r: Option<Reading>)
        requires
            old(self).wf(),
        ensures
            *final(self) == old(self).after(raw, eased_freq),
            final(self).wf(),
            r == final(self).display,
    {
        match raw {
            Some((note, freq, v)) => {
                let rounded: i32 = note.round_i32();
                match self.display {
                    None => {
                        self.shown_note = rounded;
                        self.display = Some((note, freq, v));
                        self.hold = HOLD_FRAMES;
                        self.candidate_frames = 0;
                    },
                    Some(_) => {
                        if rounded == self.shown_note {
                            let sm: Single = self.eased_note(note);
                            self.display = Some((sm, eased_freq, v));
                            self.hold = HOLD_FRAMES;
                            self.candidate_frames = 0;
                        } else {
                            if rounded == self.candidate {
                                self.candidate_frames = self.candidate_frames + 1;
                            } else {
                                self.candidate = rounded;
                                self.candidate_frames = 1;
                            }
                            if self.candidate_frames >= STABLE_FRAMES {
                                self.shown_note = rounded;
                                self.display = Some((note, freq, v));
                                self.hold = HOLD_FRAMES;
                                self.candidate_frames = 0;
                            } else {
                                self.tick_hold();
                            }
                        }
                    },
                }
            },
            None => {
                self.candidate_frames = 0;
                self.tick_hold();
            },
        }
        self.display
    }

    fn tick_hold(&mut self)
        ensures
            *final(self) == old(self).waited(),
    {
        if self.hold > 0 {
            self.hold = self.hold - 1;
            if self.hold == 0 {
                self.display = None;
                self.shown_note = NO_NOTE;
            }
        }
    }
}

/// One frame: a detection, and the frequency of its eased note.
pub type Step = (Option<Reading>, Single);

/// The frame holds a detection of a whole note.
pub open spec fn detects(step: Step, note: i32) -> bool {
    match step.0 {
        Some(reading) => closest(reading.0) == note,
        None => false,
    }
}

/// The tracker after a sequence of frames.
pub open spec fn run(t: PitchTracker, steps: Seq<Step>) -> PitchTracker
    decreases steps.len(),
{
    if steps.len() == 0 {
        t
    } else {
        run(t, steps.drop_last()).after(steps.last().0, steps.last().1)
    }
}

/// The tracker's bookkeeping stays in order over any frames.
pub proof fn law_always_valid(t: PitchTracker, steps: Seq<Step>)
    requires
        t.wf(),
    ensures
        run(t, steps).wf(),
    decreases steps.len(),
{
    if steps.len() > 0 {
        law_always_valid(t, steps.drop_last());
    }
}

/// With nothing shown, the first detection is shown at once and as it is.
pub proof fn law_first_shown(t: PitchTracker, reading: Reading, freq: Single)
    requires
        t.display is None,
    ensures
        t.after(Some(reading), freq).display == Some(reading),
        t.after(Some(reading), freq).shown_note == closest(reading.0),
{
}

/// While a note is shown, frames that fall short of the stable count, whatever
/// they hold, neither replace it nor clear it: flicker is ignored.
pub proof fn law_flicker_ignored(t: PitchTracker, steps: Seq<Step>)
    requires
        t.wf(),
        t.display is Some,
        t.candidate_frames + steps.len() < STABLE_FRAMES,
        t.hold > steps.len(),
    ensures
        run(t, steps).display is Some,
        run(t, steps).shown_note == t.shown_note,
{
    lemma_flicker(t, steps);
}

proof fn lemma_flicker(t: PitchTracker, steps: Seq<Step>)
    requires
        t.wf(),
        t.display is Some,
        t.candidate_frames + steps.len() < STABLE_FRAMES,
        t.hold > steps.len(),
    ensures
        run(t, steps).wf(),
        run(t, steps).display is Some,
        run(t, steps).shown_note == t.shown_note,
        run(t, steps).candidate_frames <= t.candidate_frames + steps.len(),
        run(t, steps).hold + steps.len() >= t.hold,
    decreases steps.len(),
{
    if steps.len() > 0 {
        lemma_flicker(t, steps.drop_last());
    }
}

/// A frame of the shown note starts the count of challengers and the hold anew.
pub proof fn law_shown_note_refreshes(t: PitchTracker, reading: Reading, freq: Single)
    requires
        t.display is Some,
        closest(reading.0) == t.shown_note,
    ensures
        t.after(Some(reading), freq).candidate_frames == 0,
        t.after(Some(reading), freq).hold == HOLD_FRAMES,
        t.after(Some(reading), freq).shown_note == t.shown_note,
{
}

/// A note that lasts for the stable count is shown, whatever was shown before.
pub proof fn law_sustained_note_shown(t: PitchTracker, steps: Seq<Step>, note: i32)
    requires
        t.wf(),
        steps.len() >= STABLE_FRAMES,
        forall|i: int|
            0 <= i < steps.len() ==> detects(#[trigger] steps[i], note),
    ensures
        run(t, steps).display is Some,
        run(t, steps).shown_note == note,
{
    lemma_sustained(t, steps, note);
}

proof fn lemma_sustained(t: PitchTracker, steps: Seq<Step>, note: i32)
    requires
        t.wf(),
        forall|i: int|
            0 <= i < steps.len() ==> detects(#[trigger] steps[i], note),
    ensures
        run(t, steps).wf(),
        ({
            let s = run(t, steps);
            ||| steps.len() == 0
            ||| s.display is Some && s.shown_note == note
            ||| s.candidate == note && s.candidate_frames >= steps.len()
        }),
    decreases steps.len(),
{
    if steps.len() > 0 {
        let init = steps.drop_last();
        assert forall|i: int| 0 <= i < init.len() implies detects(#[trigger] init[i], note) by {
            assert(init[i] == steps[i]);
        }
        lemma_sustained(t, init, note);
        assert(detects(steps[steps.len() - 1], note));
    }
}

/// Without detections the shown reading stays as it is until the hold runs
/// out, and is gone from then on.
pub proof fn law_held_then_cleared(t: PitchTracker, steps: Seq<Step>)
    requires
        t.wf(),
        t.display is Some,
        forall|i: int| 0 <= i < steps.len() ==> (#[trigger] steps[i]).0 is None,
    ensures
        steps.len() < t.hold ==> run(t, steps).display == t.display,
        steps.len() >= t.hold ==> run(t, steps).display is None,
{
    lemma_held(t, steps);
}

proof fn lemma_held(t: PitchTracker, steps: Seq<Step>)
    requires
        t.wf(),
        t.display is Some,
        forall|i: int| 0 <= i < steps.len() ==> (#[trigger] steps[i]).0 is None,
    ensures
        run(t, steps).wf(),
        steps.len() < t.hold ==> run(t, steps).display == t.display && run(t, steps).hold
            == t.hold - steps.len(),
        steps.len() >= t.hold ==> run(t, steps).display is None,
    decreases steps.len(),
{
    if steps.len() > 0 {
        let init = steps.drop_last();
        assert forall|i: int| 0 <= i < init.len() implies (#[trigger] init[i]).0 is None by {
            assert(init[i] == steps[i]);
        }
        lemma_held(t, init);
        assert(steps[steps.len() - 1].0 is None);
    }
}

proof fn lemma_quarter()
    ensures
        (Single { bits: QUARTER }).units() == power2::pow2(147),
        (Single { bits: QUARTER }).finite(),
        (Single { bits: ONE }).units() == power2::pow2(149),
        (Single { bits: ONE }).finite(),
        power2::pow2(149) == 4 * power2::pow2(147),
{
    order::lemma_units_of(Single { bits: QUARTER }, BINADE as nat, 124);
    order::lemma_units_of(Single { bits: ONE }, BINADE as nat, 126);
    rounding::lemma_pow2_facts(23, 124);
    rounding::lemma_pow2_facts(23, 126);
    rounding::lemma_pow2_facts(147, 0);
    rounding::lemma_pow2_facts(148, 0);
    power2::lemma2_to64();
}

/// The difference of two values that are closest to one note is finite.
proof fn lemma_gap_finite(a: Single, b: Single)
    requires
        a.finite(),
        b.finite(),
        closest(a) == closest(b),
    ensures
        b.minus(a).finite(),
        b.minus(a).units() <= 1 || b.minus(a).units() <= 2 * (if b.value() >= a.value() {
            b.value() - a.value()
        } else {
            a.value() - b.value()
        }),
        a.value() == b.value() ==> b.minus(a).units() == 0,
        b.value() > a.value() ==> !b.minus(a).negative(),
        b.value() < a.value() ==> b.minus(a).negative(),
{
    reveal(Single::plus);
    let one = Single { bits: ONE };
    let gap = b.value() - a.value();
    let size = (if gap < 0 {
        -gap
    } else {
        gap
    }) as nat;
    lemma_quarter();
    rounding::lemma_pow2_facts(149, 0);
    single::lemma_parts(a);
    single::lemma_parts(b);
    assert(a.negated().value() == -a.value());
    assert(a.negated().finite());
    let bound = if a.negative() != b.negative() {
        one
    } else if a.units() < b.units() {
        b
    } else {
        a
    };
    if a.negative() != b.negative() {
        div_mod::lemma_fundamental_div_mod(a.units() as int, power2::pow2(149) as int);
        div_mod::lemma_fundamental_div_mod(b.units() as int, power2::pow2(149) as int);
        assert(a.round_size() == 0 && b.round_size() == 0);
        assert(a.units() / power2::pow2(149) == 0);
        assert(b.units() / power2::pow2(149) == 0);
        assert(power2::pow2(149) * 0 == 0);
    }
    assert(size <= bound.units());
    order::lemma_nearest_increases(size, bound.units(), 1);
    order::lemma_nearest_of(bound, 1);
    assert(bound.units() * 1 == bound.units());
    order::lemma_sum_place(b, a.negated());
    let d = b.minus(a);
    assert(d.finite());
    if size == 0 {
        single::lemma_parts(d);
        rounding::lemma_nearest_exact(0, 0);
        power2::lemma2_to64();
        assert(0nat * power2::pow2(0) == 0);
    } else {
        order::lemma_nearest_limit(size, 1, d);
        assert(d.units() * 1 == d.units());
    }
}

/// Easing a shown note towards a detection of the same whole note stays between
/// the two, and so with that whole note.
pub proof fn law_easing_keeps_note(shown: Single, note: Single)
    requires
        shown.finite(),
        note.finite(),
        closest(shown) == closest(note),
    ensures
        eased(shown, note).finite(),
        closest(eased(shown, note)) == closest(note),
        shown.rank() <= eased(shown, note).rank() <= note.rank() || note.rank() <= eased(
            shown,
            note,
        ).rank() <= shown.rank(),
{
    reveal(Single::times);
    let quarter = Single { bits: QUARTER };
    let d = note.minus(shown);
    let q = quarter.times(d);
    let gap = note.value() - shown.value();
    let size = (if gap < 0 {
        -gap
    } else {
        gap
    }) as nat;
    lemma_gap_finite(shown, note);
    lemma_quarter();
    let u = d.units();
    let c = power2::pow2(147);
    rounding::lemma_pow2_facts(147, 0);
    rounding::lemma_nearest_scale(u, 4, c);
    mul::lemma_mul_is_commutative(u as int, c as int);
    order::lemma_nearest_increases(u, u * 4, 4);
    order::lemma_nearest_of(d, 4);
    assert(q.magnitude() == rounding::nearest(u, 4));
    assert(q.finite());
    order::lemma_nearest_limit(u, 4, q);
    assert(q.units() <= size);
    assert(q.value() == 0 || q.negative() == (gap < 0)) by {
        single::lemma_parts(q);
    }
    let e = shown.plus(q);
    order::lemma_sum_place(shown, q);
    order::lemma_nearest_of(shown, 1);
    order::lemma_nearest_of(note, 1);
    single::lemma_parts(shown);
    single::lemma_parts(note);
    assert(shown.units() * 1 == shown.units());
    assert(note.units() * 1 == note.units());
    order::lemma_place_increases(shown.value(), shown.value() + q.value());
    order::lemma_place_increases(shown.value() + q.value(), shown.value());
    order::lemma_place_increases(shown.value() + q.value(), note.value());
    order::lemma_place_increases(note.value(), shown.value() + q.value());
    assert(order::place(shown.value()) == shown.rank());
    assert(order::place(note.value()) == note.rank());
    let (lo, hi) = (i32::MIN as int, i32::MAX as int);
    if gap >= 0 {
        order::lemma_round_within_increases(shown, e, lo, hi);
        order::lemma_round_within_increases(e, note, lo, hi);
    } else {
        order::lemma_round_within_increases(note, e, lo, hi);
        order::lemma_round_within_increases(e, shown, lo, hi);
    }
}

/// The readout names the note that the tracker holds: where that is so of the
/// shown reading, it is so after any further frame with a finite note.
pub proof fn law_readout_names_shown_note(t: PitchTracker, raw: Option<Reading>, freq: Single)
    requires
        t.names_its_note(),
        raw matches Some(reading) ==> reading.0.finite(),
    ensures
        t.after(raw, freq).names_its_note(),
{
    if let (Some(shown), Some(reading)) = (t.display, raw) {
        if closest(reading.0) == t.shown_note {
            law_easing_keeps_note(shown.0, reading.0);
        }
    }
}

} // verus!
