//! Names and values as they are shown, and the levels that decide what is.
use crate::analysis;
use crate::analysis::Analyzer;
use crate::combs;
use crate::contrast;
use crate::controls;
use crate::controls::{Param, Params};
use crate::errors;
use crate::frames;
use crate::notes;
use crate::numerals;
use crate::order;
use crate::paint::Paint;
use crate::pitch;
use crate::pitch::Candidate;
use crate::rounding;
use crate::shades;
use crate::single;
use crate::single::Single;
use crate::text;
use crate::text::Cut;
use crate::values::{EIGHTY, MINUS_200, THREE_TWENTIETHS};
use crate::view;
use crate::view::{Area, Ink, Shown};
use crate::written;
use vstd::arithmetic::power2;
use vstd::prelude::*;

verus! {

/// The letter of a natural note, by the semitones above C.
pub open spec fn letter(k: int) -> char {
    if k == 0 {
        'C'
    } else if k == 2 {
        'D'
    } else if k == 4 {
        'E'
    } else if k == 5 {
        'F'
    } else if k == 7 {
        'G'
    } else if k == 9 {
        'A'
    } else {
        'B'
    }
}

/// A note without a letter of its own.
pub open spec fn sharp(k: int) -> bool {
    k == 1 || k == 3 || k == 6 || k == 8 || k == 10
}

/// A note is named by its letter, or by that of the note below and a sharp, and by the octave
/// that begins with the C below it; the C of octave 4 is note 60.
pub proof fn law_notes_are_named(octave: int, k: int)
    requires
        0 <= k < 12,
    ensures
        controls::named(60 + 12 * (octave - 4) + k) == if sharp(k) {
            seq![letter(k - 1), '#'] + text::decimal(octave)
        } else {
            seq![letter(k)] + text::decimal(octave)
        },
{
    let midi = 60 + 12 * (octave - 4) + k;
    assert(midi % 12 == k && midi / 12 - 1 == octave);
    let names = controls::NOTE_NAMES@;
    reveal_strlit("C");
    reveal_strlit("C#");
    reveal_strlit("D");
    reveal_strlit("D#");
    reveal_strlit("E");
    reveal_strlit("F");
    reveal_strlit("F#");
    reveal_strlit("G");
    reveal_strlit("G#");
    reveal_strlit("A");
    reveal_strlit("A#");
    reveal_strlit("B");
    assert(names[0]@ =~= seq!['C'] && names[1]@ =~= seq!['C', '#'] && names[2]@ =~= seq!['D']
        && names[3]@ =~= seq!['D', '#'] && names[4]@ =~= seq!['E'] && names[5]@ =~= seq!['F']
        && names[6]@ =~= seq!['F', '#'] && names[7]@ =~= seq!['G'] && names[8]@ =~= seq!['G', '#']
        && names[9]@ =~= seq!['A'] && names[10]@ =~= seq!['A', '#'] && names[11]@ =~= seq!['B']);
}

/// The window is shown by its length in samples, the speed by its rows per frame, and the
/// ends of the range by their notes.
pub proof fn law_settings_are_shown(p: Params)
    requires
        p.wf(),
    ensures
        text::number(p.shown(Param::Fft)) == if p.fft_exp == 12 {
            4096
        } else if p.fft_exp == 13 {
            8192
        } else {
            16384nat
        },
        frames::rows_per_four(p.speed_idx as int) % 4 == 0 ==> p.shown(Param::Speed)
            == text::digits((frames::rows_per_four(p.speed_idx as int) / 4) as nat),
        frames::rows_per_four(p.speed_idx as int) == 1 ==> p.shown(Param::Speed) == seq!['¼'],
        frames::rows_per_four(p.speed_idx as int) == 2 ==> p.shown(Param::Speed) == seq!['½'],
        p.shown(Param::RangeLo) == controls::named(p.range_lo as int),
        p.shown(Param::RangeHi) == controls::named(p.range_hi as int),
{
    power2::lemma2_to64();
    numerals::law_digits_write_number(power2::pow2(p.fft_exp as nat));
    reveal_strlit("¼");
    reveal_strlit("½");
    reveal_strlit("1");
    reveal_strlit("2");
    reveal_strlit("3");
    reveal_strlit("4");
    let labels = controls::SPEED_LABELS@;
    assert(labels[0]@ =~= seq!['¼'] && labels[1]@ =~= seq!['½'] && labels[2]@ =~= seq!['1']
        && labels[3]@ =~= seq!['2'] && labels[4]@ =~= seq!['3'] && labels[5]@ =~= seq!['4']);
    assert(text::digits(1) =~= seq!['1'] && text::digits(2) =~= seq!['2'] && text::digits(3)
        =~= seq!['3'] && text::digits(4) =~= seq!['4']);
}

/// A pitch is heard exactly where its strength on the contrast curve is 0.15 or more, with its
/// own frequency and that strength.
pub proof fn law_heard_from_threshold(c: Candidate, octaves: Single, exponential: Single)
    requires
        !exponential.nan(),
        exponential.rank() >= 0,
    ensures
        ({
            let (v, b) = (analysis::curve(exponential), errors::big());
            &&& 20 * v.value() >= 3 * b + errors::slack() ==> c.heard(octaves, exponential)
                == Some((analysis::note_above(octaves), c.freq, v))
            &&& 20 * v.value() <= 3 * b - errors::slack() ==> c.heard(octaves, exponential) is None
        }),
{
    let (v, b) = (analysis::curve(exponential), errors::big());
    let limit = Single { bits: THREE_TWENTIETHS };
    contrast::law_curve_falls(exponential, exponential);
    order::lemma_units_of(limit, 0x99_999a, 123);
    power2::lemma2_to64();
    shades::lemma_grains();
    rounding::lemma_pow2_facts(26, 123);
    rounding::lemma_pow2_facts(12, 123);
    let w = power2::pow2(123) as int;
    assert(b == 0x400_0000 * w && errors::slack() == 4096 * w);
    single::lemma_less_is_order(v, limit);
}

/// Levels count from 80 dB below the loudest bin on.
pub proof fn law_floor_is_eighty_below_peak(a: Analyzer)
    requires
        combs::tame(a.peak_db),
    ensures
        pitch::noise_floor(a).finite(),
        errors::near(
            pitch::noise_floor(a).value(),
            a.peak_db.value() - 80 * errors::big(),
            errors::slack(),
        ),
{
    let eighty = Single { bits: EIGHTY };
    let b = errors::big();
    shades::lemma_grains();
    power2::lemma2_to64();
    order::lemma_units_of(eighty, 0xa0_0000, 132);
    rounding::lemma_pow2_facts(132, 17);
    assert(0xa0_0000 * power2::pow2(132) == 80 * b) by (nonlinear_arith)
        requires
            b == power2::pow2(132) * 0x2_0000,
    ;
    let less = eighty.negated();
    assert(less.units() == eighty.units());
    errors::lemma_sum_error(a.peak_db, less, 136);
}

/// The loudest level is no lower than any that is a number, nor than -200 dB, and is one of
/// these.
pub proof fn law_loudest_is_a_level(levels: Seq<Single>, i: int)
    ensures
        ({
            let top = analysis::loudest(levels);
            &&& !top.nan()
            &&& top.rank() >= (Single { bits: MINUS_200 }).rank()
            &&& 0 <= i < levels.len() && !levels[i].nan() ==> levels[i].rank() <= top.rank()
            &&& top == (Single { bits: MINUS_200 }) || levels.contains(top)
        }),
    decreases levels.len(),
{
    if levels.len() > 0 {
        let rest = levels.drop_last();
        let n = levels.len() - 1;
        law_loudest_is_a_level(rest, i);
        let top = analysis::loudest(levels);
        if 0 <= i < n {
            assert(rest[i] == levels[i]);
        }
        if top == levels.last() {
            assert(levels[n] == top);
        } else if rest.contains(top) {
            let j = choose|j: int| 0 <= j < rest.len() && rest[j] == top;
            assert(levels[j] == top);
        }
    }
}

/// The name of a note without its octave, by the semitones above C.
pub open spec fn name_within_octave(k: int) -> Seq<char> {
    if sharp(k) {
        seq![letter(k - 1), '#']
    } else {
        seq![letter(k)]
    }
}

proof fn lemma_names(k: int)
    requires
        0 <= k < 12,
    ensures
        controls::NOTE_NAMES@[k]@ == name_within_octave(k),
        written::firm(name_within_octave(k), Cut::Space),
        name_within_octave(k).len() <= 2,
{
    let names = controls::NOTE_NAMES@;
    reveal_strlit("C");
    reveal_strlit("C#");
    reveal_strlit("D");
    reveal_strlit("D#");
    reveal_strlit("E");
    reveal_strlit("F");
    reveal_strlit("F#");
    reveal_strlit("G");
    reveal_strlit("G#");
    reveal_strlit("A");
    reveal_strlit("A#");
    reveal_strlit("B");
    assert(names[0]@ =~= seq!['C'] && names[1]@ =~= seq!['C', '#'] && names[2]@ =~= seq!['D']
        && names[3]@ =~= seq!['D', '#'] && names[4]@ =~= seq!['E'] && names[5]@ =~= seq!['F']
        && names[6]@ =~= seq!['F', '#'] && names[7]@ =~= seq!['G'] && names[8]@ =~= seq!['G', '#']
        && names[9]@ =~= seq!['A'] && names[10]@ =~= seq!['A', '#'] && names[11]@ =~= seq!['B']);
    assert(names[k]@ =~= name_within_octave(k));
}

/// Filling up with spaces does not change what is read.
pub proof fn law_padding_keeps_text(s: Seq<char>, n: nat)
    requires
        written::firm(s, Cut::Space),
    ensures
        text::trimmed(text::pad_start(s, n)) == s,
        text::trimmed(text::pad_end(s, n)) == s,
        text::trimmed(s) == s,
        s.len() <= n ==> text::pad_start(s, n).len() == n && text::pad_end(s, n).len() == n,
{
    let none = Seq::<char>::empty();
    let gap = text::spaces((n - s.len()) as nat);
    assert(none + s + none =~= s);
    written::law_cutting_leaves_text(none, s, none, Cut::Space);
    if s.len() < n {
        assert(gap + s + none =~= text::pad_start(s, n));
        assert(none + s + gap =~= text::pad_end(s, n));
        written::law_cutting_leaves_text(gap, s, none, Cut::Space);
        written::law_cutting_leaves_text(none, s, gap, Cut::Space);
    }
}

/// The piece of the wheel for the note `k` semitones above A: at the top, down the right side,
/// at the bottom, and up the left side.
pub open spec fn on_wheel(lines: Seq<Shown>, k: int) -> (Seq<char>, Ink) {
    if k == 0 {
        lines[0][0]
    } else if k < 6 {
        lines[k][2]
    } else if k == 6 {
        lines[6][0]
    } else {
        lines[12 - k][0]
    }
}

/// A piece names a note in the colour of `midi`.
#[verifier::opaque]
pub open spec fn names_note(piece: (Seq<char>, Ink), midi: int) -> bool {
    &&& text::trimmed(piece.0) == name_within_octave(midi % 12)
    &&& piece.1.fg == Some(view::tint(Single::whole(midi)))
}

proof fn lemma_wheel_end(midi: int)
    ensures
        names_note(view::wheel_end(midi)[0], midi),
{
    reveal(view::wheel_end);
    reveal(names_note);
    lemma_names(midi % 12);
    law_padding_keeps_text(name_within_octave(midi % 12), 2);
}

proof fn lemma_wheel_row(left: int, gap: nat, right: int)
    ensures
        names_note(view::wheel_row(left, gap, right)[0], left),
        names_note(view::wheel_row(left, gap, right)[2], right),
{
    reveal(view::wheel_row);
    reveal(names_note);
    lemma_names(left % 12);
    lemma_names(right % 12);
    law_padding_keeps_text(name_within_octave(left % 12), 2);
    law_padding_keeps_text(name_within_octave(right % 12), 2);
}

/// The note of the wheel `k` semitones above A.
spec fn wheel_note(k: int) -> int {
    if k < 7 {
        69 + k
    } else {
        57 + k
    }
}

proof fn lemma_on_wheel(k: int)
    requires
        0 <= k < 12,
    ensures
        names_note(on_wheel(view::wheel_lines(), k), wheel_note(k)),
{
    let lines = view::wheel_lines();
    if k == 0 {
        lemma_wheel_end(69);
        assert(lines[0] == view::wheel_end(69));
    } else if k == 6 {
        lemma_wheel_end(75);
        assert(lines[6] == view::wheel_end(75));
    } else if k == 1 || k == 11 {
        lemma_wheel_row(68, 4, 70);
        assert(lines[1] == view::wheel_row(68, 4, 70));
    } else if k == 2 || k == 10 {
        lemma_wheel_row(67, 9, 71);
        assert(lines[2] == view::wheel_row(67, 9, 71));
    } else if k == 3 || k == 9 {
        lemma_wheel_row(66, 12, 72);
        assert(lines[3] == view::wheel_row(66, 12, 72));
    } else if k == 4 || k == 8 {
        lemma_wheel_row(65, 9, 73);
        assert(lines[4] == view::wheel_row(65, 9, 73));
    } else {
        lemma_wheel_row(64, 4, 74);
        assert(lines[5] == view::wheel_row(64, 4, 74));
    }
}

/// The wheel names the twelve notes clockwise from A at the top, each in the colour that
/// stands for it.
pub proof fn law_wheel_names_every_note(area: Area, k: int)
    requires
        0 <= k < 12,
    ensures
        ({
            let (name, ink) = on_wheel(view::sight_wheel(area).lines, k);
            let c = notes::colour_at(k);
            &&& text::trimmed(name) == name_within_octave((k + 9) % 12)
            &&& ink.fg == Some(Paint::Rgb(c.0, c.1, c.2))
        }),
{
    let midi = wheel_note(k);
    assert(midi % 12 == (k + 9) % 12);
    assert((midi - 21) % 12 == k);
    lemma_on_wheel(k);
    reveal(names_note);
    notes::law_note_colours(midi);
}

} // verus!
