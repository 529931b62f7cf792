//! A frame from end to end: what the answers to its questions add up to, where they are those
//! of the functions that were asked for.
use crate::analysis;
use crate::audio;
use crate::audio::{InputSource, Switch};
use crate::detection;
use crate::detection::Machine;
use crate::pass;
use crate::pass::{Ask, Stage};
use crate::single::Single;
use crate::state::App;
use crate::streams;
use crate::text;
use crate::values::{A4, ZERO};
use vstd::prelude::*;

verus! {

/// The reply is what the functions give for what was asked.
pub open spec fn answered(f: Machine, ask: Ask, reply: Seq<Single>) -> bool {
    match ask {
        Ask::Twos(v) => reply == v@.map_values(f.two),
        Ask::Tens(v) => reply == v@.map_values(f.ten),
        Ask::Exponentials(v) => reply == v@.map_values(f.exp),
        Ask::BinaryLogs(v) => reply == v@.map_values(f.log),
        _ => true,
    }
}

/// One step of a frame, with an honest reply to the question before it.
pub open spec fn goes(
    f: Machine,
    before: App,
    stage: Stage,
    ask: Ask,
    reply: Seq<Single>,
    app: App,
    next: Stage,
    then_ask: Ask,
) -> bool {
    answered(f, ask, reply) && pass::moved(before, stage, reply, app, next, then_ask)
}

/// The search of the range, and the frequency's place above A4.
proof fn lemma_search(
    f: Machine,
    app: App,
    powers: Seq<Single>,
    row: Vec<Single>,
    ask: Ask,
    b: App,
    next: Stage,
    then_ask: Ask,
)
    requires
        ask matches Ask::Twos(v) && v@ == seq![
            analysis::octaves_above(Single::whole(app.params.range_lo as int)),
            analysis::octaves_above(Single::whole(app.params.range_hi as int)),
        ],
        goes(f, app, Stage::Range { row }, ask, powers, b, next, then_ask),
    ensures
        match app.analyzer.fundamental_in(
            (f.two)(analysis::octaves_above(Single::whole(app.params.range_lo as int))),
            (f.two)(analysis::octaves_above(Single::whole(app.params.range_hi as int))),
        ) {
            None => pass::finished(app, row@, None, Single { bits: ZERO }, b, next, then_ask),
            Some(c) => {
                &&& b == app
                &&& next matches Stage::Ratio { row: r, found } && r@ == row@ && found == c
                &&& then_ask matches Ask::BinaryLogs(v) && v@ == seq![
                    c.freq.over(Single { bits: A4 }),
                ]
            },
        },
{
    let v = ask->Twos_0@;
    let lo = analysis::octaves_above(Single::whole(app.params.range_lo as int));
    let hi = analysis::octaves_above(Single::whole(app.params.range_hi as int));
    assert(v[0] == lo && v[1] == hi);
    assert(powers[0] == (f.two)(lo));
    assert(powers[1] == (f.two)(hi));
}

/// What a frame reports is what is detected between the notes of the range with the contrast
/// knobs as they stand: where that is nothing, the readout sees nothing; else it sees that
/// note, frequency and strength.
pub proof fn law_frame_reports_what_is_detected(
    f: Machine,
    app: App,
    row: Vec<Single>,
    ask: Ask,
    replies: Seq<Seq<Single>>,
    stages: Seq<Stage>,
    asks: Seq<Ask>,
    apps: Seq<App>,
)
    requires
        replies.len() == 4,
        stages.len() == 4,
        asks.len() == 4,
        apps.len() == 4,
        ask matches Ask::Twos(v) && v@ == seq![
            analysis::octaves_above(Single::whole(app.params.range_lo as int)),
            analysis::octaves_above(Single::whole(app.params.range_hi as int)),
        ],
        goes(f, app, Stage::Range { row }, ask, replies[0], apps[0], stages[0], asks[0]),
        goes(f, apps[0], stages[0], asks[0], replies[1], apps[1], stages[1], asks[1]),
        goes(f, apps[1], stages[1], asks[1], replies[2], apps[2], stages[2], asks[2]),
        goes(f, apps[2], stages[2], asks[2], replies[3], apps[3], stages[3], asks[3]),
    ensures
        match detection::detected(
            app.analyzer,
            app.params.range_lo as int,
            app.params.range_hi as int,
            app.params.midpoint,
            app.params.steep,
            f,
        ) {
            None => {
                &&& stages[3] is Done
                &&& apps[3].row@ == row@
                &&& apps[3].pitch_tracker == app.pitch_tracker.after(None, Single { bits: ZERO })
            },
            Some(reading) => {
                &&& stages[3] matches Stage::Eased { row: r, raw } && r@ == row@ && raw == reading
                &&& apps[3] == app
            },
        },
{
    lemma_search(f, app, replies[0], row, ask, apps[0], stages[0], asks[0]);
    let found = app.analyzer.fundamental_in(
        (f.two)(analysis::octaves_above(Single::whole(app.params.range_lo as int))),
        (f.two)(analysis::octaves_above(Single::whole(app.params.range_hi as int))),
    );
    if let Some(c) = found {
        let v = asks[0]->BinaryLogs_0@;
        assert(v[0] == c.freq.over(Single { bits: A4 }));
        assert(replies[1][0] == (f.log)(c.freq.over(Single { bits: A4 })));
        let octaves = replies[1][0];
        let w = asks[1]->Tens_0@;
        assert(w[0] == analysis::loudness(c.db));
        assert(replies[2][0] == (f.ten)(analysis::loudness(c.db)));
        let x = asks[2]->Exponentials_0@;
        let e = detection::exponent_of(c, app.params.midpoint, app.params.steep, f);
        assert(x[0] == e);
        assert(replies[3][0] == (f.exp)(e));
    }
}

/// The tones of the bands go with their slices: centre, lower and upper edge each have the
/// power of their own note, and the octaves are those of the centre's frequency.
pub proof fn law_tones_go_with_slices(
    f: Machine,
    lo: int,
    hi: int,
    n: nat,
    powers: Seq<Single>,
    octaves: Seq<Single>,
    i: int,
)
    requires
        powers == pass::edges(lo, hi, n).map_values(f.two),
        octaves == pass::ratios(powers, n).map_values(f.log),
        0 <= i < n,
    ensures
        ({
            let (t, s) = (pass::tones(powers, octaves)[i], analysis::slice_at(lo, hi, i as nat, n));
            &&& pass::tones(powers, octaves).len() == n
            &&& t.power == (f.two)(analysis::octaves_above(s.note))
            &&& t.power_lo == (f.two)(analysis::octaves_above(s.note_lo))
            &&& t.power_hi == (f.two)(analysis::octaves_above(s.note_hi))
            &&& t.octaves == (f.log)(
                (Single { bits: A4 }).times(t.power).over(Single { bits: A4 }),
            )
        }),
{
    let e = pass::edges(lo, hi, n);
    assert(powers[i] == (f.two)(e[i]));
    assert(powers[n + i] == (f.two)(e[n + i]));
    assert(powers[2 * n + i] == (f.two)(e[2 * n + i]));
    assert(octaves[i] == (f.log)(pass::ratios(powers, n)[i]));
}

/// A switch that goes well moves our own stream, by its number in the listing, to the default
/// source for the microphone and to the monitor of the default sink for internal audio.
pub proof fn law_switch_moves_our_stream(
    to: InputSource,
    place: String,
    listing: String,
    done: String,
    pid: Seq<char>,
    id: u32,
    source: u32,
    second: Switch,
    third: Switch,
    last: Switch,
)
    requires
        Switch::Query(to).leads(Ok(place), pid, second),
        second.leads(Ok(listing), pid, third),
        third.leads(Ok(done), pid, last),
        streams::our_stream(streams::listed(listing@), pid) == Some((id, source)),
    ensures
        Switch::Query(to).asking() == seq![
            if to is Mic {
                "get-default-source"@
            } else {
                "get-default-sink"@
            },
        ],
        third.asking() == seq![
            "move-source-output"@,
            text::digits(id as nat),
            if to is Mic {
                place@
            } else {
                place@ + ".monitor"@
            },
        ],
        last == Switch::Moved(to),
{
    assert(audio::route(to, place@) == if to is Mic {
        place@
    } else {
        place@ + ".monitor"@
    });
}

} // verus!
