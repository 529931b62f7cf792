//! The capture side: where the sound comes from, the ring of recent samples,
//! and the decisions around the sound server's command line tool.
use crate::order;
use crate::rounding;
use crate::single;
use crate::single::{Single, SIGN};
use crate::streams;
use crate::streams::{our_source_output_id, parse_our_stream, source_name_for_index};
use crate::text;
use crate::text::{digits_of, ends_with, trim};
use std::collections::VecDeque;
use vstd::arithmetic::power2;
use vstd::prelude::*;

verus! {

/// Enough for the largest analysis window (16384) with headroom.
pub const CAPACITY: usize = 0x8000;

/// How often a new stream is looked for before giving up.
pub const PROBE_TRIES: u32 = 20;

/// What the live capture stream is currently pointed at.
#[derive(Clone, Copy, Debug, PartialEq, Eq, Structural)]
pub enum InputSource {
    Mic,
    Internal,
}

impl InputSource {
    pub fn label(self) -> (r: &'static str)
        ensures
            r@ == match self {
                InputSource::Mic => "microphone"@,
                InputSource::Internal => "internal audio"@,
            },
    {
        match self {
            InputSource::Mic => "microphone",
            InputSource::Internal => "internal audio",
        }
    }

    /// Short form for the always-visible panel footer.
    pub open spec fn brief(self) -> Seq<char> {
        match self {
            InputSource::Mic => "mic"@,
            InputSource::Internal => "internal"@,
        }
    }

    /// Short form for the always-visible panel footer.
    pub fn short(self) -> (r: &'static str)
        ensures
            r@ == self.brief(),
    {
        match self {
            InputSource::Mic => "mic",
            InputSource::Internal => "internal",
        }
    }

    /// The other source.
    pub open spec fn flipped(self) -> InputSource {
        match self {
            InputSource::Mic => InputSource::Internal,
            InputSource::Internal => InputSource::Mic,
        }
    }

    /// The other source.
    pub fn other(self) -> (r: InputSource)
        ensures
            r == self.flipped(),
    {
        match self {
            InputSource::Mic => InputSource::Internal,
            InputSource::Internal => InputSource::Mic,
        }
    }
}

/// The sum of samples from the first on.
pub open spec fn total(frame: Seq<Single>) -> Single
    decreases frame.len(),
{
    if frame.len() == 0 {
        Single { bits: SIGN }
    } else {
        total(frame.drop_last()).plus(frame.last())
    }
}

/// The mean of a frame's channels.
pub open spec fn mean(frame: Seq<Single>) -> Single {
    total(frame).over(Single::whole(frame.len() as int))
}

/// Interleaved samples with the channels of each frame averaged; a frame at the
/// end may lack channels.
pub open spec fn mono(data: Seq<Single>, channels: nat) -> Seq<Single>
    decreases data.len(),
{
    if data.len() == 0 || channels == 0 {
        Seq::empty()
    } else if data.len() <= channels {
        seq![mean(data)]
    } else {
        seq![mean(data.take(channels as int))] + mono(data.skip(channels as int), channels)
    }
}

/// The last `n` of `s`, or all of it.
pub open spec fn latest(s: Seq<Single>, n: nat) -> Seq<Single> {
    if s.len() > n {
        s.skip(s.len() - n)
    } else {
        s
    }
}

/// The last `n` of `s` behind as many zeros as it takes to make `n`.
pub open spec fn padded(s: Seq<Single>, n: nat) -> Seq<Single> {
    Seq::new((n - latest(s, n).len()) as nat, |i: int| Single { bits: 0 }) + latest(s, n)
}

/// The open capture: its facts and a ring of its most recent samples.
#[derive(Debug)]
pub struct AudioInput {
    pub sample_rate: Single,
    pub device_name: String,
    pub source: InputSource,
    /// The most recent samples, oldest first.
    pub buffer: VecDeque<Single>,
}

impl AudioInput {
    /// The samples held, oldest first.
    pub open spec fn samples(self) -> Seq<Single> {
        self.buffer@
    }

    /// The ring holds no more than its capacity.
    pub open spec fn wf(self) -> bool {
        self.samples().len() <= CAPACITY
    }

    /// A capture that was just opened. The server may have restored an earlier
    /// route, so the source is the one detected; without a detection it is the
    /// microphone.
    pub fn opened(
        sample_rate: u32,
        device_name: Option<String>,
        detected: Option<InputSource>,
    ) -> (r: AudioInput)
        ensures
            r.wf(),
            r.samples() == Seq::<Single>::empty(),
            r.sample_rate == Single::whole(sample_rate as int),
            r.device_name@ == match device_name {
                Some(name) => name@,
                None => "unknown"@,
            },
            r.source == match detected {
                Some(source) => source,
                None => InputSource::Mic,
            },
    {
        AudioInput {
            sample_rate: Single::from_u64(sample_rate as u64),
            device_name: match device_name {
                Some(name) => name,
                None => "unknown".to_string(),
            },
            source: match detected {
                Some(source) => source,
                None => InputSource::Mic,
            },
            buffer: VecDeque::new(),
        }
    }

    /// Mix interleaved samples down to one channel and keep the latest.
    pub fn push_mono(&mut self, data: &[Single], channels: usize)
        requires
            old(self).wf(),
        ensures
            final(self).wf(),
            final(self).samples() == latest(
                old(self).samples() + mono(
                    data@,
                    if channels > 0 {
                        channels as nat
                    } else {
                        1
                    },
                ),
                CAPACITY as nat,
            ),
            final(self).sample_rate == old(self).sample_rate,
            final(self).device_name == old(self).device_name,
            final(self).source == old(self).source,
    {
        let width: usize = if channels > 0 {
            channels
        } else {
            1
        };
        let n: usize = data.len();
        let ghost held = self.buffer@;
        let ghost whole = mono(data@, width as nat);
        let mut at: usize = 0;
        assert(data@.skip(0) == data@);
        assert(held + whole == self.buffer@ + mono(data@.skip(0), width as nat));
        while at < n
            invariant
                at <= n,
                n == data.len(),
                width > 0,
                held + whole == self.buffer@ + mono(data@.skip(at as int), width as nat),
                self.sample_rate == old(self).sample_rate,
                self.device_name == old(self).device_name,
                self.source == old(self).source,
            decreases n - at,
        {
            let end: usize = if n - at <= width {
                n
            } else {
                at + width
            };
            let ghost rest = data@.skip(at as int);
            let ghost frame = data@.subrange(at as int, end as int);
            let mut sum: Single = Single { bits: SIGN };
            let mut i: usize = at;
            assert(data@.subrange(at as int, at as int).len() == 0);
            while i < end
                invariant
                    at <= i <= end,
                    end <= n,
                    n == data.len(),
                    sum == total(data@.subrange(at as int, i as int)),
                decreases end - i,
            {
                assert(data@.subrange(at as int, i + 1).drop_last() == data@.subrange(
                    at as int,
                    i as int,
                ));
                sum = sum.add(data[i]);
                i = i + 1;
            }
            let m: Single = sum.div(Single::from_u64((end - at) as u64));
            proof {
                assert(m == mean(frame));
                if end == n {
                    assert(frame =~= rest);
                    assert(mono(data@.skip(end as int), width as nat).len() == 0);
                    assert(mono(rest, width as nat) =~= seq![m] + mono(
                        data@.skip(end as int),
                        width as nat,
                    ));
                } else {
                    assert(frame =~= rest.take(width as int));
                    assert(rest.skip(width as int) =~= data@.skip(end as int));
                }
            }
            let ghost before = self.buffer@;
            self.buffer.push_back(m);
            assert(self.buffer@ + mono(data@.skip(end as int), width as nat) =~= before + mono(
                rest,
                width as nat,
            ));
            at = end;
        }
        assert(self.buffer@ =~= held + whole);
        let ghost full = self.buffer@;
        while self.buffer.len() > CAPACITY
            invariant
                self.buffer@.len() <= full.len(),
                self.buffer@ == full.skip(full.len() - self.buffer@.len()),
                full.len() > CAPACITY ==> self.buffer@.len() >= CAPACITY,
                full.len() <= CAPACITY ==> self.buffer@ == full,
                self.sample_rate == old(self).sample_rate,
                self.device_name == old(self).device_name,
                self.source == old(self).source,
            decreases self.buffer@.len(),
        {
            let ghost before = self.buffer@;
            let _ = self.buffer.pop_front();
            assert(self.buffer@ =~= before.skip(1));
            assert(self.buffer@ =~= full.skip(full.len() - self.buffer@.len()));
        }
    }

    /// Begin to flip between the microphone and the monitor of the default sink.
    pub fn toggle_source(&self) -> (r: Switch)
        ensures
            r == Switch::Query(self.source.flipped()),
    {
        Switch::Query(self.source.other())
    }

    /// Take the end of a switch. Where it failed, nothing changes.
    pub fn set_source(&mut self, end: Switch) -> (r: Result<(), String>)
        requires
            end.finished(),
        ensures
            match end {
                Switch::Moved(to) => r is Ok && final(self).source == to,
                Switch::Lost(m) => r is Err && r->Err_0@ == m@ && *final(self) == *old(self),
                Switch::Failed(m) => r is Err && r->Err_0@ == m@ && *final(self) == *old(self),
                _ => true,
            },
            final(self).sample_rate == old(self).sample_rate,
            final(self).device_name == old(self).device_name,
            final(self).buffer == old(self).buffer,
    {
        match end {
            Switch::Moved(to) => {
                self.source = to;
                Ok(())
            },
            Switch::Lost(m) => Err(m),
            Switch::Failed(m) => Err(m),
            _ => Ok(()),
        }
    }

    /// Fill `out` with the most recent samples, zero-padding the front when not
    /// enough audio has arrived yet.
    pub fn copy_latest(&self, out: &mut Vec<Single>)
        ensures
            final(out)@ == padded(self.samples(), old(out)@.len()),
    {
        let n: usize = out.len();
        let held: usize = self.buffer.len();
        let have: usize = if held < n {
            held
        } else {
            n
        };
        let pad: usize = n - have;
        let skip: usize = held - have;
        let ghost want = padded(self.samples(), n as nat);
        let mut i: usize = 0;
        while i < n
            invariant
                i <= n,
                n == out@.len(),
                have <= n,
                pad == n - have,
                held == self.buffer@.len(),
                skip == held - have,
                have == if held < n {
                    held
                } else {
                    n
                },
                want == padded(self.samples(), n as nat),
                forall|j: int| 0 <= j < i ==> out@[j] == want[j],
            decreases n - i,
        {
            if i < pad {
                out.set(i, Single { bits: 0 });
            } else {
                out.set(i, self.buffer[skip + (i - pad)]);
            }
            i = i + 1;
        }
        assert(out@ =~= want);
    }
}

/// A signed 16-bit sample, out of full scale.
pub open spec fn signed_level(s: int) -> Single {
    Single::whole(s).over(Single::whole(32767))
}

/// An unsigned 16-bit sample, out of full scale.
pub open spec fn unsigned_level(s: int) -> Single {
    Single::whole(s).minus(Single::whole(32768)).over(Single::whole(32768))
}

/// A signed 16-bit sample.
pub fn from_i16(s: i16) -> (r: Single)
    ensures
        r == Single::whole(s as int).over(Single::whole(32767)),
        r == signed_level(s as int),
{
    Single::from_i32(s as i32).div(Single::from_i32(32767))
}

/// An unsigned 16-bit sample.
pub fn from_u16(s: u16) -> (r: Single)
    ensures
        r == Single::whole(s as int).minus(Single::whole(32768)).over(Single::whole(32768)),
        r == unsigned_level(s as int),
{
    Single::from_i32(s as i32).sub(Single::from_i32(32768)).div(Single::from_i32(32768))
}

/// What a run of the sound server's tool led to.
pub enum Run {
    /// It could not be started.
    Missing,
    /// It ended, with what it wrote to its two outputs.
    Ended { success: bool, stdout: String, stderr: String },
}

/// What a run of the tool with `command` means: its trimmed output, or what
/// to report.
pub fn tool_reply(run: Run, command: &str) -> (r: Result<String, String>)
    ensures
        match run {
            Run::Missing => r is Err && r->Err_0@
                == "pactl not found — input switching needs PipeWire or PulseAudio"@,
            Run::Ended { success, stdout, stderr } => if success {
                r is Ok && r->Ok_0@ == text::trimmed(stdout@)
            } else {
                r is Err && r->Err_0@ == "pactl "@ + command@ + ": "@ + text::trimmed(stderr@)
            },
        },
{
    match run {
        Run::Missing => Err(
            "pactl not found — input switching needs PipeWire or PulseAudio".to_string(),
        ),
        Run::Ended { success, stdout, stderr } => if success {
            Ok(trim(stdout.as_str()).to_string())
        } else {
            let mut e: String = "pactl ".to_string();
            e.append(command);
            e.append(": ");
            e.append(trim(stderr.as_str()));
            Err(e)
        },
    }
}

/// The texts of strings.
pub open spec fn words(strings: Seq<String>) -> Seq<Seq<char>> {
    strings.map_values(|s: String| s@)
}

fn one_word(a: &str) -> (r: Vec<String>)
    ensures
        words(r@) == seq![a@],
{
    let mut r: Vec<String> = Vec::new();
    r.push(a.to_string());
    assert(words(r@) =~= seq![a@]);
    r
}

fn two_words(a: &str, b: &str) -> (r: Vec<String>)
    ensures
        words(r@) == seq![a@, b@],
{
    let mut r: Vec<String> = Vec::new();
    r.push(a.to_string());
    r.push(b.to_string());
    assert(words(r@) =~= seq![a@, b@]);
    r
}

fn three_words(a: &str, b: &str, c: &str) -> (r: Vec<String>)
    ensures
        words(r@) == seq![a@, b@, c@],
{
    let mut r: Vec<String> = two_words(a, b);
    let ghost before = words(r@);
    r.push(c.to_string());
    assert(words(r@) =~= before.push(c@));
    assert(words(r@) =~= seq![a@, b@, c@]);
    r
}

/// The question whose answer names the place to capture from.
pub fn route_query(src: InputSource) -> (r: &'static str)
    ensures
        r@ == match src {
            InputSource::Mic => "get-default-source"@,
            InputSource::Internal => "get-default-sink"@,
        },
{
    match src {
        InputSource::Mic => "get-default-source",
        InputSource::Internal => "get-default-sink",
    }
}

/// The place to capture from, made of the server's answer.
pub open spec fn route(src: InputSource, reply: Seq<char>) -> Seq<char> {
    match src {
        InputSource::Mic => reply,
        InputSource::Internal => reply + ".monitor"@,
    }
}

/// The place to capture from: the default source, or the monitor of the
/// default sink, so that it follows speakers and headphones.
pub fn route_target(src: InputSource, reply: &str) -> (r: String)
    ensures
        r@ == route(src, reply@),
{
    let mut r: String = reply.to_string();
    match src {
        InputSource::Mic => {},
        InputSource::Internal => {
            r.append(".monitor");
        },
    }
    r
}

/// Rerouting the live capture stream. A stream that was opened by the driver
/// cannot name a monitor; moving the stream within the server can.
pub enum Switch {
    /// The place to capture from is to be asked for.
    Query(InputSource),
    /// Our stream is to be found in the listing of source outputs.
    Locate { to: InputSource, target: String },
    /// The stream is to be moved to the target.
    Move { to: InputSource, target: String, id: u32 },
    /// The stream was moved.
    Moved(InputSource),
    /// Our stream was not in the listing; a diagnosis is worth writing down.
    Lost(String),
    /// The server refused.
    Failed(String),
}

impl Switch {
    /// Nothing is left to ask.
    pub open spec fn finished(self) -> bool {
        self is Moved || self is Lost || self is Failed
    }

    /// The source that is being switched to, where the switch still can succeed.
    pub open spec fn goal(self) -> Option<InputSource> {
        match self {
            Switch::Query(to) => Some(to),
            Switch::Locate { to, .. } => Some(to),
            Switch::Move { to, .. } => Some(to),
            Switch::Moved(to) => Some(to),
            _ => None,
        }
    }

    /// The words that the tool is run with in this state; none when nothing is
    /// left to ask.
    pub open spec fn asking(self) -> Seq<Seq<char>> {
        match self {
            Switch::Query(InputSource::Mic) => seq!["get-default-source"@],
            Switch::Query(InputSource::Internal) => seq!["get-default-sink"@],
            Switch::Locate { .. } => seq!["list"@, "source-outputs"@],
            Switch::Move { target, id, .. } => seq![
                "move-source-output"@,
                text::digits(id as nat),
                target@,
            ],
            _ => Seq::empty(),
        }
    }

    /// The words that the tool is run with in this state; none when nothing is
    /// left to ask.
    pub fn command(&self) -> (r: Vec<String>)
        ensures
            words(r@) == self.asking(),
    {
        match self {
            Switch::Query(to) => one_word(route_query(*to)),
            Switch::Locate { .. } => two_words("list", "source-outputs"),
            Switch::Move { target, id, .. } => {
                let number: String = digits_of(*id as u64);
                three_words("move-source-output", number.as_str(), target.as_str())
            },
            _ => {
                let r: Vec<String> = Vec::new();
                assert(words(r@) =~= Seq::empty());
                r
            },
        }
    }

    /// `next` follows when the question of this state gets `reply`.
    pub open spec fn leads(
        self,
        reply: Result<String, String>,
        pid: Seq<char>,
        next: Switch,
    ) -> bool {
        match self {
            Switch::Query(to) => match reply {
                Ok(place) => next matches Switch::Locate { to: t, target } && t == to && target@
                    == route(to, place@),
                Err(e) => next matches Switch::Failed(m) && m@ == e@,
            },
            Switch::Locate { to, target } => match reply {
                Ok(listing) => match streams::our_stream(streams::listed(listing@), pid) {
                    Some((id, _)) => next matches Switch::Move { to: t, target: place, id: n }
                        && t == to && place@ == target@ && n == id,
                    None => next matches Switch::Lost(m) && m@ == streams::unlisted(
                        streams::listed(listing@),
                        pid,
                    ),
                },
                Err(e) => next matches Switch::Failed(m) && m@ == e@,
            },
            Switch::Move { to, .. } => match reply {
                Ok(_) => next == Switch::Moved(to),
                Err(e) => next matches Switch::Failed(m) && m@ == e@,
            },
            _ => next == self,
        }
    }

    /// Take the reply to the question of this state.
    pub fn step(self, reply: Result<String, String>, pid: &str) -> (r: Switch)
        ensures
            self.leads(reply, pid@, r),
    {
        match self {
            Switch::Query(to) => match reply {
                Ok(place) => Switch::Locate { to, target: route_target(to, place.as_str()) },
                Err(e) => Switch::Failed(e),
            },
            Switch::Locate { to, target } => match reply {
                Ok(listing) => match our_source_output_id(listing.as_str(), pid) {
                    Ok(id) => Switch::Move { to, target, id },
                    Err(e) => Switch::Lost(e.to_string()),
                },
                Err(e) => Switch::Failed(e),
            },
            Switch::Move { to, target: _, id: _ } => match reply {
                Ok(_) => Switch::Moved(to),
                Err(e) => Switch::Failed(e),
            },
            Switch::Moved(to) => Switch::Moved(to),
            Switch::Lost(m) => Switch::Lost(m),
            Switch::Failed(m) => Switch::Failed(m),
        }
    }
}

/// What the tool says of the server, or that it said nothing.
pub open spec fn server_info(info: Result<String, String>) -> Seq<char> {
    match info {
        Ok(i) => i@,
        Err(e) => "<pactl info failed: "@ + e@ + ">"@,
    }
}

/// Everything needed to diagnose a failed switch from one run: what the tool
/// says of the server, the listing without our stream, and the sources.
pub fn diagnostics(
    pid: u32,
    info: Result<String, String>,
    listing: &str,
    sources: Result<String, String>,
) -> (r: String)
    ensures
        r@ == "chromatui pid "@ + text::digits(pid as nat) + "\n\n== pactl info ==\n"@
            + server_info(info) + "\n\n== list source-outputs ==\n"@ + listing@
            + "\n\n== list short sources ==\n"@ + (match sources {
            Ok(s) => s@,
            Err(_) => Seq::empty(),
        }) + "\n"@,
{
    let mut r: String = "chromatui pid ".to_string();
    let id: String = digits_of(pid as u64);
    r.append(id.as_str());
    r.append("\n\n== pactl info ==\n");
    let ghost head = r@;
    match &info {
        Ok(i) => r.append(i.as_str()),
        Err(e) => {
            r.append("<pactl info failed: ");
            r.append(e.as_str());
            r.append(">");
        },
    }
    assert(r@ =~= head + server_info(info));
    r.append("\n\n== list source-outputs ==\n");
    r.append(listing);
    r.append("\n\n== list short sources ==\n");
    let ghost middle = r@;
    match &sources {
        Ok(s) => r.append(s.as_str()),
        Err(_) => {},
    }
    assert(r@ =~= middle + (match sources {
        Ok(s) => s@,
        Err(_) => Seq::empty(),
    }));
    r.append("\n");
    r
}

/// A name of a source says which kind it is.
pub open spec fn kind_of(name: Seq<char>) -> InputSource {
    if text::ends(name, ".monitor"@) {
        InputSource::Internal
    } else {
        InputSource::Mic
    }
}

/// Finding out where the server has routed our stream. A stream registers
/// some time after it was started, and the server may move it right after it
/// appears: it is looked for repeatedly, then once more where it settled.
#[derive(Clone, Copy, Debug, PartialEq, Eq, Structural)]
pub enum Probe {
    /// The stream has not been seen, and so many looks are left.
    Seeking(u32),
    /// The stream was seen; the next listing tells where it is.
    Settling,
    /// The stream reads from the source with this index.
    Naming(u32),
    /// The answer, if there is one.
    Done(Option<InputSource>),
}

impl Probe {
    /// The words that the tool is run with in this state; none when the answer
    /// is there.
    pub open spec fn asking(self) -> Seq<Seq<char>> {
        match self {
            Probe::Seeking(_) => seq!["list"@, "source-outputs"@],
            Probe::Settling => seq!["list"@, "source-outputs"@],
            Probe::Naming(_) => seq!["list"@, "short"@, "sources"@],
            Probe::Done(_) => Seq::empty(),
        }
    }

    /// The words that the tool is run with in this state; none when the answer
    /// is there.
    pub fn command(self) -> (r: Vec<String>)
        ensures
            words(r@) == self.asking(),
    {
        match self {
            Probe::Seeking(_) => two_words("list", "source-outputs"),
            Probe::Settling => two_words("list", "source-outputs"),
            Probe::Naming(_) => three_words("list", "short", "sources"),
            Probe::Done(_) => {
                let r: Vec<String> = Vec::new();
                assert(words(r@) =~= Seq::empty());
                r
            },
        }
    }

    /// What a reply to the question of this state leads to. No reply ends the
    /// probe without an answer.
    pub open spec fn after(self, reply: Option<Seq<char>>, pid: Seq<char>) -> Probe {
        match reply {
            None => Probe::Done(
                match self {
                    Probe::Done(answer) => answer,
                    _ => None,
                },
            ),
            Some(listing) => match self {
                Probe::Seeking(left) => if streams::our_stream(
                    streams::listed(listing),
                    pid,
                ) is Some {
                    Probe::Settling
                } else if left <= 1 {
                    Probe::Done(None)
                } else {
                    Probe::Seeking((left - 1) as u32)
                },
                Probe::Settling => match streams::our_stream(streams::listed(listing), pid) {
                    Some((_, source)) => Probe::Naming(source),
                    None => Probe::Done(None),
                },
                Probe::Naming(index) => match streams::name_in_lines(
                    text::lines(listing),
                    index,
                    0,
                ) {
                    Some(name) => Probe::Done(Some(kind_of(name))),
                    None => Probe::Done(None),
                },
                Probe::Done(answer) => Probe::Done(answer),
            },
        }
    }

    /// A probe that has not looked yet.
    pub fn new() -> (r: Probe)
        ensures
            r == Probe::Seeking(PROBE_TRIES),
    {
        Probe::Seeking(PROBE_TRIES)
    }

    /// Take the reply to the question of this state: the listing of source
    /// outputs while seeking and settling, the short listing of sources while
    /// naming. Between two listings of source outputs there is a pause.
    pub fn step(self, reply: Option<&str>, pid: &str) -> (r: Probe)
        ensures
            r == self.after(
                match reply {
                    Some(s) => Some(s@),
                    None => None,
                },
                pid@,
            ),
    {
        match reply {
            None => Probe::Done(
                match self {
                    Probe::Done(answer) => answer,
                    _ => None,
                },
            ),
            Some(listing) => match self {
                Probe::Seeking(left) => if parse_our_stream(listing, pid).is_some() {
                    Probe::Settling
                } else if left <= 1 {
                    Probe::Done(None)
                } else {
                    Probe::Seeking(left - 1)
                },
                Probe::Settling => match parse_our_stream(listing, pid) {
                    Some((_, source)) => Probe::Naming(source),
                    None => Probe::Done(None),
                },
                Probe::Naming(index) => match source_name_for_index(listing, index) {
                    Some(name) => if ends_with(name, ".monitor") {
                        Probe::Done(Some(InputSource::Internal))
                    } else {
                        Probe::Done(Some(InputSource::Mic))
                    },
                    None => Probe::Done(None),
                },
                Probe::Done(answer) => Probe::Done(answer),
            },
        }
    }
}

/// Switching twice leads back to the first source.
pub proof fn law_flip_twice(s: InputSource)
    ensures
        s.flipped() != s,
        s.flipped().flipped() == s,
{
}

/// A switch never ends up anywhere but where it was asked to go.
pub proof fn law_switch_honours_request(
    s: Switch,
    reply: Result<String, String>,
    pid: Seq<char>,
    next: Switch,
)
    requires
        s.leads(reply, pid, next),
        next.goal() is Some,
    ensures
        s.goal() == next.goal(),
{
}

impl Switch {
    /// The questions that are still to come at most.
    pub open spec fn left(self) -> nat {
        match self {
            Switch::Query(_) => 3,
            Switch::Locate { .. } => 2,
            Switch::Move { .. } => 1,
            _ => 0,
        }
    }
}

/// Every reply brings a switch nearer to its end, and it asks until then.
pub proof fn law_switch_ends(
    s: Switch,
    reply: Result<String, String>,
    pid: Seq<char>,
    next: Switch,
)
    requires
        s.leads(reply, pid, next),
    ensures
        s.finished() <==> s.asking().len() == 0,
        if s.finished() {
            next == s
        } else {
            next.left() < s.left()
        },
{
}

impl Probe {
    /// The questions that are still to come at most.
    pub open spec fn left(self) -> nat {
        match self {
            Probe::Seeking(looks) => looks as nat + 3,
            Probe::Settling => 2,
            Probe::Naming(_) => 1,
            Probe::Done(_) => 0,
        }
    }
}

/// Every reply brings a probe nearer to its answer, and it asks until then.
pub proof fn law_probe_ends(p: Probe, reply: Option<Seq<char>>, pid: Seq<char>)
    ensures
        p is Done <==> p.asking().len() == 0,
        if p is Done {
            p.after(reply, pid) == p
        } else {
            p.after(reply, pid).left() < p.left()
        },
{
}

/// The ring is read back as it was written: after any frames are pushed, the
/// latest `n` samples, for `n` within the capacity, are those of everything
/// pushed so far.
pub proof fn law_ring_keeps_latest(held: Seq<Single>, pushed: Seq<Single>, n: nat)
    requires
        n <= CAPACITY,
    ensures
        padded(latest(held + pushed, CAPACITY as nat), n) == padded(held + pushed, n),
{
    let all = held + pushed;
    let kept = latest(all, CAPACITY as nat);
    assert(latest(kept, n) =~= latest(all, n));
}

/// A capture with one channel is kept as it is.
pub proof fn law_one_channel_unchanged(data: Seq<Single>)
    requires
        forall|i: int| 0 <= i < data.len() ==> !(#[trigger] data[i]).nan(),
    ensures
        mono(data, 1) == data,
    decreases data.len(),
{
    reveal(Single::plus);
    reveal(Single::over);
    if data.len() > 0 {
        let x = data[0];
        let frame = data.take(1);
        assert(frame.drop_last().len() == 0);
        assert(frame.last() == x);
        assert(total(frame) == total(frame.drop_last()).plus(x));
        order::lemma_one();
        if x.finite() {
            single::lemma_parts(x);
            single::lemma_parts(Single { bits: SIGN });
            rounding::lemma_nearest_exact(x.significand(), x.exponent());
            power2::lemma2_to64();
            rounding::lemma_pow2_facts(149, 0);
            rounding::lemma_nearest_scale(x.units(), 1, power2::pow2(149));
            assert((Single { bits: SIGN }).value() == 0);
            assert(total(frame) == x);
            assert(1 * power2::pow2(149) == power2::pow2(149));
        }
        assert(mean(frame) == x);
        if data.len() == 1 {
            assert(frame =~= data);
            assert(mono(data, 1) =~= data);
        } else {
            let rest = data.skip(1);
            law_one_channel_unchanged(rest);
            assert(mono(data, 1) =~= data);
        }
    }
}

} // verus!
