use chromatui::audio::{
    diagnostics, from_i16, from_u16, route_query, route_target, tool_reply, AudioInput,
    InputSource, Probe, Run, Switch, CAPACITY,
};
use chromatui::single::Single;

const LISTING: &str = "Source Output #7\n\tSource: 51\n\tapplication.process.id = \"42\"\n";
const SOURCES: &str = "51\tspeakers.monitor\tPipeWire\n53\tmicrophone\tPipeWire\n";

fn f(x: f32) -> Single {
    Single { bits: x.to_bits() }
}

fn to(x: Single) -> f32 {
    f32::from_bits(x.bits)
}

fn input() -> AudioInput {
    AudioInput::opened(48000, None, None)
}

fn latest(a: &AudioInput, n: usize) -> Vec<f32> {
    let mut out = vec![f(9.0); n];
    a.copy_latest(&mut out);
    out.into_iter().map(to).collect()
}

#[test]
fn an_opened_capture() {
    let a = input();
    assert_eq!(to(a.sample_rate), 48000.0);
    assert_eq!(a.device_name, "unknown");
    assert_eq!(a.source, InputSource::Mic);
    let b = AudioInput::opened(44100, Some("box".to_string()), Some(InputSource::Internal));
    assert_eq!(b.device_name, "box");
    assert_eq!(b.source, InputSource::Internal);
}

#[test]
fn channels_are_averaged() {
    let mut a = input();
    a.push_mono(&[f(1.0), f(0.5), f(-1.0), f(0.25), f(0.75)], 2);
    assert_eq!(latest(&a, 3), [0.75, -0.375, 0.75]);
    a.push_mono(&[f(0.1), f(-0.2)], 1);
    assert_eq!(latest(&a, 2), [0.1, -0.2]);
    a.push_mono(&[f(0.3)], 0);
    assert_eq!(latest(&a, 1), [0.3]);
    let frame = [0.1f32, 0.2, 0.7];
    a.push_mono(&frame.map(f), 3);
    assert_eq!(latest(&a, 1), [frame.iter().sum::<f32>() / 3.0]);
}

#[test]
fn missing_audio_is_silence_in_front() {
    let mut a = input();
    assert_eq!(latest(&a, 3), [0.0, 0.0, 0.0]);
    a.push_mono(&[f(0.5)], 1);
    assert_eq!(latest(&a, 3), [0.0, 0.0, 0.5]);
    assert_eq!(latest(&a, 0), []);
}

#[test]
fn the_ring_keeps_the_latest() {
    let mut a = input();
    for block in 0..5 {
        let data: Vec<Single> =
            (0..10000).map(|i| f((block * 10000 + i) as f32)).collect();
        a.push_mono(&data, 1);
    }
    assert_eq!(a.buffer.len(), CAPACITY);
    assert_eq!(latest(&a, 2), [49998.0, 49999.0]);
    assert_eq!(latest(&a, CAPACITY)[0], (50000 - CAPACITY) as f32);
}

#[test]
fn integer_samples() {
    for s in [0i16, 1, -1, 12345, i16::MAX, i16::MIN] {
        assert_eq!(to(from_i16(s)), s as f32 / i16::MAX as f32);
    }
    for s in [0u16, 1, 32768, 40000, u16::MAX] {
        assert_eq!(to(from_u16(s)), (s as f32 - 32768.0) / 32768.0);
    }
}

#[test]
fn replies_of_the_tool() {
    let run = |success, out: &str, err: &str| Run::Ended {
        success,
        stdout: out.to_string(),
        stderr: err.to_string(),
    };
    assert_eq!(tool_reply(run(true, " name\n", "x"), "info"), Ok("name".to_string()));
    assert_eq!(
        tool_reply(run(false, "", "no such entity \n"), "info"),
        Err("pactl info: no such entity".to_string())
    );
    assert_eq!(
        tool_reply(Run::Missing, "info"),
        Err("pactl not found — input switching needs PipeWire or PulseAudio".to_string())
    );
}

#[test]
fn labels_and_routes() {
    assert_eq!(InputSource::Mic.label(), "microphone");
    assert_eq!(InputSource::Internal.label(), "internal audio");
    assert_eq!(InputSource::Mic.short(), "mic");
    assert_eq!(InputSource::Internal.short(), "internal");
    assert_eq!(InputSource::Mic.other(), InputSource::Internal);
    assert_eq!(InputSource::Mic.other().other(), InputSource::Mic);
    assert_eq!(route_query(InputSource::Mic), "get-default-source");
    assert_eq!(route_query(InputSource::Internal), "get-default-sink");
    assert_eq!(route_target(InputSource::Mic, "m"), "m");
    assert_eq!(route_target(InputSource::Internal, "s"), "s.monitor");
}

#[test]
fn a_probe_follows_the_stream() {
    let mut p = Probe::new();
    for _ in 0..3 {
        p = p.step(Some(""), "42");
    }
    assert_eq!(p, Probe::Seeking(17));
    p = p.step(Some(LISTING), "42");
    assert_eq!(p, Probe::Settling);
    p = p.step(Some(LISTING), "42");
    assert_eq!(p, Probe::Naming(51));
    assert_eq!(p.step(Some(SOURCES), "42"), Probe::Done(Some(InputSource::Internal)));
    assert_eq!(
        Probe::Naming(53).step(Some(SOURCES), "42"),
        Probe::Done(Some(InputSource::Mic))
    );
    assert_eq!(Probe::Naming(9).step(Some(SOURCES), "42"), Probe::Done(None));
}

#[test]
fn a_probe_gives_up() {
    let mut p = Probe::new();
    for i in 0..20 {
        assert!(!matches!(p, Probe::Done(_)), "gave up after {i} looks");
        p = p.step(Some(""), "42");
    }
    assert_eq!(p, Probe::Done(None));
    assert_eq!(Probe::new().step(None, "42"), Probe::Done(None));
    assert_eq!(Probe::Settling.step(Some(""), "42"), Probe::Done(None));
    let answer = Probe::Done(Some(InputSource::Mic));
    assert_eq!(answer.step(None, "42"), answer);
}

#[test]
fn a_switch_moves_the_stream() {
    let mut a = input();
    let s = a.toggle_source();
    assert!(matches!(s, Switch::Query(InputSource::Internal)));
    let s = s.step(Ok("speakers".to_string()), "42");
    assert!(matches!(&s, Switch::Locate { target, .. } if target == "speakers.monitor"));
    let s = s.step(Ok(LISTING.to_string()), "42");
    assert!(matches!(&s, Switch::Move { target, id: 7, .. } if target == "speakers.monitor"));
    let s = s.step(Ok("".to_string()), "42");
    assert!(matches!(s, Switch::Moved(InputSource::Internal)));
    assert_eq!(a.set_source(s), Ok(()));
    assert_eq!(a.source, InputSource::Internal);
    assert!(matches!(a.toggle_source(), Switch::Query(InputSource::Mic)));
}

#[test]
fn a_failed_switch_leaves_the_source() {
    let mut a = input();
    let s = a.toggle_source().step(Err("down".to_string()), "42");
    assert!(matches!(&s, Switch::Failed(m) if m == "down"));
    assert_eq!(a.set_source(s), Err("down".to_string()));
    assert_eq!(a.source, InputSource::Mic);

    let s = a.toggle_source().step(Ok("x".to_string()), "1").step(Ok(LISTING.to_string()), "1");
    assert!(matches!(&s, Switch::Lost(m) if m == "pid 1 not among 1 listed streams: pid 42"));
    assert!(a.set_source(s).is_err());
    assert_eq!(a.source, InputSource::Mic);

    let s = Switch::Move { to: InputSource::Internal, target: "t".to_string(), id: 1 };
    assert!(matches!(s.step(Err("no".to_string()), "1"), Switch::Failed(_)));
}

#[test]
fn the_diagnosis_holds_everything() {
    let ok = |s: &str| -> Result<String, String> { Ok(s.to_string()) };
    assert_eq!(
        diagnostics(5, ok("I"), "L", ok("S")),
        "chromatui pid 5\n\n== pactl info ==\nI\n\n== list source-outputs ==\nL\n\n\
         == list short sources ==\nS\n"
    );
    assert_eq!(
        diagnostics(5, Err("no".to_string()), "L", Err("x".to_string())),
        "chromatui pid 5\n\n== pactl info ==\n<pactl info failed: no>\n\n\
         == list source-outputs ==\nL\n\n== list short sources ==\n\n"
    );
}

#[test]
fn what_the_tool_is_asked() {
    assert_eq!(Switch::Query(InputSource::Mic).command(), ["get-default-source"]);
    assert_eq!(Switch::Query(InputSource::Internal).command(), ["get-default-sink"]);
    let to = InputSource::Internal;
    let locate = Switch::Locate { to, target: "t".to_string() };
    assert_eq!(locate.command(), ["list", "source-outputs"]);
    let go = Switch::Move { to, target: "s.monitor".to_string(), id: 1398 };
    assert_eq!(go.command(), ["move-source-output", "1398", "s.monitor"]);
    assert!(Switch::Moved(to).command().is_empty());
    assert!(Switch::Lost("x".to_string()).command().is_empty());
    assert!(Switch::Failed("x".to_string()).command().is_empty());
    assert_eq!(Probe::new().command(), ["list", "source-outputs"]);
    assert_eq!(Probe::Settling.command(), ["list", "source-outputs"]);
    assert_eq!(Probe::Naming(3).command(), ["list", "short", "sources"]);
    assert!(Probe::Done(None).command().is_empty());
}
