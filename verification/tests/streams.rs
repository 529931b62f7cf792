use chromatui::streams::{
    is_us, not_registered, our_source_output_id, parse_our_stream, parse_source_outputs,
    source_name_for_index, NotRegistered,
};

/// The shape of `pactl list source-outputs`: two blocks, ours second.
const LISTING: &str = "\
Source Output #1346
\tDriver: protocol-native.c
\tSource: 51
\tSample Specification: s16le 2ch 44100Hz
\tProperties:
\t\tapplication.name = \"ALSA plug-in [aplay]\"
\t\tapplication.process.id = \"11111\"
Source Output #1398
\tDriver: protocol-native.c
\tSource: 53
\tSample Specification: s24-32le 2ch 48000Hz
\tProperties:
\t\tapplication.name = \"ALSA plug-in [chromatui]\"
\t\tapplication.process.id = \"16844\"
";

/// The same, but the server recorded no process id for our stream.
const LISTING_NO_PID: &str = "\
Source Output #1346
\tDriver: protocol-native.c
\tSource: 51
\tProperties:
\t\tapplication.name = \"ALSA plug-in [aplay]\"
\t\tapplication.process.id = \"11111\"
Source Output #1398
\tDriver: protocol-native.c
\tSource: 53
\tProperties:
\t\tapplication.name = \"ALSA plug-in [chromatui]\"
";

const SOURCES: &str = "\
51\talsa_output.pci-0000_00_1f.3.HiFi__hw_sofhdadsp__sink.monitor\tPipeWire\ts24-32le 2ch 48000Hz\tRUNNING
53\talsa_input.pci-0000_00_1f.3.HiFi__hw_sofhdadsp_6__source\tPipeWire\ts32le 2ch 48000Hz\tIDLE
";

#[test]
fn finds_our_block_among_several() {
    assert_eq!(parse_our_stream(LISTING, "16844"), Some((1398, 53)));
    assert_eq!(parse_our_stream(LISTING, "11111"), Some((1346, 51)));
    assert_eq!(parse_our_stream(LISTING, "99999"), None);
}

#[test]
fn falls_back_to_app_name_when_pid_is_missing() {
    // pid 99999 is not in the listing, but exactly one block is ours by name.
    assert_eq!(parse_our_stream(LISTING_NO_PID, "99999"), Some((1398, 53)));
}

#[test]
fn refuses_to_guess_between_two_same_named_blocks() {
    let two = LISTING_NO_PID.to_string()
        + "Source Output #1400\n\tSource: 54\n\tProperties:\n\
           \t\tapplication.name = \"ALSA plug-in [chromatui]\"\n";
    assert_eq!(parse_our_stream(&two, "99999"), None);
}

#[test]
fn a_pid_match_wins_over_a_name_match() {
    // Our own pid must beat a stale or other block of the same name.
    let mixed = "Source Output #1\n\tSource: 5\n\tProperties:\n\
                 \t\tapplication.name = \"ALSA plug-in [chromatui]\"\n\
                 Source Output #2\n\tSource: 6\n\tProperties:\n\
                 \t\tapplication.name = \"weird-wrapper\"\n\
                 \t\tapplication.process.id = \"777\"\n";
    assert_eq!(parse_our_stream(mixed, "777"), Some((2, 6)));
}

#[test]
fn error_distinguishes_empty_listing_from_no_match() {
    let empty = not_registered("", "1234").to_string();
    assert!(empty.contains("no capture streams"), "{empty}");

    let unmatched = not_registered(LISTING, "1234").to_string();
    assert!(unmatched.contains("1234"), "{unmatched}");
    assert!(unmatched.contains('2'), "should say how many were listed");
    assert!(!unmatched.contains("no capture streams"), "{unmatched}");
}

#[test]
fn maps_source_index_to_name() {
    assert!(source_name_for_index(SOURCES, 51).is_some_and(|n| n.ends_with(".monitor")));
    assert!(source_name_for_index(SOURCES, 53).is_some_and(|n| !n.ends_with(".monitor")));
    assert_eq!(source_name_for_index(SOURCES, 42), None);
}

#[test]
fn reports_name_every_listed_stream() {
    let text = not_registered(LISTING, "1234").to_string();
    assert_eq!(text, "pid 1234 not among 2 listed streams: pid 11111, pid 16844");
    let text = not_registered(LISTING_NO_PID, "7").to_string();
    assert_eq!(
        text,
        "pid 7 not among 2 listed streams: pid 11111, \"ALSA plug-in [chromatui]\" (no pid)"
    );
    let text = not_registered("Source Output #9\n\tDriver: x\n", "7").to_string();
    assert_eq!(text, "pid 7 not among 1 listed streams: unnamed");
    assert_eq!(
        not_registered("", "7").to_string(),
        "no capture streams listed by pactl — mic opened outside PipeWire/PulseAudio"
    );
}

#[test]
fn identifiers_or_errors() {
    assert!(matches!(our_source_output_id(LISTING, "16844"), Ok(1398)));
    assert!(matches!(our_source_output_id("", "16844"), Err(NotRegistered::NoStreams)));
    assert!(matches!(our_source_output_id(LISTING, "1"), Err(NotRegistered::Unlisted { .. })));
    // A stream of ours without a source cannot be used.
    let sourceless = "Source Output #4\n\tapplication.process.id = \"8\"\n";
    assert!(matches!(our_source_output_id(sourceless, "8"), Err(NotRegistered::Unlisted { .. })));
}

#[test]
fn a_block_with_an_unreadable_header_is_dropped() {
    let listing = "Source Output #12\n\tSource: 3\nSource Output #x\n\tSource: 4\n\
                   \t\tapplication.process.id = \"5\"\nSource Output #13\r\n  Source:  7 \r\n\
                   application.process.id = \" 6 \"\n";
    let outs = parse_source_outputs(listing);
    assert_eq!(outs.len(), 2);
    assert_eq!(outs[0].id, 12);
    assert_eq!(outs[0].source, Some(3));
    assert_eq!(outs[0].pid, None);
    assert_eq!(outs[1].id, 13);
    assert_eq!(outs[1].source, Some(7));
    assert_eq!(outs[1].pid.as_deref(), Some(" 6 "));
    assert_eq!(parse_our_stream(listing, "5"), None);
}

#[test]
fn names_are_recognised_leniently() {
    assert!(is_us("ALSA plug-in [ChromaTUI]"));
    assert!(is_us("chromatui"));
    assert!(!is_us("chroma tui"));
    assert!(!is_us(""));
}

#[test]
fn short_listing_edges() {
    assert_eq!(source_name_for_index("7\n8\tb\n", 7), None);
    assert_eq!(source_name_for_index("7\n8\tb\n", 8), Some("b"));
    assert_eq!(source_name_for_index(" 8 \tb\tc\n", 8), Some("b"));
    assert_eq!(source_name_for_index("x\ta\n+8\tb\n", 8), Some("b"));
    assert_eq!(source_name_for_index("4294967296\ta\n", 0), None);
}

#[test]
fn joined_listings_are_read_in_turn() {
    let ids = |text: &str| -> Vec<u32> {
        parse_source_outputs(text).iter().map(|o| o.id).collect()
    };
    assert_eq!(ids(LISTING), [1346, 1398]);
    let both = LISTING.to_string() + LISTING_NO_PID;
    assert_eq!(ids(&both), [1346, 1398, 1346, 1398]);
    let cut = LISTING.trim_end().to_string() + "\n" + LISTING_NO_PID;
    for text in [both, cut] {
        let outs = parse_source_outputs(&text);
        let pids: Vec<_> = outs.iter().map(|o| o.pid.as_deref()).collect();
        assert_eq!(pids, [Some("11111"), Some("16844"), Some("11111"), None]);
        let sources: Vec<_> = outs.iter().map(|o| o.source).collect();
        assert_eq!(sources, [Some(51), Some(53), Some(51), Some(53)]);
    }
}

#[test]
fn only_headers_that_can_be_read_open_a_block() {
    let text = "Source: 5\nSource Output #7\nSource Output #x\nSource: 9\nSource Output #7\n";
    let outs = parse_source_outputs(text);
    let ids: Vec<u32> = outs.iter().map(|o| o.id).collect();
    assert_eq!(ids, [7, 7]);
    assert!(parse_source_outputs("Source: 5\napplication.process.id = \"1\"\n").is_empty());
}
