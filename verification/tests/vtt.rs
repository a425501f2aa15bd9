use lib::{format_vtt, parse_vtt, Cue, TimeParseError, Timestamp, VttParseError};

fn sample() -> &'static str {
    "WEBVTT\n\n\
     intro\n00:00:01.000 --> 00:00:04.000\nHello there\n\n\
     00:00:05.500 --> 00:00:07.000 align:start\nSecond line\nand a third\n"
}

#[test]
fn vtt_parses_a_well_formed_file() {
    let cues = parse_vtt(sample()).unwrap();
    assert_eq!(cues.len(), 2);
    assert_eq!(cues[0].identifier.as_deref(), Some("intro"));
    assert_eq!(cues[0].lines, vec!["Hello there".to_string()]);
    assert_eq!(cues[1].identifier, None);
    assert_eq!(cues[1].settings.as_deref(), Some("align:start"));
    assert_eq!(cues[1].lines.len(), 2);
}

#[test]
fn vtt_format_and_parse_round_trip() {
    let cues = parse_vtt(sample()).unwrap();
    let rendered = format_vtt(&cues);
    let reparsed = parse_vtt(&rendered).unwrap();
    assert_eq!(cues, reparsed);
}

#[test]
fn vtt_handles_crlf_line_endings() {
    let crlf = sample().replace('\n', "\r\n");
    let cues = parse_vtt(&crlf).unwrap();
    assert_eq!(cues.len(), 2);
}

#[test]
fn strips_leading_byte_order_mark() {
    let with_bom = format!("\u{feff}{}", sample());
    let cues = parse_vtt(&with_bom).unwrap();
    assert_eq!(cues.len(), 2);
}

#[test]
fn skips_note_blocks() {
    let with_note = "WEBVTT\n\nNOTE this is a comment\nspanning lines\n\n\
                      00:00:01.000 --> 00:00:02.000\nText\n";
    let cues = parse_vtt(with_note).unwrap();
    assert_eq!(cues.len(), 1);
}

#[test]
fn rejects_missing_header() {
    let bad = "1\n00:00:01.000 --> 00:00:04.000\nText\n";
    assert!(matches!(parse_vtt(bad), Err(VttParseError::MissingHeader)));
}

#[test]
fn rejects_malformed_timing_line() {
    let bad = "WEBVTT\n\ncue1\nnot a timing line\nText\n";
    assert!(matches!(
        parse_vtt(bad),
        Err(VttParseError::InvalidTimingLine(1, _))
    ));
}

fn cue(id: Option<&str>, start: u32, end: u32, settings: Option<&str>, lines: &[&str]) -> Cue {
    Cue {
        identifier: id.map(|s| s.to_string()),
        start: Timestamp::from_millis(start),
        end: Timestamp::from_millis(end),
        settings: settings.map(|s| s.to_string()),
        lines: lines.iter().map(|l| l.to_string()).collect(),
    }
}

#[test]
fn parse_vtt_reads_every_field() {
    assert_eq!(
        parse_vtt(sample()).unwrap(),
        vec![
            cue(Some("intro"), 1_000, 4_000, None, &["Hello there"]),
            cue(None, 5_500, 7_000, Some("align:start"), &["Second line", "and a third"]),
        ]
    );
}

#[test]
fn parse_vtt_of_a_bare_header_is_empty() {
    assert_eq!(parse_vtt("WEBVTT").unwrap(), vec![]);
    assert_eq!(parse_vtt("WEBVTT - Some title\n\n").unwrap(), vec![]);
}

#[test]
fn parse_vtt_rejects_empty_input() {
    assert_eq!(parse_vtt(""), Err(VttParseError::MissingHeader));
    assert_eq!(parse_vtt(" \n\n "), Err(VttParseError::MissingHeader));
}

#[test]
fn parse_vtt_skips_style_and_region_blocks_without_counting_them() {
    let text = "WEBVTT\n\nSTYLE\n::cue {}\n\nREGION\nid:r\n\nc\nbad\n";
    assert_eq!(
        parse_vtt(text),
        Err(VttParseError::InvalidTimingLine(1, "bad".to_string()))
    );
}

#[test]
fn parse_vtt_reports_an_identifier_without_timing_line() {
    assert_eq!(
        parse_vtt("WEBVTT\n\nfirst\n00:00:01.000 --> 00:00:02.000\n\nlonely\n"),
        Err(VttParseError::MissingTimingLine(2))
    );
}

#[test]
fn parse_vtt_reports_a_bad_timestamp_with_the_cue_number() {
    assert_eq!(
        parse_vtt("WEBVTT\n\n00:00:01.000 --> 2.000\n"),
        Err(VttParseError::InvalidTimestamp(
            1,
            TimeParseError::InvalidFormat("2.000".to_string())
        ))
    );
}

#[test]
fn parse_vtt_trims_the_settings() {
    let text = "WEBVTT\n\n00:00:01.000 -->   00:00:02.000   line:0   size:50%   \nx\n";
    assert_eq!(
        parse_vtt(text).unwrap(),
        vec![cue(None, 1_000, 2_000, Some("line:0   size:50%"), &["x"])]
    );
}

#[test]
fn format_vtt_writes_the_header_and_each_cue() {
    let cues = vec![
        cue(Some("a"), 1_000, 2_000, Some("align:start"), &["x", "y"]),
        cue(None, 3_723_456, 3_724_000, None, &[]),
    ];
    assert_eq!(
        format_vtt(&cues),
        "WEBVTT\n\na\n00:00:01.000 --> 00:00:02.000 align:start\nx\ny\n\n01:02:03.456 --> 01:02:04.000\n"
    );
    assert_eq!(format_vtt(&[]), "WEBVTT\n");
}

#[test]
fn vtt_error_messages() {
    assert_eq!(
        VttParseError::MissingHeader.message(),
        "file does not start with a WEBVTT header"
    );
    assert_eq!(VttParseError::EmptyCueBlock(2).message(), "cue 2 is empty");
    assert_eq!(
        VttParseError::MissingTimingLine(10).message(),
        "cue 10 is missing its timing line"
    );
    assert_eq!(
        VttParseError::InvalidTimingLine(1, "z".to_string()).message(),
        "cue 1 has an invalid timing line: \"z\""
    );
    assert_eq!(
        VttParseError::InvalidTimestamp(3, TimeParseError::OutOfRange("q".to_string())).message(),
        "cue 3 has an invalid timestamp: minutes or seconds out of range in timestamp: \"q\""
    );
}
