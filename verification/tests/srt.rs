use lib::{format_srt, parse_srt, renumber, shift_by, ParseError, Subtitle, TimeParseError, Timestamp};

fn sample() -> &'static str {
    "1\n00:00:01,000 --> 00:00:04,000\nHello there\n\n2\n00:00:05,500 --> 00:00:07,000\nSecond line\nand a third\n"
}

#[test]
fn srt_parses_a_well_formed_file() {
    let subtitles = parse_srt(sample()).unwrap();
    assert_eq!(subtitles.len(), 2);
    assert_eq!(subtitles[0].index, 1);
    assert_eq!(subtitles[0].lines, vec!["Hello there".to_string()]);
    assert_eq!(subtitles[1].lines.len(), 2);
}

#[test]
fn srt_format_and_parse_round_trip() {
    let subtitles = parse_srt(sample()).unwrap();
    let rendered = format_srt(&subtitles);
    let reparsed = parse_srt(&rendered).unwrap();
    assert_eq!(subtitles, reparsed);
}

#[test]
fn srt_handles_crlf_line_endings() {
    let crlf = sample().replace('\n', "\r\n");
    let subtitles = parse_srt(&crlf).unwrap();
    assert_eq!(subtitles.len(), 2);
}

#[test]
fn rejects_non_numeric_index() {
    let bad = "one\n00:00:01,000 --> 00:00:04,000\nText\n";
    assert!(matches!(parse_srt(bad), Err(ParseError::InvalidIndex(_))));
}

#[test]
fn shift_by_moves_all_entries() {
    let subtitles = parse_srt(sample()).unwrap();
    let shifted = shift_by(&subtitles, 1_000);
    assert_eq!(shifted[0].start.as_millis(), 2_000);
    assert_eq!(shifted[0].end.as_millis(), 5_000);
}

#[test]
fn shift_by_clamps_at_zero() {
    let subtitles = parse_srt(sample()).unwrap();
    let shifted = shift_by(&subtitles, -10_000);
    assert_eq!(shifted[0].start.as_millis(), 0);
}

#[test]
fn renumber_produces_sequential_indices() {
    let mut subtitles = parse_srt(sample()).unwrap();
    subtitles[0].index = 41;
    subtitles[1].index = 99;
    let renumbered = renumber(&subtitles);
    assert_eq!(renumbered[0].index, 1);
    assert_eq!(renumbered[1].index, 2);
}

fn subtitle(index: u32, start: u32, end: u32, lines: &[&str]) -> Subtitle {
    Subtitle {
        index,
        start: Timestamp::from_millis(start),
        end: Timestamp::from_millis(end),
        lines: lines.iter().map(|l| l.to_string()).collect(),
    }
}

#[test]
fn parse_srt_reads_every_field() {
    let subtitles = parse_srt(sample()).unwrap();
    assert_eq!(
        subtitles,
        vec![
            subtitle(1, 1_000, 4_000, &["Hello there"]),
            subtitle(2, 5_500, 7_000, &["Second line", "and a third"]),
        ]
    );
}

#[test]
fn parse_srt_of_empty_or_blank_input_is_empty() {
    assert_eq!(parse_srt("").unwrap(), vec![]);
    assert_eq!(parse_srt("\n\n \r\n\t\n").unwrap(), vec![]);
}

#[test]
fn parse_srt_handles_lone_carriage_returns_and_extra_blank_lines() {
    let text = "\n\n1\r00:00:01,000 --> 00:00:02,000\rA\r\r\r\r2\n00:00:03,000 --> 00:00:04,000\n\n\n";
    assert_eq!(
        parse_srt(text).unwrap(),
        vec![subtitle(1, 1_000, 2_000, &["A"]), subtitle(2, 3_000, 4_000, &[])]
    );
}

#[test]
fn parse_srt_ignores_rendering_hints_after_the_end() {
    let text = "7\n00:00:01,000 --> 00:00:02,500  X1:10 X2:20\nHi\n";
    assert_eq!(parse_srt(text).unwrap(), vec![subtitle(7, 1_000, 2_500, &["Hi"])]);
}

#[test]
fn parse_srt_reports_a_missing_timing_line() {
    assert_eq!(parse_srt("3\n"), Err(ParseError::MissingTimingLine(3)));
}

#[test]
fn parse_srt_reports_a_timing_line_without_an_arrow() {
    assert_eq!(
        parse_srt("3\n00:00:01,000 -> 00:00:02,000\n"),
        Err(ParseError::InvalidTimingLine(
            3,
            "00:00:01,000 -> 00:00:02,000".to_string()
        ))
    );
    assert_eq!(
        parse_srt("4\n00:00:01,000 -->   \n"),
        Err(ParseError::InvalidTimingLine(4, "00:00:01,000 -->".to_string()))
    );
}

#[test]
fn parse_srt_reports_a_bad_timestamp_with_the_index() {
    assert_eq!(
        parse_srt("5\n00:00:01,000 --> 00:61:00,000\n"),
        Err(ParseError::InvalidTimestamp(
            5,
            TimeParseError::OutOfRange("00:61:00,000".to_string())
        ))
    );
}

#[test]
fn parse_srt_reports_the_first_bad_block() {
    let text = "x\n00:00:01,000 --> 00:00:02,000\n\ny\n00:00:01,000 --> 00:00:02,000\n";
    assert_eq!(parse_srt(text), Err(ParseError::InvalidIndex("x".to_string())));
}

#[test]
fn format_srt_writes_blocks_separated_by_blank_lines() {
    let subtitles = vec![
        subtitle(1, 1_000, 4_000, &["Hello there"]),
        subtitle(9, 3_723_456, 3_724_000, &[]),
    ];
    assert_eq!(
        format_srt(&subtitles),
        "1\n00:00:01,000 --> 00:00:04,000\nHello there\n\n9\n01:02:03,456 --> 01:02:04,000\n"
    );
    assert_eq!(format_srt(&[]), "");
}

#[test]
fn shift_by_keeps_everything_but_the_times() {
    let subtitles = vec![subtitle(4, 100, u32::MAX - 5, &["a", "b"])];
    let shifted = shift_by(&subtitles, 10);
    assert_eq!(shifted, vec![subtitle(4, 110, u32::MAX, &["a", "b"])]);
}

#[test]
fn renumber_keeps_everything_but_the_indices() {
    let subtitles = vec![subtitle(5, 1, 2, &["a"]), subtitle(5, 3, 4, &[])];
    assert_eq!(
        renumber(&subtitles),
        vec![subtitle(1, 1, 2, &["a"]), subtitle(2, 3, 4, &[])]
    );
}

#[test]
fn srt_error_messages() {
    assert_eq!(ParseError::EmptyBlock.message(), "found an empty subtitle block");
    assert_eq!(
        ParseError::InvalidIndex("one".to_string()).message(),
        "invalid subtitle index: \"one\""
    );
    assert_eq!(
        ParseError::MissingTimingLine(12).message(),
        "subtitle 12 is missing its timing line"
    );
    assert_eq!(
        ParseError::InvalidTimingLine(3, "x".to_string()).message(),
        "subtitle 3 has an invalid timing line: \"x\""
    );
    assert_eq!(
        ParseError::InvalidTimestamp(4, TimeParseError::InvalidFormat("y".to_string())).message(),
        "subtitle 4 has an invalid timestamp: invalid timestamp format: \"y\""
    );
}

#[test]
fn shift_by_clamps_for_every_offset() {
    let subtitles = vec![subtitle(1, 5, 6, &["a"])];
    assert_eq!(shift_by(&subtitles, i64::MAX), vec![subtitle(1, u32::MAX, u32::MAX, &["a"])]);
    assert_eq!(shift_by(&subtitles, i64::MIN), vec![subtitle(1, 0, 0, &["a"])]);
}
