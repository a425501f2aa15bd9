use lib::{format_srt, format_vtt, parse_srt, parse_vtt, renumber, shift_by, Cue, Subtitle, Timestamp};

fn subtitle(index: u32, start: u32, end: u32, lines: &[&str]) -> Subtitle {
    Subtitle {
        index,
        start: Timestamp::from_millis(start),
        end: Timestamp::from_millis(end),
        lines: lines.iter().map(|l| l.to_string()).collect(),
    }
}

fn cue(id: Option<&str>, start: u32, end: u32, settings: Option<&str>, lines: &[&str]) -> Cue {
    Cue {
        identifier: id.map(|s| s.to_string()),
        start: Timestamp::from_millis(start),
        end: Timestamp::from_millis(end),
        settings: settings.map(|s| s.to_string()),
        lines: lines.iter().map(|l| l.to_string()).collect(),
    }
}

#[test]
fn timestamp_format_then_parse_gives_it_back() {
    for m in [0u32, 1, 999, 1_000, 59_999, 3_599_999, 3_600_000, 123_456_789, u32::MAX] {
        let t = Timestamp::from_millis(m);
        assert_eq!(Timestamp::parse(&t.format()).unwrap(), t);
        assert_eq!(Timestamp::parse_vtt(&t.format_vtt()).unwrap(), t);
    }
}

#[test]
fn srt_format_then_parse_gives_writable_subtitles_back() {
    let subtitles = vec![
        subtitle(0, 0, u32::MAX, &[]),
        subtitle(u32::MAX, 5, 6, &["  leading space kept", "-->", "\u{85}mid", "x"]),
        subtitle(3, 1, 2, &["only"]),
    ];
    assert_eq!(parse_srt(&format_srt(&subtitles)).unwrap(), subtitles);
    assert_eq!(parse_srt(&format_srt(&[])).unwrap(), vec![]);
}

#[test]
fn srt_parse_format_parse_is_stable_on_untidy_input() {
    let text = "  12  \r\n00:00:01.5 -->00:00:02,000 hint\r\n a \r\n\tb\n\n\n\n7\n0:0:0,0 --> 0:0:1,0\n";
    let first = parse_srt(text).unwrap();
    assert_eq!(parse_srt(&format_srt(&first)).unwrap(), first);
}

#[test]
fn vtt_format_then_parse_gives_writable_cues_back() {
    let cues = vec![
        cue(Some("NOT a note"), 0, 1, Some("a:b  c:d"), &["x", " y"]),
        cue(None, 2, 3, None, &[]),
        cue(Some("id with spaces "), 4, u32::MAX, None, &["z"]),
    ];
    assert_eq!(parse_vtt(&format_vtt(&cues)).unwrap(), cues);
    assert_eq!(parse_vtt(&format_vtt(&[])).unwrap(), vec![]);
}

#[test]
fn vtt_parse_format_parse_is_stable_on_untidy_input() {
    let text = "\u{feff}WEBVTT header text\r\n\r\nNOTE x\n\nc1 \n00:01.000 --> 00:00:02.000\n\n00:00:03.000 --> 00:00:04.000   line:1  \ntext\n";
    let first = parse_vtt(text);
    assert!(first.is_err());
    let text = "\u{feff}WEBVTT header text\r\n\r\nNOTE x\n\nc1 \n0:0:1.000 --> 00:00:02.000\n\n00:00:03.000 --> 00:00:04.000   line:1  \ntext\n";
    let first = parse_vtt(text).unwrap();
    assert_eq!(first.len(), 2);
    assert_eq!(parse_vtt(&format_vtt(&first)).unwrap(), first);
}

#[test]
fn crlf_files_read_like_lf_files() {
    let srt = "1\n00:00:01,000 --> 00:00:04,000\nHello\n\n2\n00:00:05,000 --> 00:00:06,000\nBye\n";
    assert_eq!(parse_srt(&srt.replace('\n', "\r\n")), parse_srt(srt));
    let bad = "1\nnope\n";
    assert_eq!(parse_srt(&bad.replace('\n', "\r\n")), parse_srt(bad));
    let vtt = "WEBVTT\n\na\n00:00:01.000 --> 00:00:04.000 x:y\nHello\n";
    assert_eq!(parse_vtt(&vtt.replace('\n', "\r\n")), parse_vtt(vtt));
}

#[test]
fn a_byte_order_mark_is_ignored() {
    let vtt = "WEBVTT\n\n00:00:01.000 --> 00:00:04.000\nHello\n";
    assert_eq!(parse_vtt(&format!("\u{feff}{}", vtt)), parse_vtt(vtt));
    assert_eq!(parse_vtt("\u{feff}not vtt"), parse_vtt("not vtt"));
}

#[test]
fn shifting_back_undoes_a_shift_that_was_not_clamped() {
    let subtitles = vec![subtitle(1, 1_000, 2_000, &["a"]), subtitle(2, 3_000, 4_000, &[])];
    let there = shift_by(&subtitles, 750);
    assert_eq!(shift_by(&there, -750), subtitles);
    let clamped = shift_by(&subtitles, -1_500);
    assert_ne!(shift_by(&clamped, 1_500), subtitles);
}

#[test]
fn renumbering_twice_changes_nothing() {
    let subtitles = vec![subtitle(9, 1, 2, &["a"]), subtitle(9, 3, 4, &["b"]), subtitle(0, 5, 6, &[])];
    let once = renumber(&subtitles);
    assert_eq!(renumber(&once), once);
    assert_eq!(once.iter().map(|s| s.index).collect::<Vec<_>>(), vec![1, 2, 3]);
}

#[test]
fn lone_carriage_returns_read_like_newlines() {
    let srt = "1\n00:00:01,000 --> 00:00:04,000\nHello\n\n2\n00:00:05,000 --> 00:00:06,000\nBye\n";
    assert_eq!(parse_srt(&srt.replace('\n', "\r")), parse_srt(srt));
    let vtt = "WEBVTT\n\na\n00:00:01.000 --> 00:00:04.000 x:y\nHello\n";
    assert_eq!(parse_vtt(&vtt.replace('\n', "\r")), parse_vtt(vtt));
}
