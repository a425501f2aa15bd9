use lib::{TimeParseError, Timestamp};

#[test]
fn round_trips_through_format_and_parse() {
    let ts = Timestamp::new(1, 2, 3, 456);
    assert_eq!(ts.format(), "01:02:03,456");
    assert_eq!(Timestamp::parse("01:02:03,456").unwrap(), ts);
}

#[test]
fn accepts_period_as_decimal_separator() {
    assert_eq!(
        Timestamp::parse("00:00:01.500").unwrap(),
        Timestamp::new(0, 0, 1, 500)
    );
}

#[test]
fn rejects_seconds_out_of_range() {
    assert!(matches!(
        Timestamp::parse("00:00:60,000"),
        Err(TimeParseError::OutOfRange(_))
    ));
}

#[test]
fn rejects_malformed_input() {
    assert!(matches!(
        Timestamp::parse("not a timestamp"),
        Err(TimeParseError::InvalidFormat(_))
    ));
}

#[test]
fn shift_clamps_at_zero_instead_of_going_negative() {
    let ts = Timestamp::from_millis(500);
    assert_eq!(ts.shifted(-1000).as_millis(), 0);
}

#[test]
fn shift_moves_forward_normally() {
    let ts = Timestamp::from_millis(1_000);
    assert_eq!(ts.shifted(250).as_millis(), 1_250);
}

#[test]
fn new_adds_up_the_fields() {
    assert_eq!(Timestamp::new(1, 2, 3, 456).as_millis(), 3_723_456);
    assert_eq!(Timestamp::new(0, 90, 0, 0).as_millis(), 5_400_000);
    assert_eq!(Timestamp::new(0, 0, 0, 1_500).as_millis(), 1_500);
}

#[test]
fn new_holds_the_total_at_u32_max() {
    assert_eq!(Timestamp::new(2_000, 0, 0, 0).as_millis(), u32::MAX);
    assert_eq!(Timestamp::new(u32::MAX, u32::MAX, u32::MAX, u32::MAX).as_millis(), u32::MAX);
}

#[test]
fn accessors_split_the_millisecond_count() {
    let ts = Timestamp::from_millis(3_723_456);
    assert_eq!(ts.hours(), 1);
    assert_eq!(ts.minutes(), 2);
    assert_eq!(ts.seconds(), 3);
    assert_eq!(ts.subsecond_millis(), 456);
    let back = Timestamp::new(ts.hours(), ts.minutes(), ts.seconds(), ts.subsecond_millis());
    assert_eq!(back, ts);
}

#[test]
fn shift_clamps_at_u32_max() {
    let ts = Timestamp::from_millis(u32::MAX - 10);
    assert_eq!(ts.shifted(100).as_millis(), u32::MAX);
    assert_eq!(Timestamp::from_millis(0).shifted(i64::MIN).as_millis(), 0);
}

#[test]
fn format_pads_and_widens_hours() {
    assert_eq!(Timestamp::from_millis(0).format(), "00:00:00,000");
    assert_eq!(Timestamp::from_millis(7).format(), "00:00:00,007");
    assert_eq!(Timestamp::new(123, 4, 5, 60).format(), "123:04:05,060");
    assert_eq!(Timestamp::from_millis(u32::MAX).format(), "1193:02:47,295");
}

#[test]
fn format_vtt_uses_a_period() {
    assert_eq!(Timestamp::new(1, 2, 3, 456).format_vtt(), "01:02:03.456");
    assert_eq!(
        Timestamp::parse_vtt("01:02:03.456").unwrap(),
        Timestamp::new(1, 2, 3, 456)
    );
}

#[test]
fn parse_trims_and_accepts_plus_and_leading_zeros() {
    assert_eq!(
        Timestamp::parse("  +1:002:03,0456 \t").unwrap(),
        Timestamp::new(1, 2, 3, 456)
    );
}

#[test]
fn parse_reads_the_millisecond_field_as_a_count() {
    assert_eq!(Timestamp::parse("00:00:01,5").unwrap().as_millis(), 1_005);
    assert_eq!(Timestamp::parse("00:00:01,1500").unwrap().as_millis(), 2_500);
}

#[test]
fn parse_reports_invalid_formats_with_the_trimmed_input() {
    assert_eq!(
        Timestamp::parse(" 00:00:01 "),
        Err(TimeParseError::InvalidFormat("00:00:01".to_string()))
    );
    assert_eq!(
        Timestamp::parse("00:01,000"),
        Err(TimeParseError::InvalidFormat("00:01,000".to_string()))
    );
    assert_eq!(
        Timestamp::parse("00:00:00:01,000"),
        Err(TimeParseError::InvalidFormat("00:00:00:01,000".to_string()))
    );
    assert_eq!(
        Timestamp::parse("00:00:01,5,0"),
        Err(TimeParseError::InvalidFormat("00:00:01,5,0".to_string()))
    );
    assert_eq!(
        Timestamp::parse("00:-1:01,000"),
        Err(TimeParseError::InvalidFormat("00:-1:01,000".to_string()))
    );
    assert_eq!(
        Timestamp::parse("4294967296:00:00,000"),
        Err(TimeParseError::InvalidFormat("4294967296:00:00,000".to_string()))
    );
}

#[test]
fn parse_reports_minutes_out_of_range_before_a_bad_millisecond_field() {
    assert_eq!(
        Timestamp::parse("00:60:00,xyz"),
        Err(TimeParseError::OutOfRange("00:60:00,xyz".to_string()))
    );
}

#[test]
fn time_error_messages_quote_the_input() {
    let e = TimeParseError::InvalidFormat("a\"b".to_string());
    assert_eq!(e.message(), "invalid timestamp format: \"a\\\"b\"");
    let e = TimeParseError::OutOfRange("00:61:00,000".to_string());
    assert_eq!(
        e.message(),
        "minutes or seconds out of range in timestamp: \"00:61:00,000\""
    );
}

#[test]
fn timestamps_order_by_millisecond_count() {
    assert!(Timestamp::from_millis(1) < Timestamp::from_millis(2));
    assert!(Timestamp::new(0, 1, 0, 0) > Timestamp::new(0, 0, 59, 999));
}

#[test]
fn shift_clamps_for_every_offset() {
    assert_eq!(Timestamp::from_millis(1).shifted(i64::MAX).as_millis(), u32::MAX);
    assert_eq!(Timestamp::from_millis(u32::MAX - 1).shifted(10).as_millis(), u32::MAX);
    assert_eq!(Timestamp::from_millis(u32::MAX).shifted(i64::MIN).as_millis(), 0);
}
