use log_print::replay::JsonTime;
use log_print::replay::{line_time_of, parse_mode, timestamp, TimestampMode};

#[test]
fn parses_explicit_and_json_times() {
    assert_eq!(timestamp(b"123 x", "unix_ms"), Some(123000000));
    assert_eq!(timestamp(b"{\"source_ts_ns\":42,\"data\":\"x\"}", "auto"), Some(42));
    assert_eq!(timestamp(b"2026-09-08T12:00:00Z hello", "auto"), Some(1788868800000000000));
    assert_eq!(timestamp(b"binary\xff", "auto"), None);
}

#[test]
fn leading_words_may_be_bracketed_and_padded() {
    assert_eq!(timestamp(b"  [1700] rest", "unix_ns"), Some(1700));
    assert_eq!(timestamp(b"\xc2\xa0 42\n", "unix_ns"), Some(42));
    assert_eq!(timestamp(b"[2026-09-08T12:00:00.5+01:00]", "rfc3339"), Some(1788865200500000000));
    assert_eq!(timestamp(b"42 x", "none"), None);
    assert_eq!(timestamp(b"   ", "unix_ns"), None);
    assert_eq!(timestamp(b"18446744073709551615", "unix_ms"), None);
    assert_eq!(timestamp(b"x 1", "unix_ns"), None);
}

#[test]
fn json_lines_name_their_time() {
    assert_eq!(
        timestamp(b"{\"timestamp\":\" 2026-09-08T12:00:00Z \"}", "auto"),
        Some(1788868800000000000)
    );
    assert_eq!(timestamp(b"{\"timestamp\":\"later\"}", "auto"), None);
    assert_eq!(timestamp(b"{\"source_ts_ns\":-1}", "auto"), None);
    assert_eq!(line_time_of(b"{\"source_ts_ns\":7}", TimestampMode::Rfc3339), None);
}

#[test]
fn timestamp_modes_are_spelled_in_configuration() {
    assert_eq!(parse_mode("auto"), Some(TimestampMode::Auto));
    assert_eq!(parse_mode("none"), Some(TimestampMode::Off));
    assert_eq!(parse_mode("unix_ms"), Some(TimestampMode::UnixMs));
    assert_eq!(parse_mode("iso"), None);
}

#[test]
fn parsed_times_become_source_times() {
    assert_eq!(log_print::replay::time_of_instant(Some(42)), Some(42));
    assert_eq!(log_print::replay::time_of_instant(Some(-1)), None);
    assert_eq!(log_print::replay::time_of_instant(None), None);
    assert_eq!(log_print::replay::json_time(Some((Some(7), Some("x".to_string())))), JsonTime::Source(7));
    assert_eq!(
        log_print::replay::json_time(Some((None, Some("  2026-09-08T12:00:00Z \n".to_string())))),
        JsonTime::Timestamp("2026-09-08T12:00:00Z".to_string())
    );
    assert_eq!(log_print::replay::json_time(Some((None, None))), JsonTime::Absent);
    assert_eq!(log_print::replay::json_time(None), JsonTime::Absent);
}
