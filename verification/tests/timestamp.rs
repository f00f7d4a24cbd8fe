use kafq::text::decimal_i64;
use kafq::timestamp::{parse_timestamp_ms, timestamp_from};

fn refusal(text: &str) -> String {
    parse_timestamp_ms(text).unwrap_err().message
}

#[test]
fn digits_are_unix_milliseconds() {
    assert_eq!(parse_timestamp_ms("0"), Ok(0));
    assert_eq!(parse_timestamp_ms("1780000000000"), Ok(1_780_000_000_000));
    assert_eq!(parse_timestamp_ms("9223372036854775807"), Ok(i64::MAX));
}

#[test]
fn decimal_timestamps_are_read_back() {
    for millis in [0, 1, 10, 1_780_000_000_000, i64::MAX] {
        assert_eq!(parse_timestamp_ms(&decimal_i64(millis)), Ok(millis));
    }
}

#[test]
fn other_texts_are_rfc_3339() {
    assert_eq!(parse_timestamp_ms("2026-05-01T00:00:00Z"), Ok(1_777_593_600_000));
    assert_eq!(parse_timestamp_ms("1970-01-01T01:00:00.250+01:00"), Ok(250));
    assert_eq!(parse_timestamp_ms("1969-12-31T23:59:59Z"), Ok(-1_000));
}

#[test]
fn bad_timestamps_are_refused() {
    assert_eq!(refusal("yesterday"), "Invalid timestamp \"yesterday\"");
    assert_eq!(refusal("-5"), "Invalid timestamp \"-5\"");
    assert_eq!(refusal("2026-05-01"), "Invalid timestamp \"2026-05-01\"");
    assert_eq!(
        refusal(""),
        "Invalid timestamp \"\": cannot parse integer from empty string"
    );
    assert_eq!(
        refusal("9223372036854775808"),
        "Invalid timestamp \"9223372036854775808\": number too large to fit in target type"
    );
    assert_eq!(
        refusal("99999999999999999999999"),
        "Invalid timestamp \"99999999999999999999999\": number too large to fit in target type"
    );
}

#[test]
fn what_rfc_3339_makes_of_digits_does_not_count() {
    assert_eq!(timestamp_from("12", Some(5)), Ok(12));
    assert_eq!(timestamp_from("x", Some(5)), Ok(5));
    assert!(timestamp_from("x", None).is_err());
}
