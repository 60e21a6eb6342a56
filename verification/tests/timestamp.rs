use fraud_detection::decimal::parse_u32;
use fraud_detection::timestamp::{
    datetime_is_readable, parse_datetime, parse_timestamp_seconds, seconds_between,
    timestamp_is_readable,
};

#[test]
fn digits_are_read_as_numbers() {
    assert_eq!(parse_u32(b""), 0);
    assert_eq!(parse_u32(b"0"), 0);
    assert_eq!(parse_u32(b"2026"), 2026);
    assert_eq!(parse_u32(b"007"), 7);
    assert_eq!(parse_u32(b"4294967295"), u32::MAX);
    // A byte after the digit 9 counts on.
    assert_eq!(parse_u32(b":"), 10);
}

#[test]
fn hour_and_weekday() {
    assert_eq!(parse_datetime("2026-03-11T20:23:35Z"), (20, 2));
    assert_eq!(parse_datetime("2026-03-11T18:45:53Z"), (18, 2));
    assert_eq!(parse_datetime("2026-03-15T00"), (0, 6));
}

#[test]
fn hour_and_weekday_are_in_utc() {
    assert_eq!(parse_datetime("2026-03-11T23:30:00-03:00"), (2, 3));
    assert_eq!(parse_datetime("2024-02-29T23:59:59+03:00"), (20, 3));
    assert_eq!(parse_datetime("2026-03-09T00:15:00+00:30"), (23, 6));
    assert_eq!(parse_datetime("2026-03-15T23:45:00-00:15"), (0, 0));
    assert_eq!(parse_datetime("2026-03-11T20:23:35+00:00"), (20, 2));
    assert_eq!(parse_datetime("0001-01-01T00:00:00+14:00"), (10, 6));
    // Too short for an offset.
    assert_eq!(parse_datetime("2026-03-11T23:30:00-03"), (23, 2));
}

#[test]
fn place_on_the_scale_of_seconds() {
    assert_eq!(parse_timestamp_seconds("2026-03-11T18:45:53Z"), 63940473953);
    assert_eq!(parse_timestamp_seconds("2026-01-01T00:00:00Z"), 63934444800);
    assert_eq!(parse_timestamp_seconds("0000-01-01T00:00:00"), 0);
    assert_eq!(parse_timestamp_seconds("0000-00-00T00:00:00"), -86400);
    assert_eq!(parse_timestamp_seconds("0001-00-00T00:00:01"), 365 * 86400 + 1);
    assert_eq!(parse_timestamp_seconds("0001-12-01T00:00:00"), (365 + 334 + 1) * 86400);
}

#[test]
fn seconds_between_timestamps() {
    let a = "2026-03-11T14:58:35Z";
    let b = "2026-03-11T20:23:35Z";
    assert_eq!(seconds_between(a, b), 19500);
    assert_eq!(seconds_between(b, a), 19500);
    assert_eq!(seconds_between(a, a), 0);
    assert_eq!(seconds_between("2026-02-28T23:59:59Z", "2026-03-01T00:00:00Z"), 1);
    assert_eq!(seconds_between("2024-02-28T23:59:59Z", "2024-02-29T00:00:00Z"), 1);
    assert_eq!(seconds_between("2024-02-29T23:59:59Z", "2024-03-01T00:00:00Z"), 1);
    assert_eq!(seconds_between("2025-12-31T23:59:59Z", "2026-01-01T00:00:00Z"), 1);
}

#[test]
fn seconds_across_the_ends_of_years() {
    assert_eq!(seconds_between("2027-12-31T23:59:00Z", "2028-01-01T00:00:00Z"), 60);
    assert_eq!(seconds_between("2023-12-31T00:00:00Z", "2024-01-01T00:00:00Z"), 86400);
    assert_eq!(seconds_between("2024-12-31T00:00:00Z", "2025-01-01T00:00:00Z"), 86400);
    assert_eq!(seconds_between("2024-01-01T00:00:00Z", "2025-01-01T00:00:00Z"), 366 * 86400);
    assert_eq!(seconds_between("2025-01-01T00:00:00Z", "2026-01-01T00:00:00Z"), 365 * 86400);
    assert_eq!(seconds_between("1899-12-31T00:00:00Z", "1900-12-31T00:00:00Z"), 365 * 86400);
    assert_eq!(seconds_between("2000-02-28T12:00:00Z", "2000-03-01T12:00:00Z"), 2 * 86400);
}

#[test]
fn unreadable_times() {
    assert!(datetime_is_readable("2026-03-11T20"));
    assert!(!datetime_is_readable("2026-03-11T2"));
    assert!(!datetime_is_readable("2026-13-11T20"));
    assert!(!datetime_is_readable("2026-00-11T20"));
    assert!(!datetime_is_readable("2026-0/-11T20"));
    assert!(!datetime_is_readable("0000-02-11T20"));
    assert!(datetime_is_readable("0000-03-11T20"));
    assert!(datetime_is_readable("2026-03-11T20:23:35-03:00"));
    assert!(!datetime_is_readable("2026-03-11T20:-3:35-03:00"));
    assert!(!datetime_is_readable("2026-03-11T20:23:35-0 :00"));
    assert!(!datetime_is_readable("2026-03-11T20:23:35+03:- "));
    assert!(datetime_is_readable("2026-03-11T20:-3:35Z"));
    assert!(timestamp_is_readable("2026-03-11T20:23:35Z"));
    assert!(timestamp_is_readable("2026-00-11T20:23:35"));
    assert!(!timestamp_is_readable("2026-13-11T20:23:35"));
    assert!(!timestamp_is_readable("2026-03-11T20:23:3"));
    assert!(!timestamp_is_readable("2026-03-11T20:23:-5"));
}
