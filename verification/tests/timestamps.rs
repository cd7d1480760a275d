use lib::time::from_unix_micros;
use lib::{civil_from_days, Timestamp};

#[test]
fn epoch_is_utc_midnight() {
    assert_eq!(civil_from_days(0), (1970, 1, 1));
}

#[test]
fn day_before_epoch() {
    assert_eq!(civil_from_days(-1), (1969, 12, 31));
}

#[test]
fn leap_day() {
    // Days since epoch to 2024-02-29.
    assert_eq!(civil_from_days(19_782), (2024, 2, 29));
}

#[test]
fn display_utc() {
    let ts = Timestamp {
        year: 2026,
        month: 8,
        day: 13,
        hour: 4,
        minute: 49,
        second: 0,
        microsecond: 123_456,
        offset_seconds: 0,
    };
    assert_eq!(ts.to_string(), "2026-08-13T04:49:00.123456Z");
}

#[test]
fn display_offset() {
    let ts = Timestamp {
        year: 2026,
        month: 8,
        day: 13,
        hour: 10,
        minute: 19,
        second: 0,
        microsecond: 0,
        offset_seconds: 19_800,
    };
    assert_eq!(ts.to_string(), "2026-08-13T10:19:00.000000+05:30");
}

#[test]
fn negative_offset() {
    let ts = Timestamp {
        year: 2026,
        month: 8,
        day: 12,
        hour: 20,
        minute: 49,
        second: 0,
        microsecond: 0,
        offset_seconds: -28_800,
    };
    assert_eq!(ts.to_string(), "2026-08-12T20:49:00.000000-08:00");
}

#[test]
fn now_formats_cleanly() {
    let s = Timestamp::now(0).to_string();
    assert_eq!(s.len(), 27);
    assert!(s.ends_with('Z'));
    let bytes = s.as_bytes();
    assert_eq!(&bytes[4..5], b"-");
    assert_eq!(&bytes[7..8], b"-");
    assert_eq!(&bytes[10..11], b"T");
    assert_eq!(&bytes[13..14], b":");
    assert_eq!(&bytes[16..17], b":");
    assert_eq!(&bytes[19..20], b".");
}

#[test]
fn offset_shifts_date() {
    let ts = Timestamp::now(3600).to_string();
    assert!(ts.ends_with("+01:00"), "expected +01:00 offset, got: {ts}");
}

// Calendar edge cases.

#[test]
fn century_years_follow_gregorian_rule() {
    // 2000-02-29 exists (divisible by 400), 2100-02-29 does not.
    assert_eq!(civil_from_days(11_016), (2000, 2, 29));
    assert_eq!(civil_from_days(47_540), (2100, 2, 28));
    assert_eq!(civil_from_days(47_541), (2100, 3, 1));
}

#[test]
fn far_past_and_future() {
    assert_eq!(civil_from_days(-719_468), (0, 3, 1));
    assert_eq!(civil_from_days(-719_469), (0, 2, 29));
    assert_eq!(civil_from_days(2_932_896), (9999, 12, 31));
}

#[test]
fn year_is_truncated_to_32_bits() {
    // 146_097 days per 400 years; 2^32 years later wraps back.
    let era_days: i128 = 146_097;
    let eras: i128 = (1i128 << 32) / 400 * 400 / 400;
    let (y, m, d) = civil_from_days(eras * era_days);
    assert_eq!((m, d), (1, 1));
    assert_eq!(y, (1970i128 + eras * 400) as i32);
}

#[test]
fn micros_split_into_fields() {
    // 2024-02-29T23:59:59.999999 is one microsecond before 2024-03-01.
    let micros: i128 = 19_783 * 86_400_000_000 - 1;
    let t = from_unix_micros(micros, 0);
    assert_eq!((t.year, t.month, t.day), (2024, 2, 29));
    assert_eq!((t.hour, t.minute, t.second, t.microsecond), (23, 59, 59, 999_999));
    let before = from_unix_micros(-1, 0);
    assert_eq!((before.year, before.month, before.day, before.hour), (1969, 12, 31, 23));
    assert_eq!(before.microsecond, 999_999);
}

#[test]
fn negative_years_are_zero_padded_after_the_sign() {
    let ts = Timestamp {
        year: -5,
        month: 1,
        day: 2,
        hour: 3,
        minute: 4,
        second: 5,
        microsecond: 6,
        offset_seconds: 90,
    };
    assert_eq!(ts.to_string(), "-005-01-02T03:04:05.000006+00:01");
}

#[test]
fn timestamp_round_trip() {
    let ts = Timestamp::now(0).to_string();
    assert_eq!(ts.len(), 27);
    assert!(ts.ends_with('Z'));
    let parts: Vec<&str> = ts.split('T').collect();
    assert_eq!(parts.len(), 2);
    let date_parts: Vec<&str> = parts[0].split('-').collect();
    assert_eq!(date_parts.len(), 3);
    let _year: i32 = date_parts[0].parse().unwrap();
    let _month: u8 = date_parts[1].parse().unwrap();
    let _day: u8 = date_parts[2].parse().unwrap();
}
