use lib::syslog::{
    delivery_next, delivery_start, fit_text, hostname_from, ident_or_default, Delivery, MAX_SYSLOG_PACKET,
};
use lib::{build_packet, level_to_severity, rfc3164_timestamp, sanitize_ident, Facility, Level, Timestamp};

fn ts() -> Timestamp {
    Timestamp {
        year: 2026,
        month: 8,
        day: 3,
        hour: 4,
        minute: 49,
        second: 5,
        microsecond: 0,
        offset_seconds: 0,
    }
}

#[test]
fn facility_codes() {
    assert_eq!(Facility::Kernel.code(), 0);
    assert_eq!(Facility::User.code(), 1);
    assert_eq!(Facility::Mail.code(), 2);
    assert_eq!(Facility::Daemon.code(), 3);
    assert_eq!(Facility::Local0.code(), 16);
    assert_eq!(Facility::Local7.code(), 23);
}

#[test]
fn severity_mapping() {
    assert_eq!(level_to_severity(Level::Trace), 7);
    assert_eq!(level_to_severity(Level::Debug), 7);
    assert_eq!(level_to_severity(Level::Info), 6);
    assert_eq!(level_to_severity(Level::Warn), 4);
    assert_eq!(level_to_severity(Level::Error), 3);
}

#[test]
fn rfc3164_timestamp_format() {
    assert_eq!(rfc3164_timestamp(ts()), "Aug  3 04:49:05");
}

#[test]
fn pri_and_header() {
    let ts = Timestamp::now(0);
    let packet = build_packet(Facility::User, "host", "testapp", 42, Level::Info, ts, b"hello\n");
    let s = String::from_utf8(packet).unwrap();
    assert!(s.starts_with("<14>"), "User(1)*8 + Info(6) = 14, got: {s}");
    assert!(s.contains("testapp["));
    assert!(s.ends_with("hello"));
}

#[test]
fn warn_severity_pri() {
    let ts = Timestamp::now(0);
    let packet = build_packet(Facility::Local0, "host", "app", 42, Level::Warn, ts, b"boom");
    assert!(String::from_utf8(packet).unwrap().starts_with("<132>"));
}

#[test]
fn ident_sanitized() {
    assert_eq!(sanitize_ident("my app#1".to_string()), "my_app_1");
}

#[test]
fn oversized_message_truncated() {
    let ts = Timestamp::now(0);
    let big = vec![b'x'; 5000];
    let packet = build_packet(Facility::Daemon, "host", "t", 42, Level::Error, ts, &big);
    assert!(packet.len() <= MAX_SYSLOG_PACKET);
}

#[test]
fn packet_has_exact_header() {
    let packet = build_packet(Facility::Daemon, "box", "svc", 7, Level::Error, ts(), b"disk low\n");
    assert_eq!(String::from_utf8(packet).unwrap(), "<27>Aug  3 04:49:05 box svc[7]: disk low");
}

#[test]
fn truncated_multibyte_fits_the_datagram() {
    // "é" is two bytes; a header of 1023 bytes leaves room for one, so the
    // cut character is dropped rather than grown into a replacement.
    let host = "h".repeat(1023 - "<14>Aug  3 04:49:05  a[1]: ".len());
    let packet = build_packet(Facility::User, &host, "a", 1, Level::Info, ts(), "é".as_bytes());
    assert!(packet.len() <= MAX_SYSLOG_PACKET);
    let s = String::from_utf8(packet).unwrap();
    assert!(s.ends_with("a[1]: "), "got: {s}");
}

#[test]
fn invalid_bytes_never_overflow_the_datagram() {
    let packet = build_packet(Facility::User, "host", "app", 1, Level::Info, ts(), &vec![0xFFu8; 2000]);
    assert!(packet.len() <= MAX_SYSLOG_PACKET);
    let s = String::from_utf8(packet).unwrap();
    assert!(s.ends_with('\u{fffd}'), "got: {s}");
}

#[test]
fn empty_ident_defaults() {
    assert_eq!(sanitize_ident(String::new()), "xoslog");
    assert_eq!(sanitize_ident("a.b-c_d9".to_string()), "a.b-c_d9");
}

#[test]
fn month_out_of_range_is_january() {
    let mut t = ts();
    t.month = 0;
    assert_eq!(rfc3164_timestamp(t), "Jan  3 04:49:05");
    t.month = 13;
    t.day = 17;
    assert_eq!(rfc3164_timestamp(t), "Jan 17 04:49:05");
}

#[test]
fn hostname_choice() {
    assert_eq!(hostname_from(Some("  box\n".into()), Some("env".into())), "box");
    assert_eq!(hostname_from(Some(" \n".into()), Some("env".into())), "env");
    assert_eq!(hostname_from(None, Some(String::new())), "localhost");
    assert_eq!(hostname_from(None, None), "localhost");
}

#[test]
fn ident_choice() {
    assert_eq!(ident_or_default(Some("app".into())), "app");
    assert_eq!(ident_or_default(Some(String::new())), "xoslog");
    assert_eq!(ident_or_default(None), "xoslog");
}

#[test]
fn delivery_retries_once() {
    let s = delivery_start(true);
    assert_eq!(s, Delivery::Sending);
    assert_eq!(delivery_next(s, true), Delivery::Delivered);
    let s = delivery_next(s, false);
    assert_eq!(s, Delivery::Reconnecting);
    let s = delivery_next(s, true);
    assert_eq!(s, Delivery::Resending);
    assert_eq!(delivery_next(s, false), Delivery::Failed);
    assert_eq!(delivery_next(Delivery::Reconnecting, false), Delivery::Failed);
    let s = delivery_start(false);
    assert_eq!(s, Delivery::Connecting);
    assert_eq!(delivery_next(s, false), Delivery::Failed);
    assert_eq!(delivery_next(s, true), Delivery::Sending);
    assert_eq!(delivery_next(Delivery::Failed, true), Delivery::Failed);
}

#[test]
fn text_is_cut_to_whole_characters() {
    assert_eq!(fit_text("a\u{e9}b", 2), "a");
    assert_eq!(fit_text("a\u{e9}b", 3), "a\u{e9}");
    assert_eq!(fit_text("a\u{e9}b", 4), "a\u{e9}b");
    assert_eq!(fit_text("a\u{e9}b", 100), "a\u{e9}b");
    assert_eq!(fit_text("\u{fffd}x", 2), "");
    assert_eq!(fit_text("", 0), "");
}
