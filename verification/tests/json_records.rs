use lib::json::push_string;
use lib::{write_record, Field, FieldValue, JsonNumber, Level, LogEntry, Timestamp};

fn entry() -> LogEntry {
    let mut e = LogEntry::new(
        Level::Info,
        "hello \"world\"".into(),
        "my_app::server",
        "src/server.rs",
        42,
    );
    e.timestamp = Timestamp {
        year: 2026,
        month: 8,
        day: 14,
        hour: 4,
        minute: 0,
        second: 0,
        microsecond: 0,
        offset_seconds: 0,
    };
    e
}

#[test]
fn flat_shape_with_fields() {
    let mut e = entry();
    e.fields.push(Field::str("user".into(), "alice".into()));
    e.fields.push(Field::integer("attempts".into(), 3));
    e.fields.push(Field::bool("ok".into(), true));
    e.fields.push(Field::new("lat".into(), FieldValue::Number(JsonNumber::new("1.5".into()).unwrap())));
    e.fields.push(Field::new("extra".into(), FieldValue::Null));

    let mut out = Vec::new();
    write_record(&e, true, &mut out);
    let s = String::from_utf8(out).unwrap();
    assert_eq!(
        s,
        "{\"ts\":\"2026-08-14T04:00:00.000000Z\",\"level\":\"INFO\",\"msg\":\"hello \\\"world\\\"\",\"file\":\"src/server.rs\",\"line\":42,\"target\":\"my_app::server\",\"user\":\"alice\",\"attempts\":3,\"ok\":true,\"lat\":1.5,\"extra\":null}\n"
    );
}

#[test]
fn escaping() {
    let mut e = entry();
    e.fields.push(Field::str("path".into(), "a\nb\t\\\"\u{01}c".into()));
    let mut out = Vec::new();
    write_record(&e, false, &mut out);
    let s = String::from_utf8(out).unwrap();
    assert!(s.contains("\\n"), "newline must be escaped: {s}");
    assert!(s.contains("\\t"), "tab must be escaped: {s}");
    assert!(s.contains("\\\\\\\""), "backslash and quote escaped: {s}");
    assert!(s.contains("\\u0001"), "control char escaped: {s}");
    assert!(
        !s.contains('\u{01}'),
        "raw control char must not appear: {s}"
    );
}

#[test]
fn location_omitted_when_disabled() {
    let mut out = Vec::new();
    write_record(&entry(), false, &mut out);
    let s = String::from_utf8(out).unwrap();
    assert!(!s.contains("file"), "file member omitted: {s}");
    assert!(!s.contains("line"), "line member omitted: {s}");
    assert!(!s.contains("target"), "target member omitted: {s}");
}

#[test]
fn escapes_every_special_character() {
    let mut s = String::new();
    push_string(&mut s, "\"\\\n\r\t\u{08}\u{0c}\u{1f}\u{7f}\u{9f}é");
    assert_eq!(s, "\"\\\"\\\\\\n\\r\\t\\b\\f\\u001f\\u007f\\u009fé\"");
}

#[test]
fn negative_integers_and_big_unsigned() {
    let mut e = entry();
    e.fields.push(Field::integer("count".into(), -7));
    e.fields.push(Field::new("big".into(), FieldValue::from_u64(u64::MAX)));
    e.fields.push(Field::new("small".into(), FieldValue::from_u64(5)));
    e.fields.push(Field::bool("healthy".into(), false));
    let mut out = Vec::new();
    write_record(&e, false, &mut out);
    let s = String::from_utf8(out).unwrap();
    assert!(s.contains("\"count\":-7"), "{s}");
    assert!(s.contains("\"big\":\"18446744073709551615\""), "{s}");
    assert!(s.contains("\"small\":5"), "{s}");
    assert!(s.contains("\"healthy\":false"), "{s}");
    assert_eq!(s.matches('\n').count(), 1);
}

#[test]
fn appends_to_existing_bytes() {
    let mut out = b"prefix".to_vec();
    write_record(&entry(), false, &mut out);
    assert!(out.starts_with(b"prefix{\"ts\":"));
}

#[test]
fn json_escapes_special_characters() {
    let mut e = LogEntry::new(Level::Info, "line1\nline2".to_string(), "", "", 0)
        .field("path".into(), FieldValue::Str("a\"b\\c\td".into()))
        .field("raw_control".into(), FieldValue::Str(format!("x{}y", '\u{01}')));
    e.timestamp = Timestamp::now(0);
    let mut out = Vec::new();
    write_record(&e, false, &mut out);
    let content = String::from_utf8(out).unwrap();
    assert!(content.contains("\\n"), "newline escaped: {content}");
    assert!(content.contains("a\\\"b\\\\c\\td"), "quotes/slash/tab: {content}");
    assert!(content.contains("\\u0001"), "control char escaped: {content}");
    assert!(!content.contains('\u{01}'), "raw control char present: {content}");
    assert_eq!(content.lines().count(), 1, "record must stay on one line");
    assert!(content.ends_with("}\n"));
}

#[test]
fn fields_are_ignored_by_plain_text_sinks() {
    let mut e = LogEntry::new(Level::Info, "hello".to_string(), "", "", 0)
        .field("user".into(), FieldValue::Str("alice".into()))
        .field("attempts".into(), FieldValue::Int(3));
    e.timestamp = Timestamp::now(0);
    let mut out = Vec::new();
    lib::logger::render_record(&e, false, true, &mut out);
    let content = String::from_utf8(out).unwrap();
    assert!(content.contains(" [INFO] hello"), "plain format: {content}");
    assert!(!content.contains("alice"), "fields must not leak into plain text: {content}");
    assert!(!content.contains("attempts"), "fields must not leak into plain text: {content}");
}

#[test]
fn json_numbers_are_checked() {
    for ok in ["0", "-0", "1.5", "-7", "0.25", "1e300", "2.5E-3", "10"] {
        assert!(JsonNumber::new(ok.to_string()).is_some(), "{ok}");
    }
    for bad in ["", "-", "01", "1.", ".5", "1e", "1\n2", "NaN", "inf", "1.5x", "+1"] {
        assert!(JsonNumber::new(bad.to_string()).is_none(), "{bad}");
    }
    assert_eq!(JsonNumber::new("-12.5e3".to_string()).unwrap().as_str(), "-12.5e3");
}
