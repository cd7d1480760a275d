use lib::{Field, FieldValue, Level, LogEntry};

#[test]
fn entry_fields_chain() {
    let entry = LogEntry::new(Level::Info, "msg".into(), "", "", 0)
        .field("user".into(), FieldValue::Str("alice".into()))
        .field("count".into(), FieldValue::Int(3));
    assert_eq!(entry.fields.len(), 2);
    assert_eq!(entry.fields[0].key, "user");
    assert_eq!(entry.fields[1].value, FieldValue::Int(3));
}

#[test]
fn u64_beyond_i64_becomes_string() {
    let big = u64::MAX;
    assert_eq!(FieldValue::from_u64(big), FieldValue::Str(big.to_string()));
    assert_eq!(FieldValue::from_u64(i64::MAX as u64), FieldValue::Int(i64::MAX));
    assert!(FieldValue::from_u64(big).is_string());
    assert!(!FieldValue::Null.is_string());
}

#[test]
fn explicit_fields_win_over_context() {
    let entry = LogEntry::new(Level::Info, "m".into(), "", "", 0)
        .field("request_id".into(), FieldValue::Str("from-record".into()));
    let merged = entry.merge_context(vec![
        Field::str("request_id".into(), "from-context".into()),
        Field::str("user".into(), "u42".into()),
        Field::str("user".into(), "shadowed".into()),
    ]);
    assert_eq!(merged.fields.len(), 2);
    assert_eq!(merged.fields[0].value, FieldValue::Str("from-record".into()));
    assert_eq!(merged.fields[1], Field::str("user".into(), "u42".into()));
}

#[test]
fn merge_without_context_is_unchanged() {
    let entry = LogEntry::new(Level::Warn, "m".into(), "", "", 0).with_fields(vec![
        Field::integer("a".into(), 1),
        Field::integer("b".into(), 2),
    ]);
    let merged = entry.merge_context(Vec::new());
    assert_eq!(merged.fields, vec![Field::integer("a".into(), 1), Field::integer("b".into(), 2)]);
}

#[test]
fn location_text() {
    let entry = LogEntry::new(Level::Info, "m".into(), "my_app", "src/main.rs", 42);
    assert_eq!(entry.location(), "src/main.rs:42 @ my_app");
    let bare = LogEntry::new(Level::Info, "m".into(), "my_app", "", 42);
    assert_eq!(bare.location(), "");
}

#[test]
fn field_value_conversions() {
    assert_eq!(FieldValue::from("x"), FieldValue::Str("x".to_string()));
    assert_eq!(FieldValue::from("x".to_string()), FieldValue::Str("x".to_string()));
    assert_eq!(FieldValue::from(&"y".to_string()), FieldValue::Str("y".to_string()));
    assert_eq!(FieldValue::from('z'), FieldValue::Str("z".to_string()));
    assert_eq!(FieldValue::from(42i32), FieldValue::Int(42));
    assert_eq!(FieldValue::from(-3i8), FieldValue::Int(-3));
    assert_eq!(FieldValue::from(7usize), FieldValue::Int(7));
    assert_eq!(FieldValue::from(true), FieldValue::Bool(true));
    assert_eq!(FieldValue::from(5u64), FieldValue::Int(5));
    // u64 values beyond i64::MAX degrade to strings, never truncate.
    let big = u64::MAX;
    assert_eq!(FieldValue::from(big), FieldValue::Str(big.to_string()));
    let e = LogEntry::new(Level::Info, "msg".into(), "", "", 0)
        .field("user".into(), "alice".into())
        .field("count".into(), 3i64.into());
    assert_eq!(e.fields[1].value, FieldValue::Int(3));
}
