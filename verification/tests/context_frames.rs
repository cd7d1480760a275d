use lib::{write_record, ContextStack, Field, FieldValue, Level, LogEntry, Timestamp};

fn value_of(fields: &[Field], key: &str) -> Option<FieldValue> {
    fields.iter().find(|f| f.key == key).map(|f| f.value.clone())
}

fn s(key: &str, value: &str) -> Field {
    Field::str(key.into(), value.into())
}

fn json_line(entry: &LogEntry) -> String {
    let mut out = Vec::new();
    write_record(entry, false, &mut out);
    String::from_utf8(out).unwrap()
}

fn record(message: &str, stack: &ContextStack) -> LogEntry {
    let mut e = LogEntry::new(Level::Info, message.into(), "", "", 0).merge_context(stack.current());
    e.timestamp = Timestamp {
        year: 2026,
        month: 8,
        day: 16,
        hour: 0,
        minute: 0,
        second: 0,
        microsecond: 0,
        offset_seconds: 0,
    };
    e
}

#[test]
fn context_context_is_empty_by_default() {
    let stack = ContextStack::new();
    assert!(stack.is_empty());
    assert!(stack.current().is_empty());
}

#[test]
fn guard_removes_scope_on_drop() {
    let mut stack = ContextStack::new();
    assert!(stack.current().is_empty());
    stack.push(1, vec![s("request_id", "abc")]);
    let keys: Vec<String> = stack.current().into_iter().map(|f| f.key).collect();
    assert_eq!(keys, vec!["request_id".to_string()]);
    stack.remove(1);
    assert!(stack.current().is_empty());
}

#[test]
fn nested_scopes_merge_innermost_wins() {
    let mut stack = ContextStack::new();
    stack.push(1, vec![s("request_id", "outer"), s("user", "alice")]);
    stack.push(2, vec![s("request_id", "inner")]);
    let ctx = stack.current();
    assert_eq!(ctx.len(), 2);
    assert_eq!(value_of(&ctx, "request_id"), Some(FieldValue::Str("inner".into())));
    assert_eq!(value_of(&ctx, "user"), Some(FieldValue::Str("alice".into())));
    stack.remove(2);
    let ctx = stack.current();
    assert_eq!(ctx.len(), 2);
    assert_eq!(value_of(&ctx, "request_id"), Some(FieldValue::Str("outer".into())));
    stack.remove(1);
    assert!(stack.current().is_empty());
}

#[test]
fn guards_may_drop_out_of_order() {
    let mut stack = ContextStack::new();
    stack.push(1, vec![s("a", "1")]);
    stack.push(2, vec![s("b", "2")]);
    stack.remove(1);
    let ctx = stack.current();
    assert_eq!(ctx.len(), 1);
    assert_eq!(ctx[0].key, "b");
    stack.remove(7);
    assert_eq!(stack.current().len(), 1);
    stack.remove(2);
    assert!(stack.is_empty());
}

#[test]
fn snapshot_is_independent_and_reenterable() {
    let mut stack = ContextStack::new();
    stack.push(1, vec![s("request_id", "abc")]);
    let snapshot = stack.current();
    stack.push(2, vec![s("extra", "x")]);
    assert_eq!(snapshot.len(), 1);

    stack.push(3, snapshot.clone());
    let ctx = stack.current();
    assert!(ctx.iter().any(|f| f.key == "extra"));
    assert!(ctx.iter().any(|f| f.key == "request_id"));
    stack.remove(3);
    stack.remove(2);
    stack.remove(1);

    stack.push(4, vec![s("request_id", "zzz")]);
    assert_eq!(value_of(&stack.current(), "request_id"), Some(FieldValue::Str("zzz".into())));
    stack.push(5, snapshot);
    assert_eq!(value_of(&stack.current(), "request_id"), Some(FieldValue::Str("abc".into())));
    stack.remove(5);
}

#[test]
fn first_position_of_a_key_is_kept() {
    let mut stack = ContextStack::new();
    stack.push(1, vec![s("a", "1"), s("b", "2")]);
    stack.push(2, vec![s("a", "3")]);
    let ctx = stack.current();
    assert_eq!(ctx[0], s("a", "3"));
    assert_eq!(ctx[1], s("b", "2"));
}

#[test]
fn json_records_carry_context_within_scope_only() {
    let mut stack = ContextStack::new();
    let before = json_line(&record("before scope", &stack));
    stack.push(1, vec![s("request_id", "abc-123"), s("user_id", "u42")]);
    let inside = json_line(&record("inside scope", &stack));
    stack.remove(1);
    let after = json_line(&record("after scope", &stack));

    assert!(before.contains("\"msg\":\"before scope\""));
    assert!(!before.contains("request_id"), "context must not leak outside scope: {before}");
    assert!(inside.contains("\"request_id\":\"abc-123\""), "{inside}");
    assert!(inside.contains("\"user_id\":\"u42\""), "{inside}");
    assert!(after.contains("\"msg\":\"after scope\""));
    assert!(!after.contains("request_id"), "context must be removed after guard drop: {after}");
}

#[test]
fn explicit_record_fields_win_over_context() {
    let mut stack = ContextStack::new();
    stack.push(1, vec![s("request_id", "from-context")]);
    let mut e = LogEntry::new(Level::Info, "override".into(), "", "", 0)
        .field("request_id".into(), FieldValue::Str("from-record".into()))
        .merge_context(stack.current());
    e.timestamp = Timestamp::now(0);
    let line = json_line(&e);
    assert!(line.contains("\"request_id\":\"from-record\""), "explicit field must win: {line}");
    assert!(!line.contains("from-context"), "context value must not appear: {line}");
    assert_eq!(line.matches("\"request_id\"").count(), 1, "request_id must appear exactly once: {line}");
}

#[test]
fn nested_scopes_innermost_wins() {
    let mut stack = ContextStack::new();
    stack.push(1, vec![s("request_id", "outer"), s("user", "alice")]);
    stack.push(2, vec![s("request_id", "inner")]);
    let in_inner = json_line(&record("in inner", &stack));
    stack.remove(2);
    let in_outer = json_line(&record("in outer", &stack));
    assert!(in_inner.contains("\"request_id\":\"inner\""), "innermost wins: {in_inner}");
    assert!(in_inner.contains("\"user\":\"alice\""), "{in_inner}");
    assert!(in_outer.contains("\"request_id\":\"outer\""), "outer restored after inner guard drop: {in_outer}");
}

#[test]
fn context_captured_at_log_time() {
    let mut stack = ContextStack::new();
    stack.push(1, vec![s("request_id", "first")]);
    let first = record("recorded under first", &stack);
    stack.remove(1);
    stack.push(2, vec![s("request_id", "second")]);
    let second = record("recorded under second", &stack);
    stack.remove(2);
    assert!(json_line(&first).contains("\"request_id\":\"first\""), "context must be captured at log() time");
    assert!(json_line(&second).contains("\"request_id\":\"second\""));
}

#[test]
fn stack_reports_which_frames_it_holds() {
    let mut stack = ContextStack::new();
    assert!(!stack.holds(1));
    stack.push(1, vec![s("a", "1")]);
    stack.push(2, vec![s("b", "2")]);
    assert!(stack.holds(1) && stack.holds(2) && !stack.holds(3));
    stack.remove(1);
    assert!(!stack.holds(1) && stack.holds(2));
}
