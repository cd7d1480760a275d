use lib::Level;

#[test]
fn ordering() {
    assert!(Level::Trace < Level::Debug);
    assert!(Level::Debug < Level::Info);
    assert!(Level::Info < Level::Warn);
    assert!(Level::Warn < Level::Error);
    assert!(Level::Error < Level::Off);
}

#[test]
fn parse_cases() {
    assert_eq!(Level::parse("INFO"), Some(Level::Info));
    assert_eq!(Level::parse(" info "), Some(Level::Info));
    assert_eq!(Level::parse("WARNING"), Some(Level::Warn));
    assert_eq!(Level::parse("Error"), Some(Level::Error));
    assert_eq!(Level::parse("verbose"), None);
    assert_eq!(Level::parse(""), None);
}

#[test]
fn str_roundtrip() {
    for level in [
        Level::Trace,
        Level::Debug,
        Level::Info,
        Level::Warn,
        Level::Error,
        Level::Off,
    ] {
        assert_eq!(Level::parse(level.as_str()), Some(level));
    }
}

#[test]
fn rank_follows_severity_order() {
    assert_eq!(Level::Trace.rank(), 0);
    assert_eq!(Level::Off.rank(), 5);
    assert!(Level::Warn.at_least(Level::Info));
    assert!(!Level::Debug.at_least(Level::Info));
}

#[test]
fn parse_trims_unicode_whitespace() {
    assert_eq!(Level::parse("\u{3000}debug\t\n"), Some(Level::Debug));
    assert_eq!(Level::parse("de bug"), None);
}
