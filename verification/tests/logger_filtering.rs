use lib::logger::{admits_record, render_record, resolve_filter};
use lib::{Facility, Level, LogEntry, LoggerBuilder, SinkSource, TargetFilter, Timestamp};

/// The messages of `records` that a logger at `base` with `filter` keeps.
fn kept(filter: &TargetFilter, base: Level, records: &[(&str, Level, &'static str)]) -> Vec<&'static str> {
    records
        .iter()
        .filter(|(target, level, _)| admits_record(false, filter, base, target, *level))
        .map(|(_, _, message)| *message)
        .collect()
}

#[test]
fn per_target_levels_apply_at_log_time() {
    let filter = TargetFilter::parse("myapp=debug,hyper=warn");
    let kept = kept(
        &filter,
        Level::Info,
        &[
            ("myapp", Level::Debug, "myapp debug ok"),
            ("myapp::server", Level::Debug, "descendant debug ok"),
            ("hyper", Level::Info, "hyper info filtered"),
            ("hyper", Level::Warn, "hyper warn ok"),
            ("unrelated", Level::Debug, "unrelated debug filtered"),
            ("unrelated", Level::Info, "unrelated info ok"),
        ],
    );
    assert_eq!(kept, vec!["myapp debug ok", "descendant debug ok", "hyper warn ok", "unrelated info ok"]);
}

#[test]
fn longest_match_and_module_boundary() {
    let filter = TargetFilter::parse("lib=info,lib::net=debug");
    let kept = kept(
        &filter,
        Level::Info,
        &[
            ("lib", Level::Info, "lib info ok"),
            ("lib::net", Level::Debug, "lib::net debug ok"),
            ("lib::net::tls", Level::Debug, "deep debug ok"),
            ("lib::net", Level::Info, "lib::net info ok"),
            ("lib::netx", Level::Debug, "sibling must NOT get debug"),
            ("lib::netx", Level::Info, "sibling info ok"),
        ],
    );
    assert_eq!(
        kept,
        vec!["lib info ok", "lib::net debug ok", "deep debug ok", "lib::net info ok", "sibling info ok"]
    );
}

#[test]
fn off_suppresses_only_that_target() {
    let filter = TargetFilter::parse("myapp=off");
    let kept = kept(
        &filter,
        Level::Info,
        &[
            ("myapp", Level::Error, "myapp error silenced"),
            ("other", Level::Error, "other error ok"),
            ("other", Level::Info, "other info ok"),
        ],
    );
    assert_eq!(kept, vec!["other error ok", "other info ok"]);
}

#[test]
fn global_directive_overrides_base_level() {
    let filter = TargetFilter::parse("debug");
    let kept = kept(
        &filter,
        Level::Info,
        &[("any", Level::Debug, "global debug ok"), ("any", Level::Trace, "trace still filtered")],
    );
    assert_eq!(kept, vec!["global debug ok"]);
}

#[test]
fn bare_target_enables_verbose_logging() {
    let filter = TargetFilter::parse("hyper");
    let kept = kept(
        &filter,
        Level::Info,
        &[
            ("hyper", Level::Trace, "hyper trace ok"),
            ("other", Level::Trace, "other trace filtered"),
            ("other", Level::Info, "other info ok"),
        ],
    );
    assert_eq!(kept, vec!["hyper trace ok", "other info ok"]);
}

#[test]
fn empty_filter_leaves_base_level_untouched() {
    let filter = TargetFilter::default();
    let kept = kept(&filter, Level::Warn, &[("a", Level::Info, "info filtered"), ("a", Level::Warn, "warn ok")]);
    assert_eq!(kept, vec!["warn ok"]);
}

#[test]
fn is_enabled_for_reflects_filter() {
    let filter = TargetFilter::parse("myapp=debug,hyper=off");
    let enabled_for = |level: Level, target: &str| admits_record(false, &filter, Level::Info, target, level);
    assert!(enabled_for(Level::Debug, "myapp"));
    assert!(enabled_for(Level::Debug, "myapp::sub"));
    assert!(!enabled_for(Level::Trace, "myapp"));
    assert!(!enabled_for(Level::Error, "hyper"));
    assert!(enabled_for(Level::Info, "unlisted"));
    assert!(!enabled_for(Level::Debug, "unlisted"));
    assert_eq!(filter.effective_level("myapp", Level::Info), Level::Debug);
}

#[test]
fn shut_down_logger_admits_nothing() {
    let filter = TargetFilter::parse("trace");
    assert!(admits_record(false, &filter, Level::Info, "a", Level::Error));
    assert!(!admits_record(true, &filter, Level::Info, "a", Level::Error));
}

#[test]
fn env_var_controls_filter_by_default() {
    let config = LoggerBuilder::<()>::new().level(Level::Info).into_config();
    let filter = resolve_filter(config.filter, config.env_filter, Some("envmod=warn".to_string()));
    let kept = kept(
        &filter,
        config.level,
        &[
            ("envmod", Level::Info, "envmod info filtered"),
            ("envmod", Level::Warn, "envmod warn ok"),
            ("other", Level::Info, "other info ok"),
        ],
    );
    assert_eq!(kept, vec!["envmod warn ok", "other info ok"]);
}

#[test]
fn env_var_ignored_when_explicit_filter_given() {
    let config = LoggerBuilder::<()>::new()
        .level(Level::Info)
        .filter(TargetFilter::parse("envmod=warn"))
        .into_config();
    let filter = resolve_filter(config.filter, config.env_filter, Some("envmod=off".to_string()));
    assert_eq!(kept(&filter, config.level, &[("envmod", Level::Warn, "envmod warn ok")]), vec!["envmod warn ok"]);
}

#[test]
fn ignore_env_filter_disables_env_reading() {
    let config = LoggerBuilder::<()>::new().level(Level::Info).ignore_env_filter().into_config();
    assert!(!config.env_filter);
    let filter = resolve_filter(config.filter, config.env_filter, Some("envmod=off".to_string()));
    assert!(filter.is_empty());
    assert_eq!(
        kept(&filter, config.level, &[("envmod", Level::Info, "envmod info ok despite env")]),
        vec!["envmod info ok despite env"]
    );
}

#[test]
fn empty_env_var_is_ignored() {
    let config = LoggerBuilder::<()>::new().level(Level::Warn).into_config();
    let filter = resolve_filter(config.filter, config.env_filter, Some("   ".to_string()));
    assert!(filter.is_empty());
    let kept = kept(
        &filter,
        config.level,
        &[("anything", Level::Info, "info filtered"), ("anything", Level::Warn, "warn ok")],
    );
    assert_eq!(kept, vec!["warn ok"]);
}

#[test]
fn invalid_env_spec_is_lenient() {
    let config = LoggerBuilder::<()>::new().level(Level::Info).into_config();
    let filter = resolve_filter(config.filter, config.env_filter, Some("broken=notalevel,envmod=warn".to_string()));
    let kept = kept(
        &filter,
        config.level,
        &[
            ("broken", Level::Info, "broken target keeps base"),
            ("envmod", Level::Info, "envmod info filtered"),
            ("envmod", Level::Warn, "envmod warn ok"),
        ],
    );
    assert_eq!(kept, vec!["broken target keeps base", "envmod warn ok"]);
}

#[test]
fn unset_env_var_gives_empty_filter() {
    assert!(resolve_filter(None, true, None).is_empty());
}

#[test]
fn builder_json_filter_and_syslog_settings() {
    let config = LoggerBuilder::<()>::new().into_config();
    assert!(!config.json);
    assert!(config.filter.is_none());
    assert!(config.env_filter);

    let config = LoggerBuilder::<()>::new()
        .json()
        .filter(TargetFilter::parse("a=debug"))
        .to_syslog(Facility::Daemon)
        .into_config();
    assert!(config.json);
    assert_eq!(config.filter.unwrap().effective_level("a", Level::Info), Level::Debug);
    assert!(matches!(config.sink, SinkSource::Syslog(Facility::Daemon)));
}

#[test]
fn render_record_picks_the_format() {
    let mut e = LogEntry::new(Level::Warn, "low memory".into(), "app", "src/main.rs", 7);
    e.timestamp = Timestamp {
        year: 2026,
        month: 1,
        day: 2,
        hour: 3,
        minute: 4,
        second: 5,
        microsecond: 6,
        offset_seconds: 0,
    };
    let mut plain = Vec::new();
    render_record(&e, false, false, &mut plain);
    assert_eq!(String::from_utf8(plain).unwrap(), "2026-01-02T03:04:05.000006Z [WARN] low memory\n");
    let mut json = Vec::new();
    render_record(&e, true, false, &mut json);
    assert_eq!(
        String::from_utf8(json).unwrap(),
        "{\"ts\":\"2026-01-02T03:04:05.000006Z\",\"level\":\"WARN\",\"msg\":\"low memory\"}\n"
    );
}
