use lib::filter::module_matches;
use lib::{Level, TargetFilter};

const INFO: Level = Level::Info;
const DEBUG: Level = Level::Debug;
const WARN: Level = Level::Warn;
const ERROR: Level = Level::Error;
const TRACE: Level = Level::Trace;
const OFF: Level = Level::Off;

#[test]
fn empty_spec_yields_empty_filter() {
    for spec in ["", "   ", ",", " , ", "   ,"] {
        let filter = TargetFilter::parse(spec);
        assert!(filter.is_empty(), "spec {spec:?} should parse to nothing");
        assert_eq!(filter.global_default(), None);
        // With no directives the base level applies unchanged.
        assert!(filter.enabled("anything", INFO, INFO));
        assert!(!filter.enabled("anything", DEBUG, INFO));
    }
}

#[test]
fn bare_level_is_global_default() {
    for spec in ["debug", "DEBUG", "Debug", "deBuG"] {
        let filter = TargetFilter::parse(spec);
        assert_eq!(filter.global_default(), Some(DEBUG));
        assert_eq!(filter.default_level(INFO), DEBUG);
        assert!(filter.enabled("any::target", DEBUG, INFO));
        assert!(!filter.enabled("any::target", TRACE, INFO));
    }
}

#[test]
fn bare_off_disables_everything() {
    let filter = TargetFilter::parse("off");
    assert_eq!(filter.global_default(), Some(OFF));
    for level in [TRACE, DEBUG, INFO, WARN, ERROR] {
        assert!(!filter.enabled("any::target", level, INFO));
    }
}

#[test]
fn bare_target_enables_at_trace() {
    let filter = TargetFilter::parse("hyper");
    assert_eq!(filter.global_default(), None);
    assert_eq!(filter.effective_level("hyper", INFO), TRACE);
    assert_eq!(filter.effective_level("hyper::client", INFO), TRACE);
    assert!(filter.enabled("hyper::client", TRACE, INFO));
    // Unrelated targets keep the base level.
    assert_eq!(filter.effective_level("myapp", INFO), INFO);
}

#[test]
fn empty_level_is_bare_target() {
    let filter = TargetFilter::parse("hyper=");
    assert_eq!(filter.effective_level("hyper", INFO), TRACE);
}

#[test]
fn target_directive_matches_descendants_not_siblings() {
    let filter = TargetFilter::parse("myapp=debug");
    assert_eq!(filter.effective_level("myapp", INFO), DEBUG);
    assert_eq!(filter.effective_level("myapp::server", INFO), DEBUG);
    assert_eq!(filter.effective_level("myapp::server::tls", INFO), DEBUG);
    // Not a descendant: `myapp_client` must not match `myapp`.
    assert_eq!(filter.effective_level("myapp_client", INFO), INFO);
    assert_eq!(filter.effective_level("myappx", INFO), INFO);
}

#[test]
fn longest_match_wins() {
    let filter = TargetFilter::parse("crate2=info,crate2::mod=debug");
    assert_eq!(filter.effective_level("crate2", INFO), INFO);
    assert_eq!(filter.effective_level("crate2::mod", INFO), DEBUG);
    assert_eq!(filter.effective_level("crate2::mod::deep", INFO), DEBUG);
}

#[test]
fn target_off_suppresses_only_that_target() {
    let filter = TargetFilter::parse("myapp=off");
    for level in [TRACE, DEBUG, INFO, WARN, ERROR] {
        assert!(!filter.enabled("myapp::x", level, INFO), "level {level:?}");
    }
    assert!(filter.enabled("other", INFO, INFO));
    assert!(filter.enabled("other", ERROR, INFO));
}

#[test]
fn mixed_spec_example() {
    let filter = TargetFilter::parse("myapp=debug,hyper=warn");
    assert!(filter.enabled("myapp", DEBUG, INFO));
    assert!(filter.enabled("myapp::sub", INFO, INFO));
    assert!(filter.enabled("hyper", WARN, INFO));
    assert!(!filter.enabled("hyper", INFO, INFO));
    // Unmatched targets fall back to the base level.
    assert!(filter.enabled("unrelated", INFO, INFO));
    assert!(!filter.enabled("unrelated", DEBUG, INFO));
}

#[test]
fn global_level_with_overrides() {
    let filter = TargetFilter::parse("debug,hyper=warn");
    assert_eq!(filter.default_level(INFO), DEBUG);
    assert!(filter.enabled("myapp", DEBUG, INFO));
    assert!(!filter.enabled("myapp", TRACE, INFO));
    // The explicit target directive overrides the global default.
    assert!(!filter.enabled("hyper", DEBUG, INFO));
    assert!(filter.enabled("hyper", WARN, INFO));
}

#[test]
fn invalid_directives_are_skipped() {
    // Unknown level, too many '=', trailing '=' with extra part.
    let filter = TargetFilter::parse("foo=invalid,bad=a=b,ok=warn,=,");
    assert_eq!(filter.global_default(), None);
    assert_eq!(filter.effective_level("ok", INFO), WARN);
    // foo/bad never become directives.
    assert_eq!(filter.effective_level("foo", INFO), INFO);
    assert_eq!(filter.effective_level("bad", INFO), INFO);
}

#[test]
fn later_directive_replaces_earlier() {
    let filter = TargetFilter::parse("myapp=info,myapp=debug");
    assert_eq!(filter.effective_level("myapp", INFO), DEBUG);
}

#[test]
fn warning_alias_and_case_insensitive_levels() {
    let filter = TargetFilter::parse("a=WARNING,b=WaRn,c=Off");
    assert_eq!(filter.effective_level("a", INFO), WARN);
    assert_eq!(filter.effective_level("b", INFO), WARN);
    assert_eq!(filter.effective_level("c", INFO), OFF);
    assert!(!filter.enabled("c", ERROR, INFO));
}

#[test]
fn regex_suffix_is_ignored() {
    let filter = TargetFilter::parse("myapp=debug/secret-pattern");
    assert_eq!(filter.effective_level("myapp", INFO), DEBUG);
}

#[test]
fn off_level_never_enabled() {
    let filter = TargetFilter::parse("myapp=debug");
    assert!(!filter.enabled("myapp", OFF, INFO));
}

#[test]
fn base_off_disables_unmatched() {
    let filter = TargetFilter::parse("myapp=debug");
    assert!(filter.enabled("myapp", DEBUG, OFF));
    assert!(!filter.enabled("other", INFO, OFF));
}

#[test]
fn module_matches_boundary() {
    assert!(module_matches("myapp", "myapp"));
    assert!(module_matches("myapp", "myapp::server"));
    assert!(!module_matches("myapp", "myapp_client"));
    assert!(!module_matches("myapp", "my"));
    assert!(!module_matches("", "myapp"));
}

// Further cases of the directive grammar.

#[test]
fn global_directive_with_empty_name_sets_default() {
    let filter = TargetFilter::parse("=debug");
    assert_eq!(filter.global_default(), Some(DEBUG));
}

#[test]
fn target_name_keeps_inner_spaces_before_equals() {
    let filter = TargetFilter::parse(" myapp =debug ");
    assert_eq!(filter.effective_level("myapp ", INFO), DEBUG);
    assert_eq!(filter.effective_level("myapp", INFO), INFO);
}

#[test]
fn later_global_directive_replaces_earlier() {
    let filter = TargetFilter::parse("warn,error");
    assert_eq!(filter.global_default(), Some(ERROR));
}

#[test]
fn env_value_unset_or_blank_gives_no_filter() {
    assert!(TargetFilter::from_env_value(None).is_none());
    assert!(TargetFilter::from_env_value(Some("   ".to_string())).is_none());
    let filter = TargetFilter::from_env_value(Some("envmod=warn".to_string())).unwrap();
    assert_eq!(filter.effective_level("envmod", INFO), WARN);
}

#[test]
fn passing_is_monotone_in_severity() {
    let filter = TargetFilter::parse("myapp=warn");
    assert!(!filter.enabled("myapp", INFO, TRACE));
    assert!(filter.enabled("myapp", WARN, TRACE));
    assert!(filter.enabled("myapp", ERROR, TRACE));
}

#[test]
fn clone_keeps_directives() {
    let filter = TargetFilter::parse("a=debug,b=off");
    let copy = filter.clone();
    assert_eq!(copy.effective_level("a", INFO), DEBUG);
    assert_eq!(copy.effective_level("b", INFO), OFF);
}
