use log_threshold::LogConfig;
use log_threshold::parse::ConfigError;
use log_threshold::severity::Severity;

const ALL: [Severity; 5] =
    [Severity::Trace, Severity::Debug, Severity::Info, Severity::Warn, Severity::Error];

fn config(module: &[&str], target: &[&str]) -> LogConfig {
    let m: Vec<String> = module.iter().map(|s| s.to_string()).collect();
    let t: Vec<String> = target.iter().map(|s| s.to_string()).collect();
    LogConfig::new(&m, &t).unwrap()
}

#[test]
fn module_pattern_sets_the_floor() {
    let c = config(&["a:W,b:E"], &[]);
    assert_eq!(c.threshold(Some("abc"), "abc"), Severity::Warn);
    assert!(!c.decide(Severity::Info, Some("abc"), "abc"));
    assert!(c.decide(Severity::Warn, Some("abc"), "abc"));
    assert!(c.decide(Severity::Error, Some("abc"), "abc"));
}

#[test]
fn no_specs_means_info_for_every_module() {
    let c = config(&[], &[]);
    assert_eq!(c.module_levels().len(), 1);
    assert_eq!(c.module_levels().entry(0).pattern, "");
    assert_eq!(c.module_levels().entry(0).severity, Severity::Info);
    assert!(c.target_levels().is_empty());
    assert_eq!(c.verbosity_string(), "-d :Info");
    assert!(c.decide(Severity::Info, Some("anything"), "anything"));
    assert!(!c.decide(Severity::Debug, Some("anything"), "anything"));
}

#[test]
fn explicit_target_uses_the_target_table() {
    let c = config(&[], &["db:E"]);
    assert!(c.decide(Severity::Error, Some("app::store"), "db.primary"));
    assert!(!c.decide(Severity::Warn, Some("app::store"), "db.primary"));
}

#[test]
fn two_colons_fail_construction() {
    let r = LogConfig::new(&["x:A:B".to_string()], &[]);
    assert_eq!(r.err(), Some(ConfigError::TooManyColons));
    let r = LogConfig::new(&[], &["ok:W".to_string(), "x:A:B".to_string()]);
    assert_eq!(r.err(), Some(ConfigError::TooManyColons));
}

#[test]
fn unknown_abbreviation_accepts_every_severity() {
    let c = config(&["mod:Z"], &[]);
    for s in ALL {
        assert!(c.decide(s, Some("mod"), "mod"));
    }
}

#[test]
fn decide_is_monotone_in_urgency() {
    let c = config(&["a:W,b:D"], &["db:E,ui"]);
    let events = [(Some("a::x"), "a::x"), (Some("b"), "b"), (Some("zzz"), "zzz"),
        (Some("a"), "db"), (Some("a"), "ui"), (Some("a"), "other"), (None, ""), (None, "db")];
    for (module, target) in events {
        for less in ALL {
            for more in ALL {
                if more.rank() >= less.rank() && c.decide(less, module, target) {
                    assert!(c.decide(more, module, target));
                }
            }
        }
    }
}

#[test]
fn unmatched_target_defaults_to_info() {
    let c = config(&["app:T"], &["db:E"]);
    assert_eq!(c.threshold(Some("app"), "cache"), Severity::Info);
    assert!(c.decide(Severity::Info, Some("app"), "cache"));
    assert!(!c.decide(Severity::Debug, Some("app"), "cache"));
    let c = config(&["app:T"], &[]);
    assert!(!c.decide(Severity::Debug, Some("app"), "cache"));
}

#[test]
fn unmatched_module_defaults_to_info() {
    let c = config(&["app:E"], &[]);
    assert_eq!(c.threshold(Some("other"), "other"), Severity::Info);
    assert!(c.decide(Severity::Info, Some("other"), "other"));
    assert!(!c.decide(Severity::Debug, Some("other"), "other"));
    assert!(!c.decide(Severity::Warn, Some("my_app"), "my_app"));
}

#[test]
fn absent_module_path_is_the_empty_text() {
    let c = config(&["app:E", ":D"], &["db:E"]);
    assert_eq!(c.threshold(None, ""), Severity::Debug);
    assert!(c.decide(Severity::Debug, None, ""));
    assert!(!c.decide(Severity::Trace, None, ""));
    assert_eq!(c.threshold(None, "db"), Severity::Error);
    assert_eq!(c.threshold(None, "x"), Severity::Info);
}

#[test]
fn module_table_is_ignored_for_explicit_targets() {
    let c = config(&["app:T"], &["db:E"]);
    assert!(c.decide(Severity::Trace, Some("app"), "app"));
    assert!(!c.decide(Severity::Trace, Some("app"), "db"));
    assert!(!c.decide(Severity::Trace, Some("app"), "app2"));
}

#[test]
fn fallback_is_added_only_to_an_empty_module_table() {
    let c = config(&["net:W"], &[]);
    assert_eq!(c.verbosity_string(), "-d net:Warn");
    let c = config(&[",,"], &[]);
    assert_eq!(c.verbosity_string(), "-d :Info");
}

#[test]
fn verbosity_string_lists_both_tables() {
    let c = config(&["a:W,b:E"], &["db:E,ui"]);
    assert_eq!(c.verbosity_string(), "-d a:Warn,b:Error -v db:Error,ui:Trace");
    let c = config(&[], &["db:D"]);
    assert_eq!(c.verbosity_string(), "-d :Info -v db:Debug");
}
