use log_threshold::config::LogConfig;
use log_threshold::parse::{take_text, ConfigError};
use log_threshold::severity::Severity;
use log_threshold::table::ThresholdTable;

fn parse(specs: &[&str]) -> Result<ThresholdTable, ConfigError> {
    let owned: Vec<String> = specs.iter().map(|s| s.to_string()).collect();
    LogConfig::parse_level_strings(&owned)
}

fn listing(t: &ThresholdTable) -> Vec<(String, Severity)> {
    (0..t.len()).map(|i| (t.entry(i).pattern.clone(), t.entry(i).severity)).collect()
}

#[test]
fn empty_input_gives_empty_table() {
    let t = parse(&[]).unwrap();
    assert!(t.is_empty());
    assert_eq!(t.len(), 0);
    let t = parse(&[""]).unwrap();
    assert!(t.is_empty());
    let t = parse(&[",,,"]).unwrap();
    assert!(t.is_empty());
}

#[test]
fn each_abbreviation_names_its_severity() {
    let t = parse(&["t:T,d:D,i:I,w:W,e:E"]).unwrap();
    assert_eq!(
        listing(&t),
        vec![
            ("t".to_string(), Severity::Trace),
            ("d".to_string(), Severity::Debug),
            ("i".to_string(), Severity::Info),
            ("w".to_string(), Severity::Warn),
            ("e".to_string(), Severity::Error),
        ]
    );
}

#[test]
fn pattern_alone_means_trace() {
    let t = parse(&["net"]).unwrap();
    assert_eq!(t.get("net"), Some(Severity::Trace));
    assert_eq!(t.len(), 1);
}

#[test]
fn unknown_abbreviation_means_trace() {
    let t = parse(&["mod:Z"]).unwrap();
    assert_eq!(t.get("mod"), Some(Severity::Trace));
    let t = parse(&["a:Info,b:,c:w,d:EE"]).unwrap();
    assert_eq!(t.get("a"), Some(Severity::Trace));
    assert_eq!(t.get("b"), Some(Severity::Trace));
    assert_eq!(t.get("c"), Some(Severity::Trace));
    assert_eq!(t.get("d"), Some(Severity::Trace));
}

#[test]
fn stray_commas_are_skipped() {
    let t = parse(&["a,,b", ",c:E,"]).unwrap();
    assert_eq!(
        listing(&t),
        vec![
            ("a".to_string(), Severity::Trace),
            ("b".to_string(), Severity::Trace),
            ("c".to_string(), Severity::Error),
        ]
    );
}

#[test]
fn empty_pattern_with_level_is_an_entry() {
    let t = parse(&[":W"]).unwrap();
    assert_eq!(listing(&t), vec![(String::new(), Severity::Warn)]);
    let t = parse(&[":"]).unwrap();
    assert_eq!(listing(&t), vec![(String::new(), Severity::Trace)]);
}

#[test]
fn last_occurrence_of_a_pattern_wins_and_keeps_its_place() {
    let t = parse(&["a:W,b:E", "a:D"]).unwrap();
    assert_eq!(
        listing(&t),
        vec![("a".to_string(), Severity::Debug), ("b".to_string(), Severity::Error)]
    );
    assert_eq!(t.get("a"), Some(Severity::Debug));
    assert_eq!(t.get("b"), Some(Severity::Error));
    assert_eq!(t.get("c"), None);
}

#[test]
fn two_colons_are_refused() {
    assert_eq!(parse(&["x:A:B"]).err(), Some(ConfigError::TooManyColons));
    assert_eq!(parse(&["a:W,x::"]).err(), Some(ConfigError::TooManyColons));
    assert_eq!(parse(&["a:W", "b", "c:D:,d"]).err(), Some(ConfigError::TooManyColons));
    assert_eq!(parse(&["x:A:B", "a:W"]).err(), Some(ConfigError::TooManyColons));
    assert_eq!(parse(&[":::"]).err(), Some(ConfigError::TooManyColons));
}

#[test]
fn take_text_adds_to_a_table() {
    let t = take_text(ThresholdTable::new(), "a:W").unwrap();
    let t = take_text(t, "b:E,a:I").unwrap();
    assert_eq!(
        listing(&t),
        vec![("a".to_string(), Severity::Info), ("b".to_string(), Severity::Error)]
    );
    assert_eq!(take_text(t, "q:1:2").err(), Some(ConfigError::TooManyColons));
}

#[test]
fn patterns_may_hold_any_other_character() {
    let t = parse(&["crate::net:W,größe:E"]);
    assert_eq!(t.err(), Some(ConfigError::TooManyColons));
    let t = parse(&["my.mod-1:W,größe:E"]).unwrap();
    assert_eq!(t.get("my.mod-1"), Some(Severity::Warn));
    assert_eq!(t.get("größe"), Some(Severity::Error));
}

#[test]
fn threshold_is_the_first_match_in_insertion_order() {
    let t = parse(&["a:E,ab:T"]).unwrap();
    assert_eq!(t.threshold_for("abc"), Severity::Error);
    let t = parse(&["ab:T,a:E"]).unwrap();
    assert_eq!(t.threshold_for("abc"), Severity::Trace);
    assert_eq!(t.threshold_for("xa"), Severity::Error);
}

#[test]
fn threshold_defaults_to_info() {
    let t = parse(&["a:E"]).unwrap();
    assert_eq!(t.threshold_for("xyz"), Severity::Info);
    assert_eq!(ThresholdTable::new().threshold_for("xyz"), Severity::Info);
}

#[test]
fn serialize_spells_names_and_joins_with_commas() {
    assert_eq!(LogConfig::levels_to_string(&parse(&[]).unwrap()), "");
    assert_eq!(LogConfig::levels_to_string(&parse(&["a:W"]).unwrap()), "a:Warn");
    assert_eq!(
        LogConfig::levels_to_string(&parse(&["t,d:D,i:I,w:W,e:E"]).unwrap()),
        "t:Trace,d:Debug,i:Info,w:Warn,e:Error"
    );
    assert_eq!(LogConfig::levels_to_string(&parse(&[":I"]).unwrap()), ":Info");
}

#[test]
fn trace_table_survives_the_round_trip() {
    let t = parse(&["a,b:T", "c:x"]).unwrap();
    let text = LogConfig::levels_to_string(&t);
    assert_eq!(text, "a:Trace,b:Trace,c:Trace");
    let back = parse(&[text.as_str()]).unwrap();
    assert_eq!(listing(&back), listing(&t));
}

#[test]
fn reading_back_keeps_patterns_and_gives_trace() {
    let t = parse(&["a:W,b:E,:I"]).unwrap();
    let text = LogConfig::levels_to_string(&t);
    assert_eq!(text, "a:Warn,b:Error,:Info");
    let back = parse(&[text.as_str()]).unwrap();
    assert_eq!(
        listing(&back),
        vec![
            ("a".to_string(), Severity::Trace),
            ("b".to_string(), Severity::Trace),
            (String::new(), Severity::Trace),
        ]
    );
}
