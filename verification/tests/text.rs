use log_threshold::text::{chars_of, contains, same_text};

fn has(text: &str, pat: &str) -> bool {
    contains(&chars_of(text), &chars_of(pat))
}

#[test]
fn chars_of_keeps_every_character() {
    assert_eq!(chars_of("a,b:W"), vec!['a', ',', 'b', ':', 'W']);
    assert_eq!(chars_of(""), Vec::<char>::new());
    assert_eq!(chars_of("häß"), vec!['h', 'ä', 'ß']);
}

#[test]
fn empty_pattern_occurs_everywhere() {
    assert!(has("abc", ""));
    assert!(has("", ""));
}

#[test]
fn contains_finds_runs_at_any_position() {
    assert!(has("abc", "a"));
    assert!(has("abc", "bc"));
    assert!(has("abc", "abc"));
    assert!(has("db.primary", "db"));
    assert!(has("my::module::path", "::module"));
}

#[test]
fn contains_rejects_what_is_not_there() {
    assert!(!has("abc", "ac"));
    assert!(!has("abc", "abcd"));
    assert!(!has("", "a"));
    assert!(!has("aab", "aba"));
    assert!(!has("abc", "B"));
}

#[test]
fn contains_agrees_with_std_on_samples() {
    let texts = ["", "a", "ab", "aab", "abab", "net::tcp", "ααβ"];
    let pats = ["", "a", "b", "ab", "ba", "aab", "tcp", "::", "αβ"];
    for t in texts {
        for p in pats {
            assert_eq!(has(t, p), t.contains(p), "text {:?} pattern {:?}", t, p);
        }
    }
}

#[test]
fn same_text_compares_contents() {
    assert!(same_text("abc", "abc"));
    assert!(same_text("", ""));
    assert!(!same_text("abc", "abd"));
    assert!(!same_text("abc", "ab"));
}
