use globfs::matcher::wildcard_matches;

fn s(text: &str) -> String {
    text.to_string()
}

#[test]
fn star_matches_any_component() {
    assert!(wildcard_matches(&s("*"), &s("anything")));
    assert!(wildcard_matches(&s("*"), &s("")));
}

#[test]
fn literal_matches_itself_only() {
    assert!(wildcard_matches(&s("ab"), &s("ab")));
    assert!(!wildcard_matches(&s("ab"), &s("a")));
    assert!(!wildcard_matches(&s("ab"), &s("abc")));
    assert!(!wildcard_matches(&s("ab"), &s("")));
}

#[test]
fn empty_pattern_matches_empty_component() {
    assert!(wildcard_matches(&s(""), &s("")));
    assert!(!wildcard_matches(&s(""), &s("a")));
}

#[test]
fn inner_star_spans_any_run() {
    assert!(wildcard_matches(&s("a*c"), &s("abc")));
    assert!(wildcard_matches(&s("a*c"), &s("ac")));
    assert!(wildcard_matches(&s("a*c"), &s("abbbbc")));
    assert!(!wildcard_matches(&s("a*c"), &s("abd")));
    assert!(!wildcard_matches(&s("a*c"), &s("cba")));
}

#[test]
fn suffix_star_matches_prefix() {
    assert!(wildcard_matches(&s("m*"), &s("main")));
    assert!(wildcard_matches(&s("*.txt"), &s("notes.txt")));
    assert!(!wildcard_matches(&s("*.txt"), &s("notes.rs")));
}
