use drgrep::glob::GlobPattern;

#[test]
fn test_simple_literals() {
    let pattern = GlobPattern::new("hello");
    assert!(pattern.matches("hello"));
    assert!(!pattern.matches("world"));
    assert!(!pattern.matches("hello world"));
}

#[test]
fn test_single_wildcard() {
    let pattern = GlobPattern::new("h?llo");
    assert!(pattern.matches("hello"));
    assert!(pattern.matches("hallo"));
    assert!(!pattern.matches("hllo"));
    assert!(!pattern.matches("helloo"));
}

#[test]
fn test_multi_wildcard() {
    let pattern = GlobPattern::new("h*o");
    assert!(pattern.matches("hello"));
    assert!(pattern.matches("ho"));
    assert!(pattern.matches("hello world hello"));
    assert!(!pattern.matches("world"));
}

#[test]
fn test_character_class() {
    let pattern = GlobPattern::new("h[ae]llo");
    assert!(pattern.matches("hello"));
    assert!(pattern.matches("hallo"));
    assert!(!pattern.matches("hillo"));
    assert!(!pattern.matches("hllo"));

    let pattern = GlobPattern::new("h[a-z]llo");
    assert!(pattern.matches("hello"));
    assert!(pattern.matches("hallo"));
    assert!(pattern.matches("hzllo"));
    assert!(!pattern.matches("h1llo"));

    let pattern = GlobPattern::new("h[!aeiou]llo");
    assert!(!pattern.matches("hello"));
    assert!(!pattern.matches("hallo"));
    assert!(pattern.matches("hbllo"));
    assert!(pattern.matches("hzllo"));
}

#[test]
fn test_alternatives() {
    let pattern = GlobPattern::new("hello.{rs,txt,md}");
    assert!(pattern.matches("hello.rs"));
    assert!(pattern.matches("hello.txt"));
    assert!(pattern.matches("hello.md"));
    assert!(!pattern.matches("hello.go"));

    let pattern = GlobPattern::new("{src,tests}/*.rs");
    assert!(pattern.matches("src/main.rs"));
    assert!(pattern.matches("tests/test_utils.rs"));
    assert!(!pattern.matches("docs/readme.rs"));
}

#[test]
fn test_nested_alternatives() {
    let pattern = GlobPattern::new("{src/{lib,bin},tests}/*.rs");
    assert!(pattern.matches("src/lib/utils.rs"));
    assert!(pattern.matches("src/bin/main.rs"));
    assert!(pattern.matches("tests/test_main.rs"));
    assert!(!pattern.matches("src/other/mod.rs"));
}

#[test]
fn test_combined_patterns() {
    let pattern = GlobPattern::new("src/[a-z]*/{*.rs,*.toml}");
    assert!(pattern.matches("src/utils/mod.rs"));
    assert!(pattern.matches("src/config/settings.toml"));
    assert!(!pattern.matches("src/123/test.rs"));
    assert!(!pattern.matches("src/utils/test.js"));
}

#[test]
fn test_edge_cases() {
    let pattern = GlobPattern::new("*");
    assert!(pattern.matches(""));
    assert!(pattern.matches("anything"));

    let pattern = GlobPattern::new("?");
    assert!(pattern.matches("a"));
    assert!(!pattern.matches(""));
    assert!(!pattern.matches("ab"));

    let pattern = GlobPattern::new("\\*");
    assert!(pattern.matches("*"));
    assert!(!pattern.matches("anything"));

    let empty_pattern = GlobPattern::new("");
    assert!(empty_pattern.matches(""));
    assert!(!empty_pattern.matches("anything"));
}

#[test]
fn test_expand_alternatives() {
    // Test simple alternatives expansion
    let expanded = GlobPattern::expand_alternatives("a{b,c}d");
    assert_eq!(expanded, vec!["abd", "acd"]);

    // Test nested alternatives expansion
    let expanded = GlobPattern::expand_alternatives("{src/{lib,bin},tests}/*.rs");
    let expected = vec!["src/lib/*.rs", "src/bin/*.rs", "tests/*.rs"];

    for exp in &expected {
        assert!(expanded.contains(&exp.to_string()));
    }
    assert_eq!(expanded.len(), expected.len());
}

#[test]
fn test_nested_alternation_with_suffix() {
    let pattern = GlobPattern::new("{src/{lib,bin},tests}/*.x");
    assert!(pattern.matches("src/lib/foo.x"));
    assert!(pattern.matches("src/bin/foo.x"));
    assert!(pattern.matches("tests/foo.x"));
    assert!(!pattern.matches("docs/foo.x"));
}

#[test]
fn test_as_str_returns_source() {
    let pattern = GlobPattern::new("a{b,c}d");
    assert_eq!(pattern.as_str(), "a{b,c}d");
}

#[test]
fn test_reversed_range_is_empty() {
    // A reversed class range yields an empty set, not an error.
    let pattern = GlobPattern::new("h[z-a]llo");
    assert!(!pattern.matches("hallo"));
    assert!(!pattern.matches("hzllo"));
    assert!(!pattern.matches("hllo"));
}

#[test]
fn test_unterminated_class_consumes_to_end() {
    let pattern = GlobPattern::new("h[abc");
    assert!(pattern.matches("ha"));
    assert!(pattern.matches("hb"));
    assert!(!pattern.matches("hd"));
    assert!(!pattern.matches("h"));
}

#[test]
fn test_unbalanced_brace_is_literal() {
    let pattern = GlobPattern::new("a{b");
    assert!(pattern.matches("a{b"));
    assert!(!pattern.matches("ab"));
}

#[test]
fn test_adjacent_wildcards_backtrack() {
    let pattern = GlobPattern::new("*a*b");
    assert!(pattern.matches("xaxb"));
    assert!(pattern.matches("aab"));
    assert!(pattern.matches("ab"));
    assert!(!pattern.matches("ba"));
}

#[test]
fn test_glob_compile_deterministic() {
    let a = GlobPattern::new("{src,tests}/*.rs");
    let b = GlobPattern::new("{src,tests}/*.rs");
    for text in ["src/a.rs", "tests/b.rs", "docs/c.rs", ""] {
        assert_eq!(a.matches(text), b.matches(text));
    }
}

#[test]
fn test_matching_paths_selects_in_order() {
    let paths: Vec<String> = vec![
        "src/a.rs".to_string(),
        "src/b.txt".to_string(),
        "tests/c.rs".to_string(),
    ];
    let pattern = GlobPattern::new("*.rs");
    assert_eq!(pattern.matching_paths(&paths), vec!["src/a.rs", "tests/c.rs"]);
}

#[test]
fn test_matching_paths_deduplicates_across_alternatives() {
    // Both alternatives match "src/a.rs"; it must appear only once, and
    // results come grouped by alternative, in option order.
    let paths: Vec<String> = vec![
        "src/a.rs".to_string(),
        "src/b.rs".to_string(),
        "lib/c.rs".to_string(),
    ];
    let pattern = GlobPattern::new("{src/a.rs,*.rs}");
    assert_eq!(
        pattern.matching_paths(&paths),
        vec!["src/a.rs", "src/b.rs", "lib/c.rs"]
    );
}
