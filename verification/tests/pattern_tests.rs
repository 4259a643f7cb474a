use drgrep::pattern::{self, PatternError, RegexPattern};

#[test]
fn test_literal_match() {
    let pattern = RegexPattern::new("abc").unwrap();
    assert!(pattern.is_match("abc"));
    assert!(pattern.is_match("xabcy"));
    assert!(!pattern.is_match("ab"));
}

#[test]
fn test_any_char() {
    let pattern = RegexPattern::new("a.c").unwrap();
    assert!(pattern.is_match("abc"));
    assert!(pattern.is_match("axc"));
    assert!(!pattern.is_match("ac"));
}

#[test]
fn test_digit() {
    let pattern = RegexPattern::new(r"a\dc").unwrap();
    assert!(pattern.is_match("a1c"));
    assert!(pattern.is_match("a9c"));
    assert!(!pattern.is_match("abc"));

    let pattern = RegexPattern::new(r"a\Dc").unwrap();
    assert!(!pattern.is_match("a1c"));
    assert!(pattern.is_match("abc"));
}

#[test]
fn test_quantifiers() {
    // Zero or more
    let pattern = RegexPattern::new("ab*c").unwrap();
    assert!(pattern.is_match("ac"));
    assert!(pattern.is_match("abc"));
    assert!(pattern.is_match("abbc"));

    // One or more
    let pattern = RegexPattern::new("ab+c").unwrap();
    assert!(!pattern.is_match("ac"));
    assert!(pattern.is_match("abc"));
    assert!(pattern.is_match("abbc"));

    // Zero or one
    let pattern = RegexPattern::new("ab?c").unwrap();
    assert!(pattern.is_match("ac"));
    assert!(pattern.is_match("abc"));
    assert!(!pattern.is_match("abbc"));
}

#[test]
fn test_anchors() {
    // Start anchor
    let pattern = RegexPattern::new("^abc").unwrap();
    assert!(pattern.is_match("abc"));
    assert!(pattern.is_match("abcdef"));
    assert!(!pattern.is_match("xabc"));

    // End anchor
    let pattern = RegexPattern::new("abc$").unwrap();
    assert!(pattern.is_match("abc"));
    assert!(pattern.is_match("xabc"));
    assert!(!pattern.is_match("abcx"));

    // Both anchors
    let pattern = RegexPattern::new("^abc$").unwrap();
    assert!(pattern.is_match("abc"));
    assert!(!pattern.is_match("abcx"));
    assert!(!pattern.is_match("xabc"));
}

#[test]
fn test_find() {
    let pattern = RegexPattern::new(r"\d+").unwrap();
    let m = pattern.find("abc123def").unwrap();
    assert_eq!(m.text, "123");
    assert_eq!(m.start, 3);
    assert_eq!(m.end, 6);
}

#[test]
fn test_find_all() {
    let pattern = RegexPattern::new(r"\d+").unwrap();
    let matches = pattern.find_all("abc123def456");
    assert_eq!(matches.len(), 2);
    assert_eq!(matches[0].text, "123");
    assert_eq!(matches[1].text, "456");
}

#[test]
fn test_replace_all() {
    let pattern = RegexPattern::new(r"\d+").unwrap();
    let result = pattern.replace_all("abc123def456", "NUM");
    assert_eq!(result, "abcNUMdefNUM");
}

#[test]
fn test_split() {
    let pattern = RegexPattern::new(r"\d+").unwrap();
    let result = pattern.split("abc123def456ghi");
    assert_eq!(result, vec!["abc", "def", "ghi"]);
}

#[test]
fn test_regex_pattern_creation() {
    // Valid patterns
    assert!(RegexPattern::new("abc").is_ok());
    assert!(RegexPattern::new("a.c").is_ok());
    assert!(RegexPattern::new(r"a\dc").is_ok());
    assert!(RegexPattern::new(r"a\w+").is_ok());
    assert!(RegexPattern::new(r"a*").is_ok()); // "*" is valid after an element
}

#[test]
fn test_regex_pattern_matching_features() {
    // Test different regex pattern features
    let text = "Hello123 World_456";

    // Word characters
    assert!(pattern::is_match(r"\w+", text).unwrap());

    // Digits
    let digit_matches = pattern::find_all(r"\d+", text).unwrap();
    assert_eq!(digit_matches.len(), 2);
    assert_eq!(digit_matches[0].text, "123");
    assert_eq!(digit_matches[1].text, "456");

    // Words with underscore
    let word_matches = pattern::find_all(r"\w+", text).unwrap();
    assert_eq!(word_matches.len(), 2);
    assert_eq!(word_matches[0].text, "Hello123");
    assert_eq!(word_matches[1].text, "World_456");

    // Combined patterns
    let combined = pattern::find(r"\w+\s\w+", text).unwrap();
    assert!(combined.is_some());
    assert_eq!(combined.unwrap().text, "Hello123 World_456");
}

#[test]
fn test_regex_replace_functionality() {
    let text = "Version 1.2.3 was released on 2023-04-17";

    // Replace version numbers
    let result = pattern::replace_all(r"\d+\.\d+\.\d+", text, "X.Y.Z").unwrap();
    assert_eq!(result, "Version X.Y.Z was released on 2023-04-17");

    // Multiple replacements
    let result = pattern::replace_all(r"\d+", text, "#").unwrap();
    assert_eq!(result, "Version #.#.# was released on #-#-#");
}

#[test]
fn test_regex_split_functionality() {
    let text = "apple,banana,cherry";

    // Split by comma
    let parts = pattern::split(",", text).unwrap();
    assert_eq!(parts, vec!["apple", "banana", "cherry"]);

    // Split by digits
    let text = "abc123def456ghi";
    let parts = pattern::split(r"\d+", text).unwrap();
    assert_eq!(parts, vec!["abc", "def", "ghi"]);

    // Split across line boundaries (a split on a match removes the match)
    let text = "start\nmiddle\nend";
    let parts = pattern::split("middle", text).unwrap();
    assert_eq!(parts, vec!["start\n", "\nend"]);
}

#[test]
fn test_regex_complex_patterns() {
    // Email-like pattern
    let text = "Contact us at info@example.com or support@domain.org";

    let matches = pattern::find_all(r"\w+@\w+\.\w+", text).unwrap();
    assert_eq!(matches.len(), 2);
    assert_eq!(matches[0].text, "info@example.com");
    assert_eq!(matches[1].text, "support@domain.org");

    // More complex pattern with multiple features
    assert!(pattern::is_match(r"^\w+\s\d+$", "Test 123").unwrap());
    assert!(!pattern::is_match(r"^\w+\s\d+$", "Test123").unwrap());
    assert!(!pattern::is_match(r"^\w+\s\d+$", " Test 123").unwrap());
    assert!(!pattern::is_match(r"^\w+\s\d+$", "Test 123 ").unwrap());
}

#[test]
fn test_regex_utility_functions() {
    let text = "The quick brown fox jumps over the lazy dog";

    // is_match
    assert!(pattern::is_match("fox", text).unwrap());
    assert!(!pattern::is_match("cat", text).unwrap());

    // find_all is case-sensitive
    let results = pattern::find_all("the", text).unwrap();
    assert_eq!(results.len(), 1); // Only finds "the", not "The"

    // Case sensitivity test
    assert!(pattern::is_match("The", text).unwrap()); // Matches "The"
    let find_lower_the_in_upper = pattern::is_match("the", "The").unwrap();
    assert!(
        !find_lower_the_in_upper,
        "Should not find lowercase 'the' in 'The'"
    );

    // find_all for case sensitivity
    let results_the_lower = pattern::find_all("the", text).unwrap();
    assert_eq!(results_the_lower.len(), 1);
    assert_eq!(results_the_lower[0].text, "the");

    let results_the_upper = pattern::find_all("The", text).unwrap();
    assert_eq!(results_the_upper.len(), 1);
    assert_eq!(results_the_upper[0].text, "The");
}

#[test]
fn test_dangling_quantifier_is_rejected() {
    let result = RegexPattern::new("*invalid");
    assert_eq!(result.unwrap_err(), PatternError::DanglingQuantifier);
    assert!(RegexPattern::new("+x").is_err());
    assert!(RegexPattern::new("?").is_err());
    assert!(RegexPattern::new("^*").is_err());
}

#[test]
fn test_empty_pattern_matches_only_empty() {
    // The empty pattern matches only the empty string.
    let pattern = RegexPattern::new("").unwrap();
    assert!(pattern.is_match(""));
    assert!(!pattern.is_match("abc"));
    assert!(!pattern.is_match(" "));
    assert!(pattern.find("ab").is_none());
    assert_eq!(pattern.find_all("ab").len(), 0);
    let m = pattern.find("").unwrap();
    assert_eq!(m.text, "");
    assert_eq!(m.start, 0);
    assert_eq!(m.end, 0);
}

#[test]
fn test_trailing_backslash_is_literal() {
    let pattern = RegexPattern::new("a\\").unwrap();
    assert!(pattern.is_match("a\\b"));
    assert!(!pattern.is_match("ab"));
}

#[test]
fn test_escaped_metacharacters() {
    let pattern = RegexPattern::new(r"a\.c").unwrap();
    assert!(pattern.is_match("a.c"));
    assert!(!pattern.is_match("abc"));

    let pattern = RegexPattern::new(r"a\$").unwrap();
    assert!(pattern.is_match("xa$y"));

    let pattern = RegexPattern::new(r"a\*").unwrap();
    assert!(pattern.is_match("a*"));
    assert!(!pattern.is_match("aa"));
}

#[test]
fn test_multibyte_offsets_are_byte_offsets() {
    // 'é' takes two bytes in UTF-8, so "llo" starts at byte 3.
    let pattern = RegexPattern::new("llo").unwrap();
    let m = pattern.find("héllo").unwrap();
    assert_eq!(m.text, "llo");
    assert_eq!(m.start, 3);
    assert_eq!(m.end, 6);
}

#[test]
fn test_find_all_forward_progress() {
    // Successive matches never overlap and never move backwards.
    let pattern = RegexPattern::new("a+").unwrap();
    let matches = pattern.find_all("aabxaaya");
    assert_eq!(matches.len(), 3);
    for w in matches.windows(2) {
        assert!(w[0].end <= w[1].start);
    }
    // With possibly-empty matches the scan still advances.
    let pattern = RegexPattern::new("b*").unwrap();
    let matches = pattern.find_all("abba");
    for w in matches.windows(2) {
        assert!(w[0].end <= w[1].start);
        if w[0].start == w[0].end {
            assert!(w[0].end < w[1].start);
        }
    }
}

#[test]
fn test_replace_count_matches_find_all() {
    let pattern = RegexPattern::new(r"\d+").unwrap();
    let text = "a1b22c333d";
    let n = pattern.find_all(text).len();
    let replaced = pattern.replace_all(text, "#");
    assert_eq!(replaced.matches('#').count(), n);
    assert_eq!(replaced, "a#b#c#d");
}

#[test]
fn test_split_reconstructs_text() {
    let pattern = RegexPattern::new(r"\d+").unwrap();
    let text = "abc123def456ghi";
    let segments = pattern.split(text);
    let matches = pattern.find_all(text);
    assert_eq!(segments.len(), matches.len() + 1);
    let mut rebuilt = String::new();
    for (i, seg) in segments.iter().enumerate() {
        rebuilt.push_str(seg);
        if i < matches.len() {
            rebuilt.push_str(&matches[i].text);
        }
    }
    assert_eq!(rebuilt, text);
}

#[test]
fn test_compile_deterministic() {
    // Compiling identical source twice yields identical matching.
    let a = RegexPattern::new(r"^a\d*b$").unwrap();
    let b = RegexPattern::new(r"^a\d*b$").unwrap();
    for text in ["ab", "a1b", "a123b", "xa1b", "a1bx", ""] {
        assert_eq!(a.is_match(text), b.is_match(text));
    }
}

#[test]
fn test_replace_all_with_function() {
    let pattern = RegexPattern::new(r"\d+").unwrap();
    let result = pattern.replace_all_with("a1b22c", |m| format!("<{}>", m));
    assert_eq!(result, "a<1>b<22>c");
}

#[test]
fn test_get_pattern_returns_source() {
    let pattern = RegexPattern::new(r"a\d+c").unwrap();
    assert_eq!(pattern.get_pattern(), r"a\d+c");
}

#[test]
fn test_four_byte_character_offsets() {
    // '😀' takes four bytes in UTF-8.
    let pattern = RegexPattern::new("b").unwrap();
    let m = pattern.find("a😀b").unwrap();
    assert_eq!(m.start, 5);
    assert_eq!(m.end, 6);
}
