use drgrep::args::ArgParser;

#[test]
fn test_new_empty_args() {
    // Case where no arguments are passed
    let parser = ArgParser::from_args(vec![]);
    assert!(parser.is_empty());
}

#[test]
fn test_has_method() {
    let parser = ArgParser::from_args(vec!["--verbose".to_string()]);

    assert!(parser.has("verbose"));
    assert!(!parser.has("nonexistent"));
}

#[test]
fn test_get_method() {
    let parser = ArgParser::from_args(vec![
        "--file".to_string(),
        "test.txt".to_string(),
        "--verbose".to_string(),
    ]);

    assert_eq!(parser.get("file"), &Some("test.txt".to_string()));
    assert_eq!(parser.get("verbose"), &None);
    assert_eq!(parser.get("nonexistent"), &None);
}

#[test]
fn test_short_flags_take_values() {
    let parser = ArgParser::from_args(vec![
        "-k".to_string(),
        "word".to_string(),
        "-v".to_string(),
        "stray".to_string(),
        "-s".to_string(),
    ]);
    assert_eq!(parser.get("k"), &Some("word".to_string()));
    // "-v" takes the next argument as its value
    assert_eq!(parser.get("v"), &Some("stray".to_string()));
    assert_eq!(parser.get("s"), &None);
}

#[test]
fn test_set_overrides_value() {
    let mut parser = ArgParser::from_args(vec!["--file".to_string(), "a.txt".to_string()]);
    parser.set("file", "b.txt".to_string());
    assert_eq!(parser.get("file"), &Some("b.txt".to_string()));
    parser.set("fresh", "value".to_string());
    assert_eq!(parser.get("fresh"), &Some("value".to_string()));
}

#[test]
fn test_flag_followed_by_flag_has_no_value() {
    let parser = ArgParser::from_args(vec!["--all".to_string(), "--long".to_string()]);
    assert_eq!(parser.get("all"), &None);
    assert!(parser.has("long"));
}
