use drgrep::{
    args::ArgParser, pattern::RegexPattern, search_insensitive_case, search_sensitive_case,
    search_word_insensitive_case, search_word_sensitive_case, Color, Config, GitIgnoreFiles,
};

#[test]
fn sensitive_case() {
    let search_key = "duct";
    let content = "\
Rust:
sécurité, rapidité, productivité.
Obtenez les trois en même temps.
Duck tape.";
    assert_eq!(
        vec!["sécurité, rapidité, productivité."],
        search_sensitive_case(search_key, content)
    );
}

#[test]
fn insensitive_case() {
    let recherche = "rUsT";
    let content = "\
Rust:
sécurité, rapidité, productivité.
Obtenez les trois en même temps.
C'est pas rustique.";
    assert_eq!(
        vec!["Rust:", "C'est pas rustique."],
        search_insensitive_case(recherche, content)
    );
}

#[test]
fn sensitive_case_search_word() {
    let recherche = "Rust";
    let content = "\
Rust:
sécurité, rapidité, productivité.
Obtenez les trois en même temps.
C'est pas rustique.";
    assert_eq!(1, search_word_sensitive_case(recherche, "", content).len());
}

#[test]
fn insensitive_case_search_word() {
    let recherche = "rUst";
    let content = "\
Rust:
sécurité, rapidité, productivité.
Obtenez les trois en même temps.
C'est pas rustique.";
    assert_eq!(
        vec![("Rust:".to_string(), Color::BRIGHT_YELLOW.to_string())],
        search_word_insensitive_case(recherche, recherche, content)[0].line
    );
}

#[test]
fn test_search_functionality() {
    // Test basic search functionality
    let content = "\
Hello world
This is a test
Find me in this line
Nothing here";

    // Test sensitive case search
    let results = search_sensitive_case("Find", content);
    assert_eq!(vec!["Find me in this line"], results);

    // Test insensitive case search
    let results = search_insensitive_case("hello", content);
    assert_eq!(vec!["Hello world"], results);
}

#[test]
fn test_config_creation() {
    // Build the arguments a call like `--key test --path ./src
    // --sensitive true` would produce
    let args = ArgParser::from_args(vec![
        "--key".to_string(),
        "test".to_string(),
        "--path".to_string(),
        "./src".to_string(),
        "--sensitive".to_string(),
        "true".to_string(),
    ]);

    // Create config from args; the path candidate names a directory
    let config = Config::new(&args, false, true, false).unwrap();

    // Test values
    assert_eq!("test", config.search_key.unwrap());
    assert_eq!(Some("./src".to_string()), config.file_path);
    assert!(config.sensitive);
}

#[test]
fn test_pattern_usage() {
    // Test pattern creation and matching
    let pattern = RegexPattern::new("\\w+").unwrap();

    assert!(pattern.is_match("Hello"));
    assert!(!pattern.is_match(" "));

    // Test find functionality
    let text = "Hello, World!";
    let result = pattern.find(text).unwrap();
    assert_eq!("Hello", result.text);

    // Test find_all functionality
    let results = pattern.find_all(text);
    assert_eq!(2, results.len());
    assert_eq!("Hello", results[0].text);
    assert_eq!("World", results[1].text);

    // Test replace functionality
    let replaced = pattern.replace_all(text, "TEXT");
    assert_eq!("TEXT, TEXT!", replaced);
}

#[test]
fn test_config_with_regex() {
    let args = ArgParser::from_args(vec![
        "--key".to_string(),
        "test".to_string(),
        "--regex".to_string(),
        "\\w+".to_string(),
    ]);

    // Create config from args
    let config = Config::new(&args, false, false, false).unwrap();

    // Test regex pattern
    assert!(config.regex.is_some());
    let pattern = config.regex.as_ref().unwrap();
    assert!(pattern.is_match("Hello"));
    assert!(!pattern.is_match(" "));
}

#[test]
fn test_error_handling() {
    // Test missing key argument
    let args = ArgParser::from_args(vec![]);

    let result = Config::new(&args, false, false, false);
    assert!(result.is_err());
    assert_eq!("no search key/regex provided", result.unwrap_err());

    // Test invalid regex pattern (starts with a quantifier)
    let args = ArgParser::from_args(vec![
        "--key".to_string(),
        "test".to_string(),
        "--regex".to_string(),
        "*invalid".to_string(),
    ]);

    let result = Config::new(&args, false, false, false);
    assert!(result.is_err());
}

#[test]
fn test_search_with_regex_marks_lines() {
    let regex = RegexPattern::new(r"\d+").unwrap();
    let content = "alpha 1\nbeta\ngamma 22";
    let results = drgrep::search_with_regex(&regex, "notes.txt", content);
    assert_eq!(2, results.len());
    assert_eq!(1, results[0].idx);
    assert_eq!(3, results[1].idx);
    assert_eq!("notes.txt", results[0].source);
    // "1" is matched, so that word is highlighted; "alpha" is not.
    assert_eq!(
        results[0].line,
        vec![
            ("alpha".to_string(), Color::WHITE.to_string()),
            ("1".to_string(), Color::BRIGHT_YELLOW.to_string()),
        ]
    );
}

#[test]
fn test_gitignore_rules() {
    let lines: Vec<String> = vec!["*.log".to_string(), "node_modules".to_string()];
    let ignore = GitIgnoreFiles::from_lines("/home/me/project", &lines);

    // Matches an ignore glob anchored at the working directory.
    assert!(ignore.is_ignored("./app.log", "/home/me/project"));
    // The .git tree is always ignored.
    assert!(ignore.is_ignored("./.git/config", "/home/me/project"));
    // A raw ignore line occurring in the path also ignores it.
    assert!(ignore.is_ignored("./node_modules/x.js", "/home/me/project"));
    // An unrelated file is kept.
    assert!(!ignore.is_ignored("./src/main.rs", "/home/me/project"));
}
