use drgrep::Color;
use std::io::{self, Write};

#[test]
fn test_color_constants_are_correct() {
    // Basic format check for ANSI escape codes
    assert_eq!(Color::RESET, "\x1b[0m");
    assert_eq!(Color::RED, "\x1b[31m");
    assert_eq!(Color::BLUE, "\x1b[34m");
    assert_eq!(Color::BOLD, "\x1b[1m");
}

#[test]
fn test_color_combination() {
    // Test that colors can be combined with styles
    let bold_red = format!("{}{}", Color::BOLD, Color::RED);
    assert_eq!(bold_red, "\x1b[1m\x1b[31m");

    // Test that reset works after combinations
    let bold_red_reset = format!("{}{}test{}", Color::BOLD, Color::RED, Color::RESET);
    assert_eq!(bold_red_reset, "\x1b[1m\x1b[31mtest\x1b[0m");
}

#[test]
fn test_bright_colors() {
    // Check bright color codes
    assert_eq!(Color::BRIGHT_GREEN, "\x1b[92m");
    assert_eq!(Color::BRIGHT_YELLOW, "\x1b[93m");

    // Test bright and normal color difference
    assert_ne!(Color::GREEN, Color::BRIGHT_GREEN);
    assert_ne!(Color::MAGENTA, Color::BRIGHT_MAGENTA);
}

#[test]
fn test_styles() {
    // Check style codes
    assert_eq!(Color::BOLD, "\x1b[1m");
    assert_eq!(Color::UNDERLINE, "\x1b[4m");

    // Test style combination
    let bold_underline = format!("{}{}", Color::BOLD, Color::UNDERLINE);
    assert_eq!(bold_underline, "\x1b[1m\x1b[4m");
}

#[test]
fn test_color_output_formatting() {
    // This is primarily a visual test, but we can at least ensure the code compiles
    // and that the formatted strings have the expected structure

    let colored_text = format!("{}This is blue text{}", Color::BLUE, Color::RESET);
    assert!(colored_text.starts_with("\x1b[34m"));
    assert!(colored_text.ends_with("\x1b[0m"));
    assert!(colored_text.contains("This is blue text"));

    // In a real terminal environment, this would display colored text
    // but in automated tests, we can only verify the string structure
    let styled_text = format!(
        "{}{}Important warning{}",
        Color::BOLD,
        Color::YELLOW,
        Color::RESET
    );
    assert!(styled_text.contains("\x1b[1m"));
    assert!(styled_text.contains("\x1b[33m"));
    assert!(styled_text.contains("Important warning"));
    assert!(styled_text.ends_with("\x1b[0m"));
}

#[test]
fn test_color_in_standard_output() {
    // Test that colors can be used in standard output
    // Note: This doesn't verify the actual color rendering, only that it doesn't cause errors

    let output = format!("{}Success message{}", Color::GREEN, Color::RESET);

    // This would display green text in an actual terminal
    let _ = io::stdout().write_all(output.as_bytes());

    // Just ensure the test runs without error
    assert!(true);
}
