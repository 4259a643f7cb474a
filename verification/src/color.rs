//! ANSI colour and style escape sequences for terminal text formatting.

use vstd::prelude::*;

verus! {

/// ANSI escape sequences for terminal text formatting.
pub struct Color;

impl Color {
    /// Resets all colours and styles to the terminal default.
    pub const RESET: &'static str = "\x1b[0m";

    /// Black text colour.
    pub const BLACK: &'static str = "\x1b[30m";

    /// Red text colour.
    pub const RED: &'static str = "\x1b[31m";

    /// Green text colour.
    pub const GREEN: &'static str = "\x1b[32m";

    /// Yellow text colour.
    pub const YELLOW: &'static str = "\x1b[33m";

    /// Blue text colour.
    pub const BLUE: &'static str = "\x1b[34m";

    /// Magenta text colour.
    pub const MAGENTA: &'static str = "\x1b[35m";

    /// Cyan text colour.
    pub const CYAN: &'static str = "\x1b[36m";

    /// White text colour.
    pub const WHITE: &'static str = "\x1b[37m";

    /// Bright black text colour (usually grey).
    pub const BRIGHT_BLACK: &'static str = "\x1b[90m";

    /// Bright red text colour.
    pub const BRIGHT_RED: &'static str = "\x1b[91m";

    /// Bright green text colour.
    pub const BRIGHT_GREEN: &'static str = "\x1b[92m";

    /// Bright yellow text colour.
    pub const BRIGHT_YELLOW: &'static str = "\x1b[93m";

    /// Bright blue text colour.
    pub const BRIGHT_BLUE: &'static str = "\x1b[94m";

    /// Bright magenta text colour.
    pub const BRIGHT_MAGENTA: &'static str = "\x1b[95m";

    /// Bright cyan text colour.
    pub const BRIGHT_CYAN: &'static str = "\x1b[96m";

    /// Bright white text colour.
    pub const BRIGHT_WHITE: &'static str = "\x1b[97m";

    /// Bold text style.
    pub const BOLD: &'static str = "\x1b[1m";

    /// Underline text style.
    pub const UNDERLINE: &'static str = "\x1b[4m";
}

} // verus!
