//! A small text-search library built around two hand-written pattern
//! engines: a constrained regular-expression engine and a filesystem glob
//! engine.  Both parse a pattern string into a compiled representation and
//! execute a matching algorithm with explicit greedy or backtracking
//! semantics, byte-accurate offset reporting, and well-defined edge-case
//! behaviour for anchors, quantifiers, character classes and alternation.

pub mod args;
pub mod color;
pub mod glob;
pub mod pattern;
pub mod search;
pub mod text;

pub use args::ArgParser;
pub use color::Color;
pub use glob::GlobPattern;
pub use pattern::find;
pub use pattern::find_all;
pub use pattern::is_match;
pub use pattern::replace_all;
pub use pattern::replace_all_with;
pub use pattern::split;
pub use pattern::Match;
pub use pattern::PatternError;
pub use pattern::RegexPattern;
pub use search::search_insensitive_case;
pub use search::search_sensitive_case;
pub use search::search_with_regex;
pub use search::search_word_insensitive_case;
pub use search::search_word_sensitive_case;
pub use search::Config;
pub use search::GitIgnoreFiles;
pub use search::SearchResult;
