//! Line-oriented searching over already-read content: by literal key,
//! case-insensitively, or by regular expression, with the matched lines'
//! words marked for colouring.

use vstd::prelude::*;

use crate::color::Color;
use crate::pattern::spec_is_match;
use crate::pattern::RegexPattern;
use crate::text::contains_seq;
use crate::text::lines_spec;
use crate::text::lower_of;
use crate::text::split_char_from;

verus! {

/// One matched line: its words paired each with its colour, the searched
/// word, the source name, and the one-based line number.
#[derive(Debug)]
pub struct SearchResult {
    pub line: Vec<(String, String)>,
    pub word: String,
    pub source: String,
    pub idx: usize,
}

/// Holds of a line that contains `key`.
pub open spec fn contains_pred(key: Seq<char>) -> spec_fn(Seq<char>) -> bool {
    |l: Seq<char>| contains_seq(l, key)
}

/// Holds of a line whose lowercase form contains the lowercase `key`.
pub open spec fn ci_contains_pred(key: Seq<char>) -> spec_fn(Seq<char>) -> bool {
    |l: Seq<char>| contains_seq(lower_of(l), lower_of(key))
}

/// Holds of a line matched by the compiled elements `es`.
pub open spec fn regex_line_pred(es: Seq<crate::pattern::SpecElem>) -> spec_fn(
    Seq<char>,
) -> bool {
    |l: Seq<char>| spec_is_match(es, l)
}

/// Holds of a word whose lowercase form is matched by `es`.
pub open spec fn regex_word_pred(es: Seq<crate::pattern::SpecElem>) -> spec_fn(
    Seq<char>,
) -> bool {
    |w: Seq<char>| spec_is_match(es, lower_of(w))
}

/// The lines of `lines[i..]` satisfying `p`, in order.
pub open spec fn filtered_lines(
    lines: Seq<Seq<char>>,
    p: spec_fn(Seq<char>) -> bool,
    i: int,
) -> Seq<Seq<char>>
    decreases lines.len() - i,
{
    if i < 0 || i >= lines.len() {
        Seq::empty()
    } else if p(lines[i]) {
        seq![lines[i]] + filtered_lines(lines, p, i + 1)
    } else {
        filtered_lines(lines, p, i + 1)
    }
}

/// The lines of `lines[i..]` satisfying `p`, each with its zero-based
/// line number.
pub open spec fn matching_lines(
    lines: Seq<Seq<char>>,
    p: spec_fn(Seq<char>) -> bool,
    i: int,
) -> Seq<(int, Seq<char>)>
    decreases lines.len() - i,
{
    if i < 0 || i >= lines.len() {
        Seq::empty()
    } else if p(lines[i]) {
        seq![(i, lines[i])] + matching_lines(lines, p, i + 1)
    } else {
        matching_lines(lines, p, i + 1)
    }
}

/// `sr` reports the match `m` (zero-based line number and line text) of a
/// search for `key` in `source`: one-based line number, and the line split
/// at spaces with each word coloured bright yellow when `wp` holds of it
/// and white otherwise.
pub open spec fn search_result_models(
    sr: SearchResult,
    key: Seq<char>,
    source: Seq<char>,
    m: (int, Seq<char>),
    wp: spec_fn(Seq<char>) -> bool,
) -> bool {
    let parts = split_char_from(m.1, ' ', 0);
    &&& sr.word@ == key
    &&& sr.source@ == source
    &&& sr.idx == m.0 + 1
    &&& sr.line@.len() == parts.len()
    &&& forall|u: int|
        0 <= u < parts.len() ==> (#[trigger] sr.line@[u]).0@ == parts[u] && sr.line@[u].1@ == (
        if wp(parts[u]) {
            Color::BRIGHT_YELLOW@
        } else {
            Color::WHITE@
        })
}

/// The lines of `content` that contain `search_content`, in order.
#[verifier::loop_isolation(false)]
pub fn search_sensitive_case(search_content: &str, content: &str) -> (r: Vec<String>)
    ensures
        r.deep_view() == filtered_lines(lines_spec(content@), contains_pred(search_content@), 0),
{
    let ghost p = contains_pred(search_content@);
    let keyc = crate::text::chars_of(search_content);
    let cc = crate::text::chars_of(content);
    let lines = crate::text::split_lines(&cc);
    let ghost lsv = lines.deep_view();
    let mut out: Vec<String> = Vec::new();
    let mut i: usize = 0;
    proof {
        assert(out.deep_view() + filtered_lines(lsv, p, 0) =~~= filtered_lines(lsv, p, 0));
    }
    while i < lines.len()
        invariant
            i <= lines@.len(),
            filtered_lines(lsv, p, 0) == out.deep_view() + filtered_lines(lsv, p, i as int),
        decreases lines@.len() - i,
    {
        let ghost i0 = i as int;
        let ghost out0 = out.deep_view();
        let line = &lines[i];
        proof {
            assert(line@ == lsv[i0]);
            assert(p(lsv[i0]) == contains_seq(lsv[i0], search_content@));
        }
        if crate::text::contains_chars(line, &keyc) {
            out.push(crate::text::string_from_chars(line));
            proof {
                assert(filtered_lines(lsv, p, i0) == seq![lsv[i0]] + filtered_lines(
                    lsv,
                    p,
                    i0 + 1,
                ));
                assert(out.deep_view() =~~= out0.push(lsv[i0]));
                assert(out0.push(lsv[i0]) + filtered_lines(lsv, p, i0 + 1) =~~= out0 + (seq![
                    lsv[i0],
                ] + filtered_lines(lsv, p, i0 + 1)));
            }
        }
        i = i + 1;
    }
    proof {
        assert(filtered_lines(lsv, p, i as int) =~~= Seq::<Seq<char>>::empty());
        assert(out.deep_view() + Seq::<Seq<char>>::empty() =~~= out.deep_view());
    }
    out
}

/// The lines of `content` that contain `search_content` ignoring case, in
/// order.
#[verifier::loop_isolation(false)]
pub fn search_insensitive_case(search_content: &str, content: &str) -> (r: Vec<String>)
    ensures
        r.deep_view() == filtered_lines(
            lines_spec(content@),
            ci_contains_pred(search_content@),
            0,
        ),
{
    let ghost p = ci_contains_pred(search_content@);
    let lowkey = crate::text::lowercase(search_content);
    let keyc = crate::text::chars_of(lowkey.as_str());
    let cc = crate::text::chars_of(content);
    let lines = crate::text::split_lines(&cc);
    let ghost lsv = lines.deep_view();
    let mut out: Vec<String> = Vec::new();
    let mut i: usize = 0;
    proof {
        assert(out.deep_view() + filtered_lines(lsv, p, 0) =~~= filtered_lines(lsv, p, 0));
    }
    while i < lines.len()
        invariant
            i <= lines@.len(),
            filtered_lines(lsv, p, 0) == out.deep_view() + filtered_lines(lsv, p, i as int),
        decreases lines@.len() - i,
    {
        let ghost i0 = i as int;
        let ghost out0 = out.deep_view();
        let line = &lines[i];
        proof {
            assert(line@ == lsv[i0]);
            assert(p(lsv[i0]) == contains_seq(lower_of(lsv[i0]), lower_of(search_content@)));
        }
        let linestr = crate::text::string_from_chars(line);
        let lowline = crate::text::lowercase(linestr.as_str());
        let lowc = crate::text::chars_of(lowline.as_str());
        if crate::text::contains_chars(&lowc, &keyc) {
            out.push(linestr);
            proof {
                assert(filtered_lines(lsv, p, i0) == seq![lsv[i0]] + filtered_lines(
                    lsv,
                    p,
                    i0 + 1,
                ));
                assert(out.deep_view() =~~= out0.push(lsv[i0]));
                assert(out0.push(lsv[i0]) + filtered_lines(lsv, p, i0 + 1) =~~= out0 + (seq![
                    lsv[i0],
                ] + filtered_lines(lsv, p, i0 + 1)));
            }
        }
        i = i + 1;
    }
    proof {
        assert(filtered_lines(lsv, p, i as int) =~~= Seq::<Seq<char>>::empty());
        assert(out.deep_view() + Seq::<Seq<char>>::empty() =~~= out.deep_view());
    }
    out
}

} // verus!

verus! {

/// The matching lines of `content` (those containing `key`), each as a
/// [`SearchResult`] with its words marked: bright yellow for a word
/// containing `key`, white otherwise.
#[verifier::loop_isolation(false)]
pub fn search_word_sensitive_case(key: &str, source: &str, content: &str) -> (r: Vec<
    SearchResult,
>)
    ensures
        ({
            let ms = matching_lines(lines_spec(content@), contains_pred(key@), 0);
            &&& r@.len() == ms.len()
            &&& forall|t: int|
                0 <= t < ms.len() ==> search_result_models(
                    #[trigger] r@[t],
                    key@,
                    source@,
                    ms[t],
                    contains_pred(key@),
                )
        }),
{
    let ghost p = contains_pred(key@);
    let keyc = crate::text::chars_of(key);
    let cc = crate::text::chars_of(content);
    let lines = crate::text::split_lines(&cc);
    let ghost lsv = lines.deep_view();
    let mut out: Vec<SearchResult> = Vec::new();
    let ghost mut outm = Seq::<(int, Seq<char>)>::empty();
    let mut i: usize = 0;
    proof {
        assert(outm + matching_lines(lsv, p, 0) =~= matching_lines(lsv, p, 0));
    }
    while i < lines.len()
        invariant
            i <= lines@.len(),
            outm.len() == out@.len(),
            matching_lines(lsv, p, 0) == outm + matching_lines(lsv, p, i as int),
            forall|t: int|
                0 <= t < out@.len() ==> search_result_models(
                    #[trigger] out@[t],
                    key@,
                    source@,
                    outm[t],
                    p,
                ),
        decreases lines@.len() - i,
    {
        let ghost i0 = i as int;
        let ghost outm0 = outm;
        let line = &lines[i];
        proof {
            assert(line@ == lsv[i0]);
            assert(p(lsv[i0]) == contains_seq(lsv[i0], key@));
        }
        if crate::text::contains_chars(line, &keyc) {
            let words = crate::text::split_words(line);
            let ghost wsv = words.deep_view();
            let mut parts: Vec<(String, String)> = Vec::new();
            let mut u: usize = 0;
            while u < words.len()
                invariant
                    u <= words@.len(),
                    parts@.len() == u,
                    forall|t: int|
                        0 <= t < u ==> (#[trigger] parts@[t]).0@ == wsv[t] && parts@[t].1@ == (
                        if p(wsv[t]) {
                            Color::BRIGHT_YELLOW@
                        } else {
                            Color::WHITE@
                        }),
                decreases words@.len() - u,
            {
                let w = &words[u];
                proof {
                    assert(w@ == wsv[u as int]);
                    assert(p(wsv[u as int]) == contains_seq(wsv[u as int], key@));
                }
                let whit = crate::text::contains_chars(w, &keyc);
                let color = if whit {
                    String::from_str(Color::BRIGHT_YELLOW)
                } else {
                    String::from_str(Color::WHITE)
                };
                parts.push((crate::text::string_from_chars(w), color));
                u = u + 1;
            }
            let sr = SearchResult {
                line: parts,
                word: key.to_owned(),
                source: source.to_owned(),
                idx: i + 1,
            };
            out.push(sr);
            proof {
                outm = outm.push((i0, lsv[i0]));
                assert(matching_lines(lsv, p, i0) == seq![(i0, lsv[i0])] + matching_lines(
                    lsv,
                    p,
                    i0 + 1,
                ));
                assert(outm + matching_lines(lsv, p, i0 + 1) =~= outm0 + (seq![(i0, lsv[i0])]
                    + matching_lines(lsv, p, i0 + 1)));
                assert(search_result_models(out@.last(), key@, source@, (i0, lsv[i0]), p));
            }
        } else {
            proof {
                assert(matching_lines(lsv, p, i0) == matching_lines(lsv, p, i0 + 1));
            }
        }
        i = i + 1;
    }
    proof {
        assert(matching_lines(lsv, p, i as int) =~= Seq::<(int, Seq<char>)>::empty());
        assert(outm + Seq::<(int, Seq<char>)>::empty() =~= outm);
    }
    out
}

/// The matching lines of `content` (those containing `key` ignoring
/// case), each as a [`SearchResult`] with its words marked: bright yellow
/// for a word containing `key` ignoring case, white otherwise.
#[verifier::loop_isolation(false)]
pub fn search_word_insensitive_case(key: &str, source: &str, content: &str) -> (r: Vec<
    SearchResult,
>)
    ensures
        ({
            let ms = matching_lines(lines_spec(content@), ci_contains_pred(key@), 0);
            &&& r@.len() == ms.len()
            &&& forall|t: int|
                0 <= t < ms.len() ==> search_result_models(
                    #[trigger] r@[t],
                    key@,
                    source@,
                    ms[t],
                    ci_contains_pred(key@),
                )
        }),
{
    let ghost p = ci_contains_pred(key@);
    let lowkey = crate::text::lowercase(key);
    let keyc = crate::text::chars_of(lowkey.as_str());
    let cc = crate::text::chars_of(content);
    let lines = crate::text::split_lines(&cc);
    let ghost lsv = lines.deep_view();
    let mut out: Vec<SearchResult> = Vec::new();
    let ghost mut outm = Seq::<(int, Seq<char>)>::empty();
    let mut i: usize = 0;
    proof {
        assert(outm + matching_lines(lsv, p, 0) =~= matching_lines(lsv, p, 0));
    }
    while i < lines.len()
        invariant
            i <= lines@.len(),
            outm.len() == out@.len(),
            matching_lines(lsv, p, 0) == outm + matching_lines(lsv, p, i as int),
            forall|t: int|
                0 <= t < out@.len() ==> search_result_models(
                    #[trigger] out@[t],
                    key@,
                    source@,
                    outm[t],
                    p,
                ),
        decreases lines@.len() - i,
    {
        let ghost i0 = i as int;
        let ghost outm0 = outm;
        let line = &lines[i];
        proof {
            assert(line@ == lsv[i0]);
            assert(p(lsv[i0]) == contains_seq(lower_of(lsv[i0]), lower_of(key@)));
        }
        let linestr = crate::text::string_from_chars(line);
        let lowline = crate::text::lowercase(linestr.as_str());
        let lowc = crate::text::chars_of(lowline.as_str());
        if crate::text::contains_chars(&lowc, &keyc) {
            let words = crate::text::split_words(line);
            let ghost wsv = words.deep_view();
            let mut parts: Vec<(String, String)> = Vec::new();
            let mut u: usize = 0;
            while u < words.len()
                invariant
                    u <= words@.len(),
                    parts@.len() == u,
                    forall|t: int|
                        0 <= t < u ==> (#[trigger] parts@[t]).0@ == wsv[t] && parts@[t].1@ == (
                        if p(wsv[t]) {
                            Color::BRIGHT_YELLOW@
                        } else {
                            Color::WHITE@
                        }),
                decreases words@.len() - u,
            {
                let w = &words[u];
                proof {
                    assert(w@ == wsv[u as int]);
                    assert(p(wsv[u as int]) == contains_seq(lower_of(wsv[u as int]), lower_of(
                        key@,
                    )));
                }
                let wstr = crate::text::string_from_chars(w);
                let loww = crate::text::lowercase(wstr.as_str());
                let lowwc = crate::text::chars_of(loww.as_str());
                let whit = crate::text::contains_chars(&lowwc, &keyc);
                let color = if whit {
                    String::from_str(Color::BRIGHT_YELLOW)
                } else {
                    String::from_str(Color::WHITE)
                };
                parts.push((wstr, color));
                u = u + 1;
            }
            let sr = SearchResult {
                line: parts,
                word: key.to_owned(),
                source: source.to_owned(),
                idx: i + 1,
            };
            out.push(sr);
            proof {
                outm = outm.push((i0, lsv[i0]));
                assert(matching_lines(lsv, p, i0) == seq![(i0, lsv[i0])] + matching_lines(
                    lsv,
                    p,
                    i0 + 1,
                ));
                assert(outm + matching_lines(lsv, p, i0 + 1) =~= outm0 + (seq![(i0, lsv[i0])]
                    + matching_lines(lsv, p, i0 + 1)));
                assert(search_result_models(out@.last(), key@, source@, (i0, lsv[i0]), p));
            }
        } else {
            proof {
                assert(matching_lines(lsv, p, i0) == matching_lines(lsv, p, i0 + 1));
            }
        }
        i = i + 1;
    }
    proof {
        assert(matching_lines(lsv, p, i as int) =~= Seq::<(int, Seq<char>)>::empty());
        assert(outm + Seq::<(int, Seq<char>)>::empty() =~= outm);
    }
    out
}

/// The lines of `content` matched by `regex`, each as a [`SearchResult`]
/// with its words marked: bright yellow for a word whose lowercase form
/// the regex matches, white otherwise.
#[verifier::loop_isolation(false)]
pub fn search_with_regex(regex: &RegexPattern, source: &str, content: &str) -> (r: Vec<
    SearchResult,
>)
    ensures
        ({
            let ms = matching_lines(lines_spec(content@), regex_line_pred(regex.elems()), 0);
            &&& r@.len() == ms.len()
            &&& forall|t: int|
                0 <= t < ms.len() ==> search_result_models(
                    #[trigger] r@[t],
                    Seq::empty(),
                    source@,
                    ms[t],
                    regex_word_pred(regex.elems()),
                )
        }),
{
    let ghost es = regex.elems();
    let ghost p = regex_line_pred(es);
    let ghost wp = regex_word_pred(es);
    let cc = crate::text::chars_of(content);
    let lines = crate::text::split_lines(&cc);
    let ghost lsv = lines.deep_view();
    let mut out: Vec<SearchResult> = Vec::new();
    let ghost mut outm = Seq::<(int, Seq<char>)>::empty();
    let mut i: usize = 0;
    proof {
        assert(outm + matching_lines(lsv, p, 0) =~= matching_lines(lsv, p, 0));
    }
    while i < lines.len()
        invariant
            i <= lines@.len(),
            outm.len() == out@.len(),
            matching_lines(lsv, p, 0) == outm + matching_lines(lsv, p, i as int),
            forall|t: int|
                0 <= t < out@.len() ==> search_result_models(
                    #[trigger] out@[t],
                    Seq::empty(),
                    source@,
                    outm[t],
                    wp,
                ),
        decreases lines@.len() - i,
    {
        let ghost i0 = i as int;
        let ghost outm0 = outm;
        let line = &lines[i];
        proof {
            assert(line@ == lsv[i0]);
            assert(p(lsv[i0]) == spec_is_match(es, lsv[i0]));
        }
        let linestr = crate::text::string_from_chars(line);
        if regex.is_match(linestr.as_str()) {
            let words = crate::text::split_words(line);
            let ghost wsv = words.deep_view();
            let mut parts: Vec<(String, String)> = Vec::new();
            let mut u: usize = 0;
            while u < words.len()
                invariant
                    u <= words@.len(),
                    parts@.len() == u,
                    forall|t: int|
                        0 <= t < u ==> (#[trigger] parts@[t]).0@ == wsv[t] && parts@[t].1@ == (
                        if wp(wsv[t]) {
                            Color::BRIGHT_YELLOW@
                        } else {
                            Color::WHITE@
                        }),
                decreases words@.len() - u,
            {
                let w = &words[u];
                proof {
                    assert(w@ == wsv[u as int]);
                    assert(wp(wsv[u as int]) == spec_is_match(es, lower_of(wsv[u as int])));
                }
                let wstr = crate::text::string_from_chars(w);
                let loww = crate::text::lowercase(wstr.as_str());
                let whit = regex.is_match(loww.as_str());
                let color = if whit {
                    String::from_str(Color::BRIGHT_YELLOW)
                } else {
                    String::from_str(Color::WHITE)
                };
                parts.push((wstr, color));
                u = u + 1;
            }
            let sr = SearchResult {
                line: parts,
                word: String::new(),
                source: source.to_owned(),
                idx: i + 1,
            };
            out.push(sr);
            proof {
                outm = outm.push((i0, lsv[i0]));
                assert(matching_lines(lsv, p, i0) == seq![(i0, lsv[i0])] + matching_lines(
                    lsv,
                    p,
                    i0 + 1,
                ));
                assert(outm + matching_lines(lsv, p, i0 + 1) =~= outm0 + (seq![(i0, lsv[i0])]
                    + matching_lines(lsv, p, i0 + 1)));
                assert(search_result_models(out@.last(), Seq::empty(), source@, (i0, lsv[i0]), wp));
            }
        } else {
            proof {
                assert(matching_lines(lsv, p, i0) == matching_lines(lsv, p, i0 + 1));
            }
        }
        i = i + 1;
    }
    proof {
        assert(matching_lines(lsv, p, i as int) =~= Seq::<(int, Seq<char>)>::empty());
        assert(outm + Seq::<(int, Seq<char>)>::empty() =~= outm);
    }
    out
}

} // verus!

verus! {

/// The first of the two argument values that is present with a value:
/// the long name's, else the short name's.
pub open spec fn chosen_val(
    m: Map<Seq<char>, Option<Seq<char>>>,
    long: Seq<char>,
    short: Seq<char>,
) -> Option<Seq<char>> {
    if crate::args::arg_val(m, long) is Some {
        crate::args::arg_val(m, long)
    } else {
        crate::args::arg_val(m, short)
    }
}

/// Some search source was given: a key, a regex, or inline content.
pub open spec fn has_search_source(m: Map<Seq<char>, Option<Seq<char>>>) -> bool {
    ||| m.contains_key("key"@)
    ||| m.contains_key("k"@)
    ||| m.contains_key("regex"@)
    ||| m.contains_key("r"@)
    ||| m.contains_key("content"@)
    ||| m.contains_key("c"@)
}

/// The resolved search configuration.
#[derive(Debug)]
pub struct Config {
    pub search_key: Option<String>,
    pub search_content: Option<String>,
    pub file_path: Option<String>,
    pub regex: Option<RegexPattern>,
    pub sensitive: bool,
    pub path_is_dir: bool,
}

impl Config {
    /// Resolves the configuration from parsed arguments.  The caller
    /// supplies what only the file system and environment can answer:
    /// whether the path candidate (the value of `path`, else of `p`) names
    /// a file or a directory, and whether the environment requests
    /// case-sensitive search.
    pub fn new(args: &crate::args::ArgParser, path_is_file: bool, path_is_dir: bool,
        env_sensitive: bool) -> (r: Result<Config, &'static str>)
        ensures
            r is Ok <==> (has_search_source(args@) && (chosen_val(args@, "regex"@, "r"@) is None
                || crate::pattern::compile_spec(chosen_val(args@, "regex"@, "r"@)->0) is Some)),
            match r {
                Ok(c) => {
                    &&& crate::args::optstr_view(c.search_key) == chosen_val(
                        args@,
                        "key"@,
                        "k"@,
                    )
                    &&& crate::args::optstr_view(c.search_content) == chosen_val(
                        args@,
                        "content"@,
                        "c"@,
                    )
                    &&& crate::args::optstr_view(c.file_path) == ({
                        let cand = chosen_val(args@, "path"@, "p"@);
                        if cand is Some && (path_is_file || path_is_dir) {
                            cand
                        } else {
                            None
                        }
                    })
                    &&& c.path_is_dir == !((chosen_val(args@, "path"@, "p"@) is Some
                        && path_is_file) || (crate::args::arg_val(args@, "content"@) is None
                        && crate::args::arg_val(args@, "c"@) is Some))
                    &&& c.sensitive == (crate::args::arg_val(args@, "sensitive"@) is Some
                        || crate::args::arg_val(args@, "s"@) is Some || env_sensitive)
                    &&& match chosen_val(args@, "regex"@, "r"@) {
                        Some(v) => c.regex is Some && c.regex->0.wf() && c.regex->0.source() == v,
                        None => c.regex is None,
                    }
                },
                Err(e) => {
                    ||| (!has_search_source(args@) && e@ == "no search key/regex provided"@)
                    ||| (has_search_source(args@) && e@
                        == "Error during the creating of the current regex"@)
                },
            },
    {
        if !args.has("key") && !args.has("k") && !args.has("regex") && !args.has("r")
            && !args.has("content") && !args.has("c") {
            return Err("no search key/regex provided");
        }
        let search_key: Option<String> = match args.get("key") {
            Some(v) => Some(v.clone()),
            None => match args.get("k") {
                Some(v) => Some(v.clone()),
                None => None,
            },
        };
        let cand: Option<String> = match args.get("path") {
            Some(v) => Some(v.clone()),
            None => match args.get("p") {
                Some(v) => Some(v.clone()),
                None => None,
            },
        };
        let mut is_dir = true;
        let file_path: Option<String> = match cand {
            Some(v) => {
                if path_is_file {
                    is_dir = false;
                    Some(v)
                } else if path_is_dir {
                    Some(v)
                } else {
                    None
                }
            },
            None => None,
        };
        let regex: Option<RegexPattern> = match args.get("regex") {
            Some(v) => match RegexPattern::new(v.as_str()) {
                Ok(rp) => Some(rp),
                Err(_) => {
                    return Err("Error during the creating of the current regex");
                },
            },
            None => match args.get("r") {
                Some(v) => match RegexPattern::new(v.as_str()) {
                    Ok(rp) => Some(rp),
                    Err(_) => {
                        return Err("Error during the creating of the current regex");
                    },
                },
                None => None,
            },
        };
        let search_content: Option<String> = match args.get("content") {
            Some(v) => Some(v.clone()),
            None => match args.get("c") {
                Some(v) => {
                    is_dir = false;
                    Some(v.clone())
                },
                None => None,
            },
        };
        let sensitive = match args.get("sensitive") {
            Some(_) => true,
            None => match args.get("s") {
                Some(_) => true,
                None => env_sensitive,
            },
        };
        Ok(
            Config {
                search_key,
                search_content,
                file_path,
                regex,
                sensitive,
                path_is_dir: is_dir,
            },
        )
    }
}

/// The suffix appended to the working directory to ignore the `.git`
/// tree.
pub open spec fn git_glob_suffix() -> Seq<char> {
    seq!['/', '.', 'g', 'i', 't', '/', '*', '*']
}

/// The ignore rules: one glob per ignore-file line, each anchored at the
/// working directory, plus a rule for the `.git` tree; and the raw lines.
#[derive(Debug)]
pub struct GitIgnoreFiles {
    pub pattern: Vec<crate::glob::GlobPattern>,
    pub entries: Vec<String>,
}

impl GitIgnoreFiles {
    /// Builds the ignore rules from the ignore-file lines and the working
    /// directory path.
    #[verifier::loop_isolation(false)]
    pub fn from_lines(cur_dir: &str, lines: &Vec<String>) -> (r: GitIgnoreFiles)
        ensures
            r.entries.deep_view() == lines.deep_view(),
            r.pattern@.len() == lines@.len() + 1,
            forall|i: int|
                0 <= i < lines@.len() ==> (#[trigger] r.pattern@[i]).wf()
                    && r.pattern@[i].source() == cur_dir@ + seq!['/'] + lines.deep_view()[i],
            r.pattern@[lines@.len() as int].wf(),
            r.pattern@[lines@.len() as int].source() == cur_dir@ + git_glob_suffix(),
    {
        let mut patterns: Vec<crate::glob::GlobPattern> = Vec::new();
        let mut entries: Vec<String> = Vec::new();
        let mut i: usize = 0;
        while i < lines.len()
            invariant
                i <= lines@.len(),
                patterns@.len() == i,
                entries@.len() == i,
                forall|t: int|
                    0 <= t < i ==> (#[trigger] patterns@[t]).wf() && patterns@[t].source()
                        == cur_dir@ + seq!['/'] + lines.deep_view()[t],
                forall|t: int|
                    0 <= t < i ==> (#[trigger] entries@[t])@ == lines.deep_view()[t],
            decreases lines@.len() - i,
        {
            let line = &lines[i];
            let mut src = cur_dir.to_owned();
            src.append("/");
            src.append(line.as_str());
            proof {
                reveal_strlit("/");
                assert("/"@ =~= seq!['/']);
                assert(src@ == cur_dir@ + seq!['/'] + lines.deep_view()[i as int]);
            }
            patterns.push(crate::glob::GlobPattern::new(src.as_str()));
            entries.push(line.clone());
            i = i + 1;
        }
        let mut gitsrc = cur_dir.to_owned();
        gitsrc.append("/.git/**");
        proof {
            reveal_strlit("/.git/**");
            assert("/.git/**"@ =~= git_glob_suffix());
        }
        patterns.push(crate::glob::GlobPattern::new(gitsrc.as_str()));
        let r = GitIgnoreFiles { pattern: patterns, entries };
        proof {
            assert(r.entries.deep_view() =~~= lines.deep_view());
        }
        r
    }

    /// Whether the path `p` (as seen from the walker, beginning with a
    /// dot) is ignored: its form anchored at the working directory matches
    /// some ignore glob, or some raw ignore line occurs within it.
    #[verifier::loop_isolation(false)]
    pub fn is_ignored(&self, p: &str, current: &str) -> (r: bool)
        requires
            p@.len() >= 1,
        ensures
            r == ({
                let gen = current@ + p@.skip(1);
                ||| exists|i: int|
                    0 <= i < self.pattern@.len() && crate::glob::spec_glob_matches(
                        (#[trigger] self.pattern@[i]).comps_model(),
                        self.pattern@[i].expanded_model(),
                        gen,
                    )
                ||| exists|j: int|
                    0 <= j < self.entries@.len() && contains_seq(
                        p@,
                        (#[trigger] self.entries@[j])@,
                    )
            }),
    {
        let pc = crate::text::chars_of(p);
        let rest = crate::text::vec_subrange(&pc, 1, pc.len());
        let mut gen = current.to_owned();
        let reststr = crate::text::string_from_chars(&rest);
        gen.append(reststr.as_str());
        proof {
            assert(pc@.subrange(1, pc@.len() as int) =~= p@.skip(1));
            assert(gen@ == current@ + p@.skip(1));
        }
        let mut i: usize = 0;
        while i < self.pattern.len()
            invariant
                i <= self.pattern@.len(),
                gen@ == current@ + p@.skip(1),
                forall|t: int|
                    0 <= t < i ==> !crate::glob::spec_glob_matches(
                        (#[trigger] self.pattern@[t]).comps_model(),
                        self.pattern@[t].expanded_model(),
                        gen@,
                    ),
            decreases self.pattern@.len() - i,
        {
            if self.pattern[i].matches(gen.as_str()) {
                return true;
            }
            i = i + 1;
        }
        let mut j: usize = 0;
        while j < self.entries.len()
            invariant
                j <= self.entries@.len(),
                forall|t: int|
                    0 <= t < i ==> !crate::glob::spec_glob_matches(
                        (#[trigger] self.pattern@[t]).comps_model(),
                        self.pattern@[t].expanded_model(),
                        current@ + p@.skip(1),
                    ),
                i == self.pattern@.len(),
                forall|t: int|
                    0 <= t < j ==> !contains_seq(p@, (#[trigger] self.entries@[t])@),
            decreases self.entries@.len() - j,
        {
            let ec = crate::text::chars_of(self.entries[j].as_str());
            if crate::text::contains_chars(&pc, &ec) {
                return true;
            }
            j = j + 1;
        }
        false
    }
}

} // verus!
