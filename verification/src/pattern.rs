//! The regular-expression engine: pattern compiler, matcher and facade.
//!
//! A pattern string is tokenized left to right into an ordered sequence of
//! [`PatternElement`]s.  Matching is a direct recursive interpreter over
//! (element index, text position) with greedy, non-backtracking quantifier
//! consumption.  All reported offsets are byte offsets into the original
//! text.

use vstd::prelude::*;

use crate::text::byte_index;
use crate::text::byte_len;

verus! {

/// How many repetitions of the preceding element a quantifier permits.
#[derive(Clone, Copy, Debug, PartialEq, Eq, Structural)]
pub enum QuantifierKind {
    ZeroOrMore,
    OneOrMore,
    ZeroOrOne,
}

/// One element of a compiled pattern.
///
/// The inner element of `Quantified` is always a single-character element
/// (a one-character literal, `AnyChar` or a class); the compiler never
/// nests quantifiers.
#[derive(Debug)]
pub enum PatternElement {
    /// A run of characters matched verbatim.
    Literal(Vec<char>),
    /// `.`: any single character.
    AnyChar,
    /// `\d` (`\D` when the flag is set: negated).
    DigitClass(bool),
    /// `\w` (`\W` when the flag is set: negated).
    WordClass(bool),
    /// `\s` (`\S` when the flag is set: negated).
    WhitespaceClass(bool),
    /// Zero-width assertion: only satisfied at text position 0.
    StartAnchor,
    /// Zero-width assertion: only satisfied at the end of the text.
    EndAnchor,
    /// The preceding element, repeated as the kind permits.
    Quantified(Box<PatternElement>, QuantifierKind),
}

/// Mathematical model of a pattern element: as [`PatternElement`], with
/// literal runs as character sequences.
pub ghost enum SpecElem {
    Literal(Seq<char>),
    AnyChar,
    DigitClass(bool),
    WordClass(bool),
    WhitespaceClass(bool),
    StartAnchor,
    EndAnchor,
    Quantified(Box<SpecElem>, QuantifierKind),
}

/// The model of one compiled element.
pub open spec fn elem_view(e: PatternElement) -> SpecElem
    decreases e,
{
    match e {
        PatternElement::Literal(v) => SpecElem::Literal(v@),
        PatternElement::AnyChar => SpecElem::AnyChar,
        PatternElement::DigitClass(n) => SpecElem::DigitClass(n),
        PatternElement::WordClass(n) => SpecElem::WordClass(n),
        PatternElement::WhitespaceClass(n) => SpecElem::WhitespaceClass(n),
        PatternElement::StartAnchor => SpecElem::StartAnchor,
        PatternElement::EndAnchor => SpecElem::EndAnchor,
        PatternElement::Quantified(inner, k) => SpecElem::Quantified(
            Box::new(elem_view(*inner)),
            k,
        ),
    }
}

/// The model of a compiled element sequence.
pub open spec fn elems_view(v: Seq<PatternElement>) -> Seq<SpecElem> {
    v.map(|i: int, e: PatternElement| elem_view(e))
}

pub proof fn lemma_elems_view_push(s: Seq<PatternElement>, e: PatternElement)
    ensures
        elems_view(s.push(e)) =~= elems_view(s).push(elem_view(e)),
{
}

pub proof fn lemma_elem_view_quantified(inner: PatternElement, k: QuantifierKind)
    ensures
        elem_view(PatternElement::Quantified(Box::new(inner), k)) == SpecElem::Quantified(
            Box::new(elem_view(inner)),
            k,
        ),
{
}

/// `\d`: an ASCII decimal digit.
pub open spec fn is_digit_char(c: char) -> bool {
    '0' as u32 <= c as u32 && c as u32 <= '9' as u32
}

/// `\w`: an ASCII letter, digit or underscore.
pub open spec fn is_word_char(c: char) -> bool {
    ||| is_digit_char(c)
    ||| 'a' as u32 <= c as u32 && c as u32 <= 'z' as u32
    ||| 'A' as u32 <= c as u32 && c as u32 <= 'Z' as u32
    ||| c == '_'
}

/// `\s`: an ASCII whitespace character (space, tab, newline, form feed,
/// carriage return).
pub open spec fn is_space_char(c: char) -> bool {
    ||| c as u32 == 32
    ||| c as u32 == 9
    ||| c as u32 == 10
    ||| c as u32 == 12
    ||| c as u32 == 13
}

/// Whether the single character `c` satisfies element `e`.  Anchors and
/// quantified elements are never satisfied by a character.
pub open spec fn elem_sat(e: SpecElem, c: char) -> bool {
    match e {
        SpecElem::Literal(l) => l.len() == 1 && l[0] == c,
        SpecElem::AnyChar => true,
        SpecElem::DigitClass(n) => is_digit_char(c) != n,
        SpecElem::WordClass(n) => is_word_char(c) != n,
        SpecElem::WhitespaceClass(n) => is_space_char(c) != n,
        SpecElem::StartAnchor => false,
        SpecElem::EndAnchor => false,
        SpecElem::Quantified(_, _) => false,
    }
}

/// Appends the pending literal run to the element sequence, if any.
pub open spec fn flush_run(acc: Seq<SpecElem>, run: Seq<char>) -> Seq<SpecElem> {
    if run.len() == 0 {
        acc
    } else {
        acc.push(SpecElem::Literal(run))
    }
}

/// Applies a quantifier to the immediately preceding element: the last
/// character of the pending literal run, or else the last emitted
/// single-character element (splitting a literal run so that only its last
/// character is quantified).  `None` when no quantifiable element precedes.
pub open spec fn quantify(acc: Seq<SpecElem>, run: Seq<char>, k: QuantifierKind) -> Option<
    Seq<SpecElem>,
> {
    if run.len() > 0 {
        Some(
            flush_run(acc, run.drop_last()).push(
                SpecElem::Quantified(Box::new(SpecElem::Literal(seq![run.last()])), k),
            ),
        )
    } else if acc.len() > 0 {
        match acc.last() {
            SpecElem::AnyChar => Some(
                acc.drop_last().push(SpecElem::Quantified(Box::new(SpecElem::AnyChar), k)),
            ),
            SpecElem::DigitClass(n) => Some(
                acc.drop_last().push(SpecElem::Quantified(Box::new(SpecElem::DigitClass(n)), k)),
            ),
            SpecElem::WordClass(n) => Some(
                acc.drop_last().push(SpecElem::Quantified(Box::new(SpecElem::WordClass(n)), k)),
            ),
            SpecElem::WhitespaceClass(n) => Some(
                acc.drop_last().push(
                    SpecElem::Quantified(Box::new(SpecElem::WhitespaceClass(n)), k),
                ),
            ),
            SpecElem::Literal(l) => if l.len() > 0 {
                Some(
                    flush_run(acc.drop_last(), l.drop_last()).push(
                        SpecElem::Quantified(Box::new(SpecElem::Literal(seq![l.last()])), k),
                    ),
                )
            } else {
                None
            },
            _ => None,
        }
    } else {
        None
    }
}

/// Tokenizes `p` from index `i`, with `acc` the elements emitted so far and
/// `run` the pending literal run.  A trailing lone `\\` is kept as a
/// literal backslash rather than rejected.  `None` means a dangling
/// quantifier.
pub open spec fn tokenize_from(
    p: Seq<char>,
    i: int,
    acc: Seq<SpecElem>,
    run: Seq<char>,
) -> Option<Seq<SpecElem>>
    decreases p.len() - i,
{
    if i >= p.len() || i < 0 {
        Some(flush_run(acc, run))
    } else {
        let c = p[i];
        if c == '\\' {
            if i + 1 < p.len() {
                let d = p[i + 1];
                if d == 'd' {
                    tokenize_from(
                        p,
                        i + 2,
                        flush_run(acc, run).push(SpecElem::DigitClass(false)),
                        Seq::empty(),
                    )
                } else if d == 'D' {
                    tokenize_from(
                        p,
                        i + 2,
                        flush_run(acc, run).push(SpecElem::DigitClass(true)),
                        Seq::empty(),
                    )
                } else if d == 'w' {
                    tokenize_from(
                        p,
                        i + 2,
                        flush_run(acc, run).push(SpecElem::WordClass(false)),
                        Seq::empty(),
                    )
                } else if d == 'W' {
                    tokenize_from(
                        p,
                        i + 2,
                        flush_run(acc, run).push(SpecElem::WordClass(true)),
                        Seq::empty(),
                    )
                } else if d == 's' {
                    tokenize_from(
                        p,
                        i + 2,
                        flush_run(acc, run).push(SpecElem::WhitespaceClass(false)),
                        Seq::empty(),
                    )
                } else if d == 'S' {
                    tokenize_from(
                        p,
                        i + 2,
                        flush_run(acc, run).push(SpecElem::WhitespaceClass(true)),
                        Seq::empty(),
                    )
                } else {
                    tokenize_from(p, i + 2, acc, run.push(d))
                }
            } else {
                tokenize_from(p, i + 1, acc, run.push('\\'))
            }
        } else if c == '.' {
            tokenize_from(p, i + 1, flush_run(acc, run).push(SpecElem::AnyChar), Seq::empty())
        } else if c == '*' || c == '+' || c == '?' {
            let k = if c == '*' {
                QuantifierKind::ZeroOrMore
            } else if c == '+' {
                QuantifierKind::OneOrMore
            } else {
                QuantifierKind::ZeroOrOne
            };
            match quantify(acc, run, k) {
                Some(acc2) => tokenize_from(p, i + 1, acc2, Seq::empty()),
                None => None,
            }
        } else if c == '$' && i == p.len() - 1 {
            Some(flush_run(acc, run).push(SpecElem::EndAnchor))
        } else {
            tokenize_from(p, i + 1, acc, run.push(c))
        }
    }
}

/// The compiled form of pattern `p`: a leading `^` becomes a start-anchor
/// sentinel, a trailing unescaped `$` an end-anchor sentinel, and the rest
/// is tokenized left to right.  The empty pattern becomes the two anchor
/// sentinels alone, so it matches only the empty text.  `None` means a
/// dangling quantifier.
pub open spec fn compile_spec(p: Seq<char>) -> Option<Seq<SpecElem>> {
    if p.len() == 0 {
        Some(seq![SpecElem::StartAnchor, SpecElem::EndAnchor])
    } else if p[0] == '^' {
        tokenize_from(p, 1, seq![SpecElem::StartAnchor], Seq::empty())
    } else {
        tokenize_from(p, 0, Seq::empty(), Seq::empty())
    }
}

/// Errors raised when compiling a regular-expression pattern.
#[derive(Clone, Copy, Debug, PartialEq, Eq, Structural)]
pub enum PatternError {
    /// A quantifier (`*`, `+`, `?`) with no preceding element to apply to.
    DanglingQuantifier,
}

fn flush_exec(acc: Vec<PatternElement>, run: Vec<char>) -> (r: Vec<PatternElement>)
    ensures
        elems_view(r@) == flush_run(elems_view(acc@), run@),
{
    let mut acc = acc;
    if run.len() > 0 {
        proof {
            lemma_elems_view_push(acc@, PatternElement::Literal(run));
        }
        acc.push(PatternElement::Literal(run));
    }
    acc
}

fn quantify_exec(acc: Vec<PatternElement>, run: Vec<char>, k: QuantifierKind) -> (r: Option<
    Vec<PatternElement>,
>)
    ensures
        match r {
            Some(v) => quantify(elems_view(acc@), run@, k) == Some(elems_view(v@)),
            None => quantify(elems_view(acc@), run@, k) is None,
        },
{
    let ghost acc0 = acc@;
    let ghost run0 = run@;
    let mut acc = acc;
    let mut run = run;
    if run.len() > 0 {
        let c = match run.pop() {
            Some(c) => c,
            None => {
                return None;
            },
        };
        proof {
            assert(run@ =~= run0.drop_last());
            assert(c == run0.last());
        }
        let mut acc2 = flush_exec(acc, run);
        let mut lit: Vec<char> = Vec::new();
        lit.push(c);
        proof {
            assert(lit@ =~= seq![c]);
            lemma_elem_view_quantified(PatternElement::Literal(lit), k);
            assert(elem_view(PatternElement::Literal(lit)) == SpecElem::Literal(lit@));
            lemma_elems_view_push(
                acc2@,
                PatternElement::Quantified(Box::new(PatternElement::Literal(lit)), k),
            );
        }
        acc2.push(PatternElement::Quantified(Box::new(PatternElement::Literal(lit)), k));
        Some(acc2)
    } else {
        let el = match acc.pop() {
            Some(el) => el,
            None => {
                return None;
            },
        };
        proof {
            assert(acc0 =~= acc@.push(el));
            lemma_elems_view_push(acc@, el);
            assert(elems_view(acc0) == elems_view(acc@).push(elem_view(el)));
            assert(elems_view(acc0).last() == elem_view(el));
            assert(elems_view(acc0).drop_last() =~= elems_view(acc@));
        }
        match el {
            PatternElement::AnyChar => {
                proof {
                    lemma_elem_view_quantified(PatternElement::AnyChar, k);
                    assert(elem_view(PatternElement::AnyChar) == SpecElem::AnyChar);
                    lemma_elems_view_push(
                        acc@,
                        PatternElement::Quantified(Box::new(PatternElement::AnyChar), k),
                    );
                }
                acc.push(PatternElement::Quantified(Box::new(PatternElement::AnyChar), k));
                Some(acc)
            },
            PatternElement::DigitClass(n) => {
                proof {
                    lemma_elem_view_quantified(PatternElement::DigitClass(n), k);
                    assert(elem_view(PatternElement::DigitClass(n)) == SpecElem::DigitClass(n));
                    lemma_elems_view_push(
                        acc@,
                        PatternElement::Quantified(Box::new(PatternElement::DigitClass(n)), k),
                    );
                }
                acc.push(PatternElement::Quantified(Box::new(PatternElement::DigitClass(n)), k));
                Some(acc)
            },
            PatternElement::WordClass(n) => {
                proof {
                    lemma_elem_view_quantified(PatternElement::WordClass(n), k);
                    assert(elem_view(PatternElement::WordClass(n)) == SpecElem::WordClass(n));
                    lemma_elems_view_push(
                        acc@,
                        PatternElement::Quantified(Box::new(PatternElement::WordClass(n)), k),
                    );
                }
                acc.push(PatternElement::Quantified(Box::new(PatternElement::WordClass(n)), k));
                Some(acc)
            },
            PatternElement::WhitespaceClass(n) => {
                proof {
                    lemma_elem_view_quantified(PatternElement::WhitespaceClass(n), k);
                    assert(elem_view(PatternElement::WhitespaceClass(n))
                        == SpecElem::WhitespaceClass(n));
                    lemma_elems_view_push(
                        acc@,
                        PatternElement::Quantified(
                            Box::new(PatternElement::WhitespaceClass(n)),
                            k,
                        ),
                    );
                }
                acc.push(
                    PatternElement::Quantified(Box::new(PatternElement::WhitespaceClass(n)), k),
                );
                Some(acc)
            },
            PatternElement::Literal(l) => {
                let ghost l0 = l@;
                let mut l = l;
                if l.len() == 0 {
                    return None;
                }
                let c = match l.pop() {
                    Some(c) => c,
                    None => {
                        return None;
                    },
                };
                proof {
                    assert(l@ =~= l0.drop_last());
                    assert(c == l0.last());
                }
                let mut acc2 = flush_exec(acc, l);
                let mut lit: Vec<char> = Vec::new();
                lit.push(c);
                proof {
                    assert(lit@ =~= seq![c]);
                    lemma_elem_view_quantified(PatternElement::Literal(lit), k);
                    assert(elem_view(PatternElement::Literal(lit)) == SpecElem::Literal(lit@));
                    lemma_elems_view_push(
                        acc2@,
                        PatternElement::Quantified(Box::new(PatternElement::Literal(lit)), k),
                    );
                }
                acc2.push(PatternElement::Quantified(Box::new(PatternElement::Literal(lit)), k));
                Some(acc2)
            },
            PatternElement::StartAnchor => None,
            PatternElement::EndAnchor => None,
            PatternElement::Quantified(_, _) => None,
        }
    }
}

fn tokenize_exec(p: &Vec<char>, i: usize, acc: Vec<PatternElement>, run: Vec<char>) -> (r: Option<
    Vec<PatternElement>,
>)
    requires
        i <= p@.len(),
    ensures
        match r {
            Some(v) => tokenize_from(p@, i as int, elems_view(acc@), run@) == Some(elems_view(v@)),
            None => tokenize_from(p@, i as int, elems_view(acc@), run@) is None,
        },
    decreases p@.len() - i,
{
    let mut run = run;
    if i >= p.len() {
        return Some(flush_exec(acc, run));
    }
    let c = p[i];
    if c == '\\' {
        if i + 1 < p.len() {
            let d = p[i + 1];
            let cls = if d == 'd' {
                Some(PatternElement::DigitClass(false))
            } else if d == 'D' {
                Some(PatternElement::DigitClass(true))
            } else if d == 'w' {
                Some(PatternElement::WordClass(false))
            } else if d == 'W' {
                Some(PatternElement::WordClass(true))
            } else if d == 's' {
                Some(PatternElement::WhitespaceClass(false))
            } else if d == 'S' {
                Some(PatternElement::WhitespaceClass(true))
            } else {
                None
            };
            match cls {
                Some(cl) => {
                    let mut acc2 = flush_exec(acc, run);
                    proof {
                        lemma_elems_view_push(acc2@, cl);
                    }
                    acc2.push(cl);
                    tokenize_exec(p, i + 2, acc2, Vec::new())
                },
                None => {
                    run.push(d);
                    tokenize_exec(p, i + 2, acc, run)
                },
            }
        } else {
            run.push('\\');
            tokenize_exec(p, i + 1, acc, run)
        }
    } else if c == '.' {
        let mut acc2 = flush_exec(acc, run);
        proof {
            lemma_elems_view_push(acc2@, PatternElement::AnyChar);
        }
        acc2.push(PatternElement::AnyChar);
        tokenize_exec(p, i + 1, acc2, Vec::new())
    } else if c == '*' || c == '+' || c == '?' {
        let k = if c == '*' {
            QuantifierKind::ZeroOrMore
        } else if c == '+' {
            QuantifierKind::OneOrMore
        } else {
            QuantifierKind::ZeroOrOne
        };
        match quantify_exec(acc, run, k) {
            Some(acc2) => tokenize_exec(p, i + 1, acc2, Vec::new()),
            None => None,
        }
    } else if c == '$' && i == p.len() - 1 {
        let mut acc2 = flush_exec(acc, run);
        proof {
            lemma_elems_view_push(acc2@, PatternElement::EndAnchor);
        }
        acc2.push(PatternElement::EndAnchor);
        Some(acc2)
    } else {
        run.push(c);
        tokenize_exec(p, i + 1, acc, run)
    }
}

/// A compiled regular expression: the original source string and the
/// element sequence compiled from it.  Built once, matched many times,
/// never mutated after construction.
#[derive(Debug)]
pub struct RegexPattern {
    pattern: String,
    elements: Vec<PatternElement>,
}

impl RegexPattern {
    /// The source string this pattern was compiled from.
    pub closed spec fn source(&self) -> Seq<char> {
        self.pattern@
    }

    /// The compiled element sequence.
    pub closed spec fn elems(&self) -> Seq<SpecElem> {
        elems_view(self.elements@)
    }

    /// Compiling the source yields exactly the held element sequence.
    pub open spec fn wf(&self) -> bool {
        compile_spec(self.source()) == Some(self.elems())
    }

    /// Compiles a pattern string, or reports a dangling quantifier.  An
    /// empty pattern compiles to the anchor pair and so matches only the
    /// empty text.
    pub fn new(pattern: &str) -> (r: Result<RegexPattern, PatternError>)
        ensures
            match r {
                Ok(rp) => rp.wf() && rp.source() == pattern@ && compile_spec(pattern@) is Some,
                Err(e) => compile_spec(pattern@) is None && e
                    == PatternError::DanglingQuantifier,
            },
    {
        let chars = crate::text::chars_of(pattern);
        let compiled = if chars.len() == 0 {
            let mut acc: Vec<PatternElement> = Vec::new();
            acc.push(PatternElement::StartAnchor);
            acc.push(PatternElement::EndAnchor);
            proof {
                assert(elems_view(acc@) =~= seq![SpecElem::StartAnchor, SpecElem::EndAnchor]);
            }
            Some(acc)
        } else if chars[0] == '^' {
            let mut acc: Vec<PatternElement> = Vec::new();
            acc.push(PatternElement::StartAnchor);
            proof {
                assert(elems_view(acc@) =~= seq![SpecElem::StartAnchor]);
            }
            tokenize_exec(&chars, 1, acc, Vec::new())
        } else {
            let acc: Vec<PatternElement> = Vec::new();
            proof {
                assert(elems_view(acc@) =~= Seq::<SpecElem>::empty());
            }
            tokenize_exec(&chars, 0, acc, Vec::new())
        };
        match compiled {
            Some(elements) => Ok(
                RegexPattern { pattern: pattern.to_owned(), elements },
            ),
            None => Err(PatternError::DanglingQuantifier),
        }
    }

    /// Returns the original pattern string.
    pub fn get_pattern(&self) -> (r: &str)
        ensures
            r@ == self.source(),
    {
        self.pattern.as_str()
    }
}

} // verus!

verus! {

/// Length of the maximal run of characters of `text` starting at `pos`
/// that satisfy `inner` (greedy consumption).
pub open spec fn run_len(inner: SpecElem, text: Seq<char>, pos: int) -> nat
    decreases text.len() - pos,
{
    if pos < 0 || pos >= text.len() {
        0nat
    } else if elem_sat(inner, text[pos]) {
        1nat + run_len(inner, text, pos + 1)
    } else {
        0nat
    }
}

/// The greedy interpreter: matches elements `es[ei..]` against `text` from
/// position `pos`; returns the end position on success.  Quantifiers
/// consume the maximal satisfying run and never backtrack; anchors are
/// zero-width checks against the text boundaries.
pub open spec fn match_from(es: Seq<SpecElem>, text: Seq<char>, ei: int, pos: int) -> Option<int>
    decreases es.len() - ei,
{
    if ei < 0 || ei >= es.len() {
        Some(pos)
    } else {
        match es[ei] {
            SpecElem::Literal(l) => {
                if pos >= 0 && pos + l.len() <= text.len() && text.subrange(
                    pos,
                    pos + l.len() as int,
                ) == l {
                    match_from(es, text, ei + 1, pos + l.len() as int)
                } else {
                    None
                }
            },
            SpecElem::StartAnchor => {
                if pos == 0 {
                    match_from(es, text, ei + 1, pos)
                } else {
                    None
                }
            },
            SpecElem::EndAnchor => {
                if pos == text.len() {
                    match_from(es, text, ei + 1, pos)
                } else {
                    None
                }
            },
            SpecElem::Quantified(inner, k) => {
                let n = run_len(*inner, text, pos) as int;
                match k {
                    QuantifierKind::ZeroOrMore => match_from(es, text, ei + 1, pos + n),
                    QuantifierKind::OneOrMore => {
                        if n >= 1 {
                            match_from(es, text, ei + 1, pos + n)
                        } else {
                            None
                        }
                    },
                    QuantifierKind::ZeroOrOne => match_from(
                        es,
                        text,
                        ei + 1,
                        pos + if n >= 1 {
                            1int
                        } else {
                            0int
                        },
                    ),
                }
            },
            _ => {
                if 0 <= pos < text.len() && elem_sat(es[ei], text[pos]) {
                    match_from(es, text, ei + 1, pos + 1)
                } else {
                    None
                }
            },
        }
    }
}

/// The first match at or after character offset `from`: the leftmost start
/// offset at which the greedy interpreter succeeds, with its end offset.
pub open spec fn find_from_spec(es: Seq<SpecElem>, text: Seq<char>, from: int) -> Option<
    (int, int),
>
    decreases text.len() + 1 - from,
{
    if from < 0 || from > text.len() {
        None
    } else {
        match match_from(es, text, 0, from) {
            Some(e) => Some((from, e)),
            None => find_from_spec(es, text, from + 1),
        }
    }
}

/// Whether `es` matches anywhere in `text`.
pub open spec fn spec_is_match(es: Seq<SpecElem>, text: Seq<char>) -> bool {
    find_from_spec(es, text, 0) is Some
}

/// All matches, scanning left to right: after each match the cursor moves
/// to its end offset, or one character further if the match was empty, so
/// the result is forward-progressing.
pub open spec fn find_all_spec(es: Seq<SpecElem>, text: Seq<char>, from: int) -> Seq<(int, int)>
    decreases text.len() + 1 - from,
{
    if from < 0 || from > text.len() {
        Seq::empty()
    } else {
        match find_from_spec(es, text, from) {
            None => Seq::empty(),
            Some(p) => {
                let next = if p.1 > p.0 {
                    p.1
                } else {
                    p.1 + 1
                };
                if from < next <= text.len() + 1 {
                    seq![p] + find_all_spec(es, text, next)
                } else {
                    seq![p]
                }
            },
        }
    }
}

pub proof fn lemma_run_len_bound(inner: SpecElem, text: Seq<char>, pos: int)
    requires
        0 <= pos <= text.len(),
    ensures
        run_len(inner, text, pos) <= text.len() - pos,
    decreases text.len() - pos,
{
    if pos < text.len() && elem_sat(inner, text[pos]) {
        lemma_run_len_bound(inner, text, pos + 1);
    }
}

pub proof fn lemma_match_from_bounds(es: Seq<SpecElem>, text: Seq<char>, ei: int, pos: int)
    requires
        0 <= pos <= text.len(),
    ensures
        match match_from(es, text, ei, pos) {
            Some(e) => pos <= e <= text.len(),
            None => true,
        },
    decreases es.len() - ei,
{
    if 0 <= ei < es.len() {
        match es[ei] {
            SpecElem::Literal(l) => {
                if pos + l.len() <= text.len() && text.subrange(pos, pos + l.len() as int) == l {
                    lemma_match_from_bounds(es, text, ei + 1, pos + l.len() as int);
                }
            },
            SpecElem::StartAnchor => {
                if pos == 0 {
                    lemma_match_from_bounds(es, text, ei + 1, pos);
                }
            },
            SpecElem::EndAnchor => {
                if pos == text.len() {
                    lemma_match_from_bounds(es, text, ei + 1, pos);
                }
            },
            SpecElem::Quantified(inner, k) => {
                lemma_run_len_bound(*inner, text, pos);
                let n = run_len(*inner, text, pos) as int;
                lemma_match_from_bounds(es, text, ei + 1, pos + n);
                lemma_match_from_bounds(
                    es,
                    text,
                    ei + 1,
                    pos + if n >= 1 {
                        1int
                    } else {
                        0int
                    },
                );
            },
            _ => {
                if pos < text.len() && elem_sat(es[ei], text[pos]) {
                    lemma_match_from_bounds(es, text, ei + 1, pos + 1);
                }
            },
        }
    }
}

pub proof fn lemma_find_from_bounds(es: Seq<SpecElem>, text: Seq<char>, from: int)
    ensures
        match find_from_spec(es, text, from) {
            Some(p) => from <= p.0 <= p.1 <= text.len(),
            None => true,
        },
    decreases text.len() + 1 - from,
{
    if 0 <= from <= text.len() {
        lemma_match_from_bounds(es, text, 0, from);
        if match_from(es, text, 0, from) is None {
            lemma_find_from_bounds(es, text, from + 1);
        }
    }
}

/// Successive matches are within bounds, non-overlapping and
/// forward-progressing: each match's start offset is at or after the
/// previous match's end offset, and strictly after it when the previous
/// match was empty.
pub proof fn lemma_find_all_progress(es: Seq<SpecElem>, text: Seq<char>, from: int)
    ensures
        ({
            let ms = find_all_spec(es, text, from);
            &&& forall|i: int|
                0 <= i < ms.len() ==> from <= #[trigger] ms[i].0 <= ms[i].1 <= text.len()
            &&& forall|i: int|
                0 <= i < ms.len() - 1 ==> #[trigger] ms[i].1 <= ms[i + 1].0
            &&& forall|i: int|
                0 <= i < ms.len() - 1 && #[trigger] ms[i].0 == ms[i].1 ==> ms[i].1 < ms[i + 1].0
        }),
    decreases text.len() + 1 - from,
{
    if 0 <= from <= text.len() {
        lemma_find_from_bounds(es, text, from);
        match find_from_spec(es, text, from) {
            None => {},
            Some(p) => {
                let next = if p.1 > p.0 {
                    p.1
                } else {
                    p.1 + 1
                };
                if from < next <= text.len() + 1 {
                    lemma_find_all_progress(es, text, next);
                    let ms = find_all_spec(es, text, from);
                    let tail = find_all_spec(es, text, next);
                    assert forall|i: int| 0 <= i < ms.len() - 1 implies #[trigger] ms[i].1
                        <= ms[i + 1].0 by {
                        if i > 0 {
                            assert(ms[i] == tail[i - 1]);
                            assert(ms[i + 1] == tail[i]);
                        } else {
                            assert(ms[1] == tail[0]);
                        }
                    }
                    assert forall|i: int|
                        0 <= i < ms.len() - 1 && #[trigger] ms[i].0 == ms[i].1 implies ms[i].1
                        < ms[i + 1].0 by {
                        if i > 0 {
                            assert(ms[i] == tail[i - 1]);
                            assert(ms[i + 1] == tail[i]);
                        } else {
                            assert(ms[1] == tail[0]);
                        }
                    }
                }
            },
        }
    }
}

} // verus!

verus! {

fn is_digit_exec(c: char) -> (r: bool)
    ensures
        r == is_digit_char(c),
{
    let v = c as u32;
    48 <= v && v <= 57
}

fn is_word_exec(c: char) -> (r: bool)
    ensures
        r == is_word_char(c),
{
    let v = c as u32;
    (48 <= v && v <= 57) || (97 <= v && v <= 122) || (65 <= v && v <= 90) || c == '_'
}

fn is_space_exec(c: char) -> (r: bool)
    ensures
        r == is_space_char(c),
{
    let v = c as u32;
    v == 32 || v == 9 || v == 10 || v == 12 || v == 13
}

fn elem_sat_exec(e: &PatternElement, c: char) -> (r: bool)
    ensures
        r == elem_sat(elem_view(*e), c),
{
    match e {
        PatternElement::Literal(l) => l.len() == 1 && l[0] == c,
        PatternElement::AnyChar => true,
        PatternElement::DigitClass(n) => is_digit_exec(c) != *n,
        PatternElement::WordClass(n) => is_word_exec(c) != *n,
        PatternElement::WhitespaceClass(n) => is_space_exec(c) != *n,
        PatternElement::StartAnchor => false,
        PatternElement::EndAnchor => false,
        PatternElement::Quantified(_, _) => false,
    }
}

fn run_len_exec(inner: &PatternElement, text: &Vec<char>, pos: usize) -> (n: usize)
    requires
        pos <= text@.len(),
    ensures
        n == run_len(elem_view(*inner), text@, pos as int),
        pos + n <= text@.len(),
    decreases text@.len() - pos,
{
    if pos < text.len() && elem_sat_exec(inner, text[pos]) {
        let m = run_len_exec(inner, text, pos + 1);
        1 + m
    } else {
        0
    }
}

fn match_from_exec(es: &Vec<PatternElement>, text: &Vec<char>, ei: usize, pos: usize) -> (r:
    Option<usize>)
    requires
        ei <= es@.len(),
        pos <= text@.len(),
    ensures
        match r {
            Some(e) => match_from(elems_view(es@), text@, ei as int, pos as int) == Some(e as int)
                && e <= text@.len(),
            None => match_from(elems_view(es@), text@, ei as int, pos as int) is None,
        },
    decreases es@.len() - ei,
{
    proof {
        lemma_match_from_bounds(elems_view(es@), text@, ei as int, pos as int);
    }
    let tlen = text.len();
    if ei == es.len() {
        return Some(pos);
    }
    proof {
        assert(elems_view(es@)[ei as int] == elem_view(es@[ei as int]));
    }
    let el = &es[ei];
    match el {
        PatternElement::Literal(l) => {
            if crate::text::literal_matches_at(l, text, pos) {
                match_from_exec(es, text, ei + 1, pos + l.len())
            } else {
                None
            }
        },
        PatternElement::StartAnchor => {
            if pos == 0 {
                match_from_exec(es, text, ei + 1, pos)
            } else {
                None
            }
        },
        PatternElement::EndAnchor => {
            if pos == text.len() {
                match_from_exec(es, text, ei + 1, pos)
            } else {
                None
            }
        },
        PatternElement::Quantified(inner, k) => {
            proof {
                lemma_elem_view_quantified(*(*inner), *k);
            }
            let n = run_len_exec(&**inner, text, pos);
            match k {
                QuantifierKind::ZeroOrMore => match_from_exec(es, text, ei + 1, pos + n),
                QuantifierKind::OneOrMore => {
                    if n >= 1 {
                        match_from_exec(es, text, ei + 1, pos + n)
                    } else {
                        None
                    }
                },
                QuantifierKind::ZeroOrOne => {
                    let step: usize = if n >= 1 {
                        1
                    } else {
                        0
                    };
                    match_from_exec(es, text, ei + 1, pos + step)
                },
            }
        },
        _ => {
            if pos < text.len() && elem_sat_exec(el, text[pos]) {
                match_from_exec(es, text, ei + 1, pos + 1)
            } else {
                None
            }
        },
    }
}

fn find_from_exec(es: &Vec<PatternElement>, text: &Vec<char>, from: usize) -> (r: Option<
    (usize, usize),
>)
    requires
        from <= text@.len(),
    ensures
        match r {
            Some(p) => find_from_spec(elems_view(es@), text@, from as int) == Some(
                (p.0 as int, p.1 as int),
            ) && from <= p.0 <= p.1 <= text@.len(),
            None => find_from_spec(elems_view(es@), text@, from as int) is None,
        },
{
    let ghost esv = elems_view(es@);
    let mut k: usize = from;
    loop
        invariant_except_break
            esv == elems_view(es@),
            from <= k <= text@.len(),
            find_from_spec(esv, text@, from as int) == find_from_spec(esv, text@, k as int),
        ensures
            find_from_spec(esv, text@, from as int) is None,
        decreases text@.len() - k,
    {
        match match_from_exec(es, text, 0, k) {
            Some(e) => {
                proof {
                    lemma_match_from_bounds(esv, text@, 0, k as int);
                }
                return Some((k, e));
            },
            None => {
                proof {
                    assert(find_from_spec(esv, text@, k as int) == find_from_spec(
                        esv,
                        text@,
                        k as int + 1,
                    ));
                }
                if k == text.len() {
                    break;
                }
                k = k + 1;
            },
        }
    }
    None
}

} // verus!

verus! {

/// The view of a positions vector as a sequence of character-index pairs.
pub open spec fn pairs_view(s: Seq<(usize, usize)>) -> Seq<(int, int)> {
    s.map(|i: int, p: (usize, usize)| (p.0 as int, p.1 as int))
}

/// The result of one match: the matched text and its byte offsets into the
/// searched string.
#[derive(Debug, Clone)]
pub struct Match {
    pub text: String,
    pub start: usize,
    pub end: usize,
}

/// `m` reports the match of `text` whose character offsets are `p`: its
/// text is that character range and its offsets are the corresponding byte
/// offsets.
pub open spec fn match_models(m: Match, text: Seq<char>, p: (int, int)) -> bool {
    &&& m.text@ == text.subrange(p.0, p.1)
    &&& m.start == byte_index(text, p.0)
    &&& m.end == byte_index(text, p.1)
}

fn find_all_positions(es: &Vec<PatternElement>, text: &Vec<char>) -> (r: Vec<(usize, usize)>)
    ensures
        pairs_view(r@) == find_all_spec(elems_view(es@), text@, 0),
{
    let ghost esv = elems_view(es@);
    let tlen = text.len();
    let mut out: Vec<(usize, usize)> = Vec::new();
    let mut cur: usize = 0;
    let mut done = false;
    proof {
        assert(pairs_view(out@) =~= Seq::<(int, int)>::empty());
    }
    while !done
        invariant
            esv == elems_view(es@),
            tlen == text@.len(),
            cur <= tlen,
            !done ==> find_all_spec(esv, text@, 0) == pairs_view(out@) + find_all_spec(
                esv,
                text@,
                cur as int,
            ),
            done ==> find_all_spec(esv, text@, 0) == pairs_view(out@),
        decreases
            (if done {
                0int
            } else {
                1int
            }),
            tlen - cur,
    {
        let ghost out0 = out@;
        let ghost cur0 = cur as int;
        match find_from_exec(es, text, cur) {
            None => {
                proof {
                    assert(find_all_spec(esv, text@, cur0) =~= Seq::<(int, int)>::empty());
                    assert(pairs_view(out@) + find_all_spec(esv, text@, cur0) =~= pairs_view(
                        out@,
                    ));
                }
                done = true;
            },
            Some((s, e)) => {
                out.push((s, e));
                proof {
                    assert(pairs_view(out@) =~= pairs_view(out0).push((s as int, e as int)));
                    assert(seq![(s as int, e as int)] =~= pairs_view(out@).subrange(
                        out0.len() as int,
                        out@.len() as int,
                    ));
                }
                let ghost next = if e > s {
                    e as int
                } else {
                    e as int + 1
                };
                proof {
                    assert(find_all_spec(esv, text@, cur0) == seq![(s as int, e as int)]
                        + find_all_spec(esv, text@, next));
                    assert(pairs_view(out@) + find_all_spec(esv, text@, next) =~= pairs_view(out0)
                        + find_all_spec(esv, text@, cur0));
                }
                if e > s {
                    cur = e;
                } else if e < tlen {
                    cur = e + 1;
                } else {
                    proof {
                        assert(find_all_spec(esv, text@, next) =~= Seq::<(int, int)>::empty());
                        assert(pairs_view(out@) =~= pairs_view(out@) + find_all_spec(
                            esv,
                            text@,
                            next,
                        ));
                    }
                    done = true;
                }
            },
        }
    }
    out
}

impl RegexPattern {
    /// Whether the pattern matches anywhere in `text`.
    pub fn is_match(&self, text: &str) -> (r: bool)
        ensures
            r == spec_is_match(self.elems(), text@),
    {
        let tc = crate::text::chars_of(text);
        match find_from_exec(&self.elements, &tc, 0) {
            Some(_) => true,
            None => false,
        }
    }

    /// The first match in `text`, scanning left to right.
    pub fn find(&self, text: &str) -> (r: Option<Match>)
        ensures
            match (r, find_from_spec(self.elems(), text@, 0)) {
                (Some(m), Some(p)) => match_models(m, text@, p),
                (None, None) => true,
                _ => false,
            },
    {
        let tc = crate::text::chars_of(text);
        match find_from_exec(&self.elements, &tc, 0) {
            Some((s, e)) => {
                let mtext = crate::text::string_of_range(&tc, s, e);
                let start = crate::text::byte_offset(&tc, s);
                let end = crate::text::byte_offset(&tc, e);
                Some(Match { text: mtext, start, end })
            },
            None => None,
        }
    }

    /// All matches in `text`, scanning left to right: non-overlapping and
    /// forward-progressing, with an empty match advancing the scan by one
    /// character.
    pub fn find_all(&self, text: &str) -> (r: Vec<Match>)
        ensures
            ({
                let ms = find_all_spec(self.elems(), text@, 0);
                &&& r@.len() == ms.len()
                &&& forall|i: int|
                    0 <= i < ms.len() ==> match_models(#[trigger] r@[i], text@, ms[i])
            }),
            forall|i: int|
                0 <= i < r@.len() ==> (#[trigger] r@[i]).start <= r@[i].end <= byte_len(text@),
            forall|i: int| 0 <= i < r@.len() - 1 ==> (#[trigger] r@[i]).end <= r@[i + 1].start,
            forall|i: int|
                0 <= i < r@.len() - 1 && (#[trigger] r@[i]).start == r@[i].end
                    ==> r@[i].end < r@[i + 1].start,
    {
        let ghost esv = self.elems();
        let tc = crate::text::chars_of(text);
        let ps = find_all_positions(&self.elements, &tc);
        proof {
            lemma_find_all_progress(esv, text@, 0);
        }
        let ghost ms = find_all_spec(esv, text@, 0);
        let mut r: Vec<Match> = Vec::new();
        let mut i: usize = 0;
        while i < ps.len()
            invariant
                esv == self.elems(),
                tc@ == text@,
                byte_len(text@) <= usize::MAX,
                ms == find_all_spec(esv, text@, 0),
                pairs_view(ps@) == ms,
                forall|j: int| 0 <= j < ms.len() ==> 0 <= (#[trigger] ms[j]).0 <= ms[j].1
                    <= text@.len(),
                i <= ps@.len(),
                r@.len() == i,
                forall|j: int| 0 <= j < i ==> match_models(#[trigger] r@[j], text@, ms[j]),
            decreases ps@.len() - i,
        {
            proof {
                assert(ms[i as int] == (ps@[i as int].0 as int, ps@[i as int].1 as int));
            }
            let (s, e) = ps[i];
            let mtext = crate::text::string_of_range(&tc, s, e);
            let start = crate::text::byte_offset(&tc, s);
            let end = crate::text::byte_offset(&tc, e);
            r.push(Match { text: mtext, start, end });
            i = i + 1;
        }
        proof {
            assert forall|i: int|
                0 <= i < r@.len() implies (#[trigger] r@[i]).start <= r@[i].end <= byte_len(
                    text@,
                ) by {
                crate::text::lemma_byte_index_mono(text@, ms[i].0, ms[i].1);
                crate::text::lemma_byte_index_mono(text@, ms[i].1, text@.len() as int);
            }
            assert forall|i: int| 0 <= i < r@.len() - 1 implies (#[trigger] r@[i]).end
                <= r@[i + 1].start by {
                crate::text::lemma_byte_index_mono(text@, ms[i].1, ms[i + 1].0);
            }
            assert forall|i: int|
                0 <= i < r@.len() - 1 && (#[trigger] r@[i]).start == r@[i].end implies r@[i].end
                < r@[i + 1].start by {
                if ms[i].0 < ms[i].1 {
                    crate::text::lemma_byte_index_strict(text@, ms[i].0, ms[i].1);
                }
                assert(ms[i].0 == ms[i].1);
                crate::text::lemma_byte_index_strict(text@, ms[i].1, ms[i + 1].0);
            }
        }
        r
    }
}

} // verus!

verus! {

/// `text` with each matched range replaced by `rep`: the text between
/// consecutive matches is kept, each match contributes one copy of `rep`,
/// and the remainder after the last match is appended.
pub open spec fn replaced_spec(
    text: Seq<char>,
    ms: Seq<(int, int)>,
    rep: Seq<char>,
    prev: int,
) -> Seq<char>
    decreases ms.len(),
{
    if ms.len() == 0 {
        text.subrange(prev, text.len() as int)
    } else {
        text.subrange(prev, ms[0].0) + rep + replaced_spec(text, ms.drop_first(), rep, ms[0].1)
    }
}

/// `text` with the range of `ms[i]` replaced by `outs[i]`.
pub open spec fn replaced_with_spec(
    text: Seq<char>,
    ms: Seq<(int, int)>,
    outs: Seq<Seq<char>>,
    prev: int,
) -> Seq<char>
    decreases ms.len(),
{
    if ms.len() == 0 {
        text.subrange(prev, text.len() as int)
    } else {
        let o = if outs.len() > 0 {
            outs[0]
        } else {
            Seq::empty()
        };
        let rest = if outs.len() > 0 {
            outs.drop_first()
        } else {
            outs
        };
        text.subrange(prev, ms[0].0) + o + replaced_with_spec(text, ms.drop_first(), rest, ms[0].1)
    }
}

/// The segments of `text` strictly between the matches `ms`: one segment
/// before each match and one after the last, so `ms.len() + 1` in all.
pub open spec fn segments_spec(text: Seq<char>, ms: Seq<(int, int)>, prev: int) -> Seq<Seq<char>>
    decreases ms.len(),
{
    if ms.len() == 0 {
        seq![text.subrange(prev, text.len() as int)]
    } else {
        seq![text.subrange(prev, ms[0].0)] + segments_spec(text, ms.drop_first(), ms[0].1)
    }
}

impl RegexPattern {
    /// Replaces every match in `text` with `replacement`.
    pub fn replace_all(&self, text: &str, replacement: &str) -> (r: String)
        ensures
            r@ == replaced_spec(text@, find_all_spec(self.elems(), text@, 0), replacement@, 0),
    {
        let ghost esv = self.elems();
        let tc = crate::text::chars_of(text);
        let ps = find_all_positions(&self.elements, &tc);
        let ghost ms = find_all_spec(esv, text@, 0);
        proof {
            lemma_find_all_progress(esv, text@, 0);
            assert(ms.skip(0) =~= ms);
        }
        let mut r = String::new();
        let mut prev: usize = 0;
        let mut i: usize = 0;
        while i < ps.len()
            invariant
                esv == self.elems(),
                tc@ == text@,
                ms == find_all_spec(esv, text@, 0),
                pairs_view(ps@) == ms,
                forall|j: int|
                    0 <= j < ms.len() ==> 0 <= (#[trigger] ms[j]).0 <= ms[j].1 <= text@.len(),
                forall|j: int| 0 <= j < ms.len() - 1 ==> (#[trigger] ms[j]).1 <= ms[j + 1].0,
                i <= ms.len(),
                prev <= text@.len(),
                i < ms.len() ==> prev <= ms[i as int].0,
                replaced_spec(text@, ms, replacement@, 0) == r@ + replaced_spec(
                    text@,
                    ms.skip(i as int),
                    replacement@,
                    prev as int,
                ),
            decreases ps@.len() - i,
        {
            let ghost r0 = r@;
            let ghost prev0 = prev as int;
            let ghost i0 = i as int;
            proof {
                assert(ms[i0] == (ps@[i0].0 as int, ps@[i0].1 as int));
            }
            let (s, e) = ps[i];
            let seg = crate::text::string_of_range(&tc, prev, s);
            r.append(seg.as_str());
            r.append(replacement);
            proof {
                assert(ms.skip(i0)[0] == ms[i0]);
                assert(ms.skip(i0).drop_first() =~= ms.skip(i0 + 1));
                assert(replaced_spec(text@, ms.skip(i0), replacement@, prev0) == text@.subrange(
                    prev0,
                    ms[i0].0,
                ) + replacement@ + replaced_spec(text@, ms.skip(i0 + 1), replacement@, ms[i0].1));
                assert(r@ =~= r0 + text@.subrange(prev0, ms[i0].0) + replacement@);
                assert(r0 + (text@.subrange(prev0, ms[i0].0) + replacement@ + replaced_spec(
                    text@,
                    ms.skip(i0 + 1),
                    replacement@,
                    ms[i0].1,
                )) =~= (r0 + text@.subrange(prev0, ms[i0].0) + replacement@) + replaced_spec(
                    text@,
                    ms.skip(i0 + 1),
                    replacement@,
                    ms[i0].1,
                ));
            }
            prev = e;
            i = i + 1;
        }
        let tlen = tc.len();
        let tail = crate::text::string_of_range(&tc, prev, tlen);
        r.append(tail.as_str());
        proof {
            assert(ms.skip(ms.len() as int).len() == 0);
            assert(replaced_spec(text@, ms.skip(ms.len() as int), replacement@, prev as int)
                == text@.subrange(prev as int, text@.len() as int));
        }
        r
    }

    /// Splits `text` into the segments strictly between matches, in order:
    /// a match at the very start or end of the text contributes an empty
    /// leading or trailing segment.
    pub fn split(&self, text: &str) -> (r: Vec<String>)
        ensures
            ({
                let ms = find_all_spec(self.elems(), text@, 0);
                &&& r@.len() == ms.len() + 1
                &&& r.deep_view() == segments_spec(text@, ms, 0)
            }),
    {
        let ghost esv = self.elems();
        let tc = crate::text::chars_of(text);
        let ps = find_all_positions(&self.elements, &tc);
        let ghost ms = find_all_spec(esv, text@, 0);
        proof {
            lemma_find_all_progress(esv, text@, 0);
            assert(ms.skip(0) =~= ms);
        }
        let mut r: Vec<String> = Vec::new();
        let mut prev: usize = 0;
        let mut i: usize = 0;
        while i < ps.len()
            invariant
                esv == self.elems(),
                tc@ == text@,
                ms == find_all_spec(esv, text@, 0),
                pairs_view(ps@) == ms,
                forall|j: int|
                    0 <= j < ms.len() ==> 0 <= (#[trigger] ms[j]).0 <= ms[j].1 <= text@.len(),
                forall|j: int| 0 <= j < ms.len() - 1 ==> (#[trigger] ms[j]).1 <= ms[j + 1].0,
                i <= ms.len(),
                prev <= text@.len(),
                i < ms.len() ==> prev <= ms[i as int].0,
                r@.len() == i,
                segments_spec(text@, ms, 0) == r.deep_view() + segments_spec(
                    text@,
                    ms.skip(i as int),
                    prev as int,
                ),
            decreases ps@.len() - i,
        {
            let ghost r0 = r.deep_view();
            let ghost prev0 = prev as int;
            let ghost i0 = i as int;
            proof {
                assert(ms[i0] == (ps@[i0].0 as int, ps@[i0].1 as int));
            }
            let (s, e) = ps[i];
            let seg = crate::text::string_of_range(&tc, prev, s);
            r.push(seg);
            proof {
                assert(r.deep_view() =~= r0.push(text@.subrange(prev0, ms[i0].0)));
                assert(ms.skip(i0)[0] == ms[i0]);
                assert(ms.skip(i0).drop_first() =~= ms.skip(i0 + 1));
                assert(segments_spec(text@, ms.skip(i0), prev0) == seq![
                    text@.subrange(prev0, ms[i0].0),
                ] + segments_spec(text@, ms.skip(i0 + 1), ms[i0].1));
                assert(r0 + (seq![text@.subrange(prev0, ms[i0].0)] + segments_spec(
                    text@,
                    ms.skip(i0 + 1),
                    ms[i0].1,
                )) =~= r0.push(text@.subrange(prev0, ms[i0].0)) + segments_spec(
                    text@,
                    ms.skip(i0 + 1),
                    ms[i0].1,
                ));
            }
            prev = e;
            i = i + 1;
        }
        let tlen = tc.len();
        let tail = crate::text::string_of_range(&tc, prev, tlen);
        let ghost r0 = r.deep_view();
        r.push(tail);
        proof {
            assert(r.deep_view() =~= r0.push(text@.subrange(prev as int, text@.len() as int)));
            assert(ms.skip(ms.len() as int).len() == 0);
            assert(segments_spec(text@, ms.skip(ms.len() as int), prev as int) == seq![
                text@.subrange(prev as int, text@.len() as int),
            ]);
            assert(r0 + seq![text@.subrange(prev as int, text@.len() as int)] =~= r0.push(
                text@.subrange(prev as int, text@.len() as int),
            ));
        }
        r
    }
}

} // verus!

verus! {

/// The replacement function produced `out` from the matched substring
/// `input`: there are an argument and a result of the call with exactly
/// those characters.
pub open spec fn rep_call_ok<F: Fn(&str) -> String>(
    f: F,
    input: Seq<char>,
    out: Seq<char>,
) -> bool {
    exists|a: &str, o: String| a@ == input && o@ == out && call_ensures(f, (a,), o)
}

impl RegexPattern {
    /// Replaces every match in `text` with the result of `replacement_fn`
    /// applied to the matched substring.
    #[verifier::rlimit(60)]
    pub fn replace_all_with<F: Fn(&str) -> String>(&self, text: &str, replacement_fn: F) -> (r:
        String)
        requires
            forall|s: &str| #[trigger] call_requires(replacement_fn, (s,)),
        ensures
            ({
                let ms = find_all_spec(self.elems(), text@, 0);
                exists|outs: Seq<Seq<char>>|
                    {
                        &&& outs.len() == ms.len()
                        &&& r@ == replaced_with_spec(text@, ms, outs, 0)
                        &&& forall|i: int|
                            0 <= i < ms.len() ==> rep_call_ok(
                                replacement_fn,
                                text@.subrange(ms[i].0, ms[i].1),
                                #[trigger] outs[i],
                            )
                    }
            }),
    {
        let ghost esv = self.elems();
        let tc = crate::text::chars_of(text);
        let ps = find_all_positions(&self.elements, &tc);
        let ghost ms = find_all_spec(esv, text@, 0);
        proof {
            lemma_find_all_progress(esv, text@, 0);
        }
        let mut reps: Vec<String> = Vec::new();
        let mut i: usize = 0;
        while i < ps.len()
            invariant
                esv == self.elems(),
                tc@ == text@,
                ms == find_all_spec(esv, text@, 0),
                pairs_view(ps@) == ms,
                forall|j: int|
                    0 <= j < ms.len() ==> 0 <= (#[trigger] ms[j]).0 <= ms[j].1 <= text@.len(),
                forall|s: &str| #[trigger] call_requires(replacement_fn, (s,)),
                reps@.len() == i,
                i <= ms.len(),
                forall|j: int|
                    0 <= j < i ==> rep_call_ok(
                        replacement_fn,
                        text@.subrange(ms[j].0, ms[j].1),
                        (#[trigger] reps@[j])@,
                    ),
            decreases ps@.len() - i,
        {
            proof {
                assert(ms[i as int] == (ps@[i as int].0 as int, ps@[i as int].1 as int));
            }
            let (s, e) = ps[i];
            let piece = crate::text::string_of_range(&tc, s, e);
            let pstr = piece.as_str();
            let out = replacement_fn(pstr);
            proof {
                assert(rep_call_ok(
                    replacement_fn,
                    text@.subrange(ms[i as int].0, ms[i as int].1),
                    out@,
                )) by {
                    assert(pstr@ == text@.subrange(ms[i as int].0, ms[i as int].1));
                    assert(call_ensures(replacement_fn, (pstr,), out));
                }
            }
            reps.push(out);
            i = i + 1;
        }
        let ghost outs = reps.deep_view();
        let mut r = String::new();
        let mut prev: usize = 0;
        let mut j: usize = 0;
        proof {
            assert(ms.skip(0) =~= ms);
            assert(outs.skip(0) =~= outs);
        }
        while j < ps.len()
            invariant
                esv == self.elems(),
                tc@ == text@,
                ms == find_all_spec(esv, text@, 0),
                pairs_view(ps@) == ms,
                forall|t: int|
                    0 <= t < ms.len() ==> 0 <= (#[trigger] ms[t]).0 <= ms[t].1 <= text@.len(),
                forall|t: int| 0 <= t < ms.len() - 1 ==> (#[trigger] ms[t]).1 <= ms[t + 1].0,
                outs == reps.deep_view(),
                reps@.len() == ms.len(),
                outs.len() == ms.len(),
                j <= ms.len(),
                prev <= text@.len(),
                j < ms.len() ==> prev <= ms[j as int].0,
                replaced_with_spec(text@, ms, outs, 0) == r@ + replaced_with_spec(
                    text@,
                    ms.skip(j as int),
                    outs.skip(j as int),
                    prev as int,
                ),
            decreases ps@.len() - j,
        {
            let ghost r0 = r@;
            let ghost prev0 = prev as int;
            let ghost j0 = j as int;
            proof {
                assert(ms[j0] == (ps@[j0].0 as int, ps@[j0].1 as int));
            }
            let (s, e) = ps[j];
            let seg = crate::text::string_of_range(&tc, prev, s);
            r.append(seg.as_str());
            let rep = &reps[j];
            r.append(rep.as_str());
            proof {
                assert(outs[j0] == reps@[j0]@);
                assert(ms.skip(j0)[0] == ms[j0]);
                assert(outs.skip(j0)[0] == outs[j0]);
                assert(ms.skip(j0).drop_first() =~= ms.skip(j0 + 1));
                assert(outs.skip(j0).drop_first() =~= outs.skip(j0 + 1));
                assert(replaced_with_spec(text@, ms.skip(j0), outs.skip(j0), prev0)
                    == text@.subrange(prev0, ms[j0].0) + outs[j0] + replaced_with_spec(
                    text@,
                    ms.skip(j0 + 1),
                    outs.skip(j0 + 1),
                    ms[j0].1,
                ));
                assert(r@ =~= r0 + text@.subrange(prev0, ms[j0].0) + outs[j0]);
                assert(r0 + (text@.subrange(prev0, ms[j0].0) + outs[j0] + replaced_with_spec(
                    text@,
                    ms.skip(j0 + 1),
                    outs.skip(j0 + 1),
                    ms[j0].1,
                )) =~= (r0 + text@.subrange(prev0, ms[j0].0) + outs[j0]) + replaced_with_spec(
                    text@,
                    ms.skip(j0 + 1),
                    outs.skip(j0 + 1),
                    ms[j0].1,
                ));
            }
            prev = e;
            j = j + 1;
        }
        let tlen = tc.len();
        let tail = crate::text::string_of_range(&tc, prev, tlen);
        r.append(tail.as_str());
        proof {
            assert(ms.skip(ms.len() as int).len() == 0);
            assert(replaced_with_spec(
                text@,
                ms.skip(ms.len() as int),
                outs.skip(ms.len() as int),
                prev as int,
            ) == text@.subrange(prev as int, text@.len() as int));
        }
        r
    }
}

/// Compiles `pattern` and reports whether it matches anywhere in `text`.
pub fn is_match(pattern: &str, text: &str) -> (r: Result<bool, PatternError>)
    ensures
        match r {
            Ok(b) => compile_spec(pattern@) is Some && b == spec_is_match(
                compile_spec(pattern@)->0,
                text@,
            ),
            Err(_) => compile_spec(pattern@) is None,
        },
{
    let p = RegexPattern::new(pattern)?;
    Ok(p.is_match(text))
}

/// Compiles `pattern` and returns the first match in `text`.
pub fn find(pattern: &str, text: &str) -> (r: Result<Option<Match>, PatternError>)
    ensures
        match r {
            Ok(o) => compile_spec(pattern@) is Some && match (
                o,
                find_from_spec(compile_spec(pattern@)->0, text@, 0),
            ) {
                (Some(m), Some(p)) => match_models(m, text@, p),
                (None, None) => true,
                _ => false,
            },
            Err(_) => compile_spec(pattern@) is None,
        },
{
    let p = RegexPattern::new(pattern)?;
    Ok(p.find(text))
}

/// Compiles `pattern` and returns all matches in `text`.
pub fn find_all(pattern: &str, text: &str) -> (r: Result<Vec<Match>, PatternError>)
    ensures
        match r {
            Ok(v) => compile_spec(pattern@) is Some && ({
                let ms = find_all_spec(compile_spec(pattern@)->0, text@, 0);
                &&& v@.len() == ms.len()
                &&& forall|i: int|
                    0 <= i < ms.len() ==> match_models(#[trigger] v@[i], text@, ms[i])
            }),
            Err(_) => compile_spec(pattern@) is None,
        },
{
    let p = RegexPattern::new(pattern)?;
    Ok(p.find_all(text))
}

/// Compiles `pattern` and replaces every match in `text` with
/// `replacement`.
pub fn replace_all(pattern: &str, text: &str, replacement: &str) -> (r: Result<
    String,
    PatternError,
>)
    ensures
        match r {
            Ok(s) => compile_spec(pattern@) is Some && s@ == replaced_spec(
                text@,
                find_all_spec(compile_spec(pattern@)->0, text@, 0),
                replacement@,
                0,
            ),
            Err(_) => compile_spec(pattern@) is None,
        },
{
    let p = RegexPattern::new(pattern)?;
    Ok(p.replace_all(text, replacement))
}

/// Compiles `pattern` and replaces every match in `text` with the result
/// of `replacement_fn` on the matched substring.
pub fn replace_all_with<F: Fn(&str) -> String>(
    pattern: &str,
    text: &str,
    replacement_fn: F,
) -> (r: Result<String, PatternError>)
    requires
        forall|s: &str| #[trigger] call_requires(replacement_fn, (s,)),
    ensures
        match r {
            Ok(s) => compile_spec(pattern@) is Some && ({
                let ms = find_all_spec(compile_spec(pattern@)->0, text@, 0);
                exists|outs: Seq<Seq<char>>|
                    {
                        &&& outs.len() == ms.len()
                        &&& s@ == replaced_with_spec(text@, ms, outs, 0)
                        &&& forall|i: int|
                            0 <= i < ms.len() ==> rep_call_ok(
                                replacement_fn,
                                text@.subrange(ms[i].0, ms[i].1),
                                #[trigger] outs[i],
                            )
                    }
            }),
            Err(_) => compile_spec(pattern@) is None,
        },
{
    let p = RegexPattern::new(pattern)?;
    Ok(p.replace_all_with(text, replacement_fn))
}

/// Compiles `pattern` and splits `text` into the segments between matches.
pub fn split(pattern: &str, text: &str) -> (r: Result<Vec<String>, PatternError>)
    ensures
        match r {
            Ok(v) => compile_spec(pattern@) is Some && ({
                let ms = find_all_spec(compile_spec(pattern@)->0, text@, 0);
                &&& v@.len() == ms.len() + 1
                &&& v.deep_view() == segments_spec(text@, ms, 0)
            }),
            Err(_) => compile_spec(pattern@) is None,
        },
{
    let p = RegexPattern::new(pattern)?;
    Ok(p.split(text))
}

} // verus!

verus! {

/// `segs[0] + mids[0] + segs[1] + mids[1] + ... + segs[last]`.
pub open spec fn interleave_spec(segs: Seq<Seq<char>>, mids: Seq<Seq<char>>) -> Seq<char>
    decreases segs.len(),
{
    if segs.len() == 0 {
        Seq::empty()
    } else if mids.len() == 0 {
        segs[0]
    } else {
        segs[0] + mids[0] + interleave_spec(segs.drop_first(), mids.drop_first())
    }
}

/// The matched substrings of `text` named by the offset pairs `ms`.
pub open spec fn match_texts_spec(text: Seq<char>, ms: Seq<(int, int)>) -> Seq<Seq<char>> {
    ms.map(|i: int, p: (int, int)| text.subrange(p.0, p.1))
}

/// The offset pairs lie in order after `prev` within a text of length
/// `len`: each is a well-formed range, and each starts at or after the end
/// of the one before.
pub open spec fn ordered_matches(ms: Seq<(int, int)>, prev: int, len: int) -> bool
    decreases ms.len(),
{
    ms.len() == 0 || (prev <= ms[0].0 && ms[0].0 <= ms[0].1 <= len && ordered_matches(
        ms.drop_first(),
        ms[0].1,
        len,
    ))
}

proof fn lemma_ordered_matches_weaken(ms: Seq<(int, int)>, a: int, b: int, len: int)
    requires
        ordered_matches(ms, a, len),
        b <= a,
    ensures
        ordered_matches(ms, b, len),
    decreases ms.len(),
{
}

/// The matches reported by `find_all_spec` are ordered.
pub proof fn lemma_find_all_ordered(es: Seq<SpecElem>, text: Seq<char>, from: int)
    requires
        from >= 0,
    ensures
        ordered_matches(find_all_spec(es, text, from), from, text.len() as int),
    decreases text.len() + 1 - from,
{
    if 0 <= from <= text.len() {
        lemma_find_from_bounds(es, text, from);
        match find_from_spec(es, text, from) {
            None => {},
            Some(p) => {
                let next = if p.1 > p.0 {
                    p.1
                } else {
                    p.1 + 1
                };
                if from < next <= text.len() + 1 {
                    lemma_find_all_ordered(es, text, next);
                    let ms = find_all_spec(es, text, from);
                    let tail = find_all_spec(es, text, next);
                    lemma_ordered_matches_weaken(tail, next, p.1, text.len() as int);
                    assert(ms.drop_first() =~= tail);
                }
            },
        }
    }
}

proof fn lemma_interleave_segments(text: Seq<char>, ms: Seq<(int, int)>, prev: int)
    requires
        0 <= prev <= text.len(),
        ordered_matches(ms, prev, text.len() as int),
    ensures
        interleave_spec(segments_spec(text, ms, prev), match_texts_spec(text, ms))
            == text.subrange(prev, text.len() as int),
    decreases ms.len(),
{
    let segs = segments_spec(text, ms, prev);
    let mids = match_texts_spec(text, ms);
    if ms.len() == 0 {
        assert(segs == seq![text.subrange(prev, text.len() as int)]);
        assert(mids.len() == 0);
    } else {
        let p = ms[0];
        let tail = ms.drop_first();
        lemma_interleave_segments(text, tail, p.1);
        assert(segs[0] == text.subrange(prev, p.0));
        assert(mids[0] == text.subrange(p.0, p.1));
        assert(segs.drop_first() =~= segments_spec(text, tail, p.1));
        assert(mids.drop_first() =~= match_texts_spec(text, tail));
        assert(text.subrange(prev, p.0) + text.subrange(p.0, p.1) + text.subrange(
            p.1,
            text.len() as int,
        ) =~= text.subrange(prev, text.len() as int));
    }
}

/// Law: re-interleaving the segments returned by `split` with the matched
/// substrings of `find_all` reconstructs the text exactly.
pub proof fn lemma_split_reconstructs(es: Seq<SpecElem>, text: Seq<char>)
    ensures
        ({
            let ms = find_all_spec(es, text, 0);
            interleave_spec(segments_spec(text, ms, 0), match_texts_spec(text, ms)) == text
        }),
{
    let ms = find_all_spec(es, text, 0);
    lemma_find_all_ordered(es, text, 0);
    lemma_interleave_segments(text, ms, 0);
    assert(text.subrange(0, text.len() as int) =~= text);
}

/// The segment list always has one more entry than the match list.
pub proof fn lemma_segments_len(text: Seq<char>, ms: Seq<(int, int)>, prev: int)
    ensures
        segments_spec(text, ms, prev).len() == ms.len() + 1,
    decreases ms.len(),
{
    if ms.len() > 0 {
        lemma_segments_len(text, ms.drop_first(), ms[0].1);
    }
}

proof fn lemma_replaced_interleave_aux(
    text: Seq<char>,
    ms: Seq<(int, int)>,
    rep: Seq<char>,
    prev: int,
)
    ensures
        replaced_spec(text, ms, rep, prev) == interleave_spec(
            segments_spec(text, ms, prev),
            Seq::new(ms.len(), |i: int| rep),
        ),
    decreases ms.len(),
{
    let segs = segments_spec(text, ms, prev);
    let mids = Seq::new(ms.len(), |i: int| rep);
    if ms.len() == 0 {
    } else {
        let p = ms[0];
        let tail = ms.drop_first();
        lemma_replaced_interleave_aux(text, tail, rep, p.1);
        lemma_segments_len(text, tail, p.1);
        assert(segs[0] == text.subrange(prev, p.0));
        assert(mids[0] == rep);
        assert(segs.drop_first() =~= segments_spec(text, tail, p.1));
        assert(mids.drop_first() =~= Seq::new(tail.len(), |i: int| rep));
    }
}

/// Law: `replace_all` substitutes the replacement exactly once per match
/// of `find_all`: its result is the `split` segments re-interleaved with
/// `find_all(..).len()` copies of the replacement.
pub proof fn lemma_replace_substitution_count(es: Seq<SpecElem>, text: Seq<char>, rep: Seq<char>)
    ensures
        ({
            let ms = find_all_spec(es, text, 0);
            &&& replaced_spec(text, ms, rep, 0) == interleave_spec(
                segments_spec(text, ms, 0),
                Seq::new(ms.len(), |i: int| rep),
            )
            &&& segments_spec(text, ms, 0).len() == ms.len() + 1
        }),
{
    let ms = find_all_spec(es, text, 0);
    lemma_replaced_interleave_aux(text, ms, rep, 0);
    lemma_segments_len(text, ms, 0);
}

/// Law: compiling identical source text twice yields matchers with
/// identical matching behaviour over arbitrary inputs.
pub proof fn lemma_compile_deterministic(a: &RegexPattern, b: &RegexPattern, text: Seq<char>)
    requires
        a.wf(),
        b.wf(),
        a.source() == b.source(),
    ensures
        a.elems() == b.elems(),
        spec_is_match(a.elems(), text) == spec_is_match(b.elems(), text),
        find_from_spec(a.elems(), text, 0) == find_from_spec(b.elems(), text, 0),
        find_all_spec(a.elems(), text, 0) == find_all_spec(b.elems(), text, 0),
{
}

} // verus!

verus! {

/// Law: the empty pattern matches only the empty text.  It compiles to the
/// two anchor sentinels, which no nonempty text can satisfy together.
pub proof fn lemma_empty_pattern_matches_only_empty(text: Seq<char>)
    ensures
        compile_spec(Seq::empty()) is Some,
        spec_is_match(compile_spec(Seq::empty())->0, text) <==> text.len() == 0,
{
    let es = compile_spec(Seq::empty())->0;
    assert(es == seq![SpecElem::StartAnchor, SpecElem::EndAnchor]);
    assert(es[0] == SpecElem::StartAnchor && es[1] == SpecElem::EndAnchor && es.len() == 2);
    reveal_with_fuel(match_from, 4);
    if text.len() == 0 {
        assert(match_from(es, text, 0, 0) == Some(0int));
    } else {
        assert(match_from(es, text, 0, 0) is None);
        lemma_anchor_pair_fails_from(text, 1);
    }
}

proof fn lemma_anchor_pair_fails_from(text: Seq<char>, from: int)
    requires
        1 <= from,
    ensures
        find_from_spec(seq![SpecElem::StartAnchor, SpecElem::EndAnchor], text, from) is None,
    decreases text.len() + 1 - from,
{
    let es = seq![SpecElem::StartAnchor, SpecElem::EndAnchor];
    assert(es[0] == SpecElem::StartAnchor && es.len() == 2);
    reveal_with_fuel(match_from, 2);
    if from <= text.len() {
        assert(match_from(es, text, 0, from) is None);
        lemma_anchor_pair_fails_from(text, from + 1);
    }
}

} // verus!
