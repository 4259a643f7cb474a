//! The glob engine: compiler with brace expansion, matcher with true
//! backtracking, and the pure selection logic of the file walker.
//!
//! A glob source either tokenizes into an ordered component sequence or,
//! when it holds balanced `{...}` syntax, expands into a set of literal
//! alternative pattern strings, each compiled through the component path
//! when matched.  The two representations are mutually exclusive.

use vstd::prelude::*;

verus! {

/// One component of a compiled glob pattern.
#[derive(Debug)]
enum Component {
    /// Matches a literal string.
    Literal(Vec<char>),
    /// `?`: matches exactly one character.
    SingleWildcard,
    /// `*`: matches any character run, including the empty one.
    MultiWildcard,
    /// `[...]`: matches one character of the set (or outside it).
    CharacterClass { chars: Vec<char>, negated: bool },
}

/// Mathematical model of a glob component.
pub ghost enum SpecComponent {
    Literal(Seq<char>),
    SingleWildcard,
    MultiWildcard,
    CharacterClass(Seq<char>, bool),
}

spec fn comp_view(c: Component) -> SpecComponent {
    match c {
        Component::Literal(v) => SpecComponent::Literal(v@),
        Component::SingleWildcard => SpecComponent::SingleWildcard,
        Component::MultiWildcard => SpecComponent::MultiWildcard,
        Component::CharacterClass { chars, negated } => SpecComponent::CharacterClass(
            chars@,
            negated,
        ),
    }
}

spec fn comps_view(v: Seq<Component>) -> Seq<SpecComponent> {
    v.map(|i: int, c: Component| comp_view(c))
}

proof fn lemma_comps_view_push(s: Seq<Component>, c: Component)
    ensures
        comps_view(s.push(c)) =~= comps_view(s).push(comp_view(c)),
{
}

/// A Unicode scalar value: a code point that is not a surrogate.
pub open spec fn is_scalar_value(v: int) -> bool {
    (0 <= v < 0xD800) || (0xE000 <= v <= 0x10FFFF)
}

/// The characters with code points from `lo` to `hi` inclusive, in order,
/// skipping surrogate code points.  A reversed range is empty.
pub open spec fn range_chars(lo: int, hi: int) -> Seq<char>
    decreases hi + 1 - lo,
{
    if lo > hi || lo < 0 {
        Seq::empty()
    } else {
        (if is_scalar_value(lo) {
            seq![(lo as u32) as char]
        } else {
            Seq::empty()
        }) + range_chars(lo + 1, hi)
    }
}

/// Relies on char::from_u32: `Some` exactly for Unicode scalar values, and
/// the returned character has code point `v`.
#[verifier::external_body]
fn char_from_u32(v: u32) -> (r: Option<char>)
    ensures
        r is Some <==> is_scalar_value(v as int),
        r is Some ==> r->0 as u32 == v,
{
    char::from_u32(v)
}

/// The characters of a class body scanned from index `i`: `x-y` triples
/// add every character between the endpoints inclusive, other characters
/// add themselves, `]` ends the class, and an unterminated class consumes
/// to the end of the input.  Returns the set gathered so far and the index
/// just past the class.
pub open spec fn parse_class_items(p: Seq<char>, i: int, cs: Seq<char>) -> (Seq<char>, int)
    decreases p.len() - i,
{
    if i >= p.len() || i < 0 {
        (cs, if i < 0 {
            0
        } else {
            p.len() as int
        })
    } else if p[i] == ']' {
        (cs, i + 1)
    } else if i + 2 < p.len() && p[i + 1] == '-' {
        parse_class_items(p, i + 3, cs + range_chars(p[i] as u32 as int, p[i + 2] as u32 as int))
    } else {
        parse_class_items(p, i + 1, cs.push(p[i]))
    }
}

/// A character class scanned from index `s` (just past the `[`): an
/// optional leading `!` negates the class, then the items follow.
pub open spec fn parse_class_spec(p: Seq<char>, s: int) -> (SpecComponent, int) {
    if 0 <= s < p.len() && p[s] == '!' {
        let r = parse_class_items(p, s + 1, Seq::empty());
        (SpecComponent::CharacterClass(r.0, true), r.1)
    } else {
        let r = parse_class_items(p, s, Seq::empty());
        (SpecComponent::CharacterClass(r.0, false), r.1)
    }
}

proof fn lemma_parse_class_items_bounds(p: Seq<char>, i: int, cs: Seq<char>)
    requires
        0 <= i <= p.len(),
    ensures
        i <= parse_class_items(p, i, cs).1 <= p.len(),
    decreases p.len() - i,
{
    if i < p.len() {
        if p[i] == ']' {
        } else if i + 2 < p.len() && p[i + 1] == '-' {
            lemma_parse_class_items_bounds(
                p,
                i + 3,
                cs + range_chars(p[i] as u32 as int, p[i + 2] as u32 as int),
            );
        } else {
            lemma_parse_class_items_bounds(p, i + 1, cs.push(p[i]));
        }
    }
}

/// Appends the pending literal run to the component sequence, if any.
pub open spec fn flush_comp(acc: Seq<SpecComponent>, run: Seq<char>) -> Seq<SpecComponent> {
    if run.len() == 0 {
        acc
    } else {
        acc.push(SpecComponent::Literal(run))
    }
}

/// Tokenizes the brace-free glob `p` from index `i`: `*` and `?` become
/// wildcards, `[...]` a character class, `\` escapes the next character,
/// and everything else accumulates into literal runs.
pub open spec fn glob_tokenize_from(
    p: Seq<char>,
    i: int,
    acc: Seq<SpecComponent>,
    run: Seq<char>,
) -> Seq<SpecComponent>
    decreases p.len() - i,
{
    if i >= p.len() || i < 0 {
        flush_comp(acc, run)
    } else {
        let c = p[i];
        if c == '*' {
            glob_tokenize_from(
                p,
                i + 1,
                flush_comp(acc, run).push(SpecComponent::MultiWildcard),
                Seq::empty(),
            )
        } else if c == '?' {
            glob_tokenize_from(
                p,
                i + 1,
                flush_comp(acc, run).push(SpecComponent::SingleWildcard),
                Seq::empty(),
            )
        } else if c == '[' {
            let r = parse_class_spec(p, i + 1);
            let j = if i < r.1 <= p.len() {
                r.1
            } else {
                p.len() as int
            };
            glob_tokenize_from(p, j, flush_comp(acc, run).push(r.0), Seq::empty())
        } else if c == '\\' {
            if i + 1 < p.len() {
                glob_tokenize_from(p, i + 2, acc, run.push(p[i + 1]))
            } else {
                glob_tokenize_from(p, i + 1, acc, run.push('\\'))
            }
        } else {
            glob_tokenize_from(p, i + 1, acc, run.push(c))
        }
    }
}

fn range_chars_exec(lo: u32, hi: u32) -> (r: Vec<char>)
    ensures
        r@ == range_chars(lo as int, hi as int),
    decreases hi as int + 1 - lo as int,
{
    let mut out: Vec<char> = Vec::new();
    if lo > hi {
        proof {
            assert(range_chars(lo as int, hi as int) =~= Seq::<char>::empty());
        }
        return out;
    }
    let mut v = lo;
    proof {
        assert(out@ + range_chars(lo as int, hi as int) =~= range_chars(lo as int, hi as int));
    }
    while v <= hi
        invariant
            lo <= v,
            v <= hi + 1,
            range_chars(lo as int, hi as int) == out@ + range_chars(v as int, hi as int),
        decreases hi as int + 1 - v as int,
    {
        let ghost out0 = out@;
        match char_from_u32(v) {
            Some(c) => {
                proof {
                    vstd::utf8::char_u32_cast(c, v);
                    assert(range_chars(v as int, hi as int) == seq![(v as u32) as char]
                        + range_chars(v as int + 1, hi as int));
                    assert(out0.push(c) + range_chars(v as int + 1, hi as int) =~= out0 + (seq![
                        (v as u32) as char,
                    ] + range_chars(v as int + 1, hi as int)));
                }
                out.push(c);
            },
            None => {
                proof {
                    assert(range_chars(v as int, hi as int) == Seq::<char>::empty() + range_chars(
                        v as int + 1,
                        hi as int,
                    ));
                    assert(out0 + (Seq::<char>::empty() + range_chars(v as int + 1, hi as int))
                        =~= out0 + range_chars(v as int + 1, hi as int));
                }
            },
        }
        if v == u32::MAX {
            proof {
                assert(range_chars(v as int + 1, hi as int) =~= Seq::<char>::empty());
                assert(out@ + Seq::<char>::empty() =~= out@);
            }
            return out;
        }
        v = v + 1;
    }
    proof {
        assert(range_chars(v as int, hi as int) =~= Seq::<char>::empty());
        assert(out@ + Seq::<char>::empty() =~= out@);
    }
    out
}

/// Parses a character class, starting just past the `[`.  Returns the
/// component and the index just past the class.
fn parse_character_class(chars: &Vec<char>, start: usize) -> (r: (Component, usize))
    requires
        start <= chars@.len(),
    ensures
        comp_view(r.0) == parse_class_spec(chars@, start as int).0,
        r.1 as int == parse_class_spec(chars@, start as int).1,
        start <= r.1 <= chars@.len(),
{
    let mut i = start;
    let mut negated = false;
    if i < chars.len() && chars[i] == '!' {
        negated = true;
        i = i + 1;
    }
    let ghost items_start = i as int;
    let mut cs: Vec<char> = Vec::new();
    while i < chars.len() && chars[i] != ']'
        invariant
            items_start <= i <= chars@.len(),
            parse_class_items(chars@, items_start, Seq::empty()) == parse_class_items(
                chars@,
                i as int,
                cs@,
            ),
        decreases chars@.len() - i,
    {
        let ghost cs0 = cs@;
        if chars.len() - i > 2 && chars[i + 1] == '-' {
            let mut rng = range_chars_exec(chars[i] as u32, chars[i + 2] as u32);
            proof {
                assert(cs0 + rng@ =~= cs0 + range_chars(
                    chars@[i as int] as u32 as int,
                    chars@[i as int + 2] as u32 as int,
                ));
            }
            cs.append(&mut rng);
            i = i + 3;
        } else {
            proof {
                assert(cs0.push(chars@[i as int]) =~= cs0.push(chars@[i as int]));
            }
            cs.push(chars[i]);
            i = i + 1;
        }
    }
    if i < chars.len() {
        i = i + 1;
    }
    proof {
        lemma_parse_class_items_bounds(chars@, items_start, Seq::empty());
    }
    (Component::CharacterClass { chars: cs, negated }, i)
}

} // verus!

verus! {

fn glob_tokenize_exec(p: &Vec<char>, i: usize, acc: Vec<Component>, run: Vec<char>) -> (r: Vec<
    Component,
>)
    requires
        i <= p@.len(),
    ensures
        comps_view(r@) == glob_tokenize_from(p@, i as int, comps_view(acc@), run@),
    decreases p@.len() - i,
{
    let mut acc = acc;
    let mut run = run;
    if i >= p.len() {
        if run.len() > 0 {
            proof {
                lemma_comps_view_push(acc@, Component::Literal(run));
            }
            acc.push(Component::Literal(run));
        }
        return acc;
    }
    let c = p[i];
    if c == '*' || c == '?' {
        if run.len() > 0 {
            proof {
                lemma_comps_view_push(acc@, Component::Literal(run));
            }
            acc.push(Component::Literal(run));
        }
        let comp = if c == '*' {
            Component::MultiWildcard
        } else {
            Component::SingleWildcard
        };
        proof {
            lemma_comps_view_push(acc@, comp);
        }
        acc.push(comp);
        glob_tokenize_exec(p, i + 1, acc, Vec::new())
    } else if c == '[' {
        if run.len() > 0 {
            proof {
                lemma_comps_view_push(acc@, Component::Literal(run));
            }
            acc.push(Component::Literal(run));
        }
        let (cls, newpos) = parse_character_class(p, i + 1);
        proof {
            lemma_comps_view_push(acc@, cls);
        }
        acc.push(cls);
        glob_tokenize_exec(p, newpos, acc, Vec::new())
    } else if c == '\\' {
        if i + 1 < p.len() {
            run.push(p[i + 1]);
            glob_tokenize_exec(p, i + 2, acc, run)
        } else {
            run.push('\\');
            glob_tokenize_exec(p, i + 1, acc, run)
        }
    } else {
        run.push(c);
        glob_tokenize_exec(p, i + 1, acc, run)
    }
}

/// The commas of `s` at brace depth zero split it into pieces; braces
/// inside a piece are kept intact.
pub open spec fn split_braces_from(
    s: Seq<char>,
    i: int,
    depth: int,
    cur: Seq<char>,
    acc: Seq<Seq<char>>,
) -> Seq<Seq<char>>
    decreases s.len() - i,
{
    if i >= s.len() || i < 0 {
        if cur.len() == 0 {
            acc
        } else {
            acc.push(cur)
        }
    } else {
        let c = s[i];
        if c == '{' {
            split_braces_from(s, i + 1, depth + 1, cur.push(c), acc)
        } else if c == '}' {
            split_braces_from(s, i + 1, depth - 1, cur.push(c), acc)
        } else if c == ',' && depth == 0 {
            split_braces_from(s, i + 1, depth, Seq::empty(), acc.push(cur))
        } else {
            split_braces_from(s, i + 1, depth, cur.push(c), acc)
        }
    }
}

/// Splits `s` on commas, respecting nested braces.
pub open spec fn split_braces(s: Seq<char>) -> Seq<Seq<char>> {
    split_braces_from(s, 0, 0, Seq::empty(), Seq::empty())
}

proof fn lemma_split_braces_piece_len(
    s: Seq<char>,
    i: int,
    depth: int,
    cur: Seq<char>,
    acc: Seq<Seq<char>>,
)
    requires
        0 <= i <= s.len(),
        cur.len() <= i,
        forall|t: int|
            0 <= t < acc.len() ==> (#[trigger] acc[t]).len() <= s.len(),
    ensures
        forall|t: int|
            0 <= t < split_braces_from(s, i, depth, cur, acc).len() ==> (
            #[trigger] split_braces_from(s, i, depth, cur, acc)[t]).len() <= s.len(),
    decreases s.len() - i,
{
    let r = split_braces_from(s, i, depth, cur, acc);
    if i >= s.len() {
        assert forall|t: int| 0 <= t < r.len() implies (#[trigger] r[t]).len() <= s.len() by {
            if cur.len() > 0 && t == acc.len() {
                assert(r[t] == cur);
            } else {
                assert(r[t] == acc[t]);
            }
        }
    } else {
        let c = s[i];
        if c == '{' {
            lemma_split_braces_piece_len(s, i + 1, depth + 1, cur.push(c), acc);
            assert forall|t: int| 0 <= t < r.len() implies (#[trigger] r[t]).len() <= s.len() by {
                assert(r[t] == split_braces_from(s, i + 1, depth + 1, cur.push(c), acc)[t]);
            }
        } else if c == '}' {
            lemma_split_braces_piece_len(s, i + 1, depth - 1, cur.push(c), acc);
            assert forall|t: int| 0 <= t < r.len() implies (#[trigger] r[t]).len() <= s.len() by {
                assert(r[t] == split_braces_from(s, i + 1, depth - 1, cur.push(c), acc)[t]);
            }
        } else if c == ',' && depth == 0 {
            let acc2 = acc.push(cur);
            assert forall|t: int| 0 <= t < acc2.len() implies (#[trigger] acc2[t]).len()
                <= s.len() by {
                if t < acc.len() {
                    assert(acc2[t] == acc[t]);
                } else {
                    assert(acc2[t] == cur);
                }
            }
            lemma_split_braces_piece_len(s, i + 1, depth, Seq::empty(), acc2);
            assert forall|t: int| 0 <= t < r.len() implies (#[trigger] r[t]).len() <= s.len() by {
                assert(r[t] == split_braces_from(s, i + 1, depth, Seq::empty(), acc2)[t]);
            }
        } else {
            lemma_split_braces_piece_len(s, i + 1, depth, cur.push(c), acc);
            assert forall|t: int| 0 <= t < r.len() implies (#[trigger] r[t]).len() <= s.len() by {
                assert(r[t] == split_braces_from(s, i + 1, depth, cur.push(c), acc)[t]);
            }
        }
    }
}

fn split_braces_exec(s: &Vec<char>) -> (r: Vec<Vec<char>>)
    ensures
        r.deep_view() == split_braces(s@),
        forall|t: int| 0 <= t < r@.len() ==> (#[trigger] r@[t])@.len() <= s@.len(),
{
    let slen = s.len();
    let mut i: usize = 0;
    let mut depth: i128 = 0;
    let mut cur: Vec<char> = Vec::new();
    let mut acc: Vec<Vec<char>> = Vec::new();
    proof {
        assert(acc.deep_view() =~~= Seq::<Seq<char>>::empty());
    }
    while i < slen
        invariant
            slen == s@.len(),
            i <= slen,
            -(i as int) <= depth <= i as int,
            cur@.len() <= i,
            split_braces(s@) == split_braces_from(
                s@,
                i as int,
                depth as int,
                cur@,
                acc.deep_view(),
            ),
        decreases slen - i,
    {
        let ghost acc0 = acc.deep_view();
        let c = s[i];
        if c == '{' {
            cur.push(c);
            depth = depth + 1;
        } else if c == '}' {
            cur.push(c);
            depth = depth - 1;
        } else if c == ',' && depth == 0 {
            acc.push(cur);
            proof {
                assert(acc.deep_view() =~~= acc0.push(cur@));
            }
            cur = Vec::new();
        } else {
            cur.push(c);
        }
        i = i + 1;
    }
    if cur.len() > 0 {
        let ghost acc0 = acc.deep_view();
        acc.push(cur);
        proof {
            assert(acc.deep_view() =~~= acc0.push(cur@));
        }
    }
    proof {
        lemma_split_braces_piece_len(s@, 0, 0, Seq::empty(), Seq::empty());
        assert forall|t: int| 0 <= t < acc@.len() implies (#[trigger] acc@[t])@.len()
            <= s@.len() by {
            assert(acc.deep_view()[t] == acc@[t]@);
            assert(acc.deep_view() == split_braces(s@));
        }
    }
    acc
}

/// The index of the `}` that closes the group whose scan stands at `j`
/// with `count` braces open, or -1 when the braces are unbalanced.
pub open spec fn matching_brace(p: Seq<char>, j: int, count: int) -> int
    decreases p.len() - j,
{
    if j >= p.len() || j < 0 {
        -1
    } else if p[j] == '{' {
        matching_brace(p, j + 1, count + 1)
    } else if p[j] == '}' {
        if count == 1 {
            j
        } else {
            matching_brace(p, j + 1, count - 1)
        }
    } else {
        matching_brace(p, j + 1, count)
    }
}

fn find_matching_brace(p: &Vec<char>, start: usize) -> (r: Option<usize>)
    requires
        start <= p@.len(),
    ensures
        match r {
            Some(e) => matching_brace(p@, start as int, 1) == e as int && start <= e < p@.len(),
            None => matching_brace(p@, start as int, 1) == -1,
        },
{
    let plen = p.len();
    let mut j = start;
    let mut count: i128 = 1;
    while j < plen
        invariant
            plen == p@.len(),
            start <= j <= plen,
            1 <= count <= 1 + j as int,
            matching_brace(p@, start as int, 1) == matching_brace(p@, j as int, count as int),
        decreases plen - j,
    {
        let c = p[j];
        if c == '{' {
            count = count + 1;
        } else if c == '}' {
            if count == 1 {
                return Some(j);
            }
            count = count - 1;
        }
        j = j + 1;
    }
    None
}

} // verus!

verus! {

/// The expansion of the alternatives of `options[k..]`: for each option
/// the pattern rebuilt as prefix + option + suffix is expanded in turn,
/// and the results are concatenated in option order.
pub open spec fn expand_options(
    plen: int,
    cur: Seq<char>,
    options: Seq<Seq<char>>,
    suffix: Seq<char>,
    k: int,
) -> Seq<Seq<char>>
    decreases plen, 0int, options.len() - k,
{
    if k < 0 || k >= options.len() {
        Seq::empty()
    } else {
        let newp = cur + options[k] + suffix;
        let exp = if newp.len() < plen {
            expand_from(newp, 0, Seq::empty())
        } else {
            seq![newp]
        };
        exp + expand_options(plen, cur, options, suffix, k + 1)
    }
}

/// Brace expansion of `p` from index `i`, with `cur` the literal prefix
/// gathered so far (escapes resolved).  The first balanced top-level group
/// found is split on its commas and each option is expanded recursively;
/// an unbalanced `{` is kept as a literal character; a pattern without a
/// group expands to itself.
pub open spec fn expand_from(p: Seq<char>, i: int, cur: Seq<char>) -> Seq<Seq<char>>
    decreases p.len(), 1int, p.len() - i,
{
    if i >= p.len() || i < 0 {
        seq![cur]
    } else {
        let c = p[i];
        if c == '{' {
            let e = matching_brace(p, i + 1, 1);
            if e < 0 || e >= p.len() {
                expand_from(p, i + 1, cur.push('{'))
            } else {
                expand_options(
                    p.len() as int,
                    cur,
                    split_braces(p.subrange(i + 1, e)),
                    p.subrange(e + 1, p.len() as int),
                    0,
                )
            }
        } else if c == '\\' {
            if i + 1 < p.len() {
                expand_from(p, i + 2, cur.push(p[i + 1]))
            } else {
                expand_from(p, i + 1, cur.push('\\'))
            }
        } else {
            expand_from(p, i + 1, cur.push(c))
        }
    }
}

fn expand_exec(p: &Vec<char>, i: usize, cur: Vec<char>) -> (r: Vec<Vec<char>>)
    requires
        i <= p@.len(),
        cur@.len() <= i,
    ensures
        r.deep_view() == expand_from(p@, i as int, cur@),
    decreases p@.len(), 1int, p@.len() - i,
{
    let mut cur = cur;
    if i >= p.len() {
        let ghost curv = cur@;
        let mut out: Vec<Vec<char>> = Vec::new();
        out.push(cur);
        proof {
            assert(out.deep_view() =~~= seq![curv]);
        }
        return out;
    }
    let c = p[i];
    if c == '{' {
        match find_matching_brace(p, i + 1) {
            None => {
                cur.push('{');
                expand_exec(p, i + 1, cur)
            },
            Some(e) => {
                let plen = p.len();
                let interior = crate::text::vec_subrange(p, i + 1, e);
                let suffix = crate::text::vec_subrange(p, e + 1, plen);
                let options = split_braces_exec(&interior);
                let ghost curv = cur@;
                let ghost opts = options.deep_view();
                let ghost suf = suffix@;
                let mut out: Vec<Vec<char>> = Vec::new();
                let mut k: usize = 0;
                proof {
                    assert(out.deep_view() + expand_options(
                        plen as int,
                        curv,
                        opts,
                        suf,
                        0,
                    ) =~~= expand_options(plen as int, curv, opts, suf, 0));
                }
                while k < options.len()
                    invariant
                        plen == p@.len(),
                        curv == cur@,
                        opts == options.deep_view(),
                        suf == suffix@,
                        opts.len() == options@.len(),
                        cur@.len() <= i < plen,
                        i < e < plen,
                        k <= options@.len(),
                        forall|t: int|
                            0 <= t < options@.len() ==> (#[trigger] options@[t])@.len()
                                <= interior@.len(),
                        interior@.len() == e - i - 1,
                        suf.len() == plen - e - 1,
                        expand_options(plen as int, curv, opts, suf, 0) == out.deep_view()
                            + expand_options(plen as int, curv, opts, suf, k as int),
                    decreases options@.len() - k,
                {
                    let ghost out0 = out.deep_view();
                    let opt = &options[k];
                    let mut newp: Vec<char> = Vec::new();
                    newp.extend_from_slice(cur.as_slice());
                    newp.extend_from_slice(opt.as_slice());
                    newp.extend_from_slice(suffix.as_slice());
                    proof {
                        assert(newp@ =~= curv + opts[k as int] + suf);
                        assert(opts[k as int] == options@[k as int]@);
                        assert(newp@.len() < plen);
                    }
                    let mut exp = expand_exec(&newp, 0, Vec::new());
                    let ghost expv = exp.deep_view();
                    out.append(&mut exp);
                    proof {
                        assert(out.deep_view() =~~= out0 + expv);
                        assert(expand_options(plen as int, curv, opts, suf, k as int) == expv
                            + expand_options(plen as int, curv, opts, suf, k as int + 1));
                        assert((out0 + expv) + expand_options(
                            plen as int,
                            curv,
                            opts,
                            suf,
                            k as int + 1,
                        ) =~~= out0 + (expv + expand_options(
                            plen as int,
                            curv,
                            opts,
                            suf,
                            k as int + 1,
                        )));
                    }
                    k = k + 1;
                }
                proof {
                    assert(expand_options(plen as int, curv, opts, suf, k as int)
                        =~~= Seq::<Seq<char>>::empty());
                    assert(out.deep_view() + Seq::<Seq<char>>::empty() =~~= out.deep_view());
                }
                out
            },
        }
    } else if c == '\\' {
        if i + 1 < p.len() {
            cur.push(p[i + 1]);
            expand_exec(p, i + 2, cur)
        } else {
            cur.push('\\');
            expand_exec(p, i + 1, cur)
        }
    } else {
        cur.push(c);
        expand_exec(p, i + 1, cur)
    }
}

} // verus!

verus! {

/// Whether components `comps` match exactly the whole of `text`.  A
/// multi-wildcard first tries to match nothing and then, on failure, to
/// consume one more character and retry: true backtracking, needed when
/// wildcards and literals are adjacent.
pub open spec fn glob_match(comps: Seq<SpecComponent>, text: Seq<char>) -> bool
    decreases comps.len(), text.len(),
{
    if comps.len() == 0 {
        text.len() == 0
    } else {
        match comps[0] {
            SpecComponent::Literal(l) => l.len() <= text.len() && text.take(l.len() as int) == l
                && glob_match(comps.drop_first(), text.skip(l.len() as int)),
            SpecComponent::SingleWildcard => text.len() >= 1 && glob_match(
                comps.drop_first(),
                text.drop_first(),
            ),
            SpecComponent::MultiWildcard => glob_match(comps.drop_first(), text) || (text.len()
                > 0 && glob_match(comps, text.drop_first())),
            SpecComponent::CharacterClass(cs, neg) => text.len() >= 1 && (cs.contains(text[0])
                != neg) && glob_match(comps.drop_first(), text.drop_first()),
        }
    }
}

fn matches_from_position(components: &Vec<Component>, text: &Vec<char>, ci: usize, pos: usize) -> (
    r: bool)
    requires
        ci <= components@.len(),
        pos <= text@.len(),
    ensures
        r == glob_match(comps_view(components@).skip(ci as int), text@.skip(pos as int)),
    decreases components@.len() - ci, text@.len() - pos,
{
    let ghost cv = comps_view(components@);
    let ghost rest = cv.skip(ci as int);
    let ghost trest = text@.skip(pos as int);
    let tlen = text.len();
    if ci == components.len() {
        return pos == tlen;
    }
    proof {
        assert(rest[0] == cv[ci as int]);
        assert(cv[ci as int] == comp_view(components@[ci as int]));
        assert(rest.drop_first() =~= cv.skip(ci as int + 1));
    }
    let el = &components[ci];
    match el {
        Component::Literal(l) => {
            if crate::text::literal_matches_at(l, text, pos) {
                proof {
                    assert(trest.take(l@.len() as int) =~= text@.subrange(
                        pos as int,
                        pos as int + l@.len() as int,
                    ));
                    assert(trest.skip(l@.len() as int) =~= text@.skip(pos as int + l@.len() as int));
                }
                matches_from_position(components, text, ci + 1, pos + l.len())
            } else {
                proof {
                    if l@.len() <= trest.len() {
                        assert(trest.take(l@.len() as int) =~= text@.subrange(
                            pos as int,
                            pos as int + l@.len() as int,
                        ));
                    }
                }
                false
            }
        },
        Component::SingleWildcard => {
            if pos < text.len() {
                proof {
                    assert(trest.drop_first() =~= text@.skip(pos as int + 1));
                }
                matches_from_position(components, text, ci + 1, pos + 1)
            } else {
                false
            }
        },
        Component::MultiWildcard => {
            if matches_from_position(components, text, ci + 1, pos) {
                true
            } else if pos < text.len() {
                proof {
                    assert(trest.drop_first() =~= text@.skip(pos as int + 1));
                }
                matches_from_position(components, text, ci, pos + 1)
            } else {
                false
            }
        },
        Component::CharacterClass { chars, negated } => {
            if pos < text.len() {
                let inside = crate::text::contains_char(chars, text[pos]);
                if inside != *negated {
                    proof {
                        assert(trest.drop_first() =~= text@.skip(pos as int + 1));
                    }
                    matches_from_position(components, text, ci + 1, pos + 1)
                } else {
                    false
                }
            } else {
                false
            }
        },
    }
}

/// A compiled glob pattern: the source string and exactly one of the two
/// compiled representations — an ordered component sequence, or (when the
/// source holds balanced braces) a set of expanded alternative pattern
/// strings, each compiled through the component path when matched.
#[derive(Debug)]
pub struct GlobPattern {
    pattern: String,
    components: Vec<Component>,
    expanded_patterns: Vec<String>,
}

/// Which representation compiling `p` yields: on brace syntax an expanded
/// alternative list and no components, otherwise a component list.
pub open spec fn glob_parse_spec(p: Seq<char>) -> (Seq<SpecComponent>, Seq<Seq<char>>) {
    if p.contains('{') && p.contains('}') {
        (Seq::empty(), expand_from(p, 0, Seq::empty()))
    } else {
        (glob_tokenize_from(p, 0, Seq::empty(), Seq::empty()), Seq::empty())
    }
}

/// Whether a glob with the given compiled representation matches `text`:
/// with alternatives, the first alternative (re-tokenized as components)
/// that matches wins; otherwise the component sequence must match.
pub open spec fn spec_glob_matches(
    comps: Seq<SpecComponent>,
    expanded: Seq<Seq<char>>,
    text: Seq<char>,
) -> bool {
    if expanded.len() > 0 {
        exists|i: int|
            0 <= i < expanded.len() && glob_match(
                glob_tokenize_from(#[trigger] expanded[i], 0, Seq::empty(), Seq::empty()),
                text,
            )
    } else {
        glob_match(comps, text)
    }
}

impl GlobPattern {
    /// The source string this pattern was compiled from.
    pub closed spec fn source(&self) -> Seq<char> {
        self.pattern@
    }

    /// The compiled component sequence (empty when alternatives are held).
    pub closed spec fn comps_model(&self) -> Seq<SpecComponent> {
        comps_view(self.components@)
    }

    /// The expanded alternative patterns (empty without brace syntax).
    pub closed spec fn expanded_model(&self) -> Seq<Seq<char>> {
        self.expanded_patterns.deep_view()
    }

    /// Compiling the source yields exactly the held representation.
    pub open spec fn wf(&self) -> bool {
        glob_parse_spec(self.source()) == (self.comps_model(), self.expanded_model())
    }

    /// Expands alternatives in a pattern, such as `{a,b}`, into the
    /// concrete pattern strings, in left-to-right option order.
    pub fn expand_alternatives(pattern: &str) -> (r: Vec<String>)
        ensures
            r.deep_view() == expand_from(pattern@, 0, Seq::empty()),
    {
        let chars = crate::text::chars_of(pattern);
        let pieces = expand_exec(&chars, 0, Vec::new());
        let mut out: Vec<String> = Vec::new();
        let mut i: usize = 0;
        while i < pieces.len()
            invariant
                i <= pieces@.len(),
                out@.len() == i,
                pieces.deep_view() == expand_from(pattern@, 0, Seq::empty()),
                forall|t: int| 0 <= t < i ==> (#[trigger] out@[t])@ == pieces.deep_view()[t],
            decreases pieces@.len() - i,
        {
            let s = crate::text::string_from_chars(&pieces[i]);
            out.push(s);
            i = i + 1;
        }
        proof {
            assert(out.deep_view() =~~= pieces.deep_view());
        }
        out
    }

    /// Compiles a glob pattern string.  Compilation never fails: malformed
    /// brace or class syntax degrades to literal matching.
    pub fn new(pattern: &str) -> (r: GlobPattern)
        ensures
            r.wf(),
            r.source() == pattern@,
    {
        let chars = crate::text::chars_of(pattern);
        let has_braces = crate::text::contains_char(&chars, '{') && crate::text::contains_char(
            &chars,
            '}',
        );
        if has_braces {
            let expanded = GlobPattern::expand_alternatives(pattern);
            let r = GlobPattern {
                pattern: pattern.to_owned(),
                components: Vec::new(),
                expanded_patterns: expanded,
            };
            proof {
                assert(r.comps_model() =~= Seq::<SpecComponent>::empty());
            }
            r
        } else {
            let acc: Vec<Component> = Vec::new();
            proof {
                assert(comps_view(acc@) =~= Seq::<SpecComponent>::empty());
            }
            let components = glob_tokenize_exec(&chars, 0, acc, Vec::new());
            let r = GlobPattern {
                pattern: pattern.to_owned(),
                components,
                expanded_patterns: Vec::new(),
            };
            proof {
                assert(r.expanded_model() =~~= Seq::<Seq<char>>::empty());
            }
            r
        }
    }

    /// Returns the original pattern string.
    pub fn as_str(&self) -> (r: &str)
        ensures
            r@ == self.source(),
    {
        self.pattern.as_str()
    }

    /// Whether `text` matches the glob pattern.
    pub fn matches(&self, text: &str) -> (r: bool)
        ensures
            r == spec_glob_matches(self.comps_model(), self.expanded_model(), text@),
    {
        let tc = crate::text::chars_of(text);
        if self.expanded_patterns.len() > 0 {
            let mut i: usize = 0;
            while i < self.expanded_patterns.len()
                invariant
                    tc@ == text@,
                    i <= self.expanded_patterns@.len(),
                    forall|j: int|
                        0 <= j < i ==> !glob_match(
                            glob_tokenize_from(
                                #[trigger] self.expanded_model()[j],
                                0,
                                Seq::empty(),
                                Seq::empty(),
                            ),
                            text@,
                        ),
                decreases self.expanded_patterns@.len() - i,
            {
                let alt = crate::text::chars_of(self.expanded_patterns[i].as_str());
                let acc: Vec<Component> = Vec::new();
                proof {
                    assert(comps_view(acc@) =~= Seq::<SpecComponent>::empty());
                    assert(alt@ == self.expanded_model()[i as int]);
                }
                let comps = glob_tokenize_exec(&alt, 0, acc, Vec::new());
                proof {
                    assert(comps_view(comps@).skip(0) =~= comps_view(comps@));
                    assert(text@.skip(0) =~= text@);
                }
                if matches_from_position(&comps, &tc, 0, 0) {
                    return true;
                }
                i = i + 1;
            }
            false
        } else {
            proof {
                assert(self.comps_model().skip(0) =~= self.comps_model());
                assert(text@.skip(0) =~= text@);
            }
            matches_from_position(&self.components, &tc, 0, 0)
        }
    }
}

} // verus!

verus! {

/// The paths of `paths[i..]`, in order, that match `comps`.
pub open spec fn filter_matching(
    comps: Seq<SpecComponent>,
    paths: Seq<Seq<char>>,
    i: int,
) -> Seq<Seq<char>>
    decreases paths.len() - i,
{
    if i < 0 || i >= paths.len() {
        Seq::empty()
    } else if glob_match(comps, paths[i]) {
        seq![paths[i]] + filter_matching(comps, paths, i + 1)
    } else {
        filter_matching(comps, paths, i + 1)
    }
}

/// Extends `acc` with the paths of `paths[i..]` that match `comps` and do
/// not already occur in the accumulated result.
pub open spec fn add_matches(
    comps: Seq<SpecComponent>,
    paths: Seq<Seq<char>>,
    i: int,
    acc: Seq<Seq<char>>,
) -> Seq<Seq<char>>
    decreases paths.len() - i,
{
    if i < 0 || i >= paths.len() {
        acc
    } else if glob_match(comps, paths[i]) && !acc.contains(paths[i]) {
        add_matches(comps, paths, i + 1, acc.push(paths[i]))
    } else {
        add_matches(comps, paths, i + 1, acc)
    }
}

/// Walks the alternatives `alts[k..]` in order, gathering for each the
/// matching paths not already gathered by an earlier alternative.
pub open spec fn dedup_matching_alts(
    alts: Seq<Seq<char>>,
    paths: Seq<Seq<char>>,
    k: int,
    acc: Seq<Seq<char>>,
) -> Seq<Seq<char>>
    decreases alts.len() - k,
{
    if k < 0 || k >= alts.len() {
        acc
    } else {
        dedup_matching_alts(
            alts,
            paths,
            k + 1,
            add_matches(
                glob_tokenize_from(alts[k], 0, Seq::empty(), Seq::empty()),
                paths,
                0,
                acc,
            ),
        )
    }
}

/// The paths selected by the walker for a glob with the given compiled
/// representation: with alternatives, each alternative's matches are
/// appended in alternative order with duplicates dropped; otherwise the
/// matching paths in order.
pub open spec fn spec_matching_paths(
    comps: Seq<SpecComponent>,
    expanded: Seq<Seq<char>>,
    paths: Seq<Seq<char>>,
) -> Seq<Seq<char>> {
    if expanded.len() > 0 {
        dedup_matching_alts(expanded, paths, 0, Seq::empty())
    } else {
        filter_matching(comps, paths, 0)
    }
}

fn contains_string(v: &Vec<String>, s: &String) -> (r: bool)
    ensures
        r == v.deep_view().contains(s@),
{
    let mut j: usize = 0;
    while j < v.len()
        invariant
            j <= v@.len(),
            forall|t: int| 0 <= t < j ==> v.deep_view()[t] != s@,
        decreases v@.len() - j,
    {
        if v[j].eq(s) {
            proof {
                assert(v.deep_view()[j as int] == s@);
            }
            return true;
        }
        proof {
            assert(v.deep_view()[j as int] == v@[j as int]@);
        }
        j = j + 1;
    }
    proof {
        assert forall|t: int| 0 <= t < v.deep_view().len() implies v.deep_view()[t] != s@ by {}
    }
    false
}

fn glob_match_exec(comps: &Vec<Component>, text: &String) -> (r: bool)
    ensures
        r == glob_match(comps_view(comps@), text@),
{
    let tc = crate::text::chars_of(text.as_str());
    proof {
        assert(comps_view(comps@).skip(0) =~= comps_view(comps@));
        assert(text@.skip(0) =~= text@);
    }
    matches_from_position(comps, &tc, 0, 0)
}

impl GlobPattern {
    /// The walker's selection logic: of the candidate paths, in order,
    /// those that match the glob — testing each expanded alternative in
    /// turn and dropping paths already selected by an earlier alternative.
    pub fn matching_paths(&self, paths: &Vec<String>) -> (r: Vec<String>)
        ensures
            r.deep_view() == spec_matching_paths(
                self.comps_model(),
                self.expanded_model(),
                paths.deep_view(),
            ),
    {
        let ghost pathsv = paths.deep_view();
        if self.expanded_patterns.len() > 0 {
            let ghost expm = self.expanded_model();
            let mut acc: Vec<String> = Vec::new();
            let mut k: usize = 0;
            proof {
                assert(acc.deep_view() =~~= Seq::<Seq<char>>::empty());
            }
            while k < self.expanded_patterns.len()
                invariant
                    pathsv == paths.deep_view(),
                    expm == self.expanded_model(),
                    k <= self.expanded_patterns@.len(),
                    expm.len() == self.expanded_patterns@.len(),
                    dedup_matching_alts(expm, pathsv, 0, Seq::empty()) == dedup_matching_alts(
                        expm,
                        pathsv,
                        k as int,
                        acc.deep_view(),
                    ),
                decreases self.expanded_patterns@.len() - k,
            {
                let alt = crate::text::chars_of(self.expanded_patterns[k].as_str());
                let acc0: Vec<Component> = Vec::new();
                proof {
                    assert(comps_view(acc0@) =~= Seq::<SpecComponent>::empty());
                    assert(alt@ == expm[k as int]);
                }
                let comps = glob_tokenize_exec(&alt, 0, acc0, Vec::new());
                let ghost ck = comps_view(comps@);
                let ghost acck = acc.deep_view();
                let mut i: usize = 0;
                while i < paths.len()
                    invariant
                        pathsv == paths.deep_view(),
                        pathsv.len() == paths@.len(),
                        ck == comps_view(comps@),
                        i <= paths@.len(),
                        add_matches(ck, pathsv, 0, acck) == add_matches(
                            ck,
                            pathsv,
                            i as int,
                            acc.deep_view(),
                        ),
                    decreases paths@.len() - i,
                {
                    let ghost accv = acc.deep_view();
                    proof {
                        assert(pathsv[i as int] == paths@[i as int]@);
                    }
                    let p = &paths[i];
                    if glob_match_exec(&comps, p) && !contains_string(&acc, p) {
                        acc.push(p.clone());
                        proof {
                            assert(acc.deep_view() =~~= accv.push(pathsv[i as int]));
                        }
                    }
                    i = i + 1;
                }
                k = k + 1;
            }
            acc
        } else {
            let ghost cm = self.comps_model();
            let mut out: Vec<String> = Vec::new();
            let mut i: usize = 0;
            proof {
                assert(out.deep_view() + filter_matching(cm, pathsv, 0) =~~= filter_matching(
                    cm,
                    pathsv,
                    0,
                ));
            }
            while i < paths.len()
                invariant
                    pathsv == paths.deep_view(),
                    pathsv.len() == paths@.len(),
                    cm == self.comps_model(),
                    i <= paths@.len(),
                    filter_matching(cm, pathsv, 0) == out.deep_view() + filter_matching(
                        cm,
                        pathsv,
                        i as int,
                    ),
                decreases paths@.len() - i,
            {
                let ghost outv = out.deep_view();
                proof {
                    assert(pathsv[i as int] == paths@[i as int]@);
                }
                let p = &paths[i];
                if glob_match_exec(&self.components, p) {
                    out.push(p.clone());
                    proof {
                        assert(out.deep_view() =~~= outv.push(pathsv[i as int]));
                        assert(outv.push(pathsv[i as int]) + filter_matching(
                            cm,
                            pathsv,
                            i as int + 1,
                        ) =~~= outv + (seq![pathsv[i as int]] + filter_matching(
                            cm,
                            pathsv,
                            i as int + 1,
                        )));
                    }
                }
                i = i + 1;
            }
            proof {
                assert(filter_matching(cm, pathsv, i as int) =~~= Seq::<Seq<char>>::empty());
                assert(out.deep_view() + Seq::<Seq<char>>::empty() =~~= out.deep_view());
            }
            out
        }
    }
}

} // verus!

verus! {

/// Law: compiling identical glob source text twice yields matchers with
/// identical matching behaviour over arbitrary inputs.
pub proof fn lemma_glob_compile_deterministic(a: &GlobPattern, b: &GlobPattern, text: Seq<char>)
    requires
        a.wf(),
        b.wf(),
        a.source() == b.source(),
    ensures
        a.comps_model() == b.comps_model(),
        a.expanded_model() == b.expanded_model(),
        spec_glob_matches(a.comps_model(), a.expanded_model(), text) == spec_glob_matches(
            b.comps_model(),
            b.expanded_model(),
            text,
        ),
{
}

} // verus!

verus! {

/// Law: the empty glob pattern matches only the empty text.  It compiles
/// to an empty component sequence with no alternatives.
pub proof fn lemma_empty_glob_matches_only_empty(text: Seq<char>)
    ensures
        ({
            let r = glob_parse_spec(Seq::empty());
            spec_glob_matches(r.0, r.1, text) <==> text.len() == 0
        }),
{
}

} // verus!
