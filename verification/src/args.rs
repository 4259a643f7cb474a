//! A small command-line argument parser: `--long` and `-short` keys, each
//! optionally followed by a value.

use vstd::prelude::*;

use crate::text::literal_matches_at;

verus! {

/// The view of an optional owned string.
pub open spec fn optstr_view(o: Option<String>) -> Option<Seq<char>> {
    match o {
        Some(s) => Some(s@),
        None => None,
    }
}

/// The map described by an association list; a later entry for the same
/// key overrides an earlier one.
pub open spec fn assoc_map(s: Seq<(String, Option<String>)>) -> Map<Seq<char>, Option<Seq<char>>>
    decreases s.len(),
{
    if s.len() == 0 {
        Map::empty()
    } else {
        assoc_map(s.drop_last()).insert(s.last().0@, optstr_view(s.last().1))
    }
}

/// The stored value for `key`, or `None` when the key is absent.
pub open spec fn arg_val(m: Map<Seq<char>, Option<Seq<char>>>, key: Seq<char>) -> Option<
    Seq<char>,
> {
    if m.contains_key(key) {
        m[key]
    } else {
        None
    }
}

/// `s` starts with `p`.
pub open spec fn starts_with(s: Seq<char>, p: Seq<char>) -> bool {
    s.len() >= p.len() && s.take(p.len() as int) == p
}

/// `s` with every repetition of the prefix `p` removed from the front.
pub open spec fn strip_reps(s: Seq<char>, p: Seq<char>) -> Seq<char>
    decreases s.len(),
{
    if p.len() > 0 && s.len() >= p.len() && s.take(p.len() as int) == p {
        strip_reps(s.skip(p.len() as int), p)
    } else {
        s
    }
}

/// The key/value map parsed from `args[i..]`: `--key` (repeated `--`
/// stripped) or `-key` (repeated `-` stripped), each taking the following
/// argument as its value unless that argument itself starts with the same
/// prefix; other arguments are ignored.
pub open spec fn parse_args_from(
    args: Seq<Seq<char>>,
    i: int,
    m: Map<Seq<char>, Option<Seq<char>>>,
) -> Map<Seq<char>, Option<Seq<char>>>
    decreases args.len() - i,
{
    if i < 0 || i >= args.len() {
        m
    } else {
        let a = args[i];
        if starts_with(a, seq!['-', '-']) {
            let k = strip_reps(a, seq!['-', '-']);
            if i + 1 < args.len() && !starts_with(args[i + 1], seq!['-', '-']) {
                parse_args_from(args, i + 2, m.insert(k, Some(args[i + 1])))
            } else {
                parse_args_from(args, i + 1, m.insert(k, None))
            }
        } else if starts_with(a, seq!['-']) {
            let k = strip_reps(a, seq!['-']);
            if i + 1 < args.len() && !starts_with(args[i + 1], seq!['-']) {
                parse_args_from(args, i + 2, m.insert(k, Some(args[i + 1])))
            } else {
                parse_args_from(args, i + 1, m.insert(k, None))
            }
        } else {
            parse_args_from(args, i + 1, m)
        }
    }
}

/// A parsed argument list.  The view is the key/value map.
#[derive(Debug)]
pub struct ArgParser {
    args: Vec<(String, Option<String>)>,
}

impl View for ArgParser {
    type V = Map<Seq<char>, Option<Seq<char>>>;

    closed spec fn view(&self) -> Map<Seq<char>, Option<Seq<char>>> {
        assoc_map(self.args@)
    }
}

proof fn lemma_assoc_contains(s: Seq<(String, Option<String>)>, k: Seq<char>)
    ensures
        assoc_map(s).contains_key(k) <==> exists|t: int|
            0 <= t < s.len() && (#[trigger] s[t]).0@ == k,
    decreases s.len(),
{
    if s.len() > 0 {
        lemma_assoc_contains(s.drop_last(), k);
        if s.last().0@ == k {
            assert(s[s.len() - 1].0@ == k);
        } else if assoc_map(s).contains_key(k) {
            let sd = s.drop_last();
            let t = choose|t: int| 0 <= t < sd.len() && (#[trigger] sd[t]).0@ == k;
            assert(s[t].0@ == k);
        } else {
            assert forall|t: int| 0 <= t < s.len() implies (#[trigger] s[t]).0@ != k by {
                if t < s.len() - 1 {
                    assert(s.drop_last()[t] == s[t]);
                }
            }
        }
    }
}

fn strip_reps_exec(a: &Vec<char>, p: &Vec<char>) -> (r: Vec<char>)
    requires
        p@.len() > 0,
    ensures
        r@ == strip_reps(a@, p@),
{
    let alen = a.len();
    let plen = p.len();
    let mut j: usize = 0;
    proof {
        assert(a@.skip(0) =~= a@);
    }
    loop
        invariant_except_break
            alen == a@.len(),
            plen == p@.len(),
            0 < plen,
            j <= alen,
            strip_reps(a@, p@) == strip_reps(a@.skip(j as int), p@),
        ensures
            j <= alen,
            strip_reps(a@, p@) == a@.skip(j as int),
        decreases alen - j,
    {
        proof {
            assert(a@.skip(j as int).len() == alen - j);
            if j + plen <= alen {
                assert(a@.skip(j as int).take(plen as int) =~= a@.subrange(
                    j as int,
                    j as int + plen as int,
                ));
            }
        }
        if !literal_matches_at(p, a, j) {
            break;
        }
        proof {
            assert(a@.skip(j as int).skip(plen as int) =~= a@.skip(j as int + plen as int));
        }
        j = j + plen;
    }
    crate::text::vec_subrange(a, j, a.len())
}

impl ArgParser {
    /// Parses an argument list (without the program name).
    #[verifier::loop_isolation(false)]
    pub fn from_args(args: Vec<String>) -> (r: ArgParser)
        ensures
            r@ == parse_args_from(args.deep_view(), 0, Map::empty()),
    {
        let ghost av = args.deep_view();
        let mut entries: Vec<(String, Option<String>)> = Vec::new();
        let mut i: usize = 0;
        let mut dd: Vec<char> = Vec::new();
        dd.push('-');
        dd.push('-');
        let mut sd: Vec<char> = Vec::new();
        sd.push('-');
        proof {
            assert(dd@ =~= seq!['-', '-']);
            assert(sd@ =~= seq!['-']);
            assert(entries@ =~= Seq::<(String, Option<String>)>::empty());
        }
        while i < args.len()
            invariant
                i <= args@.len(),
                parse_args_from(av, 0, Map::empty()) == parse_args_from(
                    av,
                    i as int,
                    assoc_map(entries@),
                ),
            decreases args@.len() - i,
        {
            let ghost entries0 = entries@;
            let ghost i0 = i as int;
            let ac = crate::text::chars_of(args[i].as_str());
            proof {
                assert(ac@ == av[i0]);
                if ac@.len() >= 2 {
                    assert(ac@.take(2) =~= seq![ac@[0], ac@[1]]);
                }
                if ac@.len() >= 1 {
                    assert(ac@.take(1) =~= seq![ac@[0]]);
                }
            }
            let is_dd = ac.len() >= 2 && ac[0] == '-' && ac[1] == '-';
            let is_sd = ac.len() >= 1 && ac[0] == '-';
            if is_dd || is_sd {
                let keyc = if is_dd {
                    strip_reps_exec(&ac, &dd)
                } else {
                    strip_reps_exec(&ac, &sd)
                };
                let key = crate::text::string_from_chars(&keyc);
                let mut took_value = false;
                if i + 1 < args.len() {
                    let nc = crate::text::chars_of(args[i + 1].as_str());
                    proof {
                        assert(nc@ == av[i0 + 1]);
                        if nc@.len() >= 2 {
                            assert(nc@.take(2) =~= seq![nc@[0], nc@[1]]);
                        }
                        if nc@.len() >= 1 {
                            assert(nc@.take(1) =~= seq![nc@[0]]);
                        }
                    }
                    let next_has_prefix = if is_dd {
                        nc.len() >= 2 && nc[0] == '-' && nc[1] == '-'
                    } else {
                        nc.len() >= 1 && nc[0] == '-'
                    };
                    if !next_has_prefix {
                        let value = args[i + 1].clone();
                        entries.push((key, Some(value)));
                        took_value = true;
                    } else {
                        entries.push((key, None));
                    }
                } else {
                    entries.push((key, None));
                }
                proof {
                    assert(entries@.drop_last() =~= entries0);
                    assert(assoc_map(entries@) == assoc_map(entries0).insert(
                        entries@.last().0@,
                        optstr_view(entries@.last().1),
                    ));
                }
                if took_value {
                    i = i + 2;
                } else {
                    i = i + 1;
                }
            } else {
                i = i + 1;
            }
        }
        ArgParser { args: entries }
    }

    /// The stored value for `key`: a reference to the held option, or to
    /// `None` when the key is absent.
    #[verifier::loop_isolation(false)]
    pub fn get(&self, key: &str) -> (r: &Option<String>)
        ensures
            optstr_view(*r) == arg_val(self@, key@),
    {
        let mut i: usize = self.args.len();
        proof {
            assert(self.args@.take(self.args@.len() as int) =~= self.args@);
        }
        while i > 0
            invariant
                i <= self.args@.len(),
                arg_val(assoc_map(self.args@), key@) == arg_val(
                    assoc_map(self.args@.take(i as int)),
                    key@,
                ),
            decreases i,
        {
            i = i - 1;
            proof {
                assert(self.args@.take(i as int + 1).drop_last() =~= self.args@.take(i as int));
                assert(self.args@.take(i as int + 1).last() == self.args@[i as int]);
            }
            if crate::text::str_eq(self.args[i].0.as_str(), key) {
                return &self.args[i].1;
            }
        }
        proof {
            assert(self.args@.take(0) =~= Seq::<(String, Option<String>)>::empty());
        }
        &None
    }

    /// Whether `key` was given at all.
    #[verifier::loop_isolation(false)]
    pub fn has(&self, key: &str) -> (r: bool)
        ensures
            r == self@.contains_key(key@),
    {
        let mut i: usize = 0;
        while i < self.args.len()
            invariant
                i <= self.args@.len(),
                forall|t: int| 0 <= t < i ==> (#[trigger] self.args@[t]).0@ != key@,
            decreases self.args@.len() - i,
        {
            if crate::text::str_eq(self.args[i].0.as_str(), key) {
                proof {
                    lemma_assoc_contains(self.args@, key@);
                }
                return true;
            }
            i = i + 1;
        }
        proof {
            lemma_assoc_contains(self.args@, key@);
        }
        false
    }

    /// Stores `val` under `key`, replacing any earlier value.
    pub fn set(&mut self, key: &str, val: String)
        ensures
            final(self)@ == old(self)@.insert(key@, Some(val@)),
    {
        let ghost entries0 = self.args@;
        let k = key.to_owned();
        self.args.push((k, Some(val)));
        proof {
            assert(self.args@.drop_last() =~= entries0);
            assert(self.args@.last().0@ == key@);
        }
    }

    /// Whether no argument was given.
    pub fn is_empty(&self) -> (r: bool)
        ensures
            r == (self@ =~= Map::<Seq<char>, Option<Seq<char>>>::empty()),
    {
        let r = self.args.len() == 0;
        proof {
            if self.args@.len() == 0 {
                assert(self@ =~= Map::<Seq<char>, Option<Seq<char>>>::empty());
            } else {
                lemma_assoc_contains(self.args@, self.args@.last().0@);
                assert(self.args@[self.args@.len() - 1].0@ == self.args@.last().0@);
                assert(self@.contains_key(self.args@.last().0@));
            }
        }
        r
    }
}

} // verus!
