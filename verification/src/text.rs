//! Character and string helpers shared by the pattern engines.
//!
//! The engines scan decoded characters; reported offsets are byte offsets
//! into the original UTF-8 text.  `byte_index` is the model that translates
//! between the two units.

use vstd::prelude::*;

verus! {

/// Number of bytes in the UTF-8 encoding of `c`.
pub open spec fn char_bytes(c: char) -> nat {
    let v = c as u32;
    if v < 0x80 {
        1nat
    } else if v < 0x800 {
        2nat
    } else if v < 0x10000 {
        3nat
    } else {
        4nat
    }
}

/// Number of bytes taken by the first `i` characters of `s` in UTF-8.
pub open spec fn byte_index(s: Seq<char>, i: int) -> nat
    decreases i,
{
    if i <= 0 {
        0nat
    } else {
        byte_index(s, i - 1) + char_bytes(s[i - 1])
    }
}

/// Total UTF-8 byte length of `s`.
pub open spec fn byte_len(s: Seq<char>) -> nat {
    byte_index(s, s.len() as int)
}

pub proof fn lemma_byte_index_mono(s: Seq<char>, i: int, j: int)
    requires
        0 <= i <= j,
    ensures
        byte_index(s, i) <= byte_index(s, j),
    decreases j,
{
    if i < j {
        lemma_byte_index_mono(s, i, j - 1);
    }
}

/// Relies on str::chars for the characters of the string, in order, and on
/// str::len for the fact that the UTF-8 byte length of a string fits in
/// usize.
#[verifier::external_body]
pub fn chars_of(s: &str) -> (r: Vec<char>)
    ensures
        r@ == s@,
        byte_len(r@) <= usize::MAX,
{
    s.chars().collect()
}

/// Relies on String's FromIterator: collecting characters yields the string
/// of exactly those characters, in order.
#[verifier::external_body]
pub fn string_from_chars(v: &Vec<char>) -> (r: String)
    ensures
        r@ == v@,
{
    v.iter().collect()
}

/// The byte offset of character index `i` of `text`.
pub fn byte_offset(text: &Vec<char>, i: usize) -> (r: usize)
    requires
        i <= text@.len(),
        byte_len(text@) <= usize::MAX,
    ensures
        r == byte_index(text@, i as int),
{
    let mut j: usize = 0;
    let mut acc: usize = 0;
    while j < i
        invariant
            j <= i <= text@.len(),
            byte_len(text@) <= usize::MAX,
            acc == byte_index(text@, j as int),
        decreases i - j,
    {
        proof {
            lemma_byte_index_mono(text@, j as int + 1, text@.len() as int);
        }
        let c = text[j];
        let v = c as u32;
        let w: usize = if v < 0x80 {
            1
        } else if v < 0x800 {
            2
        } else if v < 0x10000 {
            3
        } else {
            4
        };
        acc = acc + w;
        j = j + 1;
    }
    acc
}

/// The substring of `text` from character index `from` to `to`, as an owned
/// string.
pub fn string_of_range(text: &Vec<char>, from: usize, to: usize) -> (r: String)
    requires
        from <= to <= text@.len(),
    ensures
        r@ == text@.subrange(from as int, to as int),
{
    let mut v: Vec<char> = Vec::new();
    let mut j: usize = from;
    while j < to
        invariant
            from <= j <= to <= text@.len(),
            v@ == text@.subrange(from as int, j as int),
        decreases to - j,
    {
        v.push(text[j]);
        proof {
            assert(v@ =~= text@.subrange(from as int, j as int + 1));
        }
        j = j + 1;
    }
    string_from_chars(&v)
}

} // verus!

verus! {

pub proof fn lemma_byte_index_strict(s: Seq<char>, i: int, j: int)
    requires
        0 <= i < j <= s.len(),
    ensures
        byte_index(s, i) < byte_index(s, j),
    decreases j,
{
    if i < j - 1 {
        lemma_byte_index_strict(s, i, j - 1);
    }
}

} // verus!

verus! {

/// Whether the characters of `l` occur verbatim in `text` at position
/// `pos` (with room for all of them).
pub fn literal_matches_at(l: &Vec<char>, text: &Vec<char>, pos: usize) -> (r: bool)
    requires
        pos <= text@.len(),
    ensures
        r == (pos + l@.len() <= text@.len() && text@.subrange(
            pos as int,
            pos as int + l@.len() as int,
        ) == l@),
{
    let tlen = text.len();
    let llen = l.len();
    if llen > tlen - pos {
        return false;
    }
    let mut j: usize = 0;
    while j < llen
        invariant
            tlen == text@.len(),
            llen == l@.len(),
            pos + llen <= tlen,
            j <= llen,
            forall|t: int| 0 <= t < j ==> text@[pos + t] == l@[t],
        decreases llen - j,
    {
        if text[pos + j] != l[j] {
            proof {
                assert(text@.subrange(pos as int, pos as int + l@.len() as int)[j as int]
                    == text@[pos + j as int]);
            }
            return false;
        }
        j = j + 1;
    }
    proof {
        assert(text@.subrange(pos as int, pos as int + l@.len() as int) =~= l@);
    }
    true
}

} // verus!

verus! {

/// The characters of `v` from index `from` to `to`, as a new vector.
pub fn vec_subrange(v: &Vec<char>, from: usize, to: usize) -> (r: Vec<char>)
    requires
        from <= to <= v@.len(),
    ensures
        r@ == v@.subrange(from as int, to as int),
{
    let mut out: Vec<char> = Vec::new();
    let mut j: usize = from;
    while j < to
        invariant
            from <= j <= to <= v@.len(),
            out@ == v@.subrange(from as int, j as int),
        decreases to - j,
    {
        out.push(v[j]);
        proof {
            assert(out@ =~= v@.subrange(from as int, j as int + 1));
        }
        j = j + 1;
    }
    out
}

/// Whether `c` occurs in `v`.
pub fn contains_char(v: &Vec<char>, c: char) -> (r: bool)
    ensures
        r == v@.contains(c),
{
    let mut j: usize = 0;
    while j < v.len()
        invariant
            j <= v@.len(),
            forall|t: int| 0 <= t < j ==> v@[t] != c,
        decreases v@.len() - j,
    {
        if v[j] == c {
            return true;
        }
        j = j + 1;
    }
    false
}

} // verus!

verus! {

/// The index of the first occurrence of `c` in `s` at or after `i`, or
/// `s.len()` when there is none.
pub open spec fn find_char_from(s: Seq<char>, i: int, c: char) -> int
    decreases s.len() - i,
{
    if i < 0 || i >= s.len() {
        s.len() as int
    } else if s[i] == c {
        i
    } else {
        find_char_from(s, i + 1, c)
    }
}

/// `needle` occurs as a contiguous run within `hay`.
pub open spec fn contains_seq(hay: Seq<char>, needle: Seq<char>) -> bool {
    exists|k: int|
        0 <= k && k + needle.len() <= hay.len() && #[trigger] hay.subrange(
            k,
            k + needle.len() as int,
        ) == needle
}

/// Whether `needle` occurs as a contiguous run within `hay`.
pub fn contains_chars(hay: &Vec<char>, needle: &Vec<char>) -> (r: bool)
    ensures
        r == contains_seq(hay@, needle@),
{
    let hlen = hay.len();
    let nlen = needle.len();
    if nlen > hlen {
        return false;
    }
    if nlen == 0 {
        proof {
            assert(hay@.subrange(0, 0 + needle@.len() as int) =~= needle@);
        }
        return true;
    }
    let mut k: usize = 0;
    while k <= hlen - nlen
        invariant
            hlen == hay@.len(),
            nlen == needle@.len(),
            1 <= nlen <= hlen,
            k <= hlen - nlen + 1,
            forall|t: int|
                0 <= t < k ==> #[trigger] hay@.subrange(t, t + needle@.len() as int) != needle@,
        decreases hlen - nlen - k + 1,
    {
        if literal_matches_at(needle, hay, k) {
            return true;
        }
        k = k + 1;
    }
    false
}

/// A line with a trailing carriage return stripped.
pub open spec fn strip_cr(l: Seq<char>) -> Seq<char> {
    if l.len() > 0 && l.last() == '\r' {
        l.drop_last()
    } else {
        l
    }
}

/// The lines of `s` from position `pos`: split at `\n`, a `\r` standing
/// immediately before a `\n` is stripped, and the final line ending is
/// optional.
pub open spec fn lines_from(s: Seq<char>, pos: int) -> Seq<Seq<char>>
    decreases s.len() - pos,
{
    if pos < 0 || pos >= s.len() {
        Seq::empty()
    } else {
        let j = find_char_from(s, pos, '\n');
        if j >= s.len() {
            seq![s.subrange(pos, s.len() as int)]
        } else if j < pos {
            Seq::empty()
        } else {
            seq![strip_cr(s.subrange(pos, j))] + lines_from(s, j + 1)
        }
    }
}

/// The lines of `s`.
pub open spec fn lines_spec(s: Seq<char>) -> Seq<Seq<char>> {
    lines_from(s, 0)
}

/// The pieces of `s[pos..]` split at every occurrence of `c`: empty pieces
/// are kept, and a trailing `c` yields a trailing empty piece.
pub open spec fn split_char_from(s: Seq<char>, c: char, pos: int) -> Seq<Seq<char>>
    decreases s.len() - pos,
{
    if pos < 0 || pos > s.len() {
        Seq::empty()
    } else {
        let j = find_char_from(s, pos, c);
        if j >= s.len() {
            seq![s.subrange(pos, s.len() as int)]
        } else if j < pos {
            Seq::empty()
        } else {
            seq![s.subrange(pos, j)] + split_char_from(s, c, j + 1)
        }
    }
}

/// The index of the first `c` in `v` at or after `from`, or the length.
pub fn find_char_pos(v: &Vec<char>, from: usize, c: char) -> (r: usize)
    requires
        from <= v@.len(),
    ensures
        from <= r <= v@.len(),
        r as int == find_char_from(v@, from as int, c),
        r < v@.len() ==> v@[r as int] == c,
{
    let vlen = v.len();
    let mut j = from;
    loop
        invariant_except_break
            from <= j <= vlen,
            vlen == v@.len(),
            find_char_from(v@, from as int, c) == find_char_from(v@, j as int, c),
        ensures
            from <= j <= vlen,
            vlen == v@.len(),
            find_char_from(v@, from as int, c) == find_char_from(v@, j as int, c),
            j == vlen || v@[j as int] == c,
        decreases vlen - j,
    {
        if j >= vlen {
            break;
        }
        if v[j] == c {
            break;
        }
        j = j + 1;
    }
    j
}

/// The lines of `content`, as character vectors.
pub fn split_lines(content: &Vec<char>) -> (r: Vec<Vec<char>>)
    ensures
        r.deep_view() == lines_spec(content@),
{
    let clen = content.len();
    let mut out: Vec<Vec<char>> = Vec::new();
    let mut pos: usize = 0;
    proof {
        assert(out.deep_view() + lines_from(content@, 0) =~~= lines_from(content@, 0));
    }
    while pos < clen
        invariant
            clen == content@.len(),
            pos <= clen,
            lines_spec(content@) == out.deep_view() + lines_from(content@, pos as int),
        decreases clen - pos,
    {
        let ghost out0 = out.deep_view();
        let ghost pos0 = pos as int;
        let j = find_char_pos(content, pos, '\n');
        if j >= clen {
            let line = vec_subrange(content, pos, clen);
            out.push(line);
            proof {
                assert(lines_from(content@, pos0) == seq![
                    content@.subrange(pos0, content@.len() as int),
                ]);
                assert(out.deep_view() =~~= out0 + lines_from(content@, pos0));
                assert(lines_from(content@, clen as int) =~~= Seq::<Seq<char>>::empty());
                assert((out0 + lines_from(content@, pos0)) + Seq::<Seq<char>>::empty()
                    =~~= out0 + lines_from(content@, pos0));
            }
            pos = clen;
        } else {
            let line = if j > pos && content[j - 1] == '\r' {
                crate::text::vec_subrange(content, pos, j - 1)
            } else {
                crate::text::vec_subrange(content, pos, j)
            };
            proof {
                let raw = content@.subrange(pos0, j as int);
                if j > pos && content@[j as int - 1] == '\r' {
                    assert(raw.len() > 0 && raw.last() == '\r');
                    assert(strip_cr(raw) =~= content@.subrange(pos0, j as int - 1));
                } else {
                    if raw.len() > 0 {
                        assert(raw.last() == content@[j as int - 1]);
                    }
                    assert(strip_cr(raw) =~= raw);
                }
                assert(line@ == strip_cr(raw));
                assert(lines_from(content@, pos0) == seq![strip_cr(raw)] + lines_from(
                    content@,
                    j as int + 1,
                ));
            }
            out.push(line);
            proof {
                assert(out.deep_view() =~~= out0.push(line@));
                assert(out0.push(line@) + lines_from(content@, j as int + 1) =~~= out0 + (seq![
                    line@,
                ] + lines_from(content@, j as int + 1)));
            }
            pos = j + 1;
        }
    }
    proof {
        assert(lines_from(content@, pos as int) =~~= Seq::<Seq<char>>::empty());
        assert(out.deep_view() + Seq::<Seq<char>>::empty() =~~= out.deep_view());
    }
    out
}

/// The pieces of `line` split at every space, empty pieces kept.
pub fn split_words(line: &Vec<char>) -> (r: Vec<Vec<char>>)
    ensures
        r.deep_view() == split_char_from(line@, ' ', 0),
{
    let llen = line.len();
    let mut out: Vec<Vec<char>> = Vec::new();
    let mut pos: usize = 0;
    let mut done = false;
    proof {
        assert(out.deep_view() + split_char_from(line@, ' ', 0) =~~= split_char_from(
            line@,
            ' ',
            0,
        ));
    }
    while !done
        invariant
            llen == line@.len(),
            pos <= llen + 1,
            done ==> split_char_from(line@, ' ', 0) == out.deep_view(),
            !done ==> pos <= llen && split_char_from(line@, ' ', 0) == out.deep_view()
                + split_char_from(line@, ' ', pos as int),
        decreases
            (if done {
                0int
            } else {
                1int
            }),
            llen + 1 - pos,
    {
        let ghost out0 = out.deep_view();
        let ghost pos0 = pos as int;
        let j = find_char_pos(line, pos, ' ');
        if j >= llen {
            let piece = vec_subrange(line, pos, llen);
            out.push(piece);
            proof {
                assert(split_char_from(line@, ' ', pos0) == seq![
                    line@.subrange(pos0, line@.len() as int),
                ]);
                assert(out.deep_view() =~~= out0 + split_char_from(line@, ' ', pos0));
            }
            done = true;
        } else {
            let piece = vec_subrange(line, pos, j);
            out.push(piece);
            proof {
                assert(split_char_from(line@, ' ', pos0) == seq![line@.subrange(pos0, j as int)]
                    + split_char_from(line@, ' ', j as int + 1));
                assert(out.deep_view() =~~= out0.push(line@.subrange(pos0, j as int)));
                assert(out0.push(line@.subrange(pos0, j as int)) + split_char_from(
                    line@,
                    ' ',
                    j as int + 1,
                ) =~~= out0 + (seq![line@.subrange(pos0, j as int)] + split_char_from(
                    line@,
                    ' ',
                    j as int + 1,
                )));
            }
            pos = j + 1;
        }
    }
    out
}

/// What str::to_lowercase returns for the characters of a string.
pub uninterp spec fn lower_of(s: Seq<char>) -> Seq<char>;

/// Relies on str::to_lowercase: the result is a function of the
/// characters alone.
#[verifier::external_body]
pub fn lowercase(s: &str) -> (r: String)
    ensures
        r@ == lower_of(s@),
{
    s.to_lowercase()
}

} // verus!

verus! {

/// Whether two string slices hold the same characters.
pub fn str_eq(a: &str, b: &str) -> (r: bool)
    ensures
        r == (a@ == b@),
{
    let ac = chars_of(a);
    let bc = chars_of(b);
    if ac.len() != bc.len() {
        proof {
            assert(a@ != b@);
        }
        return false;
    }
    let mut j: usize = 0;
    while j < ac.len()
        invariant
            ac@ == a@,
            bc@ == b@,
            ac@.len() == bc@.len(),
            j <= ac@.len(),
            forall|t: int| 0 <= t < j ==> a@[t] == b@[t],
        decreases ac@.len() - j,
    {
        if ac[j] != bc[j] {
            return false;
        }
        j = j + 1;
    }
    proof {
        assert(a@ =~= b@);
    }
    true
}

} // verus!
