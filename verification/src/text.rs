//! Text as a sequence of characters: trimming, splitting, matching.
//!
//! The parsers of this crate work on `&[char]`. Each operation stands twice:
//! as a spec function on `Seq<char>` and as the code that computes it.

use vstd::prelude::*;
use vstd::slice::slice_subrange;

verus! {

/// Appending one character, as std documents it for `String::push`: the new
/// text is the old one followed by the character.
pub assume_specification[ String::push ](s: &mut String, c: char)
    ensures
        final(s)@ == old(s)@.push(c),
;

/// The characters of Unicode's `White_Space` property.
pub open spec fn is_space(c: char) -> bool {
    ||| '\u{9}' <= c <= '\u{d}'
    ||| c == ' '
    ||| c == '\u{85}'
    ||| c == '\u{a0}'
    ||| c == '\u{1680}'
    ||| '\u{2000}' <= c <= '\u{200a}'
    ||| c == '\u{2028}'
    ||| c == '\u{2029}'
    ||| c == '\u{202f}'
    ||| c == '\u{205f}'
    ||| c == '\u{3000}'
}

/// Tells whether `c` is white space.
pub fn space(c: char) -> (r: bool)
    ensures
        r == is_space(c),
{
    ('\u{9}' <= c && c <= '\u{d}') || c == ' ' || c == '\u{85}' || c == '\u{a0}' || c == '\u{1680}'
        || ('\u{2000}' <= c && c <= '\u{200a}') || c == '\u{2028}' || c == '\u{2029}'
        || c == '\u{202f}' || c == '\u{205f}' || c == '\u{3000}'
}

/// The characters of a string.
pub fn chars_of(s: &str) -> (r: Vec<char>)
    ensures
        r@ == s@,
{
    let mut out: Vec<char> = Vec::new();
    for c in it: s.chars()
        invariant
            it.seq() == s@,
            out@ == it.seq().take(it.index() as int),
    {
        out.push(c);
    }
    out
}

/// The string that holds the given characters.
pub fn string_of(s: &[char]) -> (r: String)
    ensures
        r@ == s@,
{
    let mut out = String::new();
    let mut i: usize = 0;
    while i < s.len()
        invariant
            i <= s.len(),
            out@ == s@.take(i as int),
        decreases s.len() - i,
    {
        out.push(s[i]);
        i += 1;
        assert(s@.take(i as int) =~= s@.take(i - 1).push(s@[i - 1]));
    }
    assert(s@.take(i as int) =~= s@);
    out
}

/// What the strings of a list hold.
pub open spec fn texts(v: Seq<String>) -> Seq<Seq<char>> {
    v.map_values(|s: String| s@)
}

/// What an optional string holds.
pub open spec fn option_text(o: Option<String>) -> Option<Seq<char>> {
    match o {
        Some(s) => Some(s@),
        None => None,
    }
}

/// `s` without its leading white space.
pub open spec fn trimmed_start(s: Seq<char>) -> Seq<char>
    decreases s.len(),
{
    if s.len() > 0 && is_space(s[0]) {
        trimmed_start(s.drop_first())
    } else {
        s
    }
}

/// `s` without its trailing white space.
pub open spec fn trimmed_end(s: Seq<char>) -> Seq<char>
    decreases s.len(),
{
    if s.len() > 0 && is_space(s.last()) {
        trimmed_end(s.drop_last())
    } else {
        s
    }
}

/// `s` without the white space around it.
pub open spec fn trimmed(s: Seq<char>) -> Seq<char> {
    trimmed_end(trimmed_start(s))
}

/// Removes the leading white space.
pub fn trim_start(s: &[char]) -> (r: &[char])
    ensures
        r@ == trimmed_start(s@),
{
    let mut i: usize = 0;
    assert(s@.skip(0) =~= s@);
    while i < s.len() && space(s[i])
        invariant
            i <= s.len(),
            trimmed_start(s@) == trimmed_start(s@.skip(i as int)),
        decreases s.len() - i,
    {
        assert(s@.skip(i as int).drop_first() =~= s@.skip(i + 1));
        i += 1;
    }
    assert(s@.skip(i as int) =~= s@.subrange(i as int, s@.len() as int));
    slice_subrange(s, i, s.len())
}

/// Removes the trailing white space.
pub fn trim_end(s: &[char]) -> (r: &[char])
    ensures
        r@ == trimmed_end(s@),
{
    let mut n: usize = s.len();
    assert(s@.take(n as int) =~= s@);
    while n > 0 && space(s[n - 1])
        invariant
            n <= s.len(),
            trimmed_end(s@) == trimmed_end(s@.take(n as int)),
        decreases n,
    {
        assert(s@.take(n as int).drop_last() =~= s@.take(n - 1));
        n -= 1;
    }
    assert(s@.take(n as int) =~= s@.subrange(0, n as int));
    slice_subrange(s, 0, n)
}

/// Removes the white space on both sides.
pub fn trim(s: &[char]) -> (r: &[char])
    ensures
        r@ == trimmed(s@),
{
    trim_end(trim_start(s))
}

/// The length of the longest prefix of `s` that does not hold `sep`.
pub open spec fn cut(s: Seq<char>, sep: char) -> nat
    decreases s.len(),
{
    if s.len() == 0 || s[0] == sep {
        0
    } else {
        1 + cut(s.drop_first(), sep)
    }
}

/// The cut lies inside the text, at the first occurrence of the separator or
/// at the end.
pub(crate) proof fn lemma_cut(s: Seq<char>, sep: char)
    ensures
        cut(s, sep) <= s.len(),
        cut(s, sep) < s.len() ==> s[cut(s, sep) as int] == sep,
        forall|i: int| 0 <= i < cut(s, sep) ==> s[i] != sep,
    decreases s.len(),
{
    if s.len() > 0 && s[0] != sep {
        lemma_cut(s.drop_first(), sep);
        assert forall|i: int| 0 <= i < cut(s, sep) implies s[i] != sep by {
            if i > 0 {
                assert(s.drop_first()[i - 1] == s[i]);
            }
        }
    }
}

/// The part of `s` before the first `sep`; all of it where there is none.
pub open spec fn before(s: Seq<char>, sep: char) -> Seq<char> {
    s.take(cut(s, sep) as int)
}

/// Finds the first `sep` at or after `from`, or the end.
pub fn find_from(s: &[char], sep: char, from: usize) -> (r: usize)
    requires
        from <= s@.len(),
    ensures
        r == from + cut(s@.skip(from as int), sep),
        from <= r <= s@.len(),
{
    let mut i: usize = from;
    while i < s.len() && s[i] != sep
        invariant
            from <= i <= s.len(),
            from + cut(s@.skip(from as int), sep) == i + cut(s@.skip(i as int), sep),
        decreases s.len() - i,
    {
        assert(s@.skip(i as int).drop_first() =~= s@.skip(i + 1));
        i += 1;
    }
    i
}

/// The part before the first `sep`.
pub fn take_before(s: &[char], sep: char) -> (r: &[char])
    ensures
        r@ == before(s@, sep),
{
    assert(s@.skip(0) =~= s@);
    let n: usize = find_from(s, sep, 0);
    assert(s@.take(n as int) =~= s@.subrange(0, n as int));
    slice_subrange(s, 0, n)
}

/// The pieces of `s` between the occurrences of `sep`, empty ones kept.
pub open spec fn split_on(s: Seq<char>, sep: char) -> Seq<Seq<char>>
    decreases s.len(),
{
    let n = cut(s, sep);
    if n >= s.len() {
        seq![s]
    } else {
        seq![s.take(n as int)] + split_on(s.skip(n as int + 1), sep)
    }
}

/// The pieces put together again, with `sep` between them.
pub open spec fn joined(v: Seq<Seq<char>>, sep: char) -> Seq<char>
    decreases v.len(),
{
    if v.len() == 0 {
        seq![]
    } else if v.len() == 1 {
        v[0]
    } else {
        joined(v.drop_last(), sep).push(sep) + v.last()
    }
}

pub(crate) proof fn lemma_joined_first(p: Seq<char>, v: Seq<Seq<char>>, sep: char)
    requires
        v.len() > 0,
    ensures
        joined(seq![p] + v, sep) == p.push(sep) + joined(v, sep),
    decreases v.len(),
{
    let all = seq![p] + v;
    assert(all.last() == v.last());
    if v.len() == 1 {
        assert(all.drop_last() =~= seq![p]);
        assert(joined(all.drop_last(), sep) == p);
    } else {
        assert(all.drop_last() =~= seq![p] + v.drop_last());
        lemma_joined_first(p, v.drop_last(), sep);
        assert(joined(all, sep) =~= p.push(sep) + joined(v, sep));
    }
}

/// The pieces of a text give it back when the separator is put between them,
/// there is at least one, and none of them holds the separator.
pub proof fn lemma_split(s: Seq<char>, sep: char)
    ensures
        split_on(s, sep).len() > 0,
        joined(split_on(s, sep), sep) == s,
        forall|i: int| 0 <= i < split_on(s, sep).len() ==> !(#[trigger] split_on(s, sep)[i]).contains(
            sep,
        ),
    decreases s.len(),
{
    lemma_cut(s, sep);
    let n = cut(s, sep) as int;
    let v = split_on(s, sep);
    if n >= s.len() {
        assert(v =~= seq![s]);
    } else {
        let rest = s.skip(n + 1);
        lemma_split(rest, sep);
        lemma_joined_first(s.take(n), split_on(rest, sep), sep);
        assert(s.take(n).push(sep) + rest =~= s);
        assert forall|i: int| 0 <= i < v.len() implies !(#[trigger] v[i]).contains(sep) by {
            if i > 0 {
                assert(v[i] == split_on(rest, sep)[i - 1]);
            }
        }
    }
}

pub(crate) proof fn lemma_cut_at(s: Seq<char>, t: Seq<char>, sep: char)
    requires
        !s.contains(sep),
        t.len() > 0 ==> t[0] == sep,
    ensures
        cut(s + t, sep) == s.len(),
    decreases s.len(),
{
    if s.len() > 0 {
        assert(s[0] != sep);
        assert forall|i: int| 0 <= i < s.drop_first().len() implies s.drop_first()[i] != sep by {
            assert(s.drop_first()[i] == s[i + 1]);
        }
        lemma_cut_at(s.drop_first(), t, sep);
        assert((s + t).drop_first() =~= s.drop_first() + t);
    } else {
        assert(s + t =~= t);
    }
}

/// A text without the separator is its only piece.
pub(crate) proof fn lemma_one_piece(s: Seq<char>, sep: char)
    requires
        !s.contains(sep),
    ensures
        split_on(s, sep) == seq![s],
{
    lemma_cut_at(s, seq![], sep);
    assert(s + Seq::<char>::empty() =~= s);
}

/// Pieces without the separator that are put together come apart again.
pub proof fn lemma_split_joined(v: Seq<Seq<char>>, sep: char)
    requires
        v.len() > 0,
        forall|i: int| 0 <= i < v.len() ==> !(#[trigger] v[i]).contains(sep),
    ensures
        split_on(joined(v, sep), sep) == v,
    decreases v.len(),
{
    if v.len() == 1 {
        lemma_one_piece(v[0], sep);
        assert(v =~= seq![v[0]]);
    } else {
        let rest = v.drop_first();
        assert forall|i: int| 0 <= i < rest.len() implies !(#[trigger] rest[i]).contains(sep) by {
            assert(rest[i] == v[i + 1]);
        }
        lemma_split_joined(rest, sep);
        assert(v =~= seq![v[0]] + rest);
        lemma_joined_first(v[0], rest, sep);
        let tail = seq![sep] + joined(rest, sep);
        assert(v[0].push(sep) + joined(rest, sep) =~= v[0] + tail);
        lemma_cut_at(v[0], tail, sep);
        let s = joined(v, sep);
        assert(s.take(v[0].len() as int) =~= v[0]);
        assert(s.skip(v[0].len() as int + 1) =~= joined(rest, sep));
    }
}

/// The lines of `s`: what stands between line feeds, without an empty piece
/// behind a final line feed.
pub open spec fn lines_of(s: Seq<char>) -> Seq<Seq<char>>
    decreases s.len(),
{
    if s.len() == 0 {
        seq![]
    } else {
        let n = cut(s, '\n');
        if n >= s.len() {
            seq![s]
        } else {
            seq![s.take(n as int)] + lines_of(s.skip(n as int + 1))
        }
    }
}

proof fn lemma_cut_joined(s: Seq<char>, t: Seq<char>, sep: char)
    requires
        cut(s, sep) < s.len(),
    ensures
        cut(s + t, sep) == cut(s, sep),
    decreases s.len(),
{
    if s[0] != sep {
        assert((s + t).drop_first() =~= s.drop_first() + t);
        lemma_cut_joined(s.drop_first(), t, sep);
    }
}

/// The lines of a text that ends with a line feed stay as they are when more
/// text follows.
pub proof fn lemma_lines_joined(s: Seq<char>, t: Seq<char>)
    requires
        s.len() > 0 ==> s.last() == '\n',
    ensures
        lines_of(s + t) == lines_of(s) + lines_of(t),
    decreases s.len(),
{
    if s.len() == 0 {
        assert(s + t =~= t);
        assert(lines_of(s) + lines_of(t) =~= lines_of(t));
    } else {
        lemma_cut(s, '\n');
        let n = cut(s, '\n') as int;
        assert(n < s.len()) by {
            if n >= s.len() {
                assert(s[s.len() - 1] == '\n');
            }
        }
        lemma_cut_joined(s, t, '\n');
        let rest = s.skip(n + 1);
        assert((s + t).take(n) =~= s.take(n));
        assert((s + t).skip(n + 1) =~= rest + t);
        lemma_lines_joined(rest, t);
        assert(lines_of(s + t) =~= lines_of(s) + lines_of(t));
    }
}

/// A text without a line feed is one line.
pub(crate) proof fn lemma_one_line(s: Seq<char>)
    requires
        s.len() > 0,
        forall|i: int| 0 <= i < s.len() ==> s[i] != '\n',
    ensures
        lines_of(s) == seq![s],
{
    lemma_cut(s, '\n');
}

/// A line feed at the end adds a line only where no line is unfinished.
pub(crate) proof fn lemma_lines_line_feed(s: Seq<char>)
    ensures
        lines_of(s.push('\n')) == if s.len() == 0 || s.last() == '\n' {
            lines_of(s).push(Seq::empty())
        } else {
            lines_of(s)
        },
    decreases s.len(),
{
    let t = s.push('\n');
    lemma_cut(s, '\n');
    lemma_cut(t, '\n');
    let n = cut(s, '\n') as int;
    let m = cut(t, '\n') as int;
    assert(m < t.len()) by {
        if m >= t.len() {
            assert(t[t.len() - 1] == '\n');
        }
    }
    if n < s.len() {
        assert(m == n) by {
            if m < n {
                assert(s[m] == t[m]);
            }
            if n < m {
                assert(t[n] == s[n]);
            }
        }
        let rest = s.skip(n + 1);
        assert(t.skip(n + 1) =~= rest.push('\n'));
        assert(t.take(n) =~= s.take(n));
        lemma_lines_line_feed(rest);
        assert(rest.len() > 0 ==> rest.last() == s.last());
        assert(rest.len() == 0 ==> s.last() == '\n');
        assert(lines_of(t) =~= seq![s.take(n)] + lines_of(rest.push('\n')));
        assert(lines_of(s) =~= seq![s.take(n)] + lines_of(rest));
        assert((seq![s.take(n)] + lines_of(rest)).push(Seq::empty()) =~= seq![s.take(n)]
            + lines_of(rest).push(Seq::empty()));
    } else {
        assert(m == n) by {
            if m < n {
                assert(s[m] == t[m]);
            }
        }
        assert(t.take(m) =~= s);
        assert(t.skip(m + 1) =~= seq![]);
        assert(lines_of(seq![]) =~= seq![]);
        assert(lines_of(t) =~= seq![s]);
        if s.len() > 0 {
            assert(s.last() != '\n');
            assert(lines_of(s) =~= seq![s]);
        } else {
            assert(s =~= Seq::empty());
            assert(lines_of(s) =~= seq![]);
        }
    }
}

/// Trimming the end stops at a character that is no white space.
pub(crate) proof fn lemma_trimmed_end_joined(p: Seq<char>, q: Seq<char>)
    requires
        p.len() > 0,
        !is_space(p.last()),
    ensures
        trimmed_end(p + q) == p + trimmed_end(q),
    decreases q.len(),
{
    if q.len() == 0 {
        assert(p + q =~= p);
        assert(p + trimmed_end(q) =~= p);
    } else {
        assert((p + q).drop_last() =~= p + q.drop_last());
        assert((p + q).last() == q.last());
        if is_space(q.last()) {
            lemma_trimmed_end_joined(p, q.drop_last());
        }
    }
}

/// Trimming the end twice is trimming it once.
pub(crate) proof fn lemma_trimmed_end_twice(s: Seq<char>)
    ensures
        trimmed_end(trimmed_end(s)) == trimmed_end(s),
    decreases s.len(),
{
    if s.len() > 0 && is_space(s.last()) {
        lemma_trimmed_end_twice(s.drop_last());
    }
}

/// What the slices of a list hold.
pub open spec fn pieces(v: Seq<&[char]>) -> Seq<Seq<char>> {
    v.map_values(|p: &[char]| p@)
}

/// Splits at every `sep`.
pub fn split<'a>(s: &'a [char], sep: char) -> (r: Vec<&'a [char]>)
    ensures
        pieces(r@) == split_on(s@, sep),
{
    let mut out: Vec<&'a [char]> = Vec::new();
    let mut start: usize = 0;
    assert(s@.skip(0) =~= s@);
    assert(pieces(out@) + split_on(s@, sep) =~= split_on(s@, sep));
    loop
        invariant
            start <= s.len(),
            pieces(out@) + split_on(s@.skip(start as int), sep) == split_on(s@, sep),
        decreases s.len() - start,
    {
        let end: usize = find_from(s, sep, start);
        let piece = slice_subrange(s, start, end);
        let ghost done = pieces(out@);
        out.push(piece);
        assert(pieces(out@) =~= done.push(piece@));
        if end == s.len() {
            assert(piece@ =~= s@.skip(start as int));
            assert(pieces(out@) =~= done + seq![s@.skip(start as int)]);
            return out;
        }
        assert(piece@ =~= s@.skip(start as int).take(end - start));
        assert(s@.skip(start as int).skip(end - start + 1) =~= s@.skip(end + 1));
        assert(pieces(out@) + split_on(s@.skip(end + 1), sep) =~= done + (seq![piece@]
            + split_on(s@.skip(end + 1), sep)));
        start = end + 1;
    }
}

/// Splits into lines.
pub fn lines<'a>(s: &'a [char]) -> (r: Vec<&'a [char]>)
    ensures
        pieces(r@) == lines_of(s@),
{
    let mut out: Vec<&'a [char]> = Vec::new();
    let mut start: usize = 0;
    assert(s@.skip(0) =~= s@);
    assert(pieces(out@) + lines_of(s@) =~= lines_of(s@));
    while start < s.len()
        invariant
            start <= s.len(),
            pieces(out@) + lines_of(s@.skip(start as int)) == lines_of(s@),
        decreases s.len() - start,
    {
        let end: usize = find_from(s, '\n', start);
        let piece = slice_subrange(s, start, end);
        let ghost done = pieces(out@);
        out.push(piece);
        assert(pieces(out@) =~= done.push(piece@));
        if end == s.len() {
            assert(piece@ =~= s@.skip(start as int));
            assert(pieces(out@) =~= done + seq![s@.skip(start as int)]);
            return out;
        }
        assert(piece@ =~= s@.skip(start as int).take(end - start));
        assert(s@.skip(start as int).skip(end - start + 1) =~= s@.skip(end + 1));
        assert(pieces(out@) + lines_of(s@.skip(end + 1)) =~= done + (seq![piece@] + lines_of(
            s@.skip(end + 1),
        )));
        start = end + 1;
    }
    assert(s@.skip(start as int) =~= seq![]);
    assert(pieces(out@) + lines_of(s@.skip(start as int)) =~= pieces(out@));
    out
}

/// The length of the longest prefix of `s` without white space.
pub open spec fn word_len(s: Seq<char>) -> nat
    decreases s.len(),
{
    if s.len() == 0 || is_space(s[0]) {
        0
    } else {
        1 + word_len(s.drop_first())
    }
}

proof fn lemma_word_len(s: Seq<char>)
    ensures
        word_len(s) <= s.len(),
    decreases s.len(),
{
    if s.len() > 0 {
        lemma_word_len(s.drop_first());
    }
}

/// The words of `s`: its longest pieces without white space, none empty.
pub open spec fn words_of(s: Seq<char>) -> Seq<Seq<char>>
    decreases s.len(),
    via words_of_decreases
{
    if s.len() == 0 {
        seq![]
    } else if is_space(s[0]) {
        words_of(s.drop_first())
    } else {
        seq![s.take(word_len(s) as int)] + words_of(s.skip(word_len(s) as int))
    }
}

#[via_fn]
proof fn words_of_decreases(s: Seq<char>) {
    lemma_word_len(s);
}

/// Splits into words.
pub fn words<'a>(s: &'a [char]) -> (r: Vec<&'a [char]>)
    ensures
        pieces(r@) == words_of(s@),
{
    let mut out: Vec<&'a [char]> = Vec::new();
    let mut i: usize = 0;
    assert(s@.skip(0) =~= s@);
    assert(pieces(out@) + words_of(s@) =~= words_of(s@));
    while i < s.len()
        invariant
            i <= s.len(),
            pieces(out@) + words_of(s@.skip(i as int)) == words_of(s@),
        decreases s.len() - i,
    {
        if space(s[i]) {
            assert(s@.skip(i as int).drop_first() =~= s@.skip(i + 1));
            i += 1;
        } else {
            let start: usize = i;
            while i < s.len() && !space(s[i])
                invariant
                    start <= i <= s.len(),
                    start + word_len(s@.skip(start as int)) == i + word_len(s@.skip(i as int)),
                    start < s.len(),
                    !is_space(s@[start as int]),
                    i == start ==> start < s.len(),
                decreases s.len() - i,
            {
                assert(s@.skip(i as int).drop_first() =~= s@.skip(i + 1));
                i += 1;
            }
            let piece = slice_subrange(s, start, i);
            let ghost done = pieces(out@);
            out.push(piece);
            assert(pieces(out@) =~= done.push(piece@));
            assert(piece@ =~= s@.skip(start as int).take(i - start));
            assert(s@.skip(start as int).skip(i - start) =~= s@.skip(i as int));
            assert(pieces(out@) + words_of(s@.skip(i as int)) =~= done + (seq![piece@] + words_of(
                s@.skip(i as int),
            )));
        }
    }
    assert(s@.skip(i as int) =~= seq![]);
    assert(pieces(out@) + words_of(s@.skip(i as int)) =~= pieces(out@));
    out
}

/// Tells whether two texts are equal.
pub fn same(a: &[char], b: &[char]) -> (r: bool)
    ensures
        r == (a@ == b@),
{
    if a.len() != b.len() {
        return false;
    }
    let mut i: usize = 0;
    while i < a.len()
        invariant
            i <= a.len() == b.len(),
            a@.take(i as int) == b@.take(i as int),
        decreases a.len() - i,
    {
        if a[i] != b[i] {
            assert(a@[i as int] != b@[i as int]);
            return false;
        }
        i += 1;
        assert(a@.take(i as int) =~= a@.take(i - 1).push(a@[i - 1]));
        assert(b@.take(i as int) =~= b@.take(i - 1).push(b@[i - 1]));
    }
    assert(a@.take(i as int) =~= a@);
    assert(b@.take(i as int) =~= b@);
    true
}

/// Tells whether a text equals a string.
pub fn is_text(a: &[char], b: &str) -> (r: bool)
    ensures
        r == (a@ == b@),
{
    same(a, chars_of(b).as_slice())
}

/// Tells whether two strings are equal.
pub fn same_text(a: &str, b: &str) -> (r: bool)
    ensures
        r == (a@ == b@),
{
    same(chars_of(a).as_slice(), chars_of(b).as_slice())
}

/// Tells whether `s` begins with `prefix`.
pub fn starts_with(s: &[char], prefix: &str) -> (r: bool)
    ensures
        r == prefix@.is_prefix_of(s@),
{
    let p = chars_of(prefix);
    if p.len() > s.len() {
        return false;
    }
    let head = slice_subrange(s, 0, p.len());
    same(head, p.as_slice())
}

/// What follows `prefix` in `s`, where `s` begins with it.
pub fn strip_prefix<'a>(s: &'a [char], prefix: &str) -> (r: Option<&'a [char]>)
    ensures
        r is Some == prefix@.is_prefix_of(s@),
        r matches Some(rest) ==> rest@ == s@.skip(prefix@.len() as int),
{
    let p = chars_of(prefix);
    if p.len() > s.len() {
        return None;
    }
    let head = slice_subrange(s, 0, p.len());
    if same(head, p.as_slice()) {
        assert(s@.skip(prefix@.len() as int) =~= s@.subrange(p@.len() as int, s@.len() as int));
        Some(slice_subrange(s, p.len(), s.len()))
    } else {
        None
    }
}

/// `part` stands somewhere in `s`.
pub open spec fn occurs(part: Seq<char>, s: Seq<char>) -> bool {
    exists|i: int|
        0 <= i <= s.len() - part.len() && #[trigger] s.subrange(i, i + part.len()) == part
}

/// Tells whether `part` stands somewhere in `s`.
pub fn holds_text(s: &[char], part: &str) -> (r: bool)
    ensures
        r == occurs(part@, s@),
{
    let p = chars_of(part);
    if p.len() > s.len() {
        return false;
    }
    let last: usize = s.len() - p.len();
    let mut i: usize = 0;
    while i <= last
        invariant
            i <= last + 1,
            p@ == part@,
            last == s.len() - p.len(),
            forall|k: int| 0 <= k < i ==> #[trigger] s@.subrange(k, k + part@.len()) != part@,
        decreases last + 1 - i,
    {
        let window = slice_subrange(s, i, i + p.len());
        if same(window, p.as_slice()) {
            return true;
        }
        if i == last {
            return false;
        }
        i += 1;
    }
    false
}

/// Where the last `::`-separated segment of `s[..end]` begins.
pub open spec fn segment_start(s: Seq<char>, end: int) -> int
    decreases end,
{
    if end < 2 {
        0
    } else if s[end - 2] == ':' && s[end - 1] == ':' {
        end
    } else {
        segment_start(s, end - 1)
    }
}

/// What follows the rightmost `::`; all of `s` where there is none.
pub open spec fn last_segment(s: Seq<char>) -> Seq<char> {
    s.skip(segment_start(s, s.len() as int))
}

/// The segment behind the rightmost `::`.
pub fn tail_segment(s: &[char]) -> (r: &[char])
    ensures
        r@ == last_segment(s@),
{
    let mut end: usize = s.len();
    while end >= 2 && !(s[end - 2] == ':' && s[end - 1] == ':')
        invariant
            end <= s.len(),
            segment_start(s@, s@.len() as int) == segment_start(s@, end as int),
        decreases end,
    {
        end -= 1;
    }
    let start: usize = if end < 2 {
        0
    } else {
        end
    };
    assert(s@.skip(start as int) =~= s@.subrange(start as int, s@.len() as int));
    slice_subrange(s, start, s.len())
}

} // verus!
