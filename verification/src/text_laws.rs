//! What the operations on text give: lines, words, trimmed text, segments.

use vstd::prelude::*;

use crate::text::cut;
use crate::text::is_space;
use crate::text::joined;
use crate::text::last_segment;
use crate::text::lemma_cut;
use crate::text::lemma_joined_first;
use crate::text::lines_of;
use crate::text::segment_start;
use crate::text::trimmed;
use crate::text::trimmed_end;
use crate::text::trimmed_start;
use crate::text::word_len;
use crate::text::words_of;

verus! {

/// There is no white space in the text.
pub open spec fn solid(s: Seq<char>) -> bool {
    forall|i: int| 0 <= i < s.len() ==> !is_space(#[trigger] s[i])
}

/// There is nothing but white space in the text.
pub open spec fn blank(s: Seq<char>) -> bool {
    forall|i: int| 0 <= i < s.len() ==> is_space(#[trigger] s[i])
}

/// Blanks, tabs and the line separators are white space. No letter, digit or
/// mark of ASCII is.
pub proof fn lemma_spaces(c: char)
    ensures
        c == ' ' || c == '\t' || c == '\n' || c == '\r' || c == '\u{b}' || c == '\u{c}' ==> is_space(
            c,
        ),
        '!' <= c <= '~' ==> !is_space(c),
        c == '\u{85}' || c == '\u{a0}' || c == '\u{2028}' || c == '\u{2029}' || c == '\u{3000}'
            ==> is_space(c),
{
}

/// The lines of a text give it back when line feeds are put between them, but
/// for a final line feed, and none of them holds a line feed.
pub proof fn lemma_lines(s: Seq<char>)
    ensures
        s.len() == 0 ==> lines_of(s).len() == 0,
        s.len() > 0 ==> lines_of(s).len() > 0,
        s.len() > 0 ==> s == if s.last() == '\n' {
            joined(lines_of(s), '\n').push('\n')
        } else {
            joined(lines_of(s), '\n')
        },
        forall|i: int| 0 <= i < lines_of(s).len() ==> !(#[trigger] lines_of(s)[i]).contains('\n'),
    decreases s.len(),
{
    lemma_cut(s, '\n');
    if s.len() > 0 {
        let n = cut(s, '\n') as int;
        let v = lines_of(s);
        if n >= s.len() {
            assert(v =~= seq![s]);
            assert(s.last() == s[s.len() - 1]);
        } else {
            let rest = s.skip(n + 1);
            lemma_lines(rest);
            assert(v =~= seq![s.take(n)] + lines_of(rest));
            if rest.len() == 0 {
                assert(v =~= seq![s.take(n)]);
                assert(s.last() == s[n]);
                assert(s =~= s.take(n).push('\n'));
            } else {
                lemma_joined_first(s.take(n), lines_of(rest), '\n');
                assert(s.last() == rest.last());
                assert(s =~= s.take(n).push('\n') + rest);
            }
            assert forall|i: int| 0 <= i < v.len() implies !(#[trigger] v[i]).contains('\n') by {
                if i > 0 {
                    assert(v[i] == lines_of(rest)[i - 1]);
                }
            }
        }
    }
}

pub(crate) proof fn lemma_trimmed_start(s: Seq<char>)
    ensures
        trimmed_start(s).len() <= s.len(),
        s.skip(s.len() - trimmed_start(s).len()) == trimmed_start(s),
        blank(s.take(s.len() - trimmed_start(s).len())),
        trimmed_start(s).len() > 0 ==> !is_space(trimmed_start(s)[0]),
    decreases s.len(),
{
    if s.len() > 0 && is_space(s[0]) {
        let t = s.drop_first();
        lemma_trimmed_start(t);
        let n = s.len() - trimmed_start(s).len();
        assert(s.skip(n) =~= t.skip(n - 1));
        assert forall|i: int| 0 <= i < n implies is_space(#[trigger] s.take(n)[i]) by {
            if i > 0 {
                assert(is_space(t.take(n - 1)[i - 1]));
            }
        }
    } else {
        assert(s.skip(0) =~= s);
    }
}

pub(crate) proof fn lemma_trimmed_end(s: Seq<char>)
    ensures
        trimmed_end(s).len() <= s.len(),
        s.take(trimmed_end(s).len() as int) == trimmed_end(s),
        blank(s.skip(trimmed_end(s).len() as int)),
        trimmed_end(s).len() > 0 ==> !is_space(trimmed_end(s).last()),
    decreases s.len(),
{
    if s.len() > 0 && is_space(s.last()) {
        let t = s.drop_last();
        lemma_trimmed_end(t);
        let n = trimmed_end(s).len() as int;
        assert(s.take(n) =~= t.take(n));
        assert forall|i: int| 0 <= i < s.skip(n).len() implies is_space(#[trigger] s.skip(n)[i]) by {
            if i < t.skip(n).len() {
                assert(is_space(t.skip(n)[i]));
            }
        }
    } else {
        assert(s.take(s.len() as int) =~= s);
    }
}

/// Trimming takes away white space at both ends and nothing else, and leaves
/// none there.
pub proof fn lemma_trimmed(s: Seq<char>)
    ensures
        exists|a: Seq<char>, b: Seq<char>|
            blank(a) && blank(b) && #[trigger] (a + trimmed(s) + b) == s,
        trimmed(s).len() > 0 ==> !is_space(trimmed(s)[0]) && !is_space(trimmed(s).last()),
{
    lemma_trimmed_start(s);
    let t = trimmed_start(s);
    lemma_trimmed_end(t);
    let u = trimmed(s);
    let a = s.take(s.len() - t.len());
    let b = t.skip(u.len() as int);
    assert(a + u + b =~= s) by {
        assert(u + b =~= t);
        assert(a + t =~= s);
        assert(a + u + b =~= a + (u + b));
    }
    if u.len() > 0 {
        assert(u[0] == t[0]);
    }
}

pub(crate) proof fn lemma_blank_start(a: Seq<char>, s: Seq<char>)
    requires
        blank(a),
    ensures
        trimmed_start(a + s) == trimmed_start(s),
    decreases a.len(),
{
    if a.len() == 0 {
        assert(a + s =~= s);
    } else {
        assert((a + s).drop_first() =~= a.drop_first() + s);
        assert forall|i: int| 0 <= i < a.drop_first().len() implies is_space(
            #[trigger] a.drop_first()[i],
        ) by {
            assert(is_space(a[i + 1]));
        }
        lemma_blank_start(a.drop_first(), s);
    }
}

pub(crate) proof fn lemma_blank_end(s: Seq<char>, b: Seq<char>)
    requires
        blank(b),
    ensures
        trimmed_end(s + b) == trimmed_end(s),
    decreases b.len(),
{
    if b.len() == 0 {
        assert(s + b =~= s);
    } else {
        assert((s + b).drop_last() =~= s + b.drop_last());
        assert(is_space(b[b.len() - 1]));
        assert forall|i: int| 0 <= i < b.drop_last().len() implies is_space(
            #[trigger] b.drop_last()[i],
        ) by {
            assert(is_space(b[i]));
        }
        lemma_blank_end(s, b.drop_last());
    }
}

/// White space around a text that neither begins nor ends with any is what
/// trimming takes away.
pub proof fn lemma_trims(a: Seq<char>, s: Seq<char>, b: Seq<char>)
    requires
        blank(a),
        blank(b),
        s.len() > 0 ==> !is_space(s[0]) && !is_space(s.last()),
    ensures
        trimmed(a + s + b) == s,
{
    assert(a + s + b =~= a + (s + b));
    lemma_blank_start(a, s + b);
    if s.len() > 0 {
        assert((s + b)[0] == s[0]);
        assert(trimmed_start(s + b) == s + b);
        lemma_blank_end(s, b);
    } else {
        assert(s + b =~= b);
        lemma_blank_start(b, Seq::empty());
        assert(b + Seq::<char>::empty() =~= b);
        assert(trimmed_start(b) =~= s);
    }
}

proof fn lemma_word_len_at(w: Seq<char>, t: Seq<char>)
    requires
        solid(w),
        t.len() > 0 ==> is_space(t[0]),
    ensures
        word_len(w + t) == w.len(),
    decreases w.len(),
{
    if w.len() > 0 {
        assert(!is_space(w[0]));
        assert forall|i: int| 0 <= i < w.drop_first().len() implies !is_space(
            #[trigger] w.drop_first()[i],
        ) by {
            assert(!is_space(w[i + 1]));
        }
        lemma_word_len_at(w.drop_first(), t);
        assert((w + t).drop_first() =~= w.drop_first() + t);
    } else {
        assert(w + t =~= t);
    }
}

proof fn lemma_word_is_solid(s: Seq<char>)
    ensures
        word_len(s) <= s.len(),
        solid(s.take(word_len(s) as int)),
        word_len(s) < s.len() ==> is_space(s[word_len(s) as int]),
    decreases s.len(),
{
    if s.len() > 0 && !is_space(s[0]) {
        let t = s.drop_first();
        lemma_word_is_solid(t);
        let w = s.take(word_len(s) as int);
        assert forall|i: int| 0 <= i < w.len() implies !is_space(#[trigger] w[i]) by {
            if i > 0 {
                assert(!is_space(t.take(word_len(t) as int)[i - 1]));
            }
        }
    }
}

/// A text without white space is one word, and an empty one is none.
pub proof fn lemma_one_word(w: Seq<char>)
    requires
        solid(w),
    ensures
        words_of(w) == if w.len() == 0 {
            Seq::<Seq<char>>::empty()
        } else {
            seq![w]
        },
{
    if w.len() > 0 {
        lemma_word_len_at(w, Seq::empty());
        assert(w + Seq::<char>::empty() =~= w);
        assert(!is_space(w[0]));
        assert(w.take(w.len() as int) =~= w);
        assert(w.skip(w.len() as int) =~= Seq::empty());
        assert(words_of(w.skip(w.len() as int)).len() == 0);
        assert(words_of(w) =~= seq![w]);
    }
}

/// White space between two texts parts their words, and adds none.
pub proof fn lemma_words_joined(a: Seq<char>, c: char, b: Seq<char>)
    requires
        is_space(c),
    ensures
        words_of(a.push(c) + b) == words_of(a) + words_of(b),
    decreases a.len(),
{
    let s = a.push(c) + b;
    if a.len() == 0 {
        assert(s.drop_first() =~= b);
        assert(words_of(a) + words_of(b) =~= words_of(b));
    } else if is_space(a[0]) {
        assert(s.drop_first() =~= a.drop_first().push(c) + b);
        lemma_words_joined(a.drop_first(), c, b);
    } else {
        lemma_word_is_solid(a);
        let n = word_len(a) as int;
        let w = a.take(n);
        let t = s.skip(n);
        assert(s =~= w + t);
        assert(t[0] == if n < a.len() {
            a[n]
        } else {
            c
        });
        lemma_word_len_at(w, t);
        assert(s[0] == a[0]);
        assert(n > 0);
        assert(s.take(n) =~= w);
        assert(t =~= a.skip(n).push(c) + b);
        lemma_words_joined(a.skip(n), c, b);
        assert(words_of(s) =~= words_of(a) + words_of(b));
    }
}

/// The words of a text hold no white space, and none is empty.
pub proof fn lemma_words(s: Seq<char>)
    ensures
        forall|i: int|
            0 <= i < words_of(s).len() ==> (#[trigger] words_of(s)[i]).len() > 0 && solid(
                words_of(s)[i],
            ),
    decreases s.len(),
{
    if s.len() > 0 {
        if is_space(s[0]) {
            lemma_words(s.drop_first());
            assert(words_of(s) == words_of(s.drop_first()));
        } else {
            lemma_word_is_solid(s);
            let n = word_len(s) as int;
            lemma_words(s.skip(n));
            let v = words_of(s);
            assert forall|i: int| 0 <= i < v.len() implies (#[trigger] v[i]).len() > 0 && solid(
                v[i],
            ) by {
                if i > 0 {
                    assert(v[i] == words_of(s.skip(n))[i - 1]);
                } else {
                    assert(v[0] == s.take(n));
                    assert(n > 0);
                }
            }
        }
    } else {
        assert(words_of(s).len() == 0);
    }
}

/// Words with a space between each two are the words of that text.
pub proof fn lemma_words_spaced(v: Seq<Seq<char>>)
    requires
        forall|i: int| 0 <= i < v.len() ==> (#[trigger] v[i]).len() > 0 && solid(v[i]),
    ensures
        words_of(joined(v, ' ')) == v,
    decreases v.len(),
{
    if v.len() == 0 {
        assert(words_of(joined(v, ' ')) =~= v);
    } else if v.len() == 1 {
        assert(v[0].len() > 0 && solid(v[0]));
        lemma_one_word(v[0]);
        assert(v =~= seq![v[0]]);
    } else {
        let less = v.drop_last();
        assert forall|i: int| 0 <= i < less.len() implies (#[trigger] less[i]).len() > 0 && solid(
            less[i],
        ) by {
            assert(v[i].len() > 0 && solid(v[i]));
        }
        lemma_words_spaced(less);
        let last = v[v.len() - 1];
        assert(last.len() > 0 && solid(last));
        lemma_one_word(last);
        lemma_words_joined(joined(less, ' '), ' ', last);
        assert(less + seq![last] =~= v);
    }
}

proof fn lemma_segment(s: Seq<char>, end: int)
    requires
        0 <= end <= s.len(),
    ensures
        ({
            let n = segment_start(s, end);
            &&& 0 <= n <= end
            &&& n > 0 ==> n >= 2 && s[n - 2] == ':' && s[n - 1] == ':'
            &&& forall|i: int| n <= i < end - 1 ==> !(#[trigger] s[i] == ':' && s[i + 1] == ':')
        }),
    decreases end,
{
    if end >= 2 && !(s[end - 2] == ':' && s[end - 1] == ':') {
        lemma_segment(s, end - 1);
    }
}

/// The last segment of a path holds no double colon, and the path is that
/// segment alone or ends with it behind a double colon.
pub proof fn lemma_last_segment(s: Seq<char>)
    ensures
        forall|i: int|
            0 <= i < last_segment(s).len() - 1 ==> !(#[trigger] last_segment(s)[i] == ':'
                && last_segment(s)[i + 1] == ':'),
        last_segment(s) == s || exists|p: Seq<char>|
            s == #[trigger] p.push(':').push(':') + last_segment(s),
{
    lemma_segment(s, s.len() as int);
    let n = segment_start(s, s.len() as int);
    let t = last_segment(s);
    assert forall|i: int| 0 <= i < t.len() - 1 implies !(#[trigger] t[i] == ':' && t[i + 1]
        == ':') by {
        assert(t[i] == s[n + i]);
        assert(t[i + 1] == s[n + i + 1]);
    }
    if n == 0 {
        assert(t =~= s);
    } else {
        let p = s.take(n - 2);
        assert(s =~= p.push(':').push(':') + t);
    }
}

} // verus!
