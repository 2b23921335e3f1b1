//! The tokens that the assembler makes of a source.

use vstd::prelude::*;
use vstd::slice::slice_subrange;

use crate::text::is_space;
use crate::text::is_text;
use crate::text::pieces;
use crate::text::space;
use crate::text::starts_with;

verus! {

/// A kind of character that occurs in rows.
#[derive(Clone, Copy)]
pub enum Row {
    Word,
    Name,
    Lower,
    Decimal,
    Hex,
    Binary,
}

/// `c` is of the given kind.
pub open spec fn in_row(c: char, row: Row) -> bool {
    match row {
        Row::Word => 'a' <= c <= 'z' || 'A' <= c <= 'Z' || '0' <= c <= '9' || c == '_',
        Row::Name => 'A' <= c <= 'Z' || '0' <= c <= '9' || c == '_',
        Row::Lower => 'a' <= c <= 'z' || '0' <= c <= '9' || c == '_',
        Row::Decimal => '0' <= c <= '9',
        Row::Hex => '0' <= c <= '9' || 'a' <= c <= 'f' || 'A' <= c <= 'F',
        Row::Binary => c == '0' || c == '1',
    }
}

/// How many characters of the kind `s` begins with.
pub open spec fn row_len(s: Seq<char>, row: Row) -> nat
    decreases s.len(),
{
    if s.len() == 0 || !in_row(s[0], row) {
        0
    } else {
        1 + row_len(s.drop_first(), row)
    }
}

/// How many characters the rest of a string has, its closing quote counted;
/// `None` where the line ends before that quote.
pub open spec fn quoted_len(s: Seq<char>) -> Option<nat>
    decreases s.len(),
{
    if s.len() == 0 || s[0] == '\0' || s[0] == '\n' {
        None
    } else if s[0] == '"' {
        Some(1)
    } else {
        let n: nat = if s[0] == '\\' && s.len() > 1 && (s[1] == '"' || s[1] == '\n') {
            2
        } else {
            1
        };
        match quoted_len(s.skip(n as int)) {
            Some(m) => Some(n + m),
            None => None,
        }
    }
}

/// How many characters a comment has, its line feed counted.
pub open spec fn comment_len(s: Seq<char>) -> nat
    decreases s.len(),
{
    if s.len() == 0 || s[0] == '\0' {
        0
    } else if s[0] == '\n' {
        1
    } else {
        1 + comment_len(s.drop_first())
    }
}

/// The character behind the first one.
pub open spec fn second(s: Seq<char>) -> char {
    if s.len() > 1 {
        s[1]
    } else {
        '\0'
    }
}

/// A token of one character.
pub open spec fn is_mark(c: char) -> bool {
    ||| c == '@'
    ||| c == '!'
    ||| c == '.'
    ||| c == ','
    ||| c == '='
    ||| c == '('
    ||| c == '['
    ||| c == ')'
    ||| c == ']'
    ||| c == '+'
    ||| c == '*'
}

/// A number with a prefix and no digit behind it.
pub open spec fn is_stub(s: Seq<char>) -> bool {
    &&& s.len() > 0
    &&& s[0] == '0'
    &&& {
        ||| second(s) == 'x' && row_len(s.skip(2), Row::Hex) == 0
        ||| second(s) == 'b' && row_len(s.skip(2), Row::Binary) == 0
    }
}

/// How many characters the token that `s` begins with has; zero where `s`
/// begins with none.
pub open spec fn token_len(s: Seq<char>) -> nat {
    if s.len() == 0 {
        0
    } else if is_mark(s[0]) {
        1
    } else if s[0] == '-' {
        if second(s) == '>' {
            2
        } else {
            1
        }
    } else if s[0] == '/' {
        if second(s) == '/' {
            2
        } else {
            1
        }
    } else if s[0] == ':' {
        if second(s) == ':' {
            2
        } else {
            0
        }
    } else if s[0] == '"' {
        match quoted_len(s.skip(1)) {
            Some(n) => 1 + n,
            None => 0,
        }
    } else if s[0] == '0' && second(s) == 'x' {
        2 + row_len(s.skip(2), Row::Hex)
    } else if s[0] == '0' && second(s) == 'b' {
        2 + row_len(s.skip(2), Row::Binary)
    } else if '0' <= s[0] <= '9' {
        row_len(s, Row::Decimal)
    } else if 'a' <= s[0] <= 'z' {
        if "exp.u"@.is_prefix_of(s) {
            5
        } else {
            row_len(s, Row::Word)
        }
    } else if 'A' <= s[0] <= 'Z' {
        row_len(s, Row::Name)
    } else if s[0] == '_' && second(s) != '_' && in_row(second(s), Row::Word) {
        1 + row_len(s.skip(1), Row::Lower)
    } else {
        0
    }
}

/// What the assembler makes of the characters of a source.
pub enum Scan {
    /// It stops the process.
    Broken,
    /// It reports an error.
    Rejected,
    /// It goes on with these tokens.
    Tokens(Seq<Seq<char>>),
}

/// The scan with tokens before it.
pub open spec fn preceded(done: Seq<Seq<char>>, scan: Scan) -> Scan {
    match scan {
        Scan::Tokens(t) => Scan::Tokens(done + t),
        other => other,
    }
}

/// The scan of `s`, which stands behind white space or not.
pub open spec fn scanned(s: Seq<char>, spaced: bool) -> Scan
    decreases s.len(),
    via scanned_decreases
{
    if s.len() == 0 || s[0] == '\0' {
        Scan::Tokens(seq![])
    } else if is_space(s[0]) {
        scanned(s.drop_first(), true)
    } else if s[0] == '#' {
        scanned(s.skip(comment_len(s) as int), false)
    } else if is_stub(s) {
        Scan::Broken
    } else if token_len(s) == 0 {
        if spaced && s[0] != '"' {
            Scan::Broken
        } else {
            Scan::Rejected
        }
    } else {
        preceded(
            seq![s.take(token_len(s) as int)],
            scanned(s.skip(token_len(s) as int), false),
        )
    }
}

#[via_fn]
proof fn scanned_decreases(s: Seq<char>, spaced: bool) {
    lemma_comment_len(s);
    lemma_token_len(s);
}

/// The token at a place.
pub open spec fn at(t: Seq<Seq<char>>, i: int) -> Option<Seq<char>> {
    if 0 <= i < t.len() {
        Some(t[i])
    } else {
        None
    }
}

/// The name of a constant.
pub open spec fn is_name(t: Option<Seq<char>>) -> bool {
    t matches Some(s) && s.len() > 0 && 'A' <= s[0] <= 'Z'
}

/// A quoted text.
pub open spec fn is_quoted(t: Option<Seq<char>>) -> bool {
    t matches Some(s) && s.len() > 0 && s[0] == '"'
}

/// A number in radix sixteen.
pub open spec fn is_hex(t: Option<Seq<char>>) -> bool {
    t matches Some(s) && "0x"@.is_prefix_of(s)
}

/// An operator of constant expressions.
pub open spec fn is_operator(t: Option<Seq<char>>) -> bool {
    ||| t == Some("+"@)
    ||| t == Some("-"@)
    ||| t == Some("*"@)
    ||| t == Some("/"@)
    ||| t == Some("//"@)
}

/// The token at a place is a part of a path or stands behind a dot, so that it
/// is no instruction.
pub open spec fn is_part(t: Seq<Seq<char>>, i: int) -> bool {
    at(t, i - 1) == Some("."@) || at(t, i - 1) == Some("::"@)
}

/// The instruction of the given name stands at a place.
pub open spec fn instructs(t: Seq<Seq<char>>, i: int, name: Seq<char>) -> bool {
    at(t, i) == Some(name) && !is_part(t, i)
}

proof fn lemma_row_len(s: Seq<char>, row: Row)
    ensures
        row_len(s, row) <= s.len(),
        s.len() > 0 && in_row(s[0], row) ==> row_len(s, row) > 0,
    decreases s.len(),
{
    if s.len() > 0 {
        lemma_row_len(s.drop_first(), row);
    }
}

proof fn lemma_comment_len(s: Seq<char>)
    ensures
        comment_len(s) <= s.len(),
        s.len() > 0 && s[0] == '#' ==> comment_len(s) > 0,
    decreases s.len(),
{
    if s.len() > 0 {
        lemma_comment_len(s.drop_first());
    }
}

proof fn lemma_quoted_len(s: Seq<char>)
    ensures
        quoted_len(s) matches Some(n) ==> n <= s.len(),
    decreases s.len(),
{
    if s.len() > 0 {
        lemma_quoted_len(s.skip(1));
        if s.len() > 1 {
            lemma_quoted_len(s.skip(2));
        }
    }
}

proof fn lemma_token_len(s: Seq<char>)
    ensures
        token_len(s) <= s.len(),
{
    reveal_strlit("exp.u");
    lemma_row_len(s, Row::Decimal);
    lemma_row_len(s, Row::Word);
    lemma_row_len(s, Row::Name);
    if s.len() > 0 {
        lemma_quoted_len(s.skip(1));
        lemma_row_len(s.skip(1), Row::Lower);
        if s.len() > 1 {
            lemma_row_len(s.skip(2), Row::Hex);
            lemma_row_len(s.skip(2), Row::Binary);
        }
    }
}

fn is_in_row(c: char, row: Row) -> (r: bool)
    ensures
        r == in_row(c, row),
{
    let digit = '0' <= c && c <= '9';
    let lower = 'a' <= c && c <= 'z';
    let upper = 'A' <= c && c <= 'Z';
    match row {
        Row::Word => lower || upper || digit || c == '_',
        Row::Name => upper || digit || c == '_',
        Row::Lower => lower || digit || c == '_',
        Row::Decimal => digit,
        Row::Hex => digit || ('a' <= c && c <= 'f') || ('A' <= c && c <= 'F'),
        Row::Binary => c == '0' || c == '1',
    }
}

fn row_from(s: &[char], from: usize, row: Row) -> (n: usize)
    requires
        from <= s@.len(),
    ensures
        n == row_len(s@.skip(from as int), row),
        from + n <= s@.len(),
{
    let mut i: usize = from;
    while i < s.len() && is_in_row(s[i], row)
        invariant
            from <= i <= s.len(),
            row_len(s@.skip(from as int), row) == i - from + row_len(s@.skip(i as int), row),
        decreases s.len() - i,
    {
        assert(s@.skip(i as int).drop_first() =~= s@.skip(i + 1));
        i += 1;
    }
    i - from
}

fn quoted_from(s: &[char], from: usize) -> (n: Option<usize>)
    requires
        from <= s@.len(),
    ensures
        match n {
            Some(n) => quoted_len(s@.skip(from as int)) == Some(n as nat) && from + n <= s@.len(),
            None => quoted_len(s@.skip(from as int)) is None,
        },
{
    let mut i: usize = from;
    while i < s.len() && s[i] != '\0' && s[i] != '\n'
        invariant
            from <= i <= s.len(),
            quoted_len(s@.skip(from as int)) == (match quoted_len(s@.skip(i as int)) {
                Some(m) => Some((i - from + m) as nat),
                None => None,
            }),
        decreases s.len() - i,
    {
        if s[i] == '"' {
            return Some(i - from + 1);
        }
        assert(s@.skip(i as int).skip(1) =~= s@.skip(i + 1));
        if s[i] == '\\' && s.len() - i > 1 && (s[i + 1] == '"' || s[i + 1] == '\n') {
            assert(s@.skip(i as int).skip(2) =~= s@.skip(i + 2));
            i += 2;
        } else {
            i += 1;
        }
    }
    None
}

fn comment_from(s: &[char], from: usize) -> (n: usize)
    requires
        from <= s@.len(),
    ensures
        n == comment_len(s@.skip(from as int)),
        from + n <= s@.len(),
{
    let mut i: usize = from;
    while i < s.len() && s[i] != '\0' && s[i] != '\n'
        invariant
            from <= i <= s.len(),
            comment_len(s@.skip(from as int)) == i - from + comment_len(s@.skip(i as int)),
        decreases s.len() - i,
    {
        assert(s@.skip(i as int).drop_first() =~= s@.skip(i + 1));
        i += 1;
    }
    if i < s.len() && s[i] == '\n' {
        i - from + 1
    } else {
        i - from
    }
}

fn second_of(s: &[char]) -> (c: char)
    ensures
        c == second(s@),
{
    if s.len() > 1 {
        s[1]
    } else {
        '\0'
    }
}

fn mark(c: char) -> (r: bool)
    ensures
        r == is_mark(c),
{
    c == '@' || c == '!' || c == '.' || c == ',' || c == '=' || c == '(' || c == '[' || c == ')'
        || c == ']' || c == '+' || c == '*'
}

fn stub(s: &[char]) -> (r: bool)
    ensures
        r == is_stub(s@),
{
    if s.len() < 2 || s[0] != '0' {
        return false;
    }
    (s[1] == 'x' && row_from(s, 2, Row::Hex) == 0) || (s[1] == 'b' && row_from(s, 2, Row::Binary)
        == 0)
}

fn token_size(s: &[char]) -> (n: usize)
    ensures
        n == token_len(s@),
        n <= s@.len(),
{
    proof {
        lemma_token_len(s@);
    }
    if s.len() == 0 {
        return 0;
    }
    let c = s[0];
    let d = second_of(s);
    assert(s@.skip(0) =~= s@);
    if mark(c) {
        1
    } else if c == '-' {
        if d == '>' {
            2
        } else {
            1
        }
    } else if c == '/' {
        if d == '/' {
            2
        } else {
            1
        }
    } else if c == ':' {
        if d == ':' {
            2
        } else {
            0
        }
    } else if c == '"' {
        match quoted_from(s, 1) {
            Some(n) => 1 + n,
            None => 0,
        }
    } else if c == '0' && d == 'x' {
        2 + row_from(s, 2, Row::Hex)
    } else if c == '0' && d == 'b' {
        2 + row_from(s, 2, Row::Binary)
    } else if '0' <= c && c <= '9' {
        row_from(s, 0, Row::Decimal)
    } else if 'a' <= c && c <= 'z' {
        if starts_with(s, "exp.u") {
            5
        } else {
            row_from(s, 0, Row::Word)
        }
    } else if 'A' <= c && c <= 'Z' {
        row_from(s, 0, Row::Name)
    } else if c == '_' && d != '_' && is_in_row(d, Row::Word) {
        1 + row_from(s, 1, Row::Lower)
    } else {
        0
    }
}

/// The tokens of a source, or which way it has none.
pub(crate) enum Scanned<'a> {
    Broken,
    Rejected,
    Tokens(Vec<&'a [char]>),
}

pub(crate) fn scan<'a>(s: &'a [char]) -> (r: Scanned<'a>)
    ensures
        match r {
            Scanned::Broken => scanned(s@, false) is Broken,
            Scanned::Rejected => scanned(s@, false) is Rejected,
            Scanned::Tokens(t) => scanned(s@, false) == Scan::Tokens(pieces(t@)),
        },
{
    let mut out: Vec<&'a [char]> = Vec::new();
    let mut i: usize = 0;
    let mut spaced: bool = false;
    assert(s@.skip(0) =~= s@);
    assert(preceded(pieces(out@), scanned(s@, false)) == scanned(s@, false)) by {
        if let Scan::Tokens(t) = scanned(s@, false) {
            assert(pieces(out@) + t =~= t);
        }
    }
    while i < s.len() && s[i] != '\0'
        invariant
            i <= s.len(),
            preceded(pieces(out@), scanned(s@.skip(i as int), spaced)) == scanned(s@, false),
        decreases s.len() - i,
    {
        let rest = slice_subrange(s, i, s.len());
        let ghost here = s@.skip(i as int);
        assert(rest@ =~= here);
        proof {
            lemma_comment_len(here);
        }
        if space(s[i]) {
            assert(here.drop_first() =~= s@.skip(i + 1));
            spaced = true;
            i += 1;
        } else if s[i] == '#' {
            let n: usize = comment_from(s, i);
            assert(here.skip(n as int) =~= s@.skip(i + n));
            spaced = false;
            i += n;
        } else if stub(rest) {
            return Scanned::Broken;
        } else {
            let n: usize = token_size(rest);
            if n == 0 {
                if spaced && s[i] != '"' {
                    return Scanned::Broken;
                }
                return Scanned::Rejected;
            }
            let token = slice_subrange(rest, 0, n);
            let ghost done = pieces(out@);
            out.push(token);
            assert(token@ =~= here.take(n as int));
            assert(pieces(out@) =~= done.push(token@));
            assert(here.skip(n as int) =~= s@.skip(i + n));
            assert(preceded(pieces(out@), scanned(s@.skip(i + n), false)) == preceded(
                done,
                scanned(here, spaced),
            )) by {
                if let Scan::Tokens(t) = scanned(s@.skip(i + n), false) {
                    assert(done.push(token@) + t =~= done + (seq![token@] + t));
                }
            }
            spaced = false;
            i += n;
        }
    }
    assert(pieces(out@) + seq![] =~= pieces(out@));
    Scanned::Tokens(out)
}

/// The token `k` places behind `i` is the given one.
pub(crate) fn is_at(t: &Vec<&[char]>, i: usize, k: usize, text: &str) -> (r: bool)
    requires
        i <= t@.len(),
    ensures
        r == (at(pieces(t@), i + k) == Some(text@)),
{
    k < t.len() - i && is_text(t[i + k], text)
}

pub(crate) fn begins_name(s: &[char]) -> (r: bool)
    ensures
        r == is_name(Some(s@)),
{
    s.len() > 0 && 'A' <= s[0] && s[0] <= 'Z'
}

pub(crate) fn begins_quoted(s: &[char]) -> (r: bool)
    ensures
        r == is_quoted(Some(s@)),
{
    s.len() > 0 && s[0] == '"'
}

pub(crate) fn operator_at(t: &Vec<&[char]>, i: usize) -> (r: bool)
    requires
        i <= t@.len(),
    ensures
        r == is_operator(at(pieces(t@), i as int)),
{
    is_at(t, i, 0, "+") || is_at(t, i, 0, "-") || is_at(t, i, 0, "*") || is_at(t, i, 0, "/")
        || is_at(t, i, 0, "//")
}

pub(crate) fn begins_hex(s: &[char]) -> (r: bool)
    ensures
        r == is_hex(Some(s@)),
{
    starts_with(s, "0x")
}

/// The token at `i` is no instruction.
pub(crate) fn part(t: &Vec<&[char]>, i: usize) -> (r: bool)
    requires
        i < t@.len(),
    ensures
        r == is_part(pieces(t@), i as int),
{
    i > 0 && (is_at(t, i - 1, 0, ".") || is_at(t, i - 1, 0, "::"))
}

/// The instruction of the given name stands at `i`.
pub(crate) fn is_instruction(t: &Vec<&[char]>, i: usize, name: &str) -> (r: bool)
    requires
        i < t@.len(),
    ensures
        r == instructs(pieces(t@), i as int, name@),
{
    is_at(t, i, 0, name) && !part(t, i)
}

} // verus!
