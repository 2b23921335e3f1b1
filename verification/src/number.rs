//! Numerals: reading and writing integers in radix ten and sixteen.

use vstd::prelude::*;
use vstd::slice::slice_subrange;

use crate::text::string_of;

verus! {

/// The value of a digit, of either case, below `radix`.
pub open spec fn digit(c: char, radix: nat) -> Option<nat> {
    let v = if '0' <= c <= '9' {
        Some((c as int - '0' as int) as nat)
    } else if 'a' <= c <= 'f' {
        Some((c as int - 'a' as int + 10) as nat)
    } else if 'A' <= c <= 'F' {
        Some((c as int - 'A' as int + 10) as nat)
    } else {
        None
    };
    match v {
        Some(d) => if d < radix {
            Some(d)
        } else {
            None
        },
        None => None,
    }
}

/// The value of a row of digits; `None` where another character stands in it.
pub open spec fn digits(s: Seq<char>, radix: nat) -> Option<nat>
    decreases s.len(),
{
    if s.len() == 0 {
        Some(0)
    } else {
        match (digits(s.drop_last(), radix), digit(s.last(), radix)) {
            (Some(v), Some(d)) => Some(v * radix + d),
            _ => None,
        }
    }
}

/// The number that `s` writes: at least one digit, behind at most one `+`,
/// with a value of at most `max`.
pub open spec fn parsed(s: Seq<char>, radix: nat, max: nat) -> Option<nat> {
    let t = if s.len() > 0 && s[0] == '+' {
        s.skip(1)
    } else {
        s
    };
    if t.len() == 0 {
        None
    } else {
        match digits(t, radix) {
            Some(v) => if v <= max {
                Some(v)
            } else {
                None
            },
            None => None,
        }
    }
}

fn digit_of(c: char, radix: u64) -> (r: Option<u64>)
    ensures
        match r {
            Some(d) => digit(c, radix as nat) == Some(d as nat),
            None => digit(c, radix as nat) is None,
        },
{
    let v: u64 = if '0' <= c && c <= '9' {
        (c as u32 - 48) as u64
    } else if 'a' <= c && c <= 'f' {
        (c as u32 - 87) as u64
    } else if 'A' <= c && c <= 'F' {
        (c as u32 - 55) as u64
    } else {
        return None;
    };
    if v < radix {
        Some(v)
    } else {
        None
    }
}

/// Further digits do not make a value smaller.
proof fn lemma_digits_grow(s: Seq<char>, n: int, radix: nat)
    requires
        0 <= n <= s.len(),
        radix >= 1,
        digits(s, radix) is Some,
    ensures
        digits(s.take(n), radix) is Some,
        digits(s.take(n), radix)->0 <= digits(s, radix)->0,
    decreases s.len(),
{
    if n == s.len() {
        assert(s.take(n) =~= s);
    } else {
        lemma_digits_grow(s.drop_last(), n, radix);
        assert(s.drop_last().take(n) =~= s.take(n));
        let v = digits(s.drop_last(), radix)->0;
        assert(v * radix >= v) by (nonlinear_arith)
            requires
                radix >= 1,
        ;
    }
}

/// Reads a number of at most `max`.
pub fn parse(s: &[char], radix: u64, max: u64) -> (r: Option<u64>)
    requires
        1 <= radix <= 16,
    ensures
        match r {
            Some(v) => parsed(s@, radix as nat, max as nat) == Some(v as nat),
            None => parsed(s@, radix as nat, max as nat) is None,
        },
{
    let t = if s.len() > 0 && s[0] == '+' {
        assert(s@.skip(1) =~= s@.subrange(1, s@.len() as int));
        slice_subrange(s, 1, s.len())
    } else {
        s
    };
    if t.len() == 0 {
        return None;
    }
    let mut acc: u64 = 0;
    let mut i: usize = 0;
    assert(t@.take(0) =~= seq![]);
    while i < t.len()
        invariant
            i <= t.len(),
            1 <= radix <= 16,
            acc <= max,
            digits(t@.take(i as int), radix as nat) == Some(acc as nat),
            parsed(s@, radix as nat, max as nat) == (match digits(t@, radix as nat) {
                Some(v) => if v <= max {
                    Some(v)
                } else {
                    None
                },
                None => None,
            }),
        decreases t.len() - i,
    {
        let ghost so_far = t@.take(i + 1);
        assert(so_far.drop_last() =~= t@.take(i as int));
        assert(so_far.last() == t@[i as int]);
        proof {
            if digits(t@, radix as nat) is Some {
                lemma_digits_grow(t@, i + 1, radix as nat);
            }
        }
        match digit_of(t[i], radix) {
            None => {
                return None;
            },
            Some(d) => {
                assert(acc * radix <= u64::MAX * 16) by (nonlinear_arith)
                    requires
                        0 <= acc <= u64::MAX,
                        1 <= radix <= 16,
                ;
                let next: u128 = acc as u128 * radix as u128 + d as u128;
                if next > max as u128 {
                    return None;
                }
                acc = next as u64;
            },
        }
        i += 1;
    }
    assert(t@.take(i as int) =~= t@);
    Some(acc)
}

/// The digit that stands for `d`, in lower case.
pub open spec fn digit_char(d: nat) -> char {
    if d < 10 {
        ('0' as int + d) as char
    } else {
        ('a' as int + d - 10) as char
    }
}

/// The shortest numeral of `n`.
pub open spec fn numeral(n: nat, radix: nat) -> Seq<char>
    decreases n,
    via numeral_decreases
{
    if n < radix || radix < 2 {
        seq![digit_char(n)]
    } else {
        numeral(n / radix, radix).push(digit_char(n % radix))
    }
}

#[via_fn]
proof fn numeral_decreases(n: nat, radix: nat) {
    if n >= radix && radix >= 2 {
        assert(n / radix < n) by (nonlinear_arith)
            requires
                n >= radix >= 2,
        ;
    }
}

/// `n` in radix ten.
pub open spec fn decimal(n: int) -> Seq<char> {
    if n < 0 {
        seq!['-'] + numeral((-n) as nat, 10)
    } else {
        numeral(n as nat, 10)
    }
}

/// `n` in radix sixteen.
pub open spec fn hex(n: nat) -> Seq<char> {
    numeral(n, 16)
}

/// `s` filled up with zeros on the left to at least `width` characters.
pub open spec fn zero_padded(s: Seq<char>, width: nat) -> Seq<char>
    decreases width - s.len(),
{
    if s.len() >= width {
        s
    } else {
        zero_padded(seq!['0'] + s, width)
    }
}

fn char_of_digit(d: u64) -> (c: char)
    requires
        d < 16,
    ensures
        c == digit_char(d as nat),
{
    if d < 10 {
        (48 + d as u8) as char
    } else {
        (87 + d as u8) as char
    }
}

fn numeral_chars(n: u64, radix: u64) -> (r: Vec<char>)
    requires
        2 <= radix <= 16,
    ensures
        r@ == numeral(n as nat, radix as nat),
    decreases n,
{
    if n < radix {
        let mut out: Vec<char> = Vec::new();
        out.push(char_of_digit(n));
        assert(out@ =~= numeral(n as nat, radix as nat));
        out
    } else {
        assert(n / radix < n) by (nonlinear_arith)
            requires
                n >= radix >= 2,
        ;
        assert(n % radix < radix) by (nonlinear_arith)
            requires
                radix >= 2,
        ;
        let mut out = numeral_chars(n / radix, radix);
        out.push(char_of_digit(n % radix));
        out
    }
}

/// Writes `n` in radix ten.
pub fn decimal_text(n: u64) -> (r: String)
    ensures
        r@ == decimal(n as int),
{
    string_of(numeral_chars(n, 10).as_slice())
}

/// Writes `n`, which may be negative, in radix ten.
pub fn signed_text(n: i64) -> (r: String)
    ensures
        r@ == decimal(n as int),
{
    if n < 0 {
        let magnitude: u64 = (-(n as i128)) as u64;
        let mut out = String::new();
        out.push('-');
        let tail = numeral_chars(magnitude, 10);
        let mut i: usize = 0;
        assert(out@ =~= seq!['-'] + tail@.take(0));
        while i < tail.len()
            invariant
                i <= tail.len(),
                out@ == seq!['-'] + tail@.take(i as int),
            decreases tail.len() - i,
        {
            out.push(tail[i]);
            i += 1;
            assert(seq!['-'] + tail@.take(i as int) =~= (seq!['-'] + tail@.take(i - 1)).push(
                tail@[i - 1],
            ));
        }
        assert(tail@.take(i as int) =~= tail@);
        out
    } else {
        decimal_text(n as u64)
    }
}

/// Writes `n` in radix sixteen.
pub fn hex_text(n: u64) -> (r: String)
    ensures
        r@ == hex(n as nat),
{
    string_of(numeral_chars(n, 16).as_slice())
}

fn padded_hex_text(n: u64, width: usize) -> (r: String)
    ensures
        r@ == zero_padded(hex(n as nat), width as nat),
{
    let mut out = numeral_chars(n, 16);
    while out.len() < width
        invariant
            zero_padded(out@, width as nat) == zero_padded(hex(n as nat), width as nat),
        decreases width - out.len(),
    {
        let ghost tail = out@;
        out.insert(0, '0');
        assert(out@ =~= seq!['0'] + tail);
    }
    string_of(out.as_slice())
}

/// Writes `n` in radix sixteen, with sixteen characters.
pub fn wide_hex_text(n: u64) -> (r: String)
    ensures
        r@ == zero_padded(hex(n as nat), 16),
{
    padded_hex_text(n, 16)
}

/// Writes a byte in radix sixteen, with two characters.
pub fn short_hex_text(n: u8) -> (r: String)
    ensures
        r@ == zero_padded(hex(n as nat), 2),
{
    padded_hex_text(n as u64, 2)
}

proof fn lemma_numeral(n: nat, radix: nat)
    requires
        2 <= radix <= 16,
    ensures
        numeral(n, radix).len() > 0,
        digits(numeral(n, radix), radix) == Some(n),
        numeral(n, radix)[0] != '+',
    decreases n,
{
    reveal_with_fuel(digits, 2);
    let s = numeral(n, radix);
    if n < radix {
        assert(s.drop_last() =~= seq![]);
        assert(digits(s.drop_last(), radix) == Some(0nat));
        assert(digit(digit_char(n), radix) == Some(n));
        assert(0nat * radix + n == n) by (nonlinear_arith);
    } else {
        assert(n / radix < n) by (nonlinear_arith)
            requires
                n >= radix >= 2,
        ;
        assert(n % radix < radix && n == (n / radix) * radix + n % radix) by (nonlinear_arith)
            requires
                radix >= 2,
        ;
        lemma_numeral(n / radix, radix);
        assert(s.drop_last() =~= numeral(n / radix, radix));
        assert(digit(digit_char(n % radix), radix) == Some(n % radix));
        assert(s[0] == numeral(n / radix, radix)[0]);
    }
}

/// A written number reads back as itself.
pub proof fn lemma_numeral_reads_back(n: nat, radix: nat, max: nat)
    requires
        2 <= radix <= 16,
        n <= max,
    ensures
        parsed(numeral(n, radix), radix, max) == Some(n),
{
    lemma_numeral(n, radix);
}

proof fn lemma_digits_each(s: Seq<char>, radix: nat, i: int)
    requires
        digits(s, radix) is Some,
        0 <= i < s.len(),
    ensures
        digit(s[i], radix) is Some,
    decreases s.len(),
{
    if i < s.len() - 1 {
        lemma_digits_each(s.drop_last(), radix, i);
    }
}

/// A numeral holds digits alone.
pub(crate) proof fn lemma_numeral_digits(n: nat, radix: nat, i: int)
    requires
        2 <= radix <= 16,
        0 <= i < numeral(n, radix).len(),
    ensures
        digit(numeral(n, radix)[i], radix) is Some,
{
    lemma_numeral(n, radix);
    lemma_digits_each(numeral(n, radix), radix, i);
}

proof fn lemma_leading_zero(s: Seq<char>, radix: nat)
    requires
        digits(s, radix) is Some,
        radix >= 1,
    ensures
        digits(seq!['0'] + s, radix) == digits(s, radix),
    decreases s.len(),
{
    let t = seq!['0'] + s;
    if s.len() == 0 {
        reveal_with_fuel(digits, 2);
        assert(t.drop_last() =~= Seq::empty());
        assert(t.last() == '0');
        assert(digit('0', radix) == Some(0nat));
        assert(0nat * radix + 0 == 0) by (nonlinear_arith);
    } else {
        lemma_leading_zero(s.drop_last(), radix);
        assert(t.drop_last() =~= seq!['0'] + s.drop_last());
        assert(t.last() == s.last());
    }
}

/// Zeros on the left fill a numeral up to the width and leave its value, and
/// leave alone what is as wide already.
pub proof fn lemma_padded(s: Seq<char>, width: nat, radix: nat)
    requires
        digits(s, radix) is Some,
        radix >= 1,
    ensures
        zero_padded(s, width).len() == if s.len() < width {
            width
        } else {
            s.len()
        },
        digits(zero_padded(s, width), radix) == digits(s, radix),
        s.len() >= width ==> zero_padded(s, width) == s,
        s.len() < width ==> zero_padded(s, width)[0] == '0',
    decreases width - s.len(),
{
    if s.len() < width {
        lemma_leading_zero(s, radix);
        let t = seq!['0'] + s;
        lemma_padded(t, width, radix);
        if t.len() >= width {
            assert(zero_padded(s, width) == t);
        }
    }
}

/// A numeral of at most `width` digits is as wide as that once it is filled up,
/// and still reads back.
pub proof fn lemma_padded_reads_back(n: nat, radix: nat, width: nat, max: nat)
    requires
        2 <= radix <= 16,
        n <= max,
    ensures
        parsed(zero_padded(numeral(n, radix), width), radix, max) == Some(n),
        numeral(n, radix).len() <= width ==> zero_padded(numeral(n, radix), width).len() == width,
{
    lemma_numeral(n, radix);
    lemma_padded(numeral(n, radix), width, radix);
}

/// A numeral has as many digits as its number asks for.
pub proof fn lemma_numeral_len(n: nat, radix: nat, k: nat)
    requires
        2 <= radix <= 16,
        k > 0,
        n < vstd::arithmetic::power::pow(radix as int, k),
    ensures
        numeral(n, radix).len() <= k,
    decreases k,
{
    if n >= radix {
        if k == 1 {
            vstd::arithmetic::power::lemma_pow1(radix as int);
        } else {
            let less = (k - 1) as nat;
            vstd::arithmetic::power::lemma_pow_adds(radix as int, 1, less);
            vstd::arithmetic::power::lemma_pow1(radix as int);
            let p = vstd::arithmetic::power::pow(radix as int, less);
            assert(n / radix < p) by (nonlinear_arith)
                requires
                    n < radix * p,
                    radix >= 2,
            ;
            lemma_numeral_len(n / radix, radix, less);
        }
    }
}

/// The letters of a numeral are in lower case.
pub proof fn lemma_lower_case(n: nat, radix: nat, i: int)
    requires
        2 <= radix <= 16,
        0 <= i < numeral(n, radix).len(),
    ensures
        '0' <= numeral(n, radix)[i] <= '9' || 'a' <= numeral(n, radix)[i] <= 'f',
    decreases n,
{
    if n >= radix {
        assert(n / radix < n) by (nonlinear_arith)
            requires
                n >= radix >= 2,
        ;
        assert(n % radix < radix) by (nonlinear_arith)
            requires
                radix >= 2,
        ;
        if i < numeral(n / radix, radix).len() {
            lemma_lower_case(n / radix, radix, i);
        }
    }
}

/// The digits: `0` to `9`, and behind them the letters `a` to `f`, in either
/// case, as far as the radix goes. No other character is one.
pub proof fn lemma_digit(c: char, radix: nat, d: nat)
    requires
        radix <= 16,
    ensures
        digit(c, radix) == Some(d) <==> d < radix && {
            ||| d < 10 && c as int == 48 + d
            ||| d >= 10 && c as int == 87 + d
            ||| d >= 10 && c as int == 55 + d
        },
{
}

/// A number may stand behind one `+`, must not be above the limit, and is none
/// with any other character in it, or without a digit.
pub proof fn lemma_parsed(n: nat, radix: nat, max: nat, s: Seq<char>, i: int)
    requires
        2 <= radix <= 16,
        0 <= i < s.len(),
        digit(s[i], radix) is None,
        i > 0 || s[i] != '+',
    ensures
        n <= max ==> parsed(seq!['+'] + numeral(n, radix), radix, max) == Some(n),
        n > max ==> parsed(numeral(n, radix), radix, max) is None,
        n > max ==> parsed(seq!['+'] + numeral(n, radix), radix, max) is None,
        parsed(s, radix, max) is None,
        parsed(Seq::empty(), radix, max) is None,
        parsed(seq!['+'], radix, max) is None,
{
    lemma_numeral(n, radix);
    let signed = seq!['+'] + numeral(n, radix);
    assert(signed.skip(1) =~= numeral(n, radix));
    let plus = seq!['+'];
    assert(plus.skip(1).len() == 0);
    let t = if s[0] == '+' {
        s.skip(1)
    } else {
        s
    };
    let k = if s[0] == '+' {
        i - 1
    } else {
        i
    };
    assert(t[k] == s[i]);
    if digits(t, radix) is Some {
        lemma_digits_each(t, radix, k);
    }
}

} // verus!
