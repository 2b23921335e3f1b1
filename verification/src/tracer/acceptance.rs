//! Which sources are taken: how a source falls into tokens, and which of them
//! can keep it from being taken.

use vstd::prelude::*;

use crate::number::decimal;
use crate::number::lemma_numeral_digits;
use crate::number::lemma_numeral_reads_back;
use crate::text::is_space;
use crate::tracer::constants::constants_in;
use crate::tracer::constants::literal;
use crate::tracer::constants::number_at;
use crate::tracer::constants::operand_at;
use crate::tracer::constants::ConstantView;
use crate::tracer::declarations::declared_operand_stack;
use crate::tracer::operands::moved;
use crate::tracer::operands::operands_fit;
use crate::tracer::operands::push_before;
use crate::tracer::operands::step_before;
use crate::tracer::operands::traced;
use crate::tracer::operands::Origin;
use crate::tracer::operands::Step;
use crate::tracer::syntax::char_width;
use crate::tracer::syntax::locals_at;
use crate::tracer::syntax::procedures_in;
use crate::tracer::syntax::sound_source;
use crate::tracer::syntax::sound_token;
use crate::tracer::syntax::sound_tokens;
use crate::tracer::syntax::text_width;
use crate::tracer::tokens::at;
use crate::tracer::tokens::comment_len;
use crate::tracer::tokens::in_row;
use crate::tracer::tokens::instructs;
use crate::tracer::tokens::is_mark;
use crate::tracer::tokens::is_part;
use crate::tracer::tokens::preceded;
use crate::tracer::tokens::row_len;
use crate::tracer::tokens::scanned;
use crate::tracer::tokens::token_len;
use crate::tracer::tokens::Row;
use crate::tracer::tokens::Scan;

verus! {

/// A lower-case word: a letter, then letters, digits and underscores.
pub open spec fn is_word(w: Seq<char>) -> bool {
    &&& w.len() > 0
    &&& 'a' <= w[0] <= 'z'
    &&& forall|i: int|
        0 <= i < w.len() ==> 'a' <= #[trigger] w[i] <= 'z' || 'A' <= w[i] <= 'Z' || '0' <= w[i]
            <= '9' || w[i] == '_'
}

/// A number in radix ten, without a prefix.
pub open spec fn is_decimal(w: Seq<char>) -> bool {
    &&& w.len() > 0
    &&& forall|i: int| 0 <= i < w.len() ==> '0' <= #[trigger] w[i] <= '9'
}

/// The text does not go on with a character of a word.
pub open spec fn breaks_off(s: Seq<char>) -> bool {
    s.len() > 0 ==> !('a' <= s[0] <= 'z' || 'A' <= s[0] <= 'Z' || '0' <= s[0] <= '9' || s[0] == '_')
}

proof fn lemma_row(w: Seq<char>, rest: Seq<char>, row: Row)
    requires
        forall|i: int| 0 <= i < w.len() ==> in_row(#[trigger] w[i], row),
        rest.len() > 0 ==> !in_row(rest[0], row),
    ensures
        row_len(w + rest, row) == w.len(),
    decreases w.len(),
{
    if w.len() == 0 {
        assert(w + rest =~= rest);
    } else {
        assert(in_row(w[0], row));
        let less = w.drop_first();
        assert forall|i: int| 0 <= i < less.len() implies in_row(#[trigger] less[i], row) by {
            assert(in_row(w[i + 1], row));
        }
        lemma_row(less, rest, row);
        assert((w + rest).drop_first() =~= less + rest);
    }
}

/// White space parts tokens and is none itself.
pub proof fn lemma_scan_space(c: char, rest: Seq<char>, spaced: bool)
    requires
        is_space(c),
    ensures
        scanned(seq![c] + rest, spaced) == scanned(rest, true),
        scanned(Seq::empty(), spaced) == Scan::Tokens(Seq::empty()),
{
    let s = seq![c] + rest;
    assert(s.drop_first() =~= rest);
    assert(s[0] == c);
}

/// A word is a token, whatever follows it that is not part of a word.
pub proof fn lemma_scan_word(w: Seq<char>, rest: Seq<char>, spaced: bool)
    requires
        is_word(w),
        breaks_off(rest),
        !(w == "exp"@ && rest.len() > 0 && rest[0] == '.'),
    ensures
        scanned(w + rest, spaced) == preceded(seq![w], scanned(rest, false)),
{
    let s = w + rest;
    assert(s[0] == w[0]);
    assert forall|i: int| 0 <= i < w.len() implies in_row(#[trigger] w[i], Row::Word) by {}
    lemma_row(w, rest, Row::Word);
    assert(!"exp.u"@.is_prefix_of(s)) by {
        reveal_strlit("exp.u");
        reveal_strlit("exp");
        if "exp.u"@.is_prefix_of(s) {
            let p = s.subrange(0, 5);
            assert(p == "exp.u"@);
            assert(p[0] == 'e' && p[1] == 'x' && p[2] == 'p' && p[3] == '.');
            assert(s[0] == 'e' && s[1] == 'x' && s[2] == 'p' && s[3] == '.');
            assert(w.len() == 3) by {
                if w.len() > 3 {
                    assert(w[3] == s[3]);
                }
                if w.len() < 3 {
                    assert(rest[0] == s[w.len() as int]);
                }
            }
            assert(w =~= "exp"@);
            assert(rest[0] == s[3]);
        }
    }
    assert(token_len(s) == w.len());
    assert(s.take(w.len() as int) =~= w);
    assert(s.skip(w.len() as int) =~= rest);
    assert(!is_space(s[0]));
}

/// A number in radix ten is a token.
pub proof fn lemma_scan_decimal(w: Seq<char>, rest: Seq<char>, spaced: bool)
    requires
        is_decimal(w),
        breaks_off(rest),
    ensures
        scanned(w + rest, spaced) == preceded(seq![w], scanned(rest, false)),
{
    let s = w + rest;
    assert(s[0] == w[0]);
    assert('0' <= w[0] <= '9');
    assert forall|i: int| 0 <= i < w.len() implies in_row(#[trigger] w[i], Row::Decimal) by {}
    lemma_row(w, rest, Row::Decimal);
    assert(s.len() > 1 ==> s[1] != 'x' && s[1] != 'b') by {
        if s.len() > 1 {
            if w.len() > 1 {
                assert('0' <= w[1] <= '9');
                assert(s[1] == w[1]);
            } else {
                assert(s[1] == rest[0]);
            }
        }
    }
    assert(token_len(s) == w.len());
    assert(s.take(w.len() as int) =~= w);
    assert(s.skip(w.len() as int) =~= rest);
    assert(!is_space(s[0]));
}

/// A period is a token, and so is each other mark of one character.
pub proof fn lemma_scan_mark(c: char, rest: Seq<char>, spaced: bool)
    requires
        c == '.' || c == '@' || c == '!' || c == ',' || c == '=' || c == '(' || c == ')' || c == '['
            || c == ']' || c == '+' || c == '*',
    ensures
        scanned(seq![c] + rest, spaced) == preceded(seq![seq![c]], scanned(rest, false)),
{
    let s = seq![c] + rest;
    assert(s[0] == c);
    assert(is_mark(c));
    assert(s.take(1) =~= seq![c]);
    assert(s.skip(1) =~= rest);
    assert(!is_space(c));
}

proof fn lemma_comment(text: Seq<char>, rest: Seq<char>)
    requires
        !text.contains('\n'),
        !text.contains('\0'),
    ensures
        comment_len(text.push('\n') + rest) == text.len() + 1,
        comment_len(text) == text.len(),
    decreases text.len(),
{
    let s = text.push('\n') + rest;
    if text.len() > 0 {
        let less = text.drop_first();
        assert(text.contains(text[0]));
        assert forall|i: int| 0 <= i < less.len() implies less[i] != '\n' && less[i] != '\0' by {
            assert(text.contains(text[i + 1]));
        }
        lemma_comment(less, rest);
        assert(s.drop_first() =~= less.push('\n') + rest);
    } else {
        assert(s[0] == '\n');
    }
}

/// A comment has no tokens, up to the end of its line.
pub proof fn lemma_scan_comment(text: Seq<char>, rest: Seq<char>, spaced: bool)
    requires
        !text.contains('\n'),
        !text.contains('\0'),
    ensures
        scanned(seq!['#'] + text.push('\n') + rest, spaced) == scanned(rest, false),
        scanned(seq!['#'] + text, spaced) == Scan::Tokens(Seq::empty()),
{
    let whole = seq!['#'] + text;
    assert forall|i: int| 0 <= i < whole.len() implies whole[i] != '\n' && whole[i] != '\0' by {
        if i > 0 {
            assert(text.contains(text[i - 1]));
        }
    }
    lemma_comment(whole, rest);
    let s = seq!['#'] + text.push('\n') + rest;
    assert(s =~= whole.push('\n') + rest);
    assert(s[0] == '#');
    assert(whole[0] == '#');
    assert(!is_space('#'));
    assert(s.skip(whole.len() as int + 1) =~= rest);
    let none = whole.skip(whole.len() as int);
    assert(none =~= Seq::empty());
    assert(scanned(none, false) == Scan::Tokens(Seq::empty()));
    assert(comment_len(whole) == whole.len());
}

proof fn lemma_width_first(s: Seq<char>)
    requires
        s.len() > 0,
    ensures
        text_width(s) == char_width(s[0]) + text_width(s.drop_first()),
    decreases s.len(),
{
    if s.len() == 1 {
        assert(s.drop_last() =~= s.drop_first());
    } else {
        lemma_width_first(s.drop_last());
        assert(s.drop_last().drop_first() =~= s.drop_first().drop_last());
        assert(s.drop_first().last() == s.last());
    }
}

/// The width of a text is the number of its bytes.
pub proof fn lemma_width(s: Seq<char>)
    ensures
        text_width(s) == vstd::utf8::encode_utf8(s).len(),
    decreases s.len(),
{
    if s.len() > 0 {
        lemma_width_first(s);
        lemma_width(s.drop_first());
        vstd::utf8::char_is_scalar(s[0]);
        vstd::utf8::char_u32_cast(s[0], s[0] as u32);
        assert(vstd::utf8::encode_scalar(s[0] as u32).len() == char_width(s[0]));
    }
}

/// A token that can keep no source from being taken: no quoted text, no name of
/// a constant, no division of constants, no path, and none of the instructions
/// that the assembler or the VM may not survive.
pub open spec fn harmless(token: Seq<char>) -> bool {
    &&& token.len() > 0
    &&& token[0] != '"'
    &&& !('A' <= token[0] <= 'Z')
    &&& !"0x"@.is_prefix_of(token)
    &&& token != "//"@
    &&& token != "::"@
    &&& token != "debug"@
    &&& token != "emit"@
    &&& token != "dynexec"@
    &&& token != "dyncall"@
    &&& token != "loc_loadw"@
    &&& token != "loc_storew"@
    &&& token != "adv"@
    &&& token != "mtree_get"@
    &&& token != "mtree_set"@
    &&& token != "mtree_verify"@
    &&& token != "arithmetic_circuit_eval"@
}

/// A source of harmless tokens is taken, whatever its length up to the limits of
/// the assembler and whatever it declares.
pub proof fn lemma_harmless_taken(source: Seq<char>, t: Seq<Seq<char>>)
    requires
        scanned(source, false) == Scan::Tokens(t),
        vstd::utf8::encode_utf8(source).len() <= 0xffff_fffe,
        forall|i: int| 0 <= i < t.len() ==> harmless(#[trigger] t[i]),
        procedures_in(t, t.len() as int) <= 0xffff,
        forall|i: int|
            0 <= i < t.len() && (t[i] == "proc"@ || t[i] == "export"@) ==> #[trigger] locals_at(t, i)
                <= 65532,
    ensures
        sound_source(source),
{
    lemma_width(source);
    let stack = declared_operand_stack(source);
    let constants = constants_in(t, t.len() as int);
    assert forall|i: int| 0 <= i < t.len() implies #[trigger] sound_token(
        t,
        i,
        constants,
        stack,
    ) by {
        assert(harmless(t[i]));
        assert(at(t, i) == Some(t[i]));
        if i + 2 < t.len() {
            assert(harmless(t[i + 2]));
        }
        if t[i] == "proc"@ || t[i] == "export"@ {
            assert(locals_at(t, i) <= 65532);
        }
    }
    assert(sound_tokens(t, stack));
}

/// What keeps a source from being taken, wherever it stands: a division of
/// constants by zero or by something unknown, a `debug` instruction without an
/// item to print, an unknown event or one that works on the stack, and a path
/// through a procedure that works on what it finds in memory.
pub proof fn lemma_refused(source: Seq<char>, t: Seq<Seq<char>>, i: int)
    requires
        scanned(source, false) == Scan::Tokens(t),
        0 <= i < t.len(),
        ({
            let constants = constants_in(t, t.len() as int);
            ||| t[i] == "//"@ && (operand_at(t, i + 1, constants) matches Some((v, _)) ==> v == 0)
            ||| t[i] == "debug"@ && at(t, i + 1) == Some("."@) && at(t, i + 2) == Some("stack"@)
                && at(t, i + 3) == Some("."@) && number_at(t, i + 4, constants) == Some(0nat)
            ||| t[i] == "emit"@ && at(t, i + 1) == Some("."@) && (number_at(
                t,
                i + 2,
                constants,
            ) is None || number_at(t, i + 2, constants) == Some(361943238nat) || number_at(
                t,
                i + 2,
                constants,
            ) == Some(3419226155nat))
            ||| t[i] == "::"@ && (at(t, i + 1) == Some("fri"@) || at(t, i + 1) == Some("stark"@)
                || at(t, i + 1) == Some("mod_12289"@))
            ||| (t[i] == "proc"@ || t[i] == "export"@) && 65532 < locals_at(t, i) <= 0xffff
        }),
    ensures
        !sound_source(source),
{
    let stack = declared_operand_stack(source);
    let constants = constants_in(t, t.len() as int);
    reveal_strlit("//");
    reveal_strlit("debug");
    reveal_strlit("emit");
    reveal_strlit("::");
    reveal_strlit("proc");
    reveal_strlit("export");
    reveal_strlit("stack");
    assert(at(t, i) == Some(t[i]));
    assert(!sound_token(t, i, constants, stack));
}

/// The stack after an instruction that moves items, by what the instruction
/// does, the top of the stack first.
pub open spec fn stack_after(name: Seq<char>, n: Option<nat>, s: Seq<u64>) -> Seq<u64> {
    if name == "drop"@ {
        s.skip(1)
    } else if name == "dropw"@ {
        s.skip(4)
    } else if name == "dup"@ {
        seq![s[
            if n is Some {
                n->0 as int
            } else {
                0
            }
        ]] + s
    } else if name == "swap"@ {
        let m = if n is Some {
            n->0 as int
        } else {
            1
        };
        s.update(0, s[m]).update(m, s[0])
    } else if name == "movup"@ {
        seq![s[n->0 as int]] + s.remove(n->0 as int)
    } else {
        s.drop_first().insert(n->0 as int, s[0])
    }
}

/// An item of the stack behind an instruction that moves items is the one that
/// it is said to be before it.
pub proof fn lemma_moved(name: Seq<char>, n: Option<nat>, s: Seq<u64>, k: nat)
    requires
        moved(name, n, k) is Some,
        s.len() >= 16,
        n is Some ==> n->0 < 16,
        k < stack_after(name, n, s).len(),
    ensures
        moved(name, n, k)->0 < s.len(),
        stack_after(name, n, s)[k as int] == s[moved(name, n, k)->0 as int],
        ["drop"@, "dropw"@, "dup"@, "swap"@, "movup"@, "movdn"@]@.contains(name),
{
    reveal_strlit("drop");
    reveal_strlit("dropw");
    reveal_strlit("dup");
    reveal_strlit("swap");
    reveal_strlit("movup");
    reveal_strlit("movdn");
    let names = ["drop"@, "dropw"@, "dup"@, "swap"@, "movup"@, "movdn"@]@;
    assert(names[0] == "drop"@ && names[1] == "dropw"@ && names[2] == "dup"@);
    assert(names[3] == "swap"@ && names[4] == "movup"@ && names[5] == "movdn"@);
    assert("drop"@.len() == 4 && "dropw"@.len() == 5 && "dup"@.len() == 3 && "swap"@.len() == 4);
    assert("movup"@.len() == 5 && "movdn"@.len() == 5);
    assert("drop"@[0] == 'd' && "swap"@[0] == 's' && "dropw"@[0] == 'd' && "movup"@[0] == 'm');
    assert("movup"@[3] == 'u' && "movdn"@[3] == 'd' && "movdn"@[0] == 'm');
}

/// A number that is pushed directly before an instruction that works on a node of
/// a Merkle tree is the node's depth: it has to lie between one and 64.
pub proof fn lemma_depth_pushed(
    t: Seq<Seq<char>>,
    constants: Seq<ConstantView>,
    stack: Seq<u64>,
    i: int,
    d: u64,
)
    requires
        3 <= i < t.len(),
        t[i] == "mtree_get"@ || t[i] == "mtree_set"@,
        t[i - 1] == decimal(d as int),
        t[i - 2] == "."@,
        t[i - 3] == "push"@,
        i >= 4 ==> t[i - 4] != "."@ && t[i - 4] != "::"@,
        d < 0xffff_ffff_0000_0001,
    ensures
        operands_fit(t, constants, stack, i) <==> 1 <= d <= 64,
{
    reveal_strlit("mtree_get");
    reveal_strlit("mtree_set");
    reveal_strlit("mtree_verify");
    reveal_strlit("adv");
    reveal_strlit("arithmetic_circuit_eval");
    reveal_strlit(".");
    reveal_strlit("::");
    reveal_strlit("begin");
    reveal_strlit("proc");
    reveal_strlit("push");
    reveal_strlit("0x");
    reveal_strlit("0b");
    let s = decimal(d as int);
    lemma_numeral_reads_back(d as nat, 10, 0xffff_ffff_0000_0000);
    lemma_numeral_digits(d as nat, 10, 0);
    assert('0' <= s[0] <= '9');
    if "0x"@.is_prefix_of(s) {
        assert(s.subrange(0, 2)[1] == 'x');
        lemma_numeral_digits(d as nat, 10, 1);
    }
    if "0b"@.is_prefix_of(s) {
        assert(s.subrange(0, 2)[1] == 'b');
        lemma_numeral_digits(d as nat, 10, 1);
    }
    assert(literal(s) == Some(d as nat));
    assert(number_at(t, i - 1, constants) == Some(d as nat));
    assert("."@[0] == '.' && "::"@[0] == ':' && "begin"@[0] == 'b');
    assert(s != "."@ && s != "::"@ && s != "begin"@);
    assert("proc"@[1] == 'r' && "push"@[1] == 'u');
    assert("proc"@ != "push"@);
    assert(!is_part(t, i - 3));
    assert(instructs(t, i - 3, "push"@));
    assert(push_before(t, constants, i) == Some(i - 3));
    assert(step_before(t, constants, i) == Step::Values(i - 3));
    assert(traced(t, constants, stack, i, 0) == Origin::Known(d as nat));
    assert("mtree_get"@.len() == 9 && "mtree_set"@.len() == 9 && "mtree_verify"@.len() == 12);
    assert("adv"@.len() == 3 && "arithmetic_circuit_eval"@.len() == 23);
    assert(!is_part(t, i));
}

} // verus!
