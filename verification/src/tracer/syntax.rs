//! Which sources the assembler and the VM take without stopping the process.
//!
//! The assembler divides constants without a test for zero, takes a text for a
//! number where a name stands for one, asserts where an unknown character
//! follows white space, and computes with the number of a procedure's locals in
//! sixteen bits. The VM prints a part of its state at a `debug` instruction, and
//! some of the parts that can be written are empty; and it works on a few
//! operands, such as the depth of a node, without a test of their size. The
//! predicate [`sound_source`] leaves such sources out.

use vstd::prelude::*;

use crate::text::chars_of;
use crate::text::pieces;
use crate::tracer::constants::bounded;
use crate::tracer::constants::constant_views;
use crate::tracer::constants::constants_in;
use crate::tracer::constants::defines;
use crate::tracer::constants::find_meaning;
use crate::tracer::constants::is_definition;
use crate::tracer::constants::literal;
use crate::tracer::constants::meaning_of;
use crate::tracer::constants::number_at;
use crate::tracer::constants::operand_at;
use crate::tracer::constants::read_constants;
use crate::tracer::constants::read_literal;
use crate::tracer::constants::read_number;
use crate::tracer::constants::read_operand;
use crate::tracer::constants::skip_tokens;
use crate::tracer::constants::unclosed;
use crate::tracer::constants::Constant;
use crate::tracer::constants::ConstantView;
use crate::tracer::constants::Meaning;
use crate::tracer::declarations::declared_operand_stack;
use crate::tracer::declarations::parse_operand_stack;
use crate::tracer::operands::do_operands_fit;
use crate::tracer::operands::operands_fit;
use crate::tracer::tokens::at;
use crate::tracer::tokens::begins_hex;
use crate::tracer::tokens::begins_name;
use crate::tracer::tokens::begins_quoted;
use crate::tracer::tokens::is_at;
use crate::tracer::tokens::is_hex;
use crate::tracer::tokens::is_name;
use crate::tracer::tokens::is_operator;
use crate::tracer::tokens::is_part;
use crate::tracer::tokens::is_quoted;
use crate::tracer::tokens::operator_at;
use crate::tracer::tokens::part;
use crate::tracer::tokens::scan;
use crate::tracer::tokens::scanned;
use crate::tracer::tokens::Scan;
use crate::tracer::tokens::Scanned;

verus! {

/// How many bytes a source has at most.
pub const SOURCE_LIMIT: usize = 0xffff_fffe;

/// How many procedures a source defines at most.
pub const PROCEDURE_LIMIT: usize = 0xffff;

/// How many locals a procedure has at most: rounded up to a word, more of them
/// do not fit sixteen bits.
pub const LOCALS_LIMIT: u64 = 65532;

/// The event that looks up a node of a Merkle tree.
pub const NODE_EVENT: u64 = 361943238;

/// The event that divides by the Falcon prime.
pub const FALCON_EVENT: u64 = 3419226155;

/// How many bytes a character takes in UTF-8.
pub open spec fn char_width(c: char) -> nat {
    if c <= '\u{7f}' {
        1
    } else if c <= '\u{7ff}' {
        2
    } else if c <= '\u{ffff}' {
        3
    } else {
        4
    }
}

/// How many bytes a text takes in UTF-8.
pub open spec fn text_width(s: Seq<char>) -> nat
    decreases s.len(),
{
    if s.len() == 0 {
        0
    } else {
        text_width(s.drop_last()) + char_width(s.last())
    }
}

/// The divisor at a place is known and not zero.
pub open spec fn sound_divisor(t: Seq<Seq<char>>, i: int, constants: Seq<ConstantView>) -> bool {
    operand_at(t, i, constants) matches Some((v, _)) && v > 0
}

/// A name is used for what it stands for: a text behind `err=`, else a number.
pub open spec fn sound_name(t: Seq<Seq<char>>, i: int, constants: Seq<ConstantView>) -> bool {
    ||| defines(t, i - 2)
    ||| match meaning_of(constants, t[i]) {
        None => true,
        Some(m) => (m is Text) == (at(t, i - 1) == Some("="@) && at(t, i - 2) == Some("err"@)),
    }
}

/// The `debug` instruction at a place prints at least one item.
pub open spec fn sound_debug(t: Seq<Seq<char>>, i: int, constants: Seq<ConstantView>) -> bool {
    let first = number_at(t, i + 4, constants);
    let last = if at(t, i + 5) == Some("."@) {
        number_at(t, i + 6, constants)
    } else {
        first
    };
    if at(t, i + 2) == Some("stack"@) {
        at(t, i + 3) == Some("."@) ==> (first matches Some(n) && n > 0)
    } else if at(t, i + 2) == Some("mem"@) || at(t, i + 2) == Some("local"@) {
        at(t, i + 3) == Some("."@) && (match (first, last) {
            (Some(a), Some(b)) => a <= b < 0xffff_ffff,
            _ => false,
        })
    } else {
        true
    }
}

/// A procedure is named at the second place behind a place.
pub open spec fn names(t: Seq<Seq<char>>, i: int) -> bool {
    &&& {
        ||| at(t, i) == Some("exec"@)
        ||| at(t, i) == Some("call"@)
        ||| at(t, i) == Some("syscall"@)
        ||| at(t, i) == Some("procref"@)
        ||| at(t, i) == Some("export"@)
    }
    &&& at(t, i + 1) == Some("."@)
}

/// The part of a path at a place may stand there. The procedures that check
/// proofs work on operands that they read from the memory, and one of those
/// that check signatures divides what it finds on the stack. A quoted part
/// could be the name of any of them.
pub open spec fn sound_part(t: Option<Seq<char>>) -> bool {
    &&& t != Some("fri"@)
    &&& t != Some("stark"@)
    &&& t != Some("mod_12289"@)
    &&& !is_quoted(t)
}

/// The event at a place is known, and it is none that works on the stack.
pub open spec fn sound_event(t: Seq<Seq<char>>, i: int, constants: Seq<ConstantView>) -> bool {
    number_at(t, i, constants) matches Some(v) && v != NODE_EVENT && v != FALCON_EVENT
}

/// The call at a place takes the root of a procedure of this source from the
/// memory, where it has just been stored.
pub open spec fn sound_dynamic(t: Seq<Seq<char>>, i: int, constants: Seq<ConstantView>) -> bool {
    &&& at(t, i - 10) == Some("procref"@)
    &&& at(t, i - 9) == Some("."@)
    &&& at(t, i - 7) == Some("mem_storew"@)
    &&& at(t, i - 6) == Some("."@)
    &&& at(t, i - 4) == Some("dropw"@)
    &&& at(t, i - 3) == Some("push"@)
    &&& at(t, i - 2) == Some("."@)
    &&& number_at(t, i - 5, constants) is Some
    &&& number_at(t, i - 5, constants) == number_at(t, i - 1, constants)
}

/// How many locals the procedure has whose head begins at a place.
pub open spec fn locals_at(t: Seq<Seq<char>>, i: int) -> nat {
    if at(t, i + 1) == Some("."@) && at(t, i + 3) == Some("."@) && at(t, i + 4) is Some {
        literal(t[i + 4]).unwrap_or(0)
    } else {
        0
    }
}

/// A procedure begins at a place.
pub open spec fn is_head(t: Seq<Seq<char>>, i: int) -> bool {
    at(t, i) == Some("proc"@) || at(t, i) == Some("export"@)
}

/// How many locals the procedure has in which the first `n` tokens end.
pub open spec fn locals_in(t: Seq<Seq<char>>, n: int) -> nat
    decreases n,
{
    if n <= 0 {
        0
    } else if is_head(t, n - 1) {
        locals_at(t, n - 1)
    } else if at(t, n - 1) == Some("begin"@) {
        0
    } else {
        locals_in(t, n - 1)
    }
}

/// The token at a place stands where it may.
pub open spec fn sound_token(
    t: Seq<Seq<char>>,
    i: int,
    constants: Seq<ConstantView>,
    stack: Seq<u64>,
) -> bool {
    &&& at(t, i) == Some("//"@) ==> sound_divisor(t, i + 1, constants)
    &&& is_quoted(at(t, i)) ==> !is_operator(at(t, unclosed(t, i + 1)))
    &&& is_name(at(t, i)) ==> sound_name(t, i, constants)
    &&& names(t, i) ==> !is_hex(at(t, i + 2))
    &&& at(t, i) == Some("::"@) ==> sound_part(at(t, i + 1))
    &&& at(t, i) == Some("debug"@) && at(t, i + 1) == Some("."@) ==> sound_debug(t, i, constants)
    &&& at(t, i) == Some("emit"@) && at(t, i + 1) == Some("."@) ==> sound_event(
        t,
        i + 2,
        constants,
    )
    &&& (at(t, i) == Some("dynexec"@) || at(t, i) == Some("dyncall"@)) && !is_part(t, i)
        ==> sound_dynamic(t, i, constants)
    &&& is_head(t, i) ==> !(LOCALS_LIMIT < locals_at(t, i) <= 0xffff)
    &&& at(t, i) == Some("loc_loadw"@) || at(t, i) == Some("loc_storew"@) ==> !(0 < locals_in(t, i)
        < 4)
    &&& operands_fit(t, constants, stack, i)
}

/// How many of the first `n` tokens begin a procedure.
pub open spec fn procedures_in(t: Seq<Seq<char>>, n: int) -> nat
    decreases n,
{
    if n <= 0 {
        0
    } else if is_head(t, n - 1) {
        procedures_in(t, n - 1) + 1
    } else {
        procedures_in(t, n - 1)
    }
}

/// No token stands where it may not, and there are not too many procedures.
pub open spec fn sound_tokens(t: Seq<Seq<char>>, stack: Seq<u64>) -> bool {
    &&& procedures_in(t, t.len() as int) <= PROCEDURE_LIMIT
    &&& forall|i: int|
        0 <= i < t.len() ==> #[trigger] sound_token(
            t,
            i,
            constants_in(t, t.len() as int),
            stack,
        )
}

/// A source that the assembler takes or reports an error on, and whose
/// instructions the VM can carry out or report an error on.
pub open spec fn sound_source(source: Seq<char>) -> bool {
    &&& text_width(source) <= SOURCE_LIMIT
    &&& match scanned(source, false) {
        Scan::Broken => false,
        Scan::Rejected => true,
        Scan::Tokens(t) => sound_tokens(t, declared_operand_stack(source)),
    }
}

/// What is said of any other source.
pub open spec fn unsound_words() -> Seq<char> {
    "the source holds a form that the assembler or the VM does not survive"@
}

fn width_fits(s: &[char]) -> (r: bool)
    ensures
        r == (text_width(s@) <= SOURCE_LIMIT),
{
    let mut width: usize = 0;
    let mut i: usize = 0;
    assert(s@.take(0) =~= seq![]);
    while i < s.len()
        invariant
            i <= s.len(),
            width == text_width(s@.take(i as int)),
            width <= SOURCE_LIMIT,
        decreases s.len() - i,
    {
        let c = s[i];
        let n: usize = if c <= '\u{7f}' {
            1
        } else if c <= '\u{7ff}' {
            2
        } else if c <= '\u{ffff}' {
            3
        } else {
            4
        };
        assert(s@.take(i + 1).drop_last() =~= s@.take(i as int));
        assert(text_width(s@.take(i + 1)) == width + n);
        if n > SOURCE_LIMIT - width {
            proof {
                lemma_width_grows(s@, i + 1);
            }
            return false;
        }
        width += n;
        i += 1;
    }
    assert(s@.take(i as int) =~= s@);
    true
}

proof fn lemma_width_grows(s: Seq<char>, n: int)
    requires
        0 <= n <= s.len(),
    ensures
        text_width(s.take(n)) <= text_width(s),
    decreases s.len(),
{
    if n == s.len() {
        assert(s.take(n) =~= s);
    } else {
        assert(s.drop_last().take(n) =~= s.take(n));
        lemma_width_grows(s.drop_last(), n);
    }
}

fn is_sound_name(t: &Vec<&[char]>, i: usize, constants: &Vec<Constant>) -> (r: bool)
    requires
        i < t@.len(),
        bounded(constants@),
    ensures
        r == sound_name(pieces(t@), i as int, constant_views(constants@)),
{
    if i >= 2 && is_definition(t, i - 2) {
        return true;
    }
    let message = i >= 2 && is_at(t, i - 2, 1, "=") && is_at(t, i - 2, 0, "err");
    match find_meaning(constants, t[i]) {
        None => true,
        Some(Meaning::Text) => message,
        Some(Meaning::Number(_)) => !message,
    }
}

fn is_sound_debug(t: &Vec<&[char]>, i: usize, constants: &Vec<Constant>) -> (r: bool)
    requires
        i < t@.len(),
        bounded(constants@),
    ensures
        r == sound_debug(pieces(t@), i as int, constant_views(constants@)),
{
    let first = read_number(t, i, 4, constants);
    let last = if is_at(t, i, 5, ".") {
        read_number(t, i, 6, constants)
    } else {
        first
    };
    if is_at(t, i, 2, "stack") {
        !is_at(t, i, 3, ".") || (match first {
            Some(n) => n > 0,
            None => false,
        })
    } else if is_at(t, i, 2, "mem") || is_at(t, i, 2, "local") {
        is_at(t, i, 3, ".") && (match (first, last) {
            (Some(a), Some(b)) => a <= b && b < 0xffff_ffff,
            _ => false,
        })
    } else {
        true
    }
}

fn is_naming(t: &Vec<&[char]>, i: usize) -> (r: bool)
    requires
        i < t@.len(),
    ensures
        r == names(pieces(t@), i as int),
{
    (is_at(t, i, 0, "exec") || is_at(t, i, 0, "call") || is_at(t, i, 0, "syscall") || is_at(
        t,
        i,
        0,
        "procref",
    ) || is_at(t, i, 0, "export")) && is_at(t, i, 1, ".")
}

/// The token behind `i` may be a part of a path.
fn is_sound_part(t: &Vec<&[char]>, i: usize) -> (r: bool)
    requires
        i < t@.len(),
    ensures
        r == sound_part(at(pieces(t@), i + 1)),
{
    !is_at(t, i, 1, "fri") && !is_at(t, i, 1, "stark") && !is_at(t, i, 1, "mod_12289") && !(t.len()
        - i > 1 && begins_quoted(t[i + 1]))
}

fn is_sound_event(t: &Vec<&[char]>, i: usize, constants: &Vec<Constant>) -> (r: bool)
    requires
        i < t@.len(),
        bounded(constants@),
    ensures
        r == sound_event(pieces(t@), i + 2, constant_views(constants@)),
{
    match read_number(t, i, 2, constants) {
        Some(v) => v != NODE_EVENT && v != FALCON_EVENT,
        None => false,
    }
}

fn is_sound_dynamic(t: &Vec<&[char]>, i: usize, constants: &Vec<Constant>) -> (r: bool)
    requires
        i < t@.len(),
        bounded(constants@),
    ensures
        r == sound_dynamic(pieces(t@), i as int, constant_views(constants@)),
{
    if i < 10 {
        return false;
    }
    let h: usize = i - 10;
    is_at(t, h, 0, "procref") && is_at(t, h, 1, ".") && is_at(t, h, 3, "mem_storew") && is_at(
        t,
        h,
        4,
        ".",
    ) && is_at(t, h, 6, "dropw") && is_at(t, h, 7, "push") && is_at(t, h, 8, ".") && (match (
        read_number(t, h, 5, constants),
        read_number(t, h, 9, constants),
    ) {
        (Some(a), Some(b)) => a == b,
        _ => false,
    })
}

fn read_locals(t: &Vec<&[char]>, i: usize) -> (r: u64)
    requires
        i < t@.len(),
    ensures
        r == locals_at(pieces(t@), i as int),
{
    if is_at(t, i, 1, ".") && is_at(t, i, 3, ".") && t.len() - i > 4 {
        match read_literal(t[i + 4]) {
            Some(n) => n,
            None => 0,
        }
    } else {
        0
    }
}

fn begins_procedure(t: &Vec<&[char]>, i: usize) -> (r: bool)
    requires
        i < t@.len(),
    ensures
        r == is_head(pieces(t@), i as int),
{
    is_at(t, i, 0, "proc") || is_at(t, i, 0, "export")
}

/// The token at `i` stands where it may, in a procedure with so many locals.
fn is_sound_token(
    t: &Vec<&[char]>,
    i: usize,
    constants: &Vec<Constant>,
    stack: &Vec<u64>,
    locals: u64,
) -> (r: bool)
    requires
        i < t.len(),
        bounded(constants@),
        locals == locals_in(pieces(t@), i as int),
    ensures
        r == sound_token(pieces(t@), i as int, constant_views(constants@), stack@),
{
    let divisor = !is_at(t, i, 0, "//") || (match read_operand(t, i + 1, constants) {
        Some((v, _)) => v > 0,
        None => false,
    });
    let quoted = !begins_quoted(t[i]) || !operator_at(t, skip_tokens(t, i + 1, ")"));
    let name = !begins_name(t[i]) || is_sound_name(t, i, constants);
    let target = !is_naming(t, i) || !(t.len() - i > 2 && begins_hex(t[i + 2]));
    let path = !is_at(t, i, 0, "::") || is_sound_part(t, i);
    let debug = !(is_at(t, i, 0, "debug") && is_at(t, i, 1, ".")) || is_sound_debug(
        t,
        i,
        constants,
    );
    let event = !(is_at(t, i, 0, "emit") && is_at(t, i, 1, ".")) || is_sound_event(
        t,
        i,
        constants,
    );
    let dynamic = !(is_at(t, i, 0, "dynexec") || is_at(t, i, 0, "dyncall")) || part(t, i)
        || is_sound_dynamic(t, i, constants);
    let own: u64 = read_locals(t, i);
    let head = !begins_procedure(t, i) || own <= LOCALS_LIMIT || own > 0xffff;
    let word = !(is_at(t, i, 0, "loc_loadw") || is_at(t, i, 0, "loc_storew")) || locals == 0
        || locals >= 4;
    divisor && quoted && name && target && path && debug && event && dynamic && head && word
        && do_operands_fit(t, constants, stack, i)
}

fn are_sound_tokens(t: &Vec<&[char]>, stack: &Vec<u64>) -> (r: bool)
    ensures
        r == sound_tokens(pieces(t@), stack@),
{
    let ghost all = pieces(t@);
    let constants = read_constants(t);
    let ghost cs = constants_in(all, t@.len() as int);
    let mut procedures: usize = 0;
    let mut locals: u64 = 0;
    let mut i: usize = 0;
    while i < t.len()
        invariant
            i <= t.len(),
            all == pieces(t@),
            cs == constants_in(all, t@.len() as int),
            cs == constant_views(constants@),
            bounded(constants@),
            procedures == procedures_in(all, i as int),
            procedures <= i,
            locals == locals_in(all, i as int),
            forall|k: int| 0 <= k < i ==> #[trigger] sound_token(all, k, cs, stack@),
        decreases t.len() - i,
    {
        if !is_sound_token(t, i, &constants, stack, locals) {
            assert(!sound_token(all, i as int, cs, stack@));
            return false;
        }
        if begins_procedure(t, i) {
            procedures += 1;
            locals = read_locals(t, i);
        } else if is_at(t, i, 0, "begin") {
            locals = 0;
        }
        i += 1;
    }
    procedures <= PROCEDURE_LIMIT
}

/// Tells whether a source is one that the assembler and the VM take.
pub fn is_sound_source(source: &str) -> (r: bool)
    ensures
        r == sound_source(source@),
{
    let chars = chars_of(source);
    if !width_fits(chars.as_slice()) {
        return false;
    }
    match scan(chars.as_slice()) {
        Scanned::Broken => false,
        Scanned::Rejected => true,
        Scanned::Tokens(t) => are_sound_tokens(&t, &parse_operand_stack(source)),
    }
}

} // verus!
