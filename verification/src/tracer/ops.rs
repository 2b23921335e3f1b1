//! The assembly instructions that the tracer treats specially.

use vstd::prelude::*;

use crate::number::decimal;
use crate::number::lemma_numeral_reads_back;
use crate::number::parse;
use crate::number::parsed;
use crate::text::chars_of;
use crate::text::is_text;
use crate::text::same_text;
use crate::text::starts_with;
use crate::text::strip_prefix;

verus! {

/// The number behind `prefix` in an instruction.
pub open spec fn parameter(op: Seq<char>, prefix: Seq<char>) -> Option<nat> {
    if prefix.is_prefix_of(op) {
        parsed(op.skip(prefix.len() as int), 10, u32::MAX as nat)
    } else {
        None
    }
}

fn parse_parameter(op: &str, prefix: &str) -> (r: Option<u32>)
    ensures
        match r {
            Some(n) => parameter(op@, prefix@) == Some(n as nat),
            None => parameter(op@, prefix@) is None,
        },
{
    let chars = chars_of(op);
    match strip_prefix(chars.as_slice(), prefix) {
        Some(rest) => match parse(rest, 10, u32::MAX as u64) {
            Some(n) => Some(n as u32),
            None => None,
        },
        None => None,
    }
}

/// The slot that `loc_store.N` writes.
pub open spec fn stored_slot(op: Seq<char>) -> Option<nat> {
    parameter(op, "loc_store."@)
}

/// How many elements `adv_push.N` takes from the advice stack.
pub open spec fn pushed_count(op: Seq<char>) -> Option<nat> {
    parameter(op, "adv_push."@)
}

/// The instruction overwrites the top word from the advice stack.
pub open spec fn loads_advice_word(op: Seq<char>) -> bool {
    op == "adv_loadw"@
}

/// The instruction loads a word from memory.
pub open spec fn loads_word(op: Seq<char>) -> bool {
    ||| op == "mem_loadw"@
    ||| "mem_loadw."@.is_prefix_of(op)
    ||| op == "loc_loadw"@
    ||| "loc_loadw."@.is_prefix_of(op)
}

/// Reads the slot of `loc_store.N`.
pub fn parse_loc_store(op: &str) -> (r: Option<u32>)
    ensures
        match r {
            Some(n) => stored_slot(op@) == Some(n as nat),
            None => stored_slot(op@) is None,
        },
{
    parse_parameter(op, "loc_store.")
}

/// Reads the count of `adv_push.N`.
pub fn parse_adv_push_count(op: &str) -> (r: Option<u32>)
    ensures
        match r {
            Some(n) => pushed_count(op@) == Some(n as nat),
            None => pushed_count(op@) is None,
        },
{
    parse_parameter(op, "adv_push.")
}

/// Tells whether the instruction is `adv_loadw`.
pub fn is_adv_loadw(op: &str) -> (r: bool)
    ensures
        r == loads_advice_word(op@),
{
    same_text(op, "adv_loadw")
}

/// Tells whether the instruction loads a word from memory: `mem_loadw` or
/// `loc_loadw`, with or without an address.
pub fn is_word_load(op: &str) -> (r: bool)
    ensures
        r == loads_word(op@),
{
    let chars = chars_of(op);
    let s = chars.as_slice();
    is_text(s, "mem_loadw") || starts_with(s, "mem_loadw.") || is_text(
        s,
        "loc_loadw",
    ) || starts_with(s, "loc_loadw.")
}

/// The parameter of an instruction is the number that is written behind its
/// name, and an instruction of another name has none.
pub proof fn lemma_parameter(op: Seq<char>, n: nat)
    requires
        n <= u32::MAX,
    ensures
        stored_slot("loc_store."@ + decimal(n as int)) == Some(n),
        pushed_count("adv_push."@ + decimal(n as int)) == Some(n),
        op.take(10) != "loc_store."@ ==> stored_slot(op) is None,
        op.take(9) != "adv_push."@ ==> pushed_count(op) is None,
{
    reveal_strlit("loc_store.");
    reveal_strlit("adv_push.");
    lemma_numeral_reads_back(n, 10, u32::MAX as nat);
    let d = decimal(n as int);
    let store = "loc_store."@ + d;
    let push = "adv_push."@ + d;
    assert("loc_store."@.is_prefix_of(store));
    assert("adv_push."@.is_prefix_of(push));
    assert(store.skip(10) =~= d);
    assert(push.skip(9) =~= d);
    if "loc_store."@.is_prefix_of(op) {
        assert(op.take(10) =~= "loc_store."@);
    }
    if "adv_push."@.is_prefix_of(op) {
        assert(op.take(9) =~= "adv_push."@);
    }
}

/// A word is loaded from memory by the two instructions, with an address behind
/// a period or without one, and by no other.
pub proof fn lemma_word_loads(op: Seq<char>)
    ensures
        loads_word(op) <==> {
            &&& op.len() >= 9
            &&& op.take(9) == "mem_loadw"@ || op.take(9) == "loc_loadw"@
            &&& op.len() > 9 ==> op[9] == '.'
        },
{
    reveal_strlit("mem_loadw");
    reveal_strlit("loc_loadw");
    reveal_strlit("mem_loadw.");
    reveal_strlit("loc_loadw.");
    assert("mem_loadw."@ =~= "mem_loadw"@.push('.'));
    assert("loc_loadw."@ =~= "loc_loadw"@.push('.'));
    assert("mem_loadw"@.len() == 9 && "loc_loadw"@.len() == 9);
    assert("mem_loadw."@.len() == 10 && "loc_loadw."@.len() == 10);
    if op.len() == 9 {
        assert(op.take(9) =~= op);
    } else if op.len() > 9 {
        assert(op.take(10) =~= op.take(9).push(op[9]));
        if "mem_loadw."@.is_prefix_of(op) {
            assert(op.take(10) =~= "mem_loadw."@);
            assert(op.take(10) == "mem_loadw"@.push('.'));
            assert(op.take(10)[9] == '.');
            assert(op.take(9) =~= op.take(10).drop_last());
            assert("mem_loadw"@.push('.').drop_last() =~= "mem_loadw"@);
        }
        if "loc_loadw."@.is_prefix_of(op) {
            assert(op.take(10) =~= "loc_loadw."@);
            assert(op.take(10) == "loc_loadw"@.push('.'));
            assert(op.take(10)[9] == '.');
            assert(op.take(9) =~= op.take(10).drop_last());
            assert("loc_loadw"@.push('.').drop_last() =~= "loc_loadw"@);
        }
        if op[9] == '.' && op.take(9) == "mem_loadw"@ {
            assert("mem_loadw."@.is_prefix_of(op)) by {
                assert(op.subrange(0, 10) =~= op.take(10));
            }
        }
        if op[9] == '.' && op.take(9) == "loc_loadw"@ {
            assert("loc_loadw."@.is_prefix_of(op)) by {
                assert(op.subrange(0, 10) =~= op.take(10));
            }
        }
    }
}

} // verus!
