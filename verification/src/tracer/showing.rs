//! What a trace shows of the VM: the values at each instruction, the words that
//! were loaded and the advice that was read.

use vstd::prelude::*;

use crate::number::decimal;
use crate::number::lemma_numeral_digits;
use crate::number::lemma_numeral_reads_back;
use crate::text::joined;
use crate::text::last_segment;
use crate::text::lemma_split_joined;
use crate::text::split_on;
use crate::tracer::call_graph::proc_locals;
use crate::tracer::laws::context_of;
use crate::tracer::laws::enters;
use crate::tracer::laws::progress;
use crate::tracer::laws::runs_through;
use crate::tracer::model::advice_ops;
use crate::tracer::model::advice_report;
use crate::tracer::model::captured;
use crate::tracer::model::cell;
use crate::tracer::model::entered;
use crate::tracer::model::finished_read;
use crate::tracer::model::ints;
use crate::tracer::model::local_variables;
use crate::tracer::model::locals_of;
use crate::tracer::model::slot_value;
use crate::tracer::model::stack_variables;
use crate::tracer::model::value_list;
use crate::tracer::model::with_slot;
use crate::tracer::model::word_ops;
use crate::tracer::model::EventKind;
use crate::tracer::model::OpView;
use crate::tracer::ops::loads_word;
use crate::tracer::ops::pushed_count;
use crate::tracer::ops::stored_slot;
use crate::tracer::stepping::added;
use crate::tracer::stepping::latest;
use crate::tracer::stepping::lemma_added;
use crate::tracer::stepping::lemma_entered_keeps;
use crate::tracer::stepping::lemma_latest;
use crate::tracer::stepping::lemma_parts;
use crate::tracer::stepping::lemma_still;
use crate::tracer::stepping::line_of;
use crate::tracer::stepping::nothing_between;
use crate::tracer::stepping::op_of;
use crate::tracer::stepping::parts;
use crate::tracer::vm::VmEventView;

verus! {

/// A field element as a trace writes it: the signed number with the same 64
/// bits. No two elements share one.
pub open spec fn signed(v: u64) -> int {
    if v < 0x8000_0000_0000_0000 {
        v as int
    } else {
        v - 0x1_0000_0000_0000_0000
    }
}

pub(crate) proof fn lemma_signed(v: u64)
    ensures
        (v as i64) as int == signed(v),
{
    assert(v < 0x8000_0000_0000_0000u64 ==> (v as i64) >= 0i64 && (v as i64) as u64 == v)
        by (bit_vector);
    assert(v >= 0x8000_0000_0000_0000u64 ==> (v as i64) == v - 0x1_0000_0000_0000_0000)
        by (bit_vector);
}

/// Different elements are written as different numbers, and the number has the
/// element's 64 bits.
pub proof fn lemma_signed_once(a: u64, b: u64)
    ensures
        signed(a) == signed(b) ==> a == b,
        i64::MIN <= signed(a) <= i64::MAX,
        ((signed(a) as i64) as u64) == a,
{
    lemma_signed(a);
    assert((a as i64) as u64 == a) by (bit_vector);
}

/// The stack that an event shows.
pub open spec fn stack_of(event: VmEventView) -> Seq<u64> {
    event->State_0.stack
}

/// Some variable of the operations has the name, and only one, and its value is
/// the element `v`.
pub open spec fn shown_once(ops: Seq<OpView>, name: Seq<char>, v: u64) -> bool {
    &&& exists|k: int| 0 <= k < ops.len() && names(#[trigger] ops[k], name)
    &&& forall|k: int, l: int|
        0 <= k < ops.len() && 0 <= l < ops.len() && names(#[trigger] ops[k], name) && names(
            #[trigger] ops[l],
            name,
        ) ==> k == l
    &&& forall|k: int|
        0 <= k < ops.len() && names(#[trigger] ops[k], name) ==> ops[k]->Variable_value as int
            == signed(v)
}

/// The operation shows a variable of that name.
pub open spec fn names(op: OpView, name: Seq<char>) -> bool {
    op is Variable && op->Variable_name == name
}

/// The name of a stack item.
pub open spec fn stack_name(i: int) -> Seq<char> {
    "stack["@ + decimal(i) + "]"@
}

/// The name of a local slot.
pub open spec fn local_name(n: int) -> Seq<char> {
    "local["@ + decimal(n) + "]"@
}

/// A memory cell has a value: the first cell of that address has it.
pub open spec fn holds(memory: Seq<(u32, u64)>, address: u32, v: u64) -> bool {
    exists|j: int|
        0 <= j < memory.len() && #[trigger] memory[j] == (address, v) && forall|i: int|
            0 <= i < j ==> (#[trigger] memory[i]).0 != address
}

/// The number of local slots that the source declares for a procedure, under
/// its full name or, failing that, its bare one.
pub open spec fn declares(source: Seq<char>, name: Seq<char>, num: u16) -> bool {
    let locals = proc_locals(source).locals;
    ||| locals.contains_key(name) && locals[name] == num
    ||| !locals.contains_key(name) && locals.contains_key(last_segment(name)) && locals[last_segment(
        name,
    )] == num
    ||| !locals.contains_key(name) && !locals.contains_key(last_segment(name)) && num == 0
}

/// An instruction of the current stretch of one procedure, up to the last of
/// the run, wrote the slot.
pub open spec fn written(run: Seq<VmEventView>, name: Seq<char>, n: u32) -> bool {
    exists|i: int|
        0 <= i < run.len() && #[trigger] enters(run[i]) && stored_slot(op_of(run[i])) == Some(
            n as nat,
        ) && stays(run, name, i)
}

/// Every instruction from an event on belongs to the procedure.
pub open spec fn stays(run: Seq<VmEventView>, name: Seq<char>, i: int) -> bool {
    forall|k: int| i <= k < run.len() && #[trigger] enters(run[k]) ==> context_of(run[k]) == name
}

proof fn lemma_decimal_one(a: int, b: int)
    requires
        0 <= a,
        0 <= b,
        decimal(a) == decimal(b),
    ensures
        a == b,
{
    let max = (a + b) as nat;
    lemma_numeral_reads_back(a as nat, 10, max);
    lemma_numeral_reads_back(b as nat, 10, max);
}

proof fn lemma_names_differ(a: int, b: int)
    requires
        0 <= a,
        0 <= b,
    ensures
        stack_name(a) != local_name(b),
        stack_name(a) == stack_name(b) ==> a == b,
        local_name(a) == local_name(b) ==> a == b,
{
    reveal_strlit("stack[");
    reveal_strlit("local[");
    reveal_strlit("]");
    assert(stack_name(a)[0] == 's');
    assert(local_name(b)[0] == 'l');
    if stack_name(a) == stack_name(b) {
        let n = stack_name(a).len() as int;
        assert(stack_name(a).subrange(6, n - 1) =~= decimal(a));
        assert(stack_name(b).subrange(6, n - 1) =~= decimal(b));
        lemma_decimal_one(a, b);
    }
    if local_name(a) == local_name(b) {
        let n = local_name(a).len() as int;
        assert(local_name(a).subrange(6, n - 1) =~= decimal(a));
        assert(local_name(b).subrange(6, n - 1) =~= decimal(b));
        lemma_decimal_one(a, b);
    }
}

proof fn lemma_cell(memory: Seq<(u32, u64)>, address: u32, v: u64)
    ensures
        holds(memory, address, v) <==> cell(memory, address) == Some(v),
    decreases memory.len(),
{
    if memory.len() > 0 {
        let rest = memory.drop_first();
        lemma_cell(rest, address, v);
        if memory[0].0 == address {
            if holds(memory, address, v) {
                let j = choose|j: int|
                    0 <= j < memory.len() && #[trigger] memory[j] == (address, v) && forall|i: int|
                        0 <= i < j ==> (#[trigger] memory[i]).0 != address;
                assert(j == 0);
            }
            if memory[0].1 == v {
                assert(memory[0] == (address, v));
            }
        } else {
            if holds(memory, address, v) {
                let j = choose|j: int|
                    0 <= j < memory.len() && #[trigger] memory[j] == (address, v) && forall|i: int|
                        0 <= i < j ==> (#[trigger] memory[i]).0 != address;
                assert(rest[j - 1] == (address, v));
                assert forall|i: int| 0 <= i < j - 1 implies (#[trigger] rest[i]).0 != address by {
                    assert(rest[i] == memory[i + 1]);
                }
                assert(holds(rest, address, v));
            }
            if holds(rest, address, v) {
                let j = choose|j: int|
                    0 <= j < rest.len() && #[trigger] rest[j] == (address, v) && forall|i: int|
                        0 <= i < j ==> (#[trigger] rest[i]).0 != address;
                assert(memory[j + 1] == (address, v));
                assert forall|i: int| 0 <= i < j + 1 implies (#[trigger] memory[i]).0
                    != address by {
                    if i > 0 {
                        assert(rest[i - 1] == memory[i]);
                    }
                }
            }
        }
    }
}

/// The written slots and the declared number, after a run whose last
/// instruction belongs to `name`.
#[verifier::rlimit(50)]
proof fn lemma_slots(source: Seq<char>, run: Seq<VmEventView>, p: int)
    requires
        runs_through(run),
        0 <= p < run.len(),
        enters(run[p]),
        nothing_between(run, p, run.len() as int),
    ensures
        ({
            let st = progress(source, run).state;
            let name = context_of(run[p]);
            &&& st.context == Some(name)
            &&& st.num_locals == locals_of(source, name)
            &&& st.slots.no_duplicates()
            &&& forall|n: u32| #[trigger] st.slots.contains(n) <==> written(run, name, n)
        }),
    decreases run.len(),
{
    lemma_added(source, run);
    let last = run.len() - 1;
    let shorter = run.drop_last();
    let name = context_of(run[p]);
    let st = progress(source, run).state;
    let before = progress(source, shorter).state;
    if p < last {
        assert(!enters(run[last]));
        lemma_still(source, run);
        assert forall|k: int| p < k < shorter.len() implies !enters(#[trigger] shorter[k]) by {
            assert(!enters(run[k]));
        }
        lemma_slots(source, shorter, p);
        assert forall|n: u32| #[trigger] st.slots.contains(n) <==> written(run, name, n) by {
            lemma_written_still(run, name, n);
            assert(before.slots.contains(n) <==> written(shorter, name, n));
        }
    } else {
        lemma_parts(source, run);
        let step = run.last()->State_0;
        let a = step.asmop->0;
        let line = line_of(source, run.last());
        let taken = captured(before, step.stack, a);
        let q = latest(run, last);
        lemma_latest(run, last);
        let here = entered(source, taken, name, line, step.stack).state;
        assert(st.slots == with_slot(here.slots, a.op));
        if q >= 0 {
            assert forall|k: int| q < k < shorter.len() implies !enters(#[trigger] shorter[k]) by {
                assert(!enters(run[k]));
            }
            lemma_slots(source, shorter, q);
        } else {
            lemma_no_context(source, shorter, run);
        }
        assert forall|n: u32| #[trigger] st.slots.contains(n) <==> written(run, name, n) by {
            lemma_written_next(run, name, n, q);
            if q >= 0 && context_of(run[q]) == name {
                assert(here == taken);
                assert(before.slots.contains(n) <==> written(shorter, name, n));
            } else {
                assert(here.slots == Seq::<u32>::empty());
            }
            lemma_with_slot(here.slots, a.op, n);
        }
        lemma_with_slot(here.slots, a.op, 0);
    }
}

proof fn lemma_with_slot(slots: Seq<u32>, op: Seq<char>, n: u32)
    requires
        slots.no_duplicates(),
    ensures
        with_slot(slots, op).no_duplicates(),
        with_slot(slots, op).contains(n) <==> slots.contains(n) || stored_slot(op) == Some(n as nat),
{
    if let Some(m) = stored_slot(op) {
        assert(m <= u32::MAX);
        let new = with_slot(slots, op);
        if !slots.contains(m as u32) {
            assert(new == slots.push(m as u32));
            assert(new[slots.len() as int] == m as u32);
            assert forall|i: int| 0 <= i < slots.len() implies new.contains(#[trigger] slots[i]) by {
                assert(new[i] == slots[i]);
            }
        }
    }
}

proof fn lemma_no_context(source: Seq<char>, run: Seq<VmEventView>, whole: Seq<VmEventView>)
    requires
        runs_through(run),
        whole.len() == run.len() + 1,
        run == whole.drop_last(),
        nothing_between(whole, -1, run.len() as int),
    ensures
        progress(source, run).state.context is None,
        progress(source, run).state.slots == Seq::<u32>::empty(),
    decreases run.len(),
{
    if run.len() > 0 {
        lemma_added(source, run);
        assert(run.last() == whole[run.len() - 1]);
        lemma_still(source, run);
        assert forall|k: int| -1 < k < run.len() - 1 implies !enters(#[trigger] run[k]) by {
            assert(!enters(whole[k]));
        }
        lemma_no_context(source, run.drop_last(), run);
    }
}

proof fn lemma_written_still(run: Seq<VmEventView>, name: Seq<char>, n: u32)
    requires
        run.len() > 0,
        !enters(run.last()),
    ensures
        written(run, name, n) <==> written(run.drop_last(), name, n),
{
    let shorter = run.drop_last();
    if written(run, name, n) {
        let i = choose|i: int|
            0 <= i < run.len() && #[trigger] enters(run[i]) && stored_slot(op_of(run[i])) == Some(
                n as nat,
            ) && stays(run, name, i);
        assert(enters(shorter[i]));
        assert forall|k: int| i <= k < shorter.len() && #[trigger] enters(
            shorter[k],
        ) implies context_of(shorter[k]) == name by {
            assert(enters(run[k]));
        }
        assert(stays(shorter, name, i));
    }
    if written(shorter, name, n) {
        let i = choose|i: int|
            0 <= i < shorter.len() && #[trigger] enters(shorter[i]) && stored_slot(op_of(shorter[i]))
                == Some(n as nat) && stays(shorter, name, i);
        assert(enters(run[i]));
        assert forall|k: int| i <= k < run.len() && #[trigger] enters(run[k]) implies context_of(
            run[k],
        ) == name by {
            assert(k < shorter.len());
            assert(enters(shorter[k]));
        }
        assert(stays(run, name, i));
    }
}

proof fn lemma_written_next(run: Seq<VmEventView>, name: Seq<char>, n: u32, q: int)
    requires
        run.len() > 0,
        enters(run.last()),
        context_of(run.last()) == name,
        -1 <= q < run.len() - 1,
        q >= 0 ==> enters(run[q]),
        nothing_between(run, q, run.len() - 1),
    ensures
        written(run, name, n) <==> {
            ||| stored_slot(op_of(run.last())) == Some(n as nat)
            ||| q >= 0 && context_of(run[q]) == name && written(run.drop_last(), name, n)
        },
{
    let shorter = run.drop_last();
    let last = run.len() - 1;
    if written(run, name, n) {
        let i = choose|i: int|
            0 <= i < run.len() && #[trigger] enters(run[i]) && stored_slot(op_of(run[i])) == Some(
                n as nat,
            ) && stays(run, name, i);
        if i < last {
            assert(i <= q) by {
                if i > q {
                    assert(!enters(run[i]));
                }
            }
            assert(enters(run[q]));
            assert(context_of(run[q]) == name);
            assert(enters(shorter[i]));
            assert forall|k: int| i <= k < shorter.len() && #[trigger] enters(
                shorter[k],
            ) implies context_of(shorter[k]) == name by {
                assert(enters(run[k]));
            }
            assert(stays(shorter, name, i));
        }
    }
    if stored_slot(op_of(run.last())) == Some(n as nat) {
        assert(enters(run[last]));
        assert(stays(run, name, last));
    }
    if q >= 0 && context_of(run[q]) == name && written(shorter, name, n) {
        let i = choose|i: int|
            0 <= i < shorter.len() && #[trigger] enters(shorter[i]) && stored_slot(op_of(shorter[i]))
                == Some(n as nat) && stays(shorter, name, i);
        assert(enters(run[i]));
        assert forall|k: int| i <= k < run.len() && #[trigger] enters(run[k]) implies context_of(
            run[k],
        ) == name by {
            if k < last {
                assert(enters(shorter[k]));
            }
        }
        assert(stays(run, name, i));
    }
}

/// Where the parts of the values begin among what an instruction adds.
pub(crate) struct Places {
    pub stack: int,
    pub word: int,
    pub advice: int,
    pub locals: int,
}

pub(crate) open spec fn places(source: Seq<char>, run: Seq<VmEventView>) -> Places {
    let p = parts(source, run);
    let stack = (p.entry.ops.len() + p.stop.ops.len()) as int;
    let word = stack + stack_variables(stack_of(run.last())).len();
    let advice = word + word_ops(p.stop.state.word).len();
    let locals = advice + advice_ops(p.stop.state.advice).len();
    Places { stack, word, advice, locals }
}

/// The local variables that an instruction shows.
pub(crate) open spec fn locals_shown(source: Seq<char>, run: Seq<VmEventView>) -> Seq<OpView> {
    let p = parts(source, run);
    let step = run.last()->State_0;
    local_variables(
        with_slot(p.stop.state.slots, op_of(run.last())),
        p.stop.state.num_locals,
        step.fmp,
        step.memory,
    )
}

#[verifier::rlimit(50)]
pub(crate) proof fn lemma_places(source: Seq<char>, run: Seq<VmEventView>)
    requires
        runs_through(run),
        run.len() > 0,
        enters(run.last()),
    ensures
        ({
            let p = parts(source, run);
            let at = places(source, run);
            let all = added(source, run);
            let locals = locals_shown(source, run);
            let stack = stack_variables(stack_of(run.last()));
            let word = word_ops(p.stop.state.word);
            let advice = advice_ops(p.stop.state.advice);
            &&& all.len() == at.locals + locals.len()
            &&& 0 <= at.stack <= at.word <= at.advice <= at.locals
            &&& forall|k: int|
                0 <= k < at.stack ==> !((#[trigger] all[k]) is Variable || all[k] is Word
                    || all[k] is Event)
            &&& forall|k: int| at.stack <= k < at.word ==> #[trigger] all[k] == stack[k - at.stack]
            &&& forall|k: int| at.word <= k < at.advice ==> #[trigger] all[k] == word[k - at.word]
            &&& forall|k: int|
                at.advice <= k < at.locals ==> #[trigger] all[k] == advice[k - at.advice]
            &&& forall|k: int|
                at.locals <= k < all.len() ==> #[trigger] all[k] == locals[k - at.locals]
        }),
{
    lemma_parts(source, run);
    let p = parts(source, run);
    let at = places(source, run);
    let all = added(source, run);
    let locals = locals_shown(source, run);
    let stack = stack_variables(stack_of(run.last()));
    let word = word_ops(p.stop.state.word);
    let advice = advice_ops(p.stop.state.advice);
    assert(p.values.ops == stack + word + advice + locals);
    assert(all == p.entry.ops + p.stop.ops + (stack + word + advice + locals));
    crate::tracer::stepping::lemma_early_ranks(source, run);
}

/// The instruction shows each of the four topmost stack items, as far as there
/// are so many, under its number from the top, once.
#[verifier::rlimit(50)]
pub proof fn lemma_stack_shown(source: Seq<char>, run: Seq<VmEventView>, i: int)
    requires
        runs_through(run),
        run.len() > 0,
        enters(run.last()),
        0 <= i < 4,
        i < stack_of(run.last()).len(),
    ensures
        shown_once(added(source, run), stack_name(i), stack_of(run.last())[i]),
{
    lemma_places(source, run);
    let at = places(source, run);
    let all = added(source, run);
    let stack = stack_of(run.last());
    lemma_signed(stack[i]);
    assert(names(all[at.stack + i], stack_name(i)));
    assert forall|k: int| 0 <= k < all.len() && names(#[trigger] all[k], stack_name(i)) implies k
        == at.stack + i by {
        lemma_variable_place(source, run, k);
        if k < at.word {
            lemma_names_differ(k - at.stack, i);
        } else {
            let n = choose|n: u32| names(all[k], #[trigger] local_name(n as int));
            lemma_names_differ(i, n as int);
        }
    }
}

/// A variable of an instruction stands among the stack items or among the local
/// slots.
proof fn lemma_variable_place(source: Seq<char>, run: Seq<VmEventView>, k: int)
    requires
        runs_through(run),
        run.len() > 0,
        enters(run.last()),
        0 <= k < added(source, run).len(),
        added(source, run)[k] is Variable,
    ensures
        ({
            let at = places(source, run);
            let all = added(source, run);
            ||| at.stack <= k < at.word && names(all[k], stack_name(k - at.stack))
            ||| at.locals <= k && exists|n: u32| names(all[k], #[trigger] local_name(n as int))
        }),
{
    lemma_places(source, run);
    let at = places(source, run);
    let all = added(source, run);
    if k >= at.locals {
        let p = parts(source, run);
        let step = run.last()->State_0;
        let slots = with_slot(p.stop.state.slots, op_of(run.last()));
        lemma_locals(slots, p.stop.state.num_locals, step.fmp, step.memory, k - at.locals);
    }
}

/// Each local variable is that of one of the slots.
proof fn lemma_locals(slots: Seq<u32>, num: u16, fmp: u64, memory: Seq<(u32, u64)>, k: int)
    requires
        0 <= k < local_variables(slots, num, fmp, memory).len(),
    ensures
        num > 0,
        exists|n: u32|
            {
                &&& slots.contains(n)
                &&& names(local_variables(slots, num, fmp, memory)[k], #[trigger] local_name(n as int))
                &&& slot_value(num, fmp, memory, n) is Some
                &&& local_variables(slots, num, fmp, memory)[k]->Variable_value as int == signed(
                    slot_value(num, fmp, memory, n)->0,
                )
            },
    decreases slots.len(),
{
    let all = local_variables(slots, num, fmp, memory);
    let earlier = local_variables(slots.drop_last(), num, fmp, memory);
    if k < earlier.len() {
        lemma_locals(slots.drop_last(), num, fmp, memory, k);
        let n = choose|n: u32|
            {
                &&& slots.drop_last().contains(n)
                &&& names(earlier[k], #[trigger] local_name(n as int))
                &&& slot_value(num, fmp, memory, n) is Some
                &&& earlier[k]->Variable_value as int == signed(slot_value(num, fmp, memory, n)->0)
            };
        let i = slots.drop_last().index_of(n);
        assert(slots[i] == n);
        assert(names(all[k], local_name(n as int)));
    } else {
        let n = slots.last();
        lemma_signed(slot_value(num, fmp, memory, n)->0);
        assert(slots[slots.len() - 1] == n);
        assert(names(all[k], local_name(n as int)));
    }
}

/// Each slot with a value has one variable.
proof fn lemma_slot_place(slots: Seq<u32>, num: u16, fmp: u64, memory: Seq<(u32, u64)>, n: u32)
    requires
        slots.no_duplicates(),
        slots.contains(n),
        num > 0,
        slot_value(num, fmp, memory, n) is Some,
    ensures
        shown_once(
            local_variables(slots, num, fmp, memory),
            local_name(n as int),
            slot_value(num, fmp, memory, n)->0,
        ),
    decreases slots.len(),
{
    let all = local_variables(slots, num, fmp, memory);
    let fewer = slots.drop_last();
    let earlier = local_variables(fewer, num, fmp, memory);
    let v = slot_value(num, fmp, memory, n)->0;
    lemma_signed(v);
    if slots.last() == n {
        assert(names(all[all.len() - 1], local_name(n as int)));
        assert forall|k: int| 0 <= k < all.len() && names(
            #[trigger] all[k],
            local_name(n as int),
        ) implies k == all.len() - 1 by {
            if k < earlier.len() {
                lemma_locals(fewer, num, fmp, memory, k);
                let m = choose|m: u32|
                    {
                        &&& fewer.contains(m)
                        &&& names(earlier[k], #[trigger] local_name(m as int))
                        &&& slot_value(num, fmp, memory, m) is Some
                        &&& earlier[k]->Variable_value as int == signed(
                            slot_value(num, fmp, memory, m)->0,
                        )
                    };
                lemma_names_differ(m as int, n as int);
                let i = fewer.index_of(m);
                assert(slots[i] == slots[slots.len() - 1]);
            }
        }
    } else {
        let i = slots.index_of(n);
        assert(fewer[i] == n);
        lemma_slot_place(fewer, num, fmp, memory, n);
        let k0 = choose|k: int| 0 <= k < earlier.len() && names(
            #[trigger] earlier[k],
            local_name(n as int),
        );
        assert(names(all[k0], local_name(n as int)));
        assert forall|k: int| 0 <= k < all.len() && names(
            #[trigger] all[k],
            local_name(n as int),
        ) implies k < earlier.len() && names(earlier[k], local_name(n as int)) by {
            if k >= earlier.len() {
                lemma_names_differ(slots.last() as int, n as int);
            }
        }
    }
}

/// A slot that the procedure has written in its current stretch is shown, once,
/// with the value of the memory cell that lies as far below the frame pointer
/// as the slot lies below the declared number of slots. So two states whose
/// cells differ show different values.
#[verifier::rlimit(50)]
pub proof fn lemma_local_shown(
    source: Seq<char>,
    run: Seq<VmEventView>,
    n: u32,
    num: u16,
    v: u64,
)
    requires
        runs_through(run),
        run.len() > 0,
        enters(run.last()),
        declares(source, context_of(run.last()), num),
        written(run, context_of(run.last()), n),
        n <= num,
        num > 0,
        run.last()->State_0.fmp >= num - n,
        holds(
            run.last()->State_0.memory,
            (run.last()->State_0.fmp - (num - n)) as u32,
            v,
        ),
    ensures
        shown_once(added(source, run), local_name(n as int), v),
{
    lemma_places(source, run);
    let at = places(source, run);
    let all = added(source, run);
    let step = run.last()->State_0;
    let locals = locals_shown(source, run);
    lemma_slots_now(source, run);
    let p = parts(source, run);
    let slots = with_slot(p.stop.state.slots, op_of(run.last()));
    lemma_cell(step.memory, (step.fmp - (num - n)) as u32, v);
    assert(slots.contains(n));
    lemma_slot_place(slots, num, step.fmp, step.memory, n);
    let name = local_name(n as int);
    let k0 = choose|k: int| 0 <= k < locals.len() && names(#[trigger] locals[k], name);
    assert(names(all[at.locals + k0], name));
    assert forall|k: int| 0 <= k < all.len() && names(#[trigger] all[k], name) implies k
        >= at.locals && names(locals[k - at.locals], name) by {
        lemma_variable_place(source, run, k);
        if k < at.word {
            lemma_names_differ(k - at.stack, n as int);
        }
    }
}

/// The slots that an instruction shows.
proof fn lemma_slots_now(source: Seq<char>, run: Seq<VmEventView>)
    requires
        runs_through(run),
        run.len() > 0,
        enters(run.last()),
    ensures
        ({
            let p = parts(source, run);
            let name = context_of(run.last());
            let slots = with_slot(p.stop.state.slots, op_of(run.last()));
            &&& declares(source, name, p.stop.state.num_locals)
            &&& slots.no_duplicates()
            &&& forall|n: u32| #[trigger] slots.contains(n) <==> written(run, name, n)
        }),
{
    lemma_parts(source, run);
    lemma_slots(source, run, run.len() - 1);
}

/// A variable that an instruction shows is one of the four topmost stack items,
/// or a slot that the procedure has written in its current stretch, with the
/// value of the slot's memory cell. Nothing else is shown.
#[verifier::rlimit(50)]
pub proof fn lemma_variable_known(source: Seq<char>, run: Seq<VmEventView>, k: int, num: u16)
    requires
        runs_through(run),
        run.len() > 0,
        enters(run.last()),
        declares(source, context_of(run.last()), num),
        0 <= k < added(source, run).len(),
        added(source, run)[k] is Variable,
    ensures
        ({
            let op = added(source, run)[k];
            let step = run.last()->State_0;
            ||| exists|i: int|
                0 <= i < 4 && i < step.stack.len() && names(op, #[trigger] stack_name(i))
            ||| exists|n: u32, v: u64|
                {
                    &&& names(op, #[trigger] local_name(n as int))
                    &&& op->Variable_value as int == signed(v)
                    &&& written(run, context_of(run.last()), n)
                    &&& n <= num && num > 0 && step.fmp >= num - n
                    &&& #[trigger] holds(step.memory, (step.fmp - (num - n)) as u32, v)
                }
        }),
{
    lemma_places(source, run);
    lemma_variable_place(source, run, k);
    lemma_slots_now(source, run);
    let at = places(source, run);
    let op = added(source, run)[k];
    let step = run.last()->State_0;
    if k < at.word {
        let i = k - at.stack;
        assert(names(op, stack_name(i)));
    } else {
        let p = parts(source, run);
        let slots = with_slot(p.stop.state.slots, op_of(run.last()));
        lemma_locals(slots, num, step.fmp, step.memory, k - at.locals);
        let all = local_variables(slots, num, step.fmp, step.memory);
        let n = choose|n: u32|
            {
                &&& slots.contains(n)
                &&& names(all[k - at.locals], #[trigger] local_name(n as int))
                &&& slot_value(num, step.fmp, step.memory, n) is Some
                &&& all[k - at.locals]->Variable_value as int == signed(
                    slot_value(num, step.fmp, step.memory, n)->0,
                )
            };
        let v = slot_value(num, step.fmp, step.memory, n)->0;
        lemma_cell(step.memory, (step.fmp - (num - n)) as u32, v);
        assert(names(op, local_name(n as int)));
        assert(holds(step.memory, (step.fmp - (num - n)) as u32, v));
    }
}

/// The event is the last cycle of an instruction.
pub open spec fn finishes(event: VmEventView) -> bool {
    &&& event is State
    &&& event->State_0.asmop is Some
    &&& event->State_0.asmop->0.cycle_idx == event->State_0.asmop->0.num_cycles
}

/// An instruction has loaded a word, which is on the stack.
pub open spec fn loads(event: VmEventView) -> bool {
    finishes(event) && loads_word(op_of(event)) && stack_of(event).len() >= 4
}

/// An instruction has moved `n` elements from the advice stack to the operand
/// stack, where they are.
pub open spec fn reads(event: VmEventView, kind: Seq<char>, n: int) -> bool {
    &&& finishes(event)
    &&& 0 <= n <= stack_of(event).len()
    &&& {
        ||| kind == "adv_push"@ && pushed_count(op_of(event)) == Some(n as nat)
        ||| kind == "adv_loadw"@ && op_of(event) == "adv_loadw"@ && n == 4
    }
}

/// Some advice was read.
pub open spec fn reads_any(event: VmEventView) -> bool {
    exists|kind: Seq<char>, n: int| reads(event, kind, n)
}

/// The elements of a word, in the order of the stack.
pub open spec fn top_word(elements: Seq<i64>, stack: Seq<u64>) -> bool {
    &&& elements.len() == 4
    &&& stack.len() >= 4
    &&& forall|m: int| 0 <= m < 4 ==> (#[trigger] elements[m]) as int == signed(stack[m])
}

/// The text lists the `n` topmost items of the stack: between its commas stand
/// their numerals, from the top, each but the first behind a space.
pub open spec fn lists(text: Seq<char>, stack: Seq<u64>, n: int) -> bool {
    &&& 0 <= n <= stack.len()
    &&& n == 0 ==> text.len() == 0
    &&& n > 0 ==> split_on(text, ',').len() == n && forall|m: int|
        0 <= m < n ==> #[trigger] split_on(text, ',')[m] == if m == 0 {
            decimal(signed(stack[0]))
        } else {
            seq![' '] + decimal(signed(stack[m]))
        }
}

/// The report of an advice read names its kind, the number of elements, and
/// each element.
pub open spec fn reports(content: Seq<char>, kind: Seq<char>, stack: Seq<u64>, n: int) -> bool {
    exists|text: Seq<char>|
        {
            &&& #[trigger] lists(text, stack, n)
            &&& content == "advice_read kind="@ + kind + " count="@ + decimal(n) + " values=["@
                + text + "]"@
        }
}

proof fn lemma_no_comma(v: int)
    ensures
        !decimal(v).contains(','),
{
    let d = decimal(v);
    assert forall|i: int| 0 <= i < d.len() implies d[i] != ',' by {
        if v < 0 {
            if i > 0 {
                lemma_numeral_digits((-v) as nat, 10, i - 1);
            }
        } else {
            lemma_numeral_digits(v as nat, 10, i);
        }
    }
}

/// The listed values, cut at the commas.
proof fn lemma_value_list(values: Seq<i64>)
    requires
        values.len() > 0,
    ensures
        ({
            let v = Seq::new(
                values.len(),
                |m: int|
                    if m == 0 {
                        decimal(values[0] as int)
                    } else {
                        seq![' '] + decimal(values[m] as int)
                    },
            );
            &&& joined(v, ',') == value_list(values)
            &&& split_on(value_list(values), ',') == v
        }),
    decreases values.len(),
{
    let v = Seq::new(
        values.len(),
        |m: int|
            if m == 0 {
                decimal(values[0] as int)
            } else {
                seq![' '] + decimal(values[m] as int)
            },
    );
    assert forall|m: int| 0 <= m < v.len() implies !(#[trigger] v[m]).contains(',') by {
        lemma_no_comma(values[m] as int);
        assert forall|i: int| 0 <= i < v[m].len() implies v[m][i] != ',' by {
            let d = decimal(values[m] as int);
            if m > 0 && i > 0 {
                assert(v[m][i] == d[i - 1]);
                assert(d.contains(d[i - 1]));
            } else if m == 0 {
                assert(d.contains(d[i]));
            }
        }
    }
    if values.len() > 1 {
        let fewer = values.drop_last();
        lemma_value_list(fewer);
        let w = Seq::new(
            fewer.len(),
            |m: int|
                if m == 0 {
                    decimal(fewer[0] as int)
                } else {
                    seq![' '] + decimal(fewer[m] as int)
                },
        );
        assert(v.drop_last() =~= w);
        reveal_strlit(", ");
        assert(", "@ =~= seq![',', ' ']);
        assert(joined(v, ',') =~= value_list(values));
    }
    lemma_split_joined(v, ',');
}

proof fn lemma_report(kind: Seq<char>, stack: Seq<u64>, n: int)
    requires
        0 <= n <= stack.len(),
    ensures
        reports(advice_report(kind, ints(stack.take(n))), kind, stack, n),
{
    let values = ints(stack.take(n));
    let text = value_list(values);
    assert forall|m: int| 0 <= m < n implies (#[trigger] values[m]) as int == signed(stack[m]) by {
        lemma_signed(stack[m]);
        assert(values[m] == stack[m] as i64);
    }
    if n > 0 {
        lemma_value_list(values);
    }
    assert(lists(text, stack, n));
}

/// What has been read is what the instruction's report says.
proof fn lemma_finished(event: VmEventView)
    requires
        finishes(event),
    ensures
        finished_read(op_of(event), stack_of(event)) is Some <==> reads_any(event),
        forall|kind: Seq<char>, n: int| #[trigger]
            reads(event, kind, n) ==> finished_read(op_of(event), stack_of(event)) == Some(
                advice_report(kind, ints(stack_of(event).take(n))),
            ),
{
    let op = op_of(event);
    let stack = stack_of(event);
    reveal_strlit("adv_push.");
    reveal_strlit("adv_loadw");
    if op == "adv_loadw"@ {
        assert("adv_push."@[4] == 'p');
        assert(op[4] == 'l');
        assert(!"adv_push."@.is_prefix_of(op));
        assert(pushed_count(op) is None);
        if stack.len() >= 4 {
            assert(reads(event, "adv_loadw"@, 4));
        }
    }
    if let Some(n) = pushed_count(op) {
        if stack.len() >= n {
            assert(reads(event, "adv_push"@, n as int));
        }
    }
}

/// What waits to be shown after an event that begins no instruction, and after
/// one that does.
#[verifier::rlimit(50)]
proof fn lemma_waits_next(source: Seq<char>, run: Seq<VmEventView>)
    requires
        runs_through(run),
        run.len() > 0,
    ensures
        ({
            let st = progress(source, run.drop_last()).state;
            let now = progress(source, run).state;
            let event = run.last();
            &&& enters(event) ==> now.word is None && now.advice is None
            &&& !enters(event) ==> now.word == if loads(event) {
                Some(ints(stack_of(event).take(4)))
            } else {
                st.word
            }
            &&& !enters(event) ==> now.advice == if reads_any(event) {
                finished_read(op_of(event), stack_of(event))
            } else {
                st.advice
            }
        }),
{
    lemma_added(source, run);
    if enters(run.last()) {
        lemma_parts(source, run);
    } else if finishes(run.last()) {
        lemma_finished(run.last());
    }
}

/// The word that waits to be shown after a run whose last instruction began at
/// `p`.
#[verifier::rlimit(40)]
proof fn lemma_word_waits(source: Seq<char>, run: Seq<VmEventView>, p: int)
    requires
        runs_through(run),
        -1 <= p < run.len(),
        p >= 0 ==> enters(run[p]),
        nothing_between(run, p, run.len() as int),
    ensures
        ({
            let word = progress(source, run).state.word;
            &&& (forall|i: int| p < i < run.len() ==> !loads(#[trigger] run[i])) ==> word is None
            &&& forall|i: int|
                p < i < run.len() && loads(#[trigger] run[i]) && (forall|k: int|
                    i < k < run.len() ==> !loads(#[trigger] run[k])) ==> word == Some(
                    ints(stack_of(run[i]).take(4)),
                )
        }),
    decreases run.len(),
{
    let last = run.len() - 1;
    if run.len() > 0 {
        lemma_added(source, run);
        lemma_waits_next(source, run);
        if p < last {
            let shorter = run.drop_last();
            assert forall|k: int| p < k < shorter.len() implies !enters(#[trigger] shorter[k]) by {
                assert(!enters(run[k]));
            }
            lemma_word_waits(source, shorter, p);
            assert(!enters(run[last]));
            let word = progress(source, run).state.word;
            assert forall|i: int|
                p < i < run.len() && loads(#[trigger] run[i]) && (forall|k: int|
                    i < k < run.len() ==> !loads(#[trigger] run[k])) implies word == Some(
                ints(stack_of(run[i]).take(4)),
            ) by {
                if i < last {
                    assert(shorter[i] == run[i]);
                    assert forall|k: int| i < k < shorter.len() implies !loads(
                        #[trigger] shorter[k],
                    ) by {
                        assert(!loads(run[k]));
                    }
                    assert(!loads(run[last]));
                }
            }
            if forall|i: int| p < i < run.len() ==> !loads(#[trigger] run[i]) {
                assert forall|i: int| p < i < shorter.len() implies !loads(
                    #[trigger] shorter[i],
                ) by {
                    assert(!loads(run[i]));
                }
                assert(!loads(run[last]));
            }
        }
    }
}

/// The advice read that waits to be reported after a run whose last instruction
/// began at `p`.
#[verifier::rlimit(40)]
proof fn lemma_read_waits(source: Seq<char>, run: Seq<VmEventView>, p: int)
    requires
        runs_through(run),
        -1 <= p < run.len(),
        p >= 0 ==> enters(run[p]),
        nothing_between(run, p, run.len() as int),
    ensures
        ({
            let advice = progress(source, run).state.advice;
            &&& (forall|i: int| p < i < run.len() ==> !reads_any(#[trigger] run[i]))
                ==> advice is None
            &&& forall|i: int|
                p < i < run.len() && reads_any(#[trigger] run[i]) && (forall|k: int|
                    i < k < run.len() ==> !reads_any(#[trigger] run[k])) ==> advice
                    == finished_read(op_of(run[i]), stack_of(run[i]))
        }),
    decreases run.len(),
{
    let last = run.len() - 1;
    if run.len() > 0 {
        lemma_added(source, run);
        lemma_waits_next(source, run);
        if p < last {
            let shorter = run.drop_last();
            assert forall|k: int| p < k < shorter.len() implies !enters(#[trigger] shorter[k]) by {
                assert(!enters(run[k]));
            }
            lemma_read_waits(source, shorter, p);
            assert(!enters(run[last]));
            let advice = progress(source, run).state.advice;
            assert forall|i: int|
                p < i < run.len() && reads_any(#[trigger] run[i]) && (forall|k: int|
                    i < k < run.len() ==> !reads_any(#[trigger] run[k])) implies advice
                == finished_read(op_of(run[i]), stack_of(run[i])) by {
                if i < last {
                    assert(shorter[i] == run[i]);
                    assert forall|k: int| i < k < shorter.len() implies !reads_any(
                        #[trigger] shorter[k],
                    ) by {
                        assert(!reads_any(run[k]));
                    }
                    assert(!reads_any(run[last]));
                }
            }
            if forall|i: int| p < i < run.len() ==> !reads_any(#[trigger] run[i]) {
                assert forall|i: int| p < i < shorter.len() implies !reads_any(
                    #[trigger] shorter[i],
                ) by {
                    assert(!reads_any(run[i]));
                }
                assert(!reads_any(run[last]));
            }
        }
    }
}

/// What an instruction takes up before it is entered.
#[verifier::rlimit(50)]
proof fn lemma_takes_up(source: Seq<char>, run: Seq<VmEventView>)
    requires
        runs_through(run),
        run.len() > 0,
        enters(run.last()),
    ensures
        ({
            let st = progress(source, run.drop_last()).state;
            let now = parts(source, run).stop.state;
            let event = run.last();
            &&& now.word == if loads(event) {
                Some(ints(stack_of(event).take(4)))
            } else {
                st.word
            }
            &&& now.advice == if reads_any(event) {
                finished_read(op_of(event), stack_of(event))
            } else {
                st.advice
            }
        }),
{
    lemma_added(source, run);
    let st = progress(source, run.drop_last()).state;
    let step = run.last()->State_0;
    let a = step.asmop->0;
    let taken = captured(st, step.stack, a);
    lemma_entered_keeps(source, taken, a.context_name, line_of(source, run.last()), step.stack);
    if finishes(run.last()) {
        lemma_finished(run.last());
    }
}

/// An instruction shows the word that was loaded last since the one before it
/// began, at `p`, as the four topmost items of the stack that the load left.
#[verifier::rlimit(50)]
pub proof fn lemma_word_shown(source: Seq<char>, run: Seq<VmEventView>, p: int, i: int)
    requires
        runs_through(run),
        run.len() > 0,
        enters(run.last()),
        -1 <= p < i < run.len(),
        p >= 0 ==> enters(run[p]),
        nothing_between(run, p, run.len() - 1),
        loads(run[i]),
        forall|k: int| i < k < run.len() ==> !loads(#[trigger] run[k]),
    ensures
        exists|k: int| 0 <= k < added(source, run).len() && (#[trigger] added(source, run)[k]) is Word,
        forall|k: int|
            0 <= k < added(source, run).len() && (#[trigger] added(source, run)[k]) is Word
                ==> top_word(added(source, run)[k]->Word_elements, stack_of(run[i])),
        forall|k: int, l: int|
            0 <= k < l < added(source, run).len() && (#[trigger] added(source, run)[k]) is Word
                ==> !((#[trigger] added(source, run)[l]) is Word),
{
    lemma_places(source, run);
    lemma_takes_up(source, run);
    lemma_added(source, run);
    let at = places(source, run);
    let all = added(source, run);
    let shorter = run.drop_last();
    let stack = stack_of(run[i]);
    assert forall|k: int| p < k < shorter.len() implies !enters(#[trigger] shorter[k]) by {
        assert(!enters(run[k]));
    }
    lemma_word_waits(source, shorter, p);
    let word = parts(source, run).stop.state.word;
    assert(word == Some(ints(stack.take(4)))) by {
        if i < run.len() - 1 {
            assert(shorter[i] == run[i]);
            assert forall|k: int| i < k < shorter.len() implies !loads(#[trigger] shorter[k]) by {
                assert(!loads(run[k]));
            }
            assert(!loads(run[run.len() - 1]));
        }
    }
    assert forall|m: int| 0 <= m < 4 implies (#[trigger] word->0[m]) as int == signed(stack[m]) by {
        lemma_signed(stack[m]);
        assert(word->0[m] == stack[m] as i64);
    }
    assert(all[at.word] is Word);
    assert forall|k: int| 0 <= k < all.len() && (#[trigger] all[k]) is Word implies k == at.word by {
        lemma_word_place(source, run, k);
    }
}

/// A word or an event of an instruction stands in its place.
proof fn lemma_word_place(source: Seq<char>, run: Seq<VmEventView>, k: int)
    requires
        runs_through(run),
        run.len() > 0,
        enters(run.last()),
        0 <= k < added(source, run).len(),
    ensures
        ({
            let at = places(source, run);
            let all = added(source, run);
            &&& all[k] is Word ==> k == at.word && at.word < at.advice
            &&& all[k] is Event ==> k == at.advice && at.advice < at.locals
        }),
{
    lemma_places(source, run);
    let at = places(source, run);
    let all = added(source, run);
    if k >= at.locals {
        let p = parts(source, run);
        let step = run.last()->State_0;
        let slots = with_slot(p.stop.state.slots, op_of(run.last()));
        lemma_locals(slots, p.stop.state.num_locals, step.fmp, step.memory, k - at.locals);
    }
}

/// An instruction shows no word where none was loaded since the one before it
/// began.
#[verifier::rlimit(50)]
pub proof fn lemma_no_word(source: Seq<char>, run: Seq<VmEventView>, p: int)
    requires
        runs_through(run),
        run.len() > 0,
        enters(run.last()),
        -1 <= p < run.len() - 1,
        p >= 0 ==> enters(run[p]),
        nothing_between(run, p, run.len() - 1),
        forall|k: int| p < k < run.len() ==> !loads(#[trigger] run[k]),
    ensures
        forall|k: int|
            0 <= k < added(source, run).len() ==> !((#[trigger] added(source, run)[k]) is Word),
{
    lemma_takes_up(source, run);
    lemma_added(source, run);
    let shorter = run.drop_last();
    assert forall|k: int| p < k < shorter.len() implies !enters(#[trigger] shorter[k]) by {
        assert(!enters(run[k]));
    }
    lemma_word_waits(source, shorter, p);
    assert forall|k: int| p < k < shorter.len() implies !loads(#[trigger] shorter[k]) by {
        assert(!loads(run[k]));
    }
    assert(!loads(run[run.len() - 1]));
    assert forall|k: int| 0 <= k < added(source, run).len() implies !((#[trigger] added(
        source,
        run,
    )[k]) is Word) by {
        lemma_word_place(source, run, k);
    }
}

/// An instruction reports the advice that was read last since the one before it
/// began, at `p`: for `adv_push.N` the count N and the N topmost items of the
/// stack that the read left, for `adv_loadw` the four topmost.
#[verifier::rlimit(50)]
pub proof fn lemma_read_reported(
    source: Seq<char>,
    run: Seq<VmEventView>,
    p: int,
    i: int,
    kind: Seq<char>,
    n: int,
)
    requires
        runs_through(run),
        run.len() > 0,
        enters(run.last()),
        -1 <= p < i < run.len(),
        p >= 0 ==> enters(run[p]),
        nothing_between(run, p, run.len() - 1),
        reads(run[i], kind, n),
        forall|k: int| i < k < run.len() ==> !reads_any(#[trigger] run[k]),
    ensures
        exists|k: int|
            0 <= k < added(source, run).len() && (#[trigger] added(source, run)[k]) is Event,
        forall|k: int|
            0 <= k < added(source, run).len() && (#[trigger] added(source, run)[k]) is Event ==> {
                let op = added(source, run)[k];
                &&& op->Event_kind == EventKind::Read
                &&& op->Event_metadata == "advice_read"@
                &&& reports(op->Event_content, kind, stack_of(run[i]), n)
            },
        forall|k: int, l: int|
            0 <= k < l < added(source, run).len() && (#[trigger] added(source, run)[k]) is Event
                ==> !((#[trigger] added(source, run)[l]) is Event),
{
    lemma_places(source, run);
    lemma_takes_up(source, run);
    lemma_added(source, run);
    let at = places(source, run);
    let all = added(source, run);
    let shorter = run.drop_last();
    let stack = stack_of(run[i]);
    assert forall|k: int| p < k < shorter.len() implies !enters(#[trigger] shorter[k]) by {
        assert(!enters(run[k]));
    }
    lemma_read_waits(source, shorter, p);
    lemma_finished(run[i]);
    lemma_report(kind, stack, n);
    let advice = parts(source, run).stop.state.advice;
    assert(reads_any(run[i]));
    assert(advice == Some(advice_report(kind, ints(stack.take(n))))) by {
        if i < run.len() - 1 {
            assert(shorter[i] == run[i]);
            assert forall|k: int| i < k < shorter.len() implies !reads_any(#[trigger] shorter[k]) by {
                assert(!reads_any(run[k]));
            }
            assert(!reads_any(run[run.len() - 1]));
        }
    }
    assert(all[at.advice] is Event);
    assert forall|k: int| 0 <= k < all.len() && (#[trigger] all[k]) is Event implies k
        == at.advice by {
        lemma_word_place(source, run, k);
    }
}

/// An instruction reports no advice where none was read since the one before it
/// began.
#[verifier::rlimit(50)]
pub proof fn lemma_no_read(source: Seq<char>, run: Seq<VmEventView>, p: int)
    requires
        runs_through(run),
        run.len() > 0,
        enters(run.last()),
        -1 <= p < run.len() - 1,
        p >= 0 ==> enters(run[p]),
        nothing_between(run, p, run.len() - 1),
        forall|k: int| p < k < run.len() ==> !reads_any(#[trigger] run[k]),
    ensures
        forall|k: int|
            0 <= k < added(source, run).len() ==> !((#[trigger] added(source, run)[k]) is Event),
{
    lemma_takes_up(source, run);
    lemma_added(source, run);
    let shorter = run.drop_last();
    assert forall|k: int| p < k < shorter.len() implies !enters(#[trigger] shorter[k]) by {
        assert(!enters(run[k]));
    }
    lemma_read_waits(source, shorter, p);
    assert forall|k: int| p < k < shorter.len() implies !reads_any(#[trigger] shorter[k]) by {
        assert(!reads_any(run[k]));
    }
    assert(!reads_any(run[run.len() - 1]));
    assert forall|k: int| 0 <= k < added(source, run).len() implies !((#[trigger] added(
        source,
        run,
    )[k]) is Event) by {
        lemma_word_place(source, run, k);
    }
}

} // verus!
