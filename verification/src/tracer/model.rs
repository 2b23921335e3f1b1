//! What a trace of an execution is: the operations on a trace writer that the
//! states of the VM give rise to.

use vstd::prelude::*;

use crate::number::decimal;
use crate::source_map::line_number;
use crate::text::last_segment;
use crate::tracer::call_graph::call_graph;
use crate::tracer::call_graph::calls;
use crate::tracer::call_graph::chain;
use crate::tracer::call_graph::parent_map;
use crate::tracer::call_graph::proc_locals;
use crate::tracer::call_graph::CHAIN_LIMIT;
use crate::tracer::ops::loads_advice_word;
use crate::tracer::ops::loads_word;
use crate::tracer::ops::pushed_count;
use crate::tracer::ops::stored_slot;
use crate::tracer::vm::AsmOpView;
use crate::tracer::vm::VmEventView;
use crate::tracer::vm::VmStepView;

verus! {

/// The channel of an event.
#[derive(Debug, Copy, Clone, PartialEq, Eq, Structural)]
pub enum EventKind {
    /// Something was read from outside the VM.
    Read,
    /// The execution failed.
    Error,
}

/// One operation on a trace writer.
///
/// Functions are known by the order of their registration: the first one
/// registered is function zero.
#[derive(Debug, Clone, PartialEq, Eq)]
pub enum TraceOp {
    /// Registers a function, at the line where it was first seen.
    EnsureFunction { name: String, line: u32 },
    /// Opens a call of a function.
    Call { function: usize },
    /// Closes the innermost open call.
    Return,
    /// Stages an argument of the next call.
    Arg { name: String, value: i64 },
    /// Moves to a line.
    Step { line: u32 },
    /// Shows the value of a variable.
    Variable { name: String, value: i64 },
    /// Shows the word that was just loaded.
    Word { elements: Vec<i64> },
    /// Logs an event.
    Event { kind: EventKind, metadata: String, content: String },
}

/// What a [`TraceOp`] holds.
pub enum OpView {
    EnsureFunction { name: Seq<char>, line: u32 },
    Call { function: int },
    Return,
    Arg { name: Seq<char>, value: i64 },
    Step { line: u32 },
    Variable { name: Seq<char>, value: i64 },
    Word { elements: Seq<i64> },
    Event { kind: EventKind, metadata: Seq<char>, content: Seq<char> },
}

impl View for TraceOp {
    type V = OpView;

    open spec fn view(&self) -> OpView {
        match self {
            TraceOp::EnsureFunction { name, line } => OpView::EnsureFunction {
                name: name@,
                line: *line,
            },
            TraceOp::Call { function } => OpView::Call { function: *function as int },
            TraceOp::Return => OpView::Return,
            TraceOp::Arg { name, value } => OpView::Arg { name: name@, value: *value },
            TraceOp::Step { line } => OpView::Step { line: *line },
            TraceOp::Variable { name, value } => OpView::Variable { name: name@, value: *value },
            TraceOp::Word { elements } => OpView::Word { elements: elements@ },
            TraceOp::Event { kind, metadata, content } => OpView::Event {
                kind: *kind,
                metadata: metadata@,
                content: content@,
            },
        }
    }
}

/// What the operations of a list hold.
pub open spec fn op_views(v: Seq<TraceOp>) -> Seq<OpView> {
    v.map_values(|op: TraceOp| op@)
}

/// What the tracer remembers from one state to the next.
pub struct TracerView {
    /// The registered functions, by their numbers.
    pub functions: Seq<Seq<char>>,
    /// The line of the last step.
    pub line: Option<u32>,
    /// The procedure that the last instruction belonged to.
    pub context: Option<Seq<char>>,
    /// The instruction that began the last step.
    pub first_op: Option<Seq<char>>,
    /// Another instruction was seen since, on the same line.
    pub moved: bool,
    /// The local slots that the procedure has written, in order.
    pub slots: Seq<u32>,
    /// The procedures to return to, the innermost last.
    pub frames: Seq<Seq<char>>,
    /// How many local slots the procedure declares.
    pub num_locals: u16,
    /// A call of `#main` was opened for the first instruction.
    pub main_open: bool,
    /// A call of an inlined procedure was opened for the first instruction.
    pub leaf_open: bool,
    /// The word that an instruction has just loaded.
    pub word: Option<Seq<i64>>,
    /// The report of an advice read that has just happened.
    pub advice: Option<Seq<char>>,
}

/// A new state and the operations on the way to it.
pub struct Move {
    pub state: TracerView,
    pub ops: Seq<OpView>,
}

/// The elements as signed integers.
pub open spec fn ints(values: Seq<u64>) -> Seq<i64> {
    values.map_values(|v: u64| v as i64)
}

/// The values, separated by commas.
pub open spec fn value_list(values: Seq<i64>) -> Seq<char>
    decreases values.len(),
{
    if values.len() == 0 {
        seq![]
    } else if values.len() == 1 {
        decimal(values[0] as int)
    } else {
        value_list(values.drop_last()) + ", "@ + decimal(values.last() as int)
    }
}

/// The report of an advice read.
pub open spec fn advice_report(kind: Seq<char>, values: Seq<i64>) -> Seq<char> {
    "advice_read kind="@ + kind + " count="@ + decimal(values.len() as int) + " values=["@
        + value_list(values) + "]"@
}

/// The report of the advice read that an instruction has finished.
pub open spec fn finished_read(op: Seq<char>, stack: Seq<u64>) -> Option<Seq<char>> {
    match pushed_count(op) {
        Some(n) => if stack.len() >= n {
            Some(advice_report("adv_push"@, ints(stack.take(n as int))))
        } else {
            None
        },
        None => if loads_advice_word(op) && stack.len() >= 4 {
            Some(advice_report("adv_loadw"@, ints(stack.take(4))))
        } else {
            None
        },
    }
}

/// Takes up what an instruction leaves on the stack in its last cycle.
pub open spec fn captured(st: TracerView, stack: Seq<u64>, a: AsmOpView) -> TracerView {
    if a.cycle_idx != a.num_cycles {
        st
    } else {
        TracerView {
            word: if loads_word(a.op) && stack.len() >= 4 {
                Some(ints(stack.take(4)))
            } else {
                st.word
            },
            advice: match finished_read(a.op, stack) {
                Some(report) => Some(report),
                None => st.advice,
            },
            ..st
        }
    }
}

/// The functions, with one more where it is new.
pub open spec fn with_function(functions: Seq<Seq<char>>, name: Seq<char>) -> Seq<Seq<char>> {
    if functions.contains(name) {
        functions
    } else {
        functions.push(name)
    }
}

/// The registration of a function that is new.
pub open spec fn registration(functions: Seq<Seq<char>>, name: Seq<char>, line: u32) -> Seq<OpView> {
    if functions.contains(name) {
        seq![]
    } else {
        seq![OpView::EnsureFunction { name, line }]
    }
}

/// The call of a registered function.
pub open spec fn call_of(functions: Seq<Seq<char>>, name: Seq<char>) -> OpView {
    OpView::Call { function: functions.index_of(name) }
}

/// The name that the VM gives a procedure of the program.
pub open spec fn executable_name(procedure: Seq<char>) -> Seq<char> {
    "#exec::"@ + procedure
}

/// The number of values that are shown of a stack.
pub open spec fn shown(stack: Seq<u64>) -> nat {
    if stack.len() < 4 {
        stack.len()
    } else {
        4
    }
}

/// The arguments of a call: the top of the stack.
pub open spec fn arguments(stack: Seq<u64>) -> Seq<OpView> {
    Seq::new(
        shown(stack),
        |i: int| OpView::Arg { name: "s"@ + decimal(i), value: stack[i] as i64 },
    )
}

/// The top of the stack as variables.
pub open spec fn stack_variables(stack: Seq<u64>) -> Seq<OpView> {
    Seq::new(
        shown(stack),
        |i: int|
            OpView::Variable { name: "stack["@ + decimal(i) + "]"@, value: stack[i] as i64 },
    )
}

/// The closing of `n` calls.
pub open spec fn return_ops(n: nat) -> Seq<OpView> {
    Seq::new(n, |i: int| OpView::Return)
}

/// Opens calls of procedures that were inlined, the outermost first.
pub open spec fn inlined(st: TracerView, callers: Seq<Seq<char>>, line: u32) -> Move
    decreases callers.len(),
{
    if callers.len() == 0 {
        Move { state: st, ops: seq![] }
    } else {
        let outer = inlined(st, callers.drop_last(), line);
        let name = executable_name(callers.last());
        let functions = with_function(outer.state.functions, name);
        Move {
            state: TracerView {
                functions,
                frames: outer.state.frames.push(name),
                ..outer.state
            },
            ops: outer.ops + registration(outer.state.functions, name, line) + seq![
                call_of(functions, name),
            ],
        }
    }
}

/// Enters the first procedure that is seen. A call is opened for `#main`, and
/// for a procedure whose callers up to `#main` are known and were inlined.
pub open spec fn first_context(
    source: Seq<char>,
    st: TracerView,
    name: Seq<char>,
    line: u32,
) -> Move {
    if last_segment(name) == "#main"@ {
        Move {
            state: TracerView { main_open: true, ..st },
            ops: seq![call_of(st.functions, name)],
        }
    } else {
        match chain(parent_map(call_graph(source)), last_segment(name), CHAIN_LIMIT as nat) {
            Some(c) if c.len() > 2 => {
                let outer = inlined(st, c.subrange(1, c.len() - 1), line);
                Move {
                    state: TracerView { leaf_open: true, ..outer.state },
                    ops: outer.ops.push(call_of(outer.state.functions, name)),
                }
            },
            _ => Move { state: st, ops: seq![] },
        }
    }
}

/// One of the frames is the body of the program.
pub open spec fn holds_main(frames: Seq<Seq<char>>) -> bool {
    exists|i: int| 0 <= i < frames.len() && last_segment(#[trigger] frames[i]) == "#main"@
}

/// The innermost caller's body invokes both procedures.
pub open spec fn siblings(
    source: Seq<char>,
    frames: Seq<Seq<char>>,
    a: Seq<char>,
    b: Seq<char>,
) -> bool {
    &&& frames.len() > 0
    &&& calls(call_graph(source), last_segment(frames.last()), last_segment(a))
    &&& calls(call_graph(source), last_segment(frames.last()), last_segment(b))
}

/// Goes from one procedure to another: back to the caller, out of an inlined
/// chain to `#main`, on to the caller's next callee, or into a callee.
pub open spec fn switched(
    source: Seq<char>,
    st: TracerView,
    prev: Seq<char>,
    name: Seq<char>,
    stack: Seq<u64>,
) -> Move {
    if st.frames.len() > 0 && st.frames.last() == name {
        Move {
            state: TracerView { frames: st.frames.drop_last(), ..st },
            ops: return_ops(1),
        }
    } else if st.leaf_open && last_segment(name) == "#main"@ && !holds_main(st.frames) {
        Move {
            state: TracerView { frames: seq![], leaf_open: false, ..st },
            ops: return_ops(st.frames.len() + 1),
        }
    } else if siblings(source, st.frames, prev, name) {
        Move {
            state: st,
            ops: return_ops(1) + arguments(stack).push(call_of(st.functions, name)),
        }
    } else {
        Move {
            state: TracerView { frames: st.frames.push(prev), ..st },
            ops: arguments(stack).push(call_of(st.functions, name)),
        }
    }
}

/// How many local slots a procedure declares, by its full name or by the last
/// segment of it.
pub open spec fn locals_of(source: Seq<char>, name: Seq<char>) -> u16 {
    let declared = proc_locals(source).locals;
    if declared.contains_key(name) {
        declared[name]
    } else if declared.contains_key(last_segment(name)) {
        declared[last_segment(name)]
    } else {
        0
    }
}

/// Enters the procedure of an instruction, where it is not the current one.
pub open spec fn entered(
    source: Seq<char>,
    st: TracerView,
    name: Seq<char>,
    line: u32,
    stack: Seq<u64>,
) -> Move {
    if st.context == Some(name) {
        Move { state: st, ops: seq![] }
    } else {
        let known = TracerView { functions: with_function(st.functions, name), ..st };
        let inner = match st.context {
            None => first_context(source, known, name, line),
            Some(prev) => switched(source, known, prev, name, stack),
        };
        Move {
            state: TracerView {
                context: Some(name),
                num_locals: locals_of(source, name),
                slots: seq![],
                ..inner.state
            },
            ops: registration(st.functions, name, line) + inner.ops,
        }
    }
}

/// Steps to a line when it changes, and when the instruction that began it
/// comes round again after another one.
pub open spec fn stepped(st: TracerView, line: u32, op: Seq<char>) -> Move {
    if st.line != Some(line) || (st.moved && st.first_op == Some(op)) {
        Move {
            state: TracerView { line: Some(line), first_op: Some(op), moved: false, ..st },
            ops: seq![OpView::Step { line }],
        }
    } else if st.first_op != Some(op) {
        Move { state: TracerView { moved: true, ..st }, ops: seq![] }
    } else {
        Move { state: st, ops: seq![] }
    }
}

/// The written slots, with the one that an instruction writes.
pub open spec fn with_slot(slots: Seq<u32>, op: Seq<char>) -> Seq<u32> {
    match stored_slot(op) {
        Some(n) => if slots.contains(n as u32) {
            slots
        } else {
            slots.push(n as u32)
        },
        None => slots,
    }
}

/// The value of a memory cell.
pub open spec fn cell(memory: Seq<(u32, u64)>, address: u32) -> Option<u64>
    decreases memory.len(),
{
    if memory.len() == 0 {
        None
    } else if memory[0].0 == address {
        Some(memory[0].1)
    } else {
        cell(memory.drop_first(), address)
    }
}

/// The value of a local slot, which lies `num_locals - slot` cells below the
/// frame pointer.
pub open spec fn slot_value(
    num_locals: u16,
    fmp: u64,
    memory: Seq<(u32, u64)>,
    slot: u32,
) -> Option<u64> {
    if slot <= num_locals && fmp >= num_locals - slot {
        cell(memory, (fmp - (num_locals - slot)) as u32)
    } else {
        None
    }
}

/// The written slots that have a value, as variables.
pub open spec fn local_variables(
    slots: Seq<u32>,
    num_locals: u16,
    fmp: u64,
    memory: Seq<(u32, u64)>,
) -> Seq<OpView>
    decreases slots.len(),
{
    if slots.len() == 0 || num_locals == 0 {
        seq![]
    } else {
        let earlier = local_variables(slots.drop_last(), num_locals, fmp, memory);
        match slot_value(num_locals, fmp, memory, slots.last()) {
            Some(v) => earlier.push(
                OpView::Variable {
                    name: "local["@ + decimal(slots.last() as int) + "]"@,
                    value: v as i64,
                },
            ),
            None => earlier,
        }
    }
}

/// The word that was loaded, where there is one.
pub open spec fn word_ops(word: Option<Seq<i64>>) -> Seq<OpView> {
    match word {
        Some(elements) => seq![OpView::Word { elements }],
        None => seq![],
    }
}

/// The advice read that happened, where there is one.
pub open spec fn advice_ops(advice: Option<Seq<char>>) -> Seq<OpView> {
    match advice {
        Some(content) => seq![
            OpView::Event { kind: EventKind::Read, metadata: "advice_read"@, content },
        ],
        None => seq![],
    }
}

/// Shows what the state holds at the beginning of an instruction.
pub open spec fn shown_values(st: TracerView, op: Seq<char>, step: VmStepView) -> Move {
    let slots = with_slot(st.slots, op);
    Move {
        state: TracerView { slots, word: None, advice: None, ..st },
        ops: stack_variables(step.stack) + word_ops(st.word) + advice_ops(st.advice)
            + local_variables(slots, st.num_locals, step.fmp, step.memory),
    }
}

/// The line on which an instruction begins.
pub open spec fn line_at(source: Seq<char>, start: u32) -> u32 {
    line_number(vstd::utf8::encode_utf8(source), start as int) as u32
}

/// The beginning of an instruction.
pub open spec fn begun(
    source: Seq<char>,
    st: TracerView,
    a: AsmOpView,
    line: u32,
    step: VmStepView,
) -> Move {
    let in_context = entered(source, st, a.context_name, line, step.stack);
    let on_line = stepped(in_context.state, line, a.op);
    let done = shown_values(on_line.state, a.op, step);
    Move { state: done.state, ops: in_context.ops + on_line.ops + done.ops }
}

/// What one VM state gives rise to. Only the first cycle of an instruction
/// whose place in the source is known adds to the trace.
pub open spec fn observed(source: Seq<char>, st: TracerView, step: VmStepView) -> Move {
    match step.asmop {
        None => Move { state: st, ops: seq![] },
        Some(a) => {
            let taken = captured(st, step.stack, a);
            if a.cycle_idx != 1 {
                Move { state: taken, ops: seq![] }
            } else {
                match a.start {
                    None => Move { state: taken, ops: seq![] },
                    Some(start) => begun(source, taken, a, line_at(source, start), step),
                }
            }
        },
    }
}

/// The functions that a program declares, under the names that the VM gives
/// them.
pub open spec fn declared_functions(source: Seq<char>) -> Seq<Seq<char>> {
    proc_locals(source).names.map_values(|n: Seq<char>| executable_name(n))
}

/// The registration of all declared functions.
pub open spec fn opening(source: Seq<char>) -> Seq<OpView> {
    declared_functions(source).map_values(
        |n: Seq<char>| OpView::EnsureFunction { name: n, line: 1 },
    )
}

/// The tracer before the first state.
pub open spec fn fresh(source: Seq<char>) -> TracerView {
    TracerView {
        functions: declared_functions(source),
        line: None,
        context: None,
        first_op: None,
        moved: false,
        slots: seq![],
        frames: seq![],
        num_locals: 0,
        main_open: false,
        leaf_open: false,
        word: None,
        advice: None,
    }
}

/// One for an open call, else zero.
pub open spec fn open_count(open: bool) -> nat {
    if open {
        1
    } else {
        0
    }
}

/// How many calls the tracer has open inside the toplevel one.
pub open spec fn open_calls(st: TracerView) -> nat {
    st.frames.len() + open_count(st.main_open) + open_count(st.leaf_open)
}

/// The report of an execution error.
pub open spec fn failure(error: Option<Seq<char>>) -> Seq<OpView> {
    match error {
        Some(message) => seq![
            OpView::Event { kind: EventKind::Error, metadata: "miden_vm_error"@, content: message },
        ],
        None => seq![],
    }
}

/// The end of a trace: the error, if there was one, and the closing of every
/// open call, the toplevel one last.
pub open spec fn closing(st: TracerView, error: Option<Seq<char>>) -> Seq<OpView> {
    failure(error) + return_ops(open_calls(st) + 1)
}

/// What is left of a trace: the states that are still to come, up to an error,
/// and the end.
pub open spec fn rest_of_trace(source: Seq<char>, st: TracerView, events: Seq<VmEventView>) -> Seq<
    OpView,
>
    decreases events.len(),
{
    if events.len() == 0 {
        closing(st, None)
    } else {
        match events[0] {
            VmEventView::Failed(message) => closing(st, Some(message)),
            VmEventView::State(step) => {
                let next = observed(source, st, step);
                next.ops + rest_of_trace(source, next.state, events.drop_first())
            },
        }
    }
}

/// The trace of an execution of the program `source`.
pub open spec fn trace_of(source: Seq<char>, events: Seq<VmEventView>) -> Seq<OpView> {
    opening(source) + rest_of_trace(source, fresh(source), events)
}

} // verus!
