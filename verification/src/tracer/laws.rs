//! What holds of every trace.

use vstd::prelude::*;
use vstd::utf8::encode_utf8;

use crate::source_map::lemma_line_number_bounds;
use crate::source_map::line_number;
use crate::text::last_segment;
use crate::tracer::call_graph::call_graph;
use crate::tracer::call_graph::chain;
use crate::tracer::call_graph::lemma_declared_names;
use crate::tracer::call_graph::parent_map;
use crate::tracer::call_graph::proc_locals;
use crate::tracer::call_graph::CHAIN_LIMIT;
use crate::tracer::model::advice_ops;
use crate::tracer::model::arguments;
use crate::tracer::model::call_of;
use crate::tracer::model::captured;
use crate::tracer::model::closing;
use crate::tracer::model::declared_functions;
use crate::tracer::model::entered;
use crate::tracer::model::executable_name;
use crate::tracer::model::failure;
use crate::tracer::model::first_context;
use crate::tracer::model::fresh;
use crate::tracer::model::inlined;
use crate::tracer::model::line_at;
use crate::tracer::model::local_variables;
use crate::tracer::model::observed;
use crate::tracer::model::open_calls;
use crate::tracer::model::opening;
use crate::tracer::model::registration;
use crate::tracer::model::rest_of_trace;
use crate::tracer::model::return_ops;
use crate::tracer::model::shown_values;
use crate::tracer::model::stack_variables;
use crate::tracer::model::stepped;
use crate::tracer::model::switched;
use crate::tracer::model::trace_of;
use crate::tracer::model::with_function;
use crate::tracer::model::with_slot;
use crate::tracer::model::word_ops;
use crate::tracer::model::EventKind;
use crate::tracer::model::Move;
use crate::tracer::model::OpView;
use crate::tracer::model::TracerView;
use crate::tracer::vm::VmEventView;
use crate::tracer::vm::VmStepView;

verus! {

/// How many calls the operations leave open, less those that they close.
pub open spec fn depth_change(ops: Seq<OpView>) -> int
    decreases ops.len(),
{
    if ops.len() == 0 {
        0
    } else {
        depth_change(ops.drop_last()) + match ops.last() {
            OpView::Call { .. } => 1int,
            OpView::Return => -1int,
            _ => 0int,
        }
    }
}

/// The operations never close a call that `base` open ones do not cover.
pub open spec fn covered(base: int, ops: Seq<OpView>) -> bool {
    forall|k: int| 0 <= k <= ops.len() ==> base + #[trigger] depth_change(ops.take(k)) >= 0
}

/// The names that the operations register, in order.
pub open spec fn registered(ops: Seq<OpView>) -> Seq<Seq<char>>
    decreases ops.len(),
{
    if ops.len() == 0 {
        seq![]
    } else {
        match ops.last() {
            OpView::EnsureFunction { name, .. } => registered(ops.drop_last()).push(name),
            _ => registered(ops.drop_last()),
        }
    }
}

/// Every call is of a function that was registered before, counting from
/// those in `base`.
pub open spec fn calls_known(base: Seq<Seq<char>>, ops: Seq<OpView>) -> bool {
    forall|k: int|
        #![trigger ops[k]]
        0 <= k < ops.len() ==> match ops[k] {
            OpView::Call { function } => 0 <= function < base.len() + registered(ops.take(k)).len(),
            _ => true,
        }
}

/// An operation that neither opens nor closes a call nor registers a function.
spec fn quiet(op: OpView) -> bool {
    match op {
        OpView::Call { .. } => false,
        OpView::Return => false,
        OpView::EnsureFunction { .. } => false,
        _ => true,
    }
}

proof fn lemma_quiet(ops: Seq<OpView>)
    requires
        forall|k: int| 0 <= k < ops.len() ==> quiet(#[trigger] ops[k]),
    ensures
        depth_change(ops) == 0,
        registered(ops) == Seq::<Seq<char>>::empty(),
    decreases ops.len(),
{
    if ops.len() > 0 {
        assert forall|k: int| 0 <= k < ops.drop_last().len() implies quiet(
            #[trigger] ops.drop_last()[k],
        ) by {
            assert(quiet(ops[k]));
        }
        lemma_quiet(ops.drop_last());
        assert(quiet(ops[ops.len() - 1]));
    }
}

pub(crate) proof fn lemma_joined(a: Seq<OpView>, b: Seq<OpView>)
    ensures
        depth_change(a + b) == depth_change(a) + depth_change(b),
        registered(a + b) == registered(a) + registered(b),
    decreases b.len(),
{
    if b.len() == 0 {
        assert(a + b =~= a);
        assert(registered(a) + registered(b) =~= registered(a));
    } else {
        assert((a + b).drop_last() =~= a + b.drop_last());
        assert((a + b).last() == b.last());
        lemma_joined(a, b.drop_last());
        assert(registered(a + b) =~= registered(a) + registered(b));
    }
}

/// What one piece of a trace does to the tracer's account of it.
spec fn accounts(st: TracerView, m: Move) -> bool {
    &&& m.state.functions == st.functions + registered(m.ops)
    &&& m.state.functions.no_duplicates()
    &&& calls_known(st.functions, m.ops)
    &&& open_calls(m.state) == open_calls(st) + depth_change(m.ops)
    &&& covered(open_calls(st) as int, m.ops)
}

proof fn lemma_accounts_quiet(st: TracerView, m: Move)
    requires
        st.functions.no_duplicates(),
        m.state.functions == st.functions,
        open_calls(m.state) == open_calls(st),
        forall|k: int| 0 <= k < m.ops.len() ==> quiet(#[trigger] m.ops[k]),
    ensures
        accounts(st, m),
{
    lemma_quiet(m.ops);
    assert(st.functions + registered(m.ops) =~= st.functions);
    assert forall|k: int| 0 <= k <= m.ops.len() implies open_calls(st) + #[trigger] depth_change(
        m.ops.take(k),
    ) >= 0 by {
        assert forall|j: int| 0 <= j < m.ops.take(k).len() implies quiet(
            #[trigger] m.ops.take(k)[j],
        ) by {
            assert(quiet(m.ops[j]));
        }
        lemma_quiet(m.ops.take(k));
    }
}

proof fn lemma_accounts_joined(st: TracerView, m: Move, n: Move, both: Move)
    requires
        accounts(st, m),
        accounts(m.state, n),
        both.state == n.state,
        both.ops == m.ops + n.ops,
    ensures
        accounts(st, both),
{
    lemma_joined(m.ops, n.ops);
    assert(both.state.functions =~= st.functions + registered(both.ops));
    assert forall|k: int| 0 <= k <= both.ops.len() implies open_calls(st) + #[trigger] depth_change(
        both.ops.take(k),
    ) >= 0 by {
        if k <= m.ops.len() {
            assert(both.ops.take(k) =~= m.ops.take(k));
        } else {
            assert(both.ops.take(k) =~= m.ops + n.ops.take(k - m.ops.len()));
            lemma_joined(m.ops, n.ops.take(k - m.ops.len()));
        }
    }
    assert forall|k: int| 0 <= k < both.ops.len() implies match #[trigger] both.ops[k] {
        OpView::Call { function } => 0 <= function < st.functions.len() + registered(
            both.ops.take(k),
        ).len(),
        _ => true,
    } by {
        if k < m.ops.len() {
            assert(both.ops[k] == m.ops[k]);
            assert(both.ops.take(k) =~= m.ops.take(k));
        } else {
            let j = k - m.ops.len();
            assert(both.ops[k] == n.ops[j]);
            assert(both.ops.take(k) =~= m.ops + n.ops.take(j));
            lemma_joined(m.ops, n.ops.take(j));
        }
    }
}

proof fn lemma_accounts_registration(st: TracerView, name: Seq<char>, line: u32)
    requires
        st.functions.no_duplicates(),
    ensures
        accounts(
            st,
            (Move {
                state: TracerView { functions: with_function(st.functions, name), ..st },
                ops: registration(st.functions, name, line),
            }),
        ),
        with_function(st.functions, name).contains(name),
{
    let m = Move {
        state: TracerView { functions: with_function(st.functions, name), ..st },
        ops: registration(st.functions, name, line),
    };
    if st.functions.contains(name) {
        lemma_accounts_quiet(st, m);
    } else {
        let ops = m.ops;
        reveal_with_fuel(registered, 2);
        reveal_with_fuel(depth_change, 2);
        assert(ops.drop_last() =~= seq![]);
        assert(registered(ops) =~= seq![name]);
        assert(ops.take(0) =~= seq![]);
        assert(ops.take(1) =~= ops);
        assert(m.state.functions[st.functions.len() as int] == name);
        assert(m.state.functions =~= st.functions + registered(ops));
        assert forall|k: int| 0 <= k <= ops.len() implies open_calls(st) + #[trigger] depth_change(
            ops.take(k),
        ) >= 0 by {
            assert(k == 0 || k == 1);
        }
    }
}

/// One call of a registered function, with one more frame or mark for it.
proof fn lemma_accounts_call(st: TracerView, name: Seq<char>, state: TracerView)
    requires
        st.functions.no_duplicates(),
        st.functions.contains(name),
        state.functions == st.functions,
        open_calls(state) == open_calls(st) + 1,
    ensures
        accounts(st, (Move { state, ops: seq![call_of(st.functions, name)] })),
{
    let ops = seq![call_of(st.functions, name)];
    reveal_with_fuel(registered, 2);
    reveal_with_fuel(depth_change, 2);
    assert(ops.drop_last() =~= seq![]);
    assert(ops.take(0) =~= seq![]);
    assert(ops.take(1) =~= ops);
    assert(depth_change(ops) == 1);
    assert(registered(ops) =~= seq![]);
    assert(st.functions + registered(ops) =~= st.functions);
    assert forall|k: int| 0 <= k <= ops.len() implies open_calls(st) + #[trigger] depth_change(
        ops.take(k),
    ) >= 0 by {
        assert(k == 0 || k == 1);
    }
    assert(0 <= st.functions.index_of(name) < st.functions.len());
}

proof fn lemma_return_ops(n: nat)
    ensures
        depth_change(return_ops(n)) == -n,
        registered(return_ops(n)) == Seq::<Seq<char>>::empty(),
    decreases n,
{
    if n > 0 {
        lemma_return_ops((n - 1) as nat);
        assert(return_ops(n).drop_last() =~= return_ops((n - 1) as nat));
    }
}

/// The closing of calls that are open.
proof fn lemma_accounts_returns(st: TracerView, n: nat, state: TracerView)
    requires
        st.functions.no_duplicates(),
        state.functions == st.functions,
        n <= open_calls(st),
        open_calls(state) == open_calls(st) - n,
    ensures
        accounts(st, (Move { state, ops: return_ops(n) })),
{
    let ops = return_ops(n);
    lemma_return_ops(n);
    assert(st.functions + registered(ops) =~= st.functions);
    assert forall|k: int| 0 <= k <= ops.len() implies open_calls(st) + #[trigger] depth_change(
        ops.take(k),
    ) >= 0 by {
        assert(ops.take(k) =~= return_ops(k as nat));
        lemma_return_ops(k as nat);
    }
}

proof fn lemma_accounts_arguments(st: TracerView, stack: Seq<u64>)
    requires
        st.functions.no_duplicates(),
    ensures
        accounts(st, (Move { state: st, ops: arguments(stack) })),
{
    lemma_accounts_quiet(st, (Move { state: st, ops: arguments(stack) }));
}

proof fn lemma_accounts_inlined(st: TracerView, callers: Seq<Seq<char>>, line: u32)
    requires
        st.functions.no_duplicates(),
    ensures
        accounts(st, inlined(st, callers, line)),
        forall|n: Seq<char>| #[trigger]
            st.functions.contains(n) ==> inlined(st, callers, line).state.functions.contains(n),
    decreases callers.len(),
{
    let all = inlined(st, callers, line);
    if callers.len() == 0 {
        lemma_accounts_quiet(st, all);
    } else {
        let outer = inlined(st, callers.drop_last(), line);
        lemma_accounts_inlined(st, callers.drop_last(), line);
        let name = executable_name(callers.last());
        let known = Move {
            state: TracerView { functions: with_function(outer.state.functions, name), ..outer.state },
            ops: registration(outer.state.functions, name, line),
        };
        lemma_accounts_registration(outer.state, name, line);
        let call = Move { state: all.state, ops: seq![call_of(known.state.functions, name)] };
        lemma_accounts_call(known.state, name, all.state);
        let both = Move { state: known.state, ops: outer.ops + known.ops };
        lemma_accounts_joined(st, outer, known, both);
        lemma_accounts_joined(st, both, call, all);
        assert forall|n: Seq<char>| #[trigger]
            st.functions.contains(n) implies all.state.functions.contains(n) by {
            assert(outer.state.functions.contains(n));
            lemma_still_known(outer.state.functions, name, n);
        }
    }
}

pub(crate) proof fn lemma_still_known(functions: Seq<Seq<char>>, name: Seq<char>, n: Seq<char>)
    requires
        functions.contains(n),
    ensures
        with_function(functions, name).contains(n),
{
    let i = functions.index_of(n);
    assert(with_function(functions, name)[i] == n);
}

proof fn lemma_accounts_first(source: Seq<char>, st: TracerView, name: Seq<char>, line: u32)
    requires
        st.functions.no_duplicates(),
        st.functions.contains(name),
        !st.main_open,
        !st.leaf_open,
    ensures
        accounts(st, first_context(source, st, name, line)),
        first_context(source, st, name, line).state.functions.contains(name),
{
    let m = first_context(source, st, name, line);
    if last_segment(name) == "#main"@ {
        lemma_accounts_call(st, name, m.state);
    } else {
        match chain(parent_map(call_graph(source)), last_segment(name), CHAIN_LIMIT as nat) {
            Some(c) => {
                if c.len() > 2 {
                    let callers = c.subrange(1, c.len() - 1);
                    let outer = inlined(st, callers, line);
                    lemma_accounts_inlined(st, callers, line);
                    lemma_inlined_marks(st, callers, line);
                    let call = Move {
                        state: m.state,
                        ops: seq![call_of(outer.state.functions, name)],
                    };
                    lemma_accounts_call(outer.state, name, m.state);
                    assert(m.ops =~= outer.ops + call.ops);
                    lemma_accounts_joined(st, outer, call, m);
                } else {
                    lemma_accounts_quiet(st, m);
                }
            },
            None => {
                lemma_accounts_quiet(st, m);
            },
        }
    }
}

proof fn lemma_inlined_marks(st: TracerView, callers: Seq<Seq<char>>, line: u32)
    ensures
        inlined(st, callers, line).state.main_open == st.main_open,
        inlined(st, callers, line).state.leaf_open == st.leaf_open,
    decreases callers.len(),
{
    if callers.len() > 0 {
        lemma_inlined_marks(st, callers.drop_last(), line);
    }
}

proof fn lemma_accounts_switched(
    source: Seq<char>,
    st: TracerView,
    prev: Seq<char>,
    name: Seq<char>,
    stack: Seq<u64>,
)
    requires
        st.functions.no_duplicates(),
        st.functions.contains(name),
    ensures
        accounts(st, switched(source, st, prev, name, stack)),
        switched(source, st, prev, name, stack).state.functions == st.functions,
{
    let m = switched(source, st, prev, name, stack);
    if st.frames.len() > 0 && st.frames.last() == name {
        lemma_accounts_returns(st, 1, m.state);
    } else if st.leaf_open && last_segment(name) == "#main"@ && !crate::tracer::model::holds_main(
        st.frames,
    ) {
        lemma_accounts_returns(st, st.frames.len() + 1, m.state);
    } else {
        let staged = Move { state: st, ops: arguments(stack) };
        lemma_accounts_arguments(st, stack);
        let call = Move { state: m.state, ops: seq![call_of(st.functions, name)] };
        if crate::tracer::model::siblings(source, st.frames, prev, name) {
            let closed = Move {
                state: TracerView { frames: st.frames.drop_last(), ..st },
                ops: return_ops(1),
            };
            lemma_accounts_returns(st, 1, closed.state);
            lemma_accounts_arguments(closed.state, stack);
            lemma_accounts_call(closed.state, name, m.state);
            let tail = Move { state: m.state, ops: arguments(stack).push(call_of(st.functions, name)) };
            assert(tail.ops =~= arguments(stack) + call.ops);
            lemma_accounts_joined(
                closed.state,
                (Move { state: closed.state, ops: arguments(stack) }),
                call,
                tail,
            );
            lemma_accounts_joined(st, closed, tail, m);
        } else {
            lemma_accounts_call(st, name, m.state);
            assert(m.ops =~= staged.ops + call.ops);
            lemma_accounts_joined(st, staged, call, m);
        }
    }
}

proof fn lemma_accounts_entered(
    source: Seq<char>,
    st: TracerView,
    name: Seq<char>,
    line: u32,
    stack: Seq<u64>,
)
    requires
        st.functions.no_duplicates(),
        st.context is None ==> !st.main_open && !st.leaf_open,
        st.context matches Some(c) ==> st.functions.contains(c),
    ensures
        accounts(st, entered(source, st, name, line, stack)),
        entered(source, st, name, line, stack).state.functions.contains(name),
        entered(source, st, name, line, stack).state.context == Some(name),
{
    let m = entered(source, st, name, line, stack);
    if st.context == Some(name) {
        lemma_accounts_quiet(st, m);
    } else {
        let known = TracerView { functions: with_function(st.functions, name), ..st };
        lemma_accounts_registration(st, name, line);
        let inner = match st.context {
            None => first_context(source, known, name, line),
            Some(prev) => switched(source, known, prev, name, stack),
        };
        match st.context {
            None => {
                lemma_accounts_first(source, known, name, line);
            },
            Some(prev) => {
                lemma_accounts_switched(source, known, prev, name, stack);
            },
        }
        let registering = Move { state: known, ops: registration(st.functions, name, line) };
        let inside = Move { state: m.state, ops: inner.ops };
        assert(accounts(known, inside));
        lemma_accounts_joined(st, registering, inside, m);
    }
}

/// What the tracer keeps from one state to the next.
spec fn steady(st: TracerView) -> bool {
    &&& st.functions.no_duplicates()
    &&& st.context is None ==> !st.main_open && !st.leaf_open
    &&& st.context matches Some(c) ==> st.functions.contains(c)
}

proof fn lemma_local_quiet(slots: Seq<u32>, num_locals: u16, fmp: u64, memory: Seq<(u32, u64)>)
    ensures
        forall|k: int|
            0 <= k < local_variables(slots, num_locals, fmp, memory).len() ==> quiet(
                #[trigger] local_variables(slots, num_locals, fmp, memory)[k],
            ),
    decreases slots.len(),
{
    if slots.len() > 0 && num_locals > 0 {
        lemma_local_quiet(slots.drop_last(), num_locals, fmp, memory);
        let earlier = local_variables(slots.drop_last(), num_locals, fmp, memory);
        let all = local_variables(slots, num_locals, fmp, memory);
        assert forall|k: int| 0 <= k < all.len() implies quiet(#[trigger] all[k]) by {
            if k < earlier.len() {
                assert(quiet(earlier[k]));
            }
        }
    }
}

proof fn lemma_accounts_observed(source: Seq<char>, st: TracerView, step: VmStepView)
    requires
        steady(st),
    ensures
        accounts(st, observed(source, st, step)),
        steady(observed(source, st, step).state),
        (step.asmop matches Some(a) && a.cycle_idx == 1 && a.start is Some) ==> observed(
            source,
            st,
            step,
        ).state.functions.contains(step.asmop->0.context_name),
{
    let m = observed(source, st, step);
    match step.asmop {
        None => {
            lemma_accounts_quiet(st, m);
        },
        Some(a) => {
            let taken = captured(st, step.stack, a);
            if a.cycle_idx != 1 || a.start is None {
                lemma_accounts_quiet(st, m);
            } else {
                let line = line_at(source, a.start->0);
                let inside = entered(source, taken, a.context_name, line, step.stack);
                lemma_accounts_entered(source, taken, a.context_name, line, step.stack);
                let moved = stepped(inside.state, line, a.op);
                lemma_accounts_quiet(inside.state, moved);
                let done = shown_values(moved.state, a.op, step);
                lemma_local_quiet(
                    with_slot(moved.state.slots, a.op),
                    moved.state.num_locals,
                    step.fmp,
                    step.memory,
                );
                lemma_accounts_quiet(moved.state, done);
                let both = Move { state: moved.state, ops: inside.ops + moved.ops };
                lemma_accounts_joined(taken, inside, moved, both);
                lemma_accounts_joined(taken, both, done, m);
            }
        },
    }
}

pub(crate) proof fn lemma_opening(source: Seq<char>, n: int)
    requires
        0 <= n <= declared_functions(source).len(),
    ensures
        depth_change(opening(source).take(n)) == 0,
        registered(opening(source).take(n)) == declared_functions(source).take(n),
    decreases n,
{
    if n > 0 {
        lemma_opening(source, n - 1);
        assert(opening(source).take(n).drop_last() =~= opening(source).take(n - 1));
        assert(declared_functions(source).take(n) =~= declared_functions(source).take(n - 1).push(
            declared_functions(source)[n - 1],
        ));
    } else {
        assert(opening(source).take(n) =~= seq![]);
        assert(declared_functions(source).take(n) =~= seq![]);
    }
}

/// No function is declared twice.
pub proof fn lemma_declared_once(source: Seq<char>)
    ensures
        declared_functions(source).no_duplicates(),
{
    lemma_declared_names(source);
    let names = proc_locals(source).names;
    let functions = declared_functions(source);
    assert forall|i: int, j: int|
        0 <= i < functions.len() && 0 <= j < functions.len() && i != j implies functions[i]
        != functions[j] by {
        let n = "#exec::"@.len() as int;
        assert(executable_name(names[i]).skip(n) =~= names[i]);
        assert(executable_name(names[j]).skip(n) =~= names[j]);
    }
}

proof fn lemma_fresh(source: Seq<char>)
    ensures
        steady(fresh(source)),
        open_calls(fresh(source)) == 0,
{
    lemma_declared_once(source);
}

/// The tracer after a number of events, none of which is an error, and the
/// operations on the way.
pub open spec fn progress(source: Seq<char>, events: Seq<VmEventView>) -> Move
    decreases events.len(),
{
    if events.len() == 0 {
        Move { state: fresh(source), ops: opening(source) }
    } else {
        let earlier = progress(source, events.drop_last());
        match events.last() {
            VmEventView::State(step) => {
                let next = observed(source, earlier.state, step);
                Move { state: next.state, ops: earlier.ops + next.ops }
            },
            VmEventView::Failed(_) => earlier,
        }
    }
}

/// No event is an error.
pub open spec fn runs_through(events: Seq<VmEventView>) -> bool {
    forall|i: int| 0 <= i < events.len() ==> #[trigger] events[i] is State
}

/// The number of events before the first error, or all of them.
pub open spec fn run_length(events: Seq<VmEventView>) -> nat
    decreases events.len(),
{
    if events.len() == 0 || events[0] is Failed {
        0
    } else {
        1 + run_length(events.drop_first())
    }
}

/// The error that ended an execution.
pub open spec fn error_of(events: Seq<VmEventView>) -> Option<Seq<char>> {
    if run_length(events) < events.len() {
        match events[run_length(events) as int] {
            VmEventView::Failed(message) => Some(message),
            VmEventView::State(_) => None,
        }
    } else {
        None
    }
}

proof fn lemma_run_length(events: Seq<VmEventView>)
    ensures
        run_length(events) <= events.len(),
        runs_through(events.take(run_length(events) as int)),
        run_length(events) < events.len() ==> events[run_length(events) as int] is Failed,
    decreases events.len(),
{
    if events.len() > 0 && events[0] is State {
        let rest = events.drop_first();
        lemma_run_length(rest);
        let n = run_length(events) as int;
        assert forall|i: int| 0 <= i < n implies #[trigger] events.take(n)[i] is State by {
            if i > 0 {
                assert(rest.take(n - 1)[i - 1] is State);
            }
        }
    }
}

proof fn lemma_rest_from(source: Seq<char>, events: Seq<VmEventView>, n: int)
    requires
        0 <= n <= run_length(events),
        run_length(events) <= events.len(),
        runs_through(events.take(run_length(events) as int)),
    ensures
        trace_of(source, events) == progress(source, events.take(n)).ops + rest_of_trace(
            source,
            progress(source, events.take(n)).state,
            events.skip(n),
        ),
    decreases n,
{
    if n == 0 {
        assert(events.take(0) =~= seq![]);
        assert(events.skip(0) =~= events);
    } else {
        lemma_rest_from(source, events, n - 1);
        let earlier = progress(source, events.take(n - 1));
        let rest = events.skip(n - 1);
        assert(events.take(n).drop_last() =~= events.take(n - 1));
        assert(events.take(run_length(events) as int)[n - 1] is State);
        assert(rest[0] == events[n - 1]);
        assert(rest.drop_first() =~= events.skip(n));
        let next = observed(source, earlier.state, events[n - 1]->State_0);
        assert(earlier.ops + (next.ops + rest_of_trace(source, next.state, events.skip(n)))
            =~= (earlier.ops + next.ops) + rest_of_trace(source, next.state, events.skip(n)));
    }
}

/// A trace consists of what the states before the first error give rise to, and
/// of the end. What follows the error has no part in it.
pub proof fn lemma_trace_in_two(source: Seq<char>, events: Seq<VmEventView>)
    ensures
        trace_of(source, events) == progress(
            source,
            events.take(run_length(events) as int),
        ).ops + closing(
            progress(source, events.take(run_length(events) as int)).state,
            error_of(events),
        ),
{
    lemma_run_length(events);
    lemma_rest_from(source, events, run_length(events) as int);
    let n = run_length(events) as int;
    if n < events.len() {
        assert(events.skip(n)[0] == events[n]);
    } else {
        assert(events.skip(n) =~= seq![]);
    }
}

proof fn lemma_progress(source: Seq<char>, events: Seq<VmEventView>)
    requires
        runs_through(events),
    ensures
        steady(progress(source, events).state),
        progress(source, events).state.functions == registered(progress(source, events).ops),
        open_calls(progress(source, events).state) == depth_change(progress(source, events).ops),
        covered(0, progress(source, events).ops),
        calls_known(Seq::empty(), progress(source, events).ops),
        declared_functions(source).is_prefix_of(progress(source, events).state.functions),
        forall|i: int|
            0 <= i < events.len() && enters(#[trigger] events[i])
                ==> progress(source, events).state.functions.contains(context_of(events[i])),
    decreases events.len(),
{
    let m = progress(source, events);
    if events.len() == 0 {
        lemma_fresh(source);
        let ops = opening(source);
        let n = declared_functions(source).len() as int;
        lemma_opening(source, n);
        assert(ops.take(n) =~= ops);
        assert(declared_functions(source).take(n) =~= declared_functions(source));
        assert forall|k: int| 0 <= k <= ops.len() implies 0 + #[trigger] depth_change(ops.take(k))
            >= 0 by {
            lemma_opening(source, k);
        }
    } else {
        let shorter = events.drop_last();
        assert forall|i: int| 0 <= i < shorter.len() implies #[trigger] shorter[i] is State by {
            assert(events[i] is State);
        }
        lemma_progress(source, shorter);
        let earlier = progress(source, shorter);
        let last = events.len() - 1;
        assert(events[last] is State);
        let step = events[last]->State_0;
        let next = observed(source, earlier.state, step);
        lemma_accounts_observed(source, earlier.state, step);
        // The account of the whole trace is that of a tracer that started with
        // nothing.
        let nothing = TracerView { functions: seq![], ..fresh(source) };
        assert(Seq::<Seq<char>>::empty() + registered(earlier.ops) =~= registered(earlier.ops));
        assert(accounts(nothing, earlier));
        lemma_accounts_joined(nothing, earlier, next, m);
        assert(Seq::<Seq<char>>::empty() + registered(m.ops) =~= registered(m.ops));
        assert(declared_functions(source).is_prefix_of(m.state.functions));
        assert forall|i: int| 0 <= i < events.len() && enters(#[trigger] events[i]) implies
            m.state.functions.contains(context_of(events[i])) by {
            if i < last {
                assert(shorter[i] == events[i]);
                let name = context_of(events[i]);
                let j = earlier.state.functions.index_of(name);
                assert(m.state.functions[j] == name);
            }
        }
    }
}

/// The event is the first cycle of an instruction whose place in the source is
/// known.
pub open spec fn enters(event: VmEventView) -> bool {
    event matches VmEventView::State(step) && step.asmop matches Some(a) && a.cycle_idx == 1
        && a.start is Some
}

/// The procedure that the instruction of an event belongs to.
pub open spec fn context_of(event: VmEventView) -> Seq<char> {
    event->State_0.asmop->0.context_name
}

/// Every trace is balanced: it closes each call that it opens and, with its
/// last operation, the toplevel call that the writer opens before it. No
/// earlier operation closes the toplevel call.
pub proof fn lemma_trace_balanced(source: Seq<char>, events: Seq<VmEventView>)
    ensures
        trace_of(source, events).len() > 0,
        trace_of(source, events).last() == OpView::Return,
        depth_change(trace_of(source, events)) == -1,
        covered(0, trace_of(source, events).drop_last()),
{
    lemma_run_length(events);
    lemma_trace_in_two(source, events);
    let run = events.take(run_length(events) as int);
    lemma_progress(source, run);
    let m = progress(source, run);
    let error = failure(error_of(events));
    let n = open_calls(m.state);
    let trace = trace_of(source, events);
    let end = closing(m.state, error_of(events));
    lemma_quiet(error);
    lemma_return_ops(n + 1);
    lemma_joined(error, return_ops(n + 1));
    lemma_joined(m.ops, end);
    assert(end.last() == return_ops(n + 1).last());
    let body = trace.drop_last();
    assert(body =~= m.ops + (error + return_ops(n)));
    assert forall|k: int| 0 <= k <= body.len() implies 0 + #[trigger] depth_change(body.take(k))
        >= 0 by {
        if k <= m.ops.len() {
            assert(body.take(k) =~= m.ops.take(k));
        } else {
            let j = k - m.ops.len();
            assert(body.take(k) =~= m.ops + (error + return_ops(n)).take(j));
            lemma_joined(m.ops, (error + return_ops(n)).take(j));
            if j <= error.len() {
                assert((error + return_ops(n)).take(j) =~= error.take(j));
                lemma_quiet(error.take(j));
            } else {
                let r = (j - error.len()) as nat;
                assert((error + return_ops(n)).take(j) =~= error + return_ops(r));
                lemma_joined(error, return_ops(r));
                lemma_return_ops(r);
            }
        }
    }
}

/// Every call in a trace is of a function that the trace has registered
/// before, and no name is registered twice.
pub proof fn lemma_trace_functions(source: Seq<char>, events: Seq<VmEventView>)
    ensures
        registered(trace_of(source, events)).no_duplicates(),
        calls_known(Seq::empty(), trace_of(source, events)),
{
    lemma_run_length(events);
    lemma_trace_in_two(source, events);
    let run = events.take(run_length(events) as int);
    lemma_progress(source, run);
    let m = progress(source, run);
    lemma_closing_registers(m.state, error_of(events));
    let end = closing(m.state, error_of(events));
    let trace = trace_of(source, events);
    lemma_joined(m.ops, end);
    assert(registered(trace) =~= registered(m.ops));
    assert forall|k: int| 0 <= k < trace.len() implies match #[trigger] trace[k] {
        OpView::Call { function } => 0 <= function < Seq::<Seq<char>>::empty().len() + registered(
            trace.take(k),
        ).len(),
        _ => true,
    } by {
        if k < m.ops.len() {
            assert(trace[k] == m.ops[k]);
            assert(trace.take(k) =~= m.ops.take(k));
        } else {
            assert(trace[k] == end[k - m.ops.len()]);
        }
    }
}

proof fn lemma_closing_registers(st: TracerView, error: Option<Seq<char>>)
    ensures
        registered(closing(st, error)) == Seq::<Seq<char>>::empty(),
        forall|k: int|
            0 <= k < closing(st, error).len() ==> !(#[trigger] closing(st, error)[k] is Call),
{
    lemma_quiet(failure(error));
    lemma_return_ops(open_calls(st) + 1);
    lemma_joined(failure(error), return_ops(open_calls(st) + 1));
    assert(registered(closing(st, error)) =~= Seq::empty());
}

/// Every procedure that the program declares is registered, before any other,
/// and so is every procedure to which an instruction of the execution belongs.
pub proof fn lemma_trace_registers(source: Seq<char>, events: Seq<VmEventView>)
    ensures
        declared_functions(source).is_prefix_of(registered(trace_of(source, events))),
        forall|i: int|
            0 <= i < run_length(events) && enters(#[trigger] events[i]) ==> registered(
                trace_of(source, events),
            ).contains(context_of(events[i])),
{
    lemma_run_length(events);
    lemma_trace_in_two(source, events);
    let run = events.take(run_length(events) as int);
    lemma_progress(source, run);
    let m = progress(source, run);
    lemma_closing_registers(m.state, error_of(events));
    lemma_joined(m.ops, closing(m.state, error_of(events)));
    assert(registered(trace_of(source, events)) =~= registered(m.ops));
    assert forall|i: int| 0 <= i < run_length(events) && enters(#[trigger] events[i]) implies
        registered(trace_of(source, events)).contains(context_of(events[i])) by {
        assert(run[i] == events[i]);
    }
}

/// The trace of an execution that fails is that of the execution up to the
/// failure, with the report of the error before the final returns.
pub proof fn lemma_failure_reported(source: Seq<char>, run: Seq<VmEventView>, message: Seq<char>)
    requires
        runs_through(run),
    ensures
        exists|n: nat|
            trace_of(source, run) == progress(source, run).ops + #[trigger] return_ops(n)
                && trace_of(source, run.push(VmEventView::Failed(message))) == progress(
                source,
                run,
            ).ops + seq![
                OpView::Event {
                    kind: EventKind::Error,
                    metadata: "miden_vm_error"@,
                    content: message,
                },
            ] + return_ops(n),
{
    let failed = run.push(VmEventView::Failed(message));
    lemma_whole_run(run, run);
    lemma_whole_run(run, failed);
    lemma_trace_in_two(source, run);
    lemma_trace_in_two(source, failed);
    assert(run.take(run.len() as int) =~= run);
    assert(failed.take(run.len() as int) =~= run);
    let n = open_calls(progress(source, run).state) + 1;
    assert(trace_of(source, run) =~= progress(source, run).ops + return_ops(n));
    assert(trace_of(source, failed) =~= progress(source, run).ops + failure(Some(message))
        + return_ops(n));
}

proof fn lemma_whole_run(run: Seq<VmEventView>, events: Seq<VmEventView>)
    requires
        runs_through(run),
        run.is_prefix_of(events),
        events.len() > run.len() ==> events[run.len() as int] is Failed,
    ensures
        run_length(events) == run.len(),
    decreases run.len(),
{
    if run.len() > 0 {
        assert(run[0] is State);
        assert(events[0] == run[0]);
        let shorter = run.drop_first();
        let rest = events.drop_first();
        assert forall|i: int| 0 <= i < shorter.len() implies #[trigger] shorter[i] is State by {
            assert(run[i + 1] is State);
        }
        assert forall|i: int| 0 <= i < shorter.len() implies shorter[i] == rest[i] by {
            assert(run[i + 1] == events[i + 1]);
        }
        assert(shorter =~= rest.subrange(0, shorter.len() as int));
        lemma_whole_run(shorter, rest);
    }
}

/// Every step is to one of the first `last` lines.
pub open spec fn steps_within(ops: Seq<OpView>, last: nat) -> bool {
    forall|k: int|
        #![trigger ops[k]]
        0 <= k < ops.len() ==> match ops[k] {
            OpView::Step { line } => 1 <= line <= last,
            _ => true,
        }
}

/// No operation is a step.
pub open spec fn no_step(ops: Seq<OpView>) -> bool {
    forall|k: int| 0 <= k < ops.len() ==> !(#[trigger] ops[k] is Step)
}

proof fn lemma_inlined_no_step(st: TracerView, callers: Seq<Seq<char>>, line: u32)
    ensures
        no_step(inlined(st, callers, line).ops),
    decreases callers.len(),
{
    if callers.len() > 0 {
        lemma_inlined_no_step(st, callers.drop_last(), line);
    }
}

pub(crate) proof fn lemma_entered_no_step(
    source: Seq<char>,
    st: TracerView,
    name: Seq<char>,
    line: u32,
    stack: Seq<u64>,
)
    ensures
        no_step(entered(source, st, name, line, stack).ops),
{
    if st.context is None {
        let known = TracerView { functions: with_function(st.functions, name), ..st };
        if let Some(c) = chain(
            parent_map(call_graph(source)),
            last_segment(name),
            CHAIN_LIMIT as nat,
        ) {
            lemma_inlined_no_step(known, c.subrange(1, c.len() - 1), line);
        }
    }
}

proof fn lemma_local_no_step(slots: Seq<u32>, num_locals: u16, fmp: u64, memory: Seq<(u32, u64)>)
    ensures
        no_step(local_variables(slots, num_locals, fmp, memory)),
    decreases slots.len(),
{
    if slots.len() > 0 && num_locals > 0 {
        lemma_local_no_step(slots.drop_last(), num_locals, fmp, memory);
    }
}

proof fn lemma_steps_joined(a: Seq<OpView>, b: Seq<OpView>, last: nat)
    requires
        steps_within(a, last),
        steps_within(b, last),
    ensures
        steps_within(a + b, last),
{
    let all = a + b;
    assert forall|k: int| 0 <= k < all.len() implies match #[trigger] all[k] {
        OpView::Step { line } => 1 <= line <= last,
        _ => true,
    } by {
        if k < a.len() {
            assert(all[k] == a[k]);
        } else {
            assert(all[k] == b[k - a.len()]);
        }
    }
}

proof fn lemma_observed_steps(source: Seq<char>, st: TracerView, step: VmStepView, last: nat)
    requires
        last == line_number(encode_utf8(source), encode_utf8(source).len() as int),
        last <= u32::MAX,
    ensures
        steps_within(observed(source, st, step).ops, last),
{
    if let Some(a) = step.asmop {
        if a.cycle_idx == 1 && a.start is Some {
            let taken = captured(st, step.stack, a);
            let line = line_at(source, a.start->0);
            lemma_line_number_bounds(encode_utf8(source), a.start->0 as int);
            let inside = entered(source, taken, a.context_name, line, step.stack);
            lemma_entered_no_step(source, taken, a.context_name, line, step.stack);
            let moved = stepped(inside.state, line, a.op);
            let done = shown_values(moved.state, a.op, step);
            let locals = local_variables(
                with_slot(moved.state.slots, a.op),
                moved.state.num_locals,
                step.fmp,
                step.memory,
            );
            lemma_local_no_step(
                with_slot(moved.state.slots, a.op),
                moved.state.num_locals,
                step.fmp,
                step.memory,
            );
            let shown = stack_variables(step.stack) + word_ops(moved.state.word) + advice_ops(
                moved.state.advice,
            );
            assert(steps_within(locals, last));
            assert(steps_within(shown, last));
            lemma_steps_joined(shown, locals, last);
            assert(steps_within(inside.ops, last));
            lemma_steps_joined(inside.ops, moved.ops, last);
            lemma_steps_joined(inside.ops + moved.ops, done.ops, last);
        }
    }
}

proof fn lemma_progress_steps(source: Seq<char>, events: Seq<VmEventView>, last: nat)
    requires
        last == line_number(encode_utf8(source), encode_utf8(source).len() as int),
        last <= u32::MAX,
    ensures
        steps_within(progress(source, events).ops, last),
    decreases events.len(),
{
    if events.len() > 0 {
        lemma_progress_steps(source, events.drop_last(), last);
        let earlier = progress(source, events.drop_last());
        if let VmEventView::State(step) = events.last() {
            lemma_observed_steps(source, earlier.state, step, last);
            lemma_steps_joined(earlier.ops, observed(source, earlier.state, step).ops, last);
        }
    }
}

/// Every step of a trace is to a line of the source.
pub proof fn lemma_steps_in_source(source: Seq<char>, events: Seq<VmEventView>)
    requires
        line_number(encode_utf8(source), encode_utf8(source).len() as int) <= u32::MAX,
    ensures
        steps_within(
            trace_of(source, events),
            line_number(encode_utf8(source), encode_utf8(source).len() as int),
        ),
{
    let last = line_number(encode_utf8(source), encode_utf8(source).len() as int);
    lemma_trace_in_two(source, events);
    let run = events.take(run_length(events) as int);
    lemma_progress_steps(source, run, last);
    let m = progress(source, run);
    let end = closing(m.state, error_of(events));
    assert(steps_within(end, last));
    lemma_steps_joined(m.ops, end, last);
}

} // verus!
