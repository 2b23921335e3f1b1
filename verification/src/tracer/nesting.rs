//! Which calls are open at each point of a trace, and which line it is at.

use vstd::prelude::*;

use crate::text::last_segment;
use crate::tracer::call_graph::call_graph;
use crate::tracer::call_graph::chain;
use crate::tracer::call_graph::parent_map;
use crate::tracer::call_graph::CHAIN_LIMIT;
use crate::tracer::laws::context_of;
use crate::tracer::laws::enters;
use crate::tracer::laws::lemma_declared_once;
use crate::tracer::laws::lemma_entered_no_step;
use crate::tracer::laws::lemma_joined;
use crate::tracer::laws::lemma_opening;
use crate::tracer::laws::lemma_still_known;
use crate::tracer::laws::no_step;
use crate::tracer::laws::progress;
use crate::tracer::laws::registered;
use crate::tracer::laws::runs_through;
use crate::tracer::model::arguments;
use crate::tracer::model::call_of;
use crate::tracer::model::captured;
use crate::tracer::model::declared_functions;
use crate::tracer::model::entered;
use crate::tracer::model::executable_name;
use crate::tracer::model::first_context;
use crate::tracer::model::holds_main;
use crate::tracer::model::inlined;
use crate::tracer::model::line_at;
use crate::tracer::model::local_variables;
use crate::tracer::model::observed;
use crate::tracer::model::opening;
use crate::tracer::model::registration;
use crate::tracer::model::return_ops;
use crate::tracer::model::shown_values;
use crate::tracer::model::siblings;
use crate::tracer::model::stepped;
use crate::tracer::model::switched;
use crate::tracer::model::with_function;
use crate::tracer::model::with_slot;
use crate::tracer::model::Move;
use crate::tracer::model::OpView;
use crate::tracer::model::TracerView;
use crate::tracer::vm::VmEventView;
use crate::tracer::vm::VmStepView;

verus! {

/// The functions whose calls are open after some operations, the innermost
/// last. `functions` are those registered before, `open` the calls open before.
pub open spec fn open_after(
    functions: Seq<Seq<char>>,
    open: Seq<Seq<char>>,
    ops: Seq<OpView>,
) -> Seq<Seq<char>>
    decreases ops.len(),
{
    if ops.len() == 0 {
        open
    } else {
        let earlier = open_after(functions, open, ops.drop_last());
        match ops.last() {
            OpView::Call { function } => earlier.push(
                (functions + registered(ops.drop_last()))[function],
            ),
            OpView::Return => if earlier.len() > 0 {
                earlier.drop_last()
            } else {
                earlier
            },
            _ => earlier,
        }
    }
}

/// The procedures whose calls are open by the tracer's account: those to return
/// to, and the current one. The outermost is not among them where the trace
/// began inside it.
pub open spec fn waiting(st: TracerView) -> Seq<Seq<char>> {
    match st.context {
        None => seq![],
        Some(name) => if st.main_open || st.leaf_open {
            st.frames.push(name)
        } else {
            st.frames.push(name).skip(1)
        },
    }
}

/// What the tracer keeps: before the first procedure nothing is open, and the
/// first procedure was opened in one way at most.
spec fn sound(st: TracerView) -> bool {
    &&& st.functions.no_duplicates()
    &&& st.context is None ==> st.frames == Seq::<Seq<char>>::empty() && !st.main_open
        && !st.leaf_open
    &&& !(st.main_open && st.leaf_open)
}

/// The operation neither opens nor closes a call.
spec fn calm(op: OpView) -> bool {
    !(op is Call) && !(op is Return)
}

proof fn lemma_open_joined(
    functions: Seq<Seq<char>>,
    open: Seq<Seq<char>>,
    a: Seq<OpView>,
    b: Seq<OpView>,
)
    ensures
        open_after(functions, open, a + b) == open_after(
            functions + registered(a),
            open_after(functions, open, a),
            b,
        ),
    decreases b.len(),
{
    if b.len() == 0 {
        assert(a + b =~= a);
    } else {
        assert((a + b).drop_last() =~= a + b.drop_last());
        assert((a + b).last() == b.last());
        lemma_open_joined(functions, open, a, b.drop_last());
        lemma_joined(a, b.drop_last());
        assert(functions + registered(a + b.drop_last()) =~= (functions + registered(a))
            + registered(b.drop_last()));
    }
}

proof fn lemma_open_calm(functions: Seq<Seq<char>>, open: Seq<Seq<char>>, ops: Seq<OpView>)
    requires
        forall|k: int| 0 <= k < ops.len() ==> calm(#[trigger] ops[k]),
    ensures
        open_after(functions, open, ops) == open,
    decreases ops.len(),
{
    if ops.len() > 0 {
        assert forall|k: int| 0 <= k < ops.drop_last().len() implies calm(
            #[trigger] ops.drop_last()[k],
        ) by {
            assert(calm(ops[k]));
        }
        lemma_open_calm(functions, open, ops.drop_last());
        assert(calm(ops[ops.len() - 1]));
    }
}

proof fn lemma_open_call(functions: Seq<Seq<char>>, open: Seq<Seq<char>>, name: Seq<char>)
    requires
        functions.contains(name),
    ensures
        open_after(functions, open, seq![call_of(functions, name)]) == open.push(name),
        registered(seq![call_of(functions, name)]) == Seq::<Seq<char>>::empty(),
{
    let ops = seq![call_of(functions, name)];
    reveal_with_fuel(open_after, 2);
    reveal_with_fuel(registered, 2);
    assert(ops.drop_last() =~= seq![]);
    assert(functions + registered(ops.drop_last()) =~= functions);
    assert(functions[functions.index_of(name)] == name);
}

proof fn lemma_open_returns(functions: Seq<Seq<char>>, open: Seq<Seq<char>>, n: nat)
    requires
        n <= open.len(),
    ensures
        open_after(functions, open, return_ops(n)) == open.take(open.len() - n),
        registered(return_ops(n)) == Seq::<Seq<char>>::empty(),
    decreases n,
{
    if n == 0 {
        assert(return_ops(n) =~= seq![]);
        assert(open.take(open.len() as int) =~= open);
    } else {
        lemma_open_returns(functions, open, (n - 1) as nat);
        assert(return_ops(n).drop_last() =~= return_ops((n - 1) as nat));
        assert(open.take(open.len() - n) =~= open.take(open.len() - (n - 1)).drop_last());
    }
}

/// The names that the VM gives procedures.
spec fn executable_names(procedures: Seq<Seq<char>>) -> Seq<Seq<char>> {
    procedures.map_values(|p: Seq<char>| executable_name(p))
}

proof fn lemma_registration(functions: Seq<Seq<char>>, name: Seq<char>, line: u32)
    ensures
        functions + registered(registration(functions, name, line)) == with_function(
            functions,
            name,
        ),
        with_function(functions, name).contains(name),
        functions.no_duplicates() ==> with_function(functions, name).no_duplicates(),
{
    let ops = registration(functions, name, line);
    if functions.contains(name) {
        assert(functions + registered(ops) =~= functions);
    } else {
        reveal_with_fuel(registered, 2);
        assert(ops.drop_last() =~= seq![]);
        assert(functions + registered(ops) =~= functions.push(name));
        assert(functions.push(name)[functions.len() as int] == name);
    }
}

proof fn lemma_open_inlined(
    st: TracerView,
    callers: Seq<Seq<char>>,
    line: u32,
    open: Seq<Seq<char>>,
)
    requires
        st.functions.no_duplicates(),
    ensures
        open_after(st.functions, open, inlined(st, callers, line).ops) == open + executable_names(
            callers,
        ),
        inlined(st, callers, line).state.frames == st.frames + executable_names(callers),
        inlined(st, callers, line).state.functions == st.functions + registered(
            inlined(st, callers, line).ops,
        ),
        inlined(st, callers, line).state.functions.no_duplicates(),
        inlined(st, callers, line).state.main_open == st.main_open,
        inlined(st, callers, line).state.leaf_open == st.leaf_open,
        forall|n: Seq<char>| #[trigger]
            st.functions.contains(n) ==> inlined(st, callers, line).state.functions.contains(n),
    decreases callers.len(),
{
    let all = inlined(st, callers, line);
    if callers.len() == 0 {
        assert(open + executable_names(callers) =~= open);
        assert(st.frames + executable_names(callers) =~= st.frames);
        assert(st.functions + registered(all.ops) =~= st.functions);
    } else {
        let shorter = callers.drop_last();
        let outer = inlined(st, shorter, line);
        lemma_open_inlined(st, shorter, line, open);
        let name = executable_name(callers.last());
        let reg = registration(outer.state.functions, name, line);
        let functions = with_function(outer.state.functions, name);
        let one = seq![call_of(functions, name)];
        lemma_registration(outer.state.functions, name, line);
        lemma_open_joined(st.functions, open, outer.ops, reg);
        lemma_open_calm(outer.state.functions, open + executable_names(shorter), reg);
        lemma_joined(outer.ops, reg);
        assert(st.functions + registered(outer.ops + reg) =~= functions) by {
            assert(st.functions + (registered(outer.ops) + registered(reg)) =~= (st.functions
                + registered(outer.ops)) + registered(reg));
        }
        lemma_open_joined(st.functions, open, outer.ops + reg, one);
        lemma_open_call(functions, open + executable_names(shorter), name);
        lemma_joined(outer.ops + reg, one);
        assert(registered(all.ops) =~= registered(outer.ops + reg));
        assert(executable_names(callers) =~= executable_names(shorter).push(name));
        assert((open + executable_names(shorter)).push(name) =~= open + executable_names(callers));
        assert((st.frames + executable_names(shorter)).push(name) =~= st.frames
            + executable_names(callers));
        assert forall|n: Seq<char>| #[trigger]
            st.functions.contains(n) implies all.state.functions.contains(n) by {
            assert(outer.state.functions.contains(n));
            lemma_still_known(outer.state.functions, name, n);
        }
    }
}

/// What a move does to the open calls, where it ends in the procedure `name`.
spec fn opens(st: TracerView, open: Seq<Seq<char>>, m: Move, name: Seq<char>) -> bool {
    let there = TracerView { context: Some(name), ..m.state };
    &&& open_after(st.functions, open, m.ops) == waiting(there)
    &&& sound(there)
    &&& m.state.functions == st.functions + registered(m.ops)
}

proof fn lemma_opens_first(source: Seq<char>, st: TracerView, name: Seq<char>, line: u32)
    requires
        sound(st),
        st.context is None,
        st.functions.contains(name),
    ensures
        opens(st, Seq::empty(), first_context(source, st, name, line), name),
{
    let m = first_context(source, st, name, line);
    let none = Seq::<Seq<char>>::empty();
    if last_segment(name) == "#main"@ {
        lemma_open_call(st.functions, none, name);
        assert(st.functions + registered(m.ops) =~= st.functions);
        assert(st.frames.push(name) =~= none.push(name));
    } else {
        let found = chain(
            parent_map(call_graph(source)),
            last_segment(name),
            CHAIN_LIMIT as nat,
        );
        if found is Some && found->0.len() > 2 {
            let callers = found->0.subrange(1, found->0.len() - 1);
            let outer = inlined(st, callers, line);
            lemma_open_inlined(st, callers, line, none);
            let one = seq![call_of(outer.state.functions, name)];
            lemma_open_call(outer.state.functions, none + executable_names(callers), name);
            assert(m.ops =~= outer.ops + one);
            lemma_open_joined(st.functions, none, outer.ops, one);
            lemma_joined(outer.ops, one);
            assert(registered(m.ops) =~= registered(outer.ops));
            assert(outer.state.frames =~= none + executable_names(callers));
        } else {
            assert(m.ops =~= seq![]);
            assert(st.functions + registered(m.ops) =~= st.functions);
            assert(st.frames.push(name).skip(1) =~= none);
        }
    }
}

proof fn lemma_opens_switched(
    source: Seq<char>,
    st: TracerView,
    prev: Seq<char>,
    name: Seq<char>,
    stack: Seq<u64>,
)
    requires
        sound(st),
        st.context == Some(prev),
        st.functions.contains(name),
    ensures
        opens(st, waiting(st), switched(source, st, prev, name, stack), name),
{
    let m = switched(source, st, prev, name, stack);
    let open = waiting(st);
    let whole = st.frames.push(prev);
    let one = seq![call_of(st.functions, name)];
    let staged = arguments(stack);
    if st.frames.len() > 0 && st.frames.last() == name {
        lemma_open_returns(st.functions, open, 1);
        assert(st.functions + registered(m.ops) =~= st.functions);
        assert(st.frames.drop_last().push(name) =~= st.frames);
        assert(whole.take(whole.len() - 1) =~= st.frames);
        assert(whole.skip(1).take(whole.len() - 2) =~= st.frames.skip(1));
    } else if st.leaf_open && last_segment(name) == "#main"@ && !holds_main(st.frames) {
        lemma_open_returns(st.functions, open, st.frames.len() + 1);
        assert(st.functions + registered(m.ops) =~= st.functions);
        let none = Seq::<Seq<char>>::empty();
        assert(open.take(0) =~= none);
        assert(none.push(name).skip(1) =~= none);
    } else if siblings(source, st.frames, prev, name) {
        let closed = open.take(open.len() - 1);
        lemma_open_returns(st.functions, open, 1);
        lemma_open_calm(st.functions, closed, staged);
        lemma_open_call(st.functions, closed, name);
        lemma_no_names(staged);
        lemma_open_joined(st.functions, closed, staged, one);
        assert(staged.push(call_of(st.functions, name)) =~= staged + one);
        lemma_joined(staged, one);
        assert(st.functions + registered(staged) =~= st.functions);
        lemma_open_joined(st.functions, open, return_ops(1), staged + one);
        lemma_joined(return_ops(1), staged + one);
        assert(st.functions + registered(return_ops(1)) =~= st.functions);
        assert(st.functions + registered(m.ops) =~= st.functions);
        assert(closed.push(name) =~= waiting(TracerView { context: Some(name), ..st }));
    } else {
        lemma_open_calm(st.functions, open, staged);
        lemma_open_call(st.functions, open, name);
        lemma_no_names(staged);
        lemma_open_joined(st.functions, open, staged, one);
        assert(staged.push(call_of(st.functions, name)) =~= staged + one);
        lemma_joined(staged, one);
        assert(st.functions + registered(staged) =~= st.functions);
        assert(st.functions + registered(m.ops) =~= st.functions);
        assert(whole.push(name).skip(1) =~= whole.skip(1).push(name));
    }
}

proof fn lemma_no_names(ops: Seq<OpView>)
    requires
        forall|k: int| 0 <= k < ops.len() ==> !(#[trigger] ops[k] is EnsureFunction),
    ensures
        registered(ops) == Seq::<Seq<char>>::empty(),
    decreases ops.len(),
{
    if ops.len() > 0 {
        assert forall|k: int| 0 <= k < ops.drop_last().len() implies !(
        #[trigger] ops.drop_last()[k] is EnsureFunction) by {
            assert(!(ops[k] is EnsureFunction));
        }
        lemma_no_names(ops.drop_last());
        assert(!(ops[ops.len() - 1] is EnsureFunction));
    }
}

proof fn lemma_opens_entered(
    source: Seq<char>,
    st: TracerView,
    name: Seq<char>,
    line: u32,
    stack: Seq<u64>,
)
    requires
        sound(st),
    ensures
        opens(st, waiting(st), entered(source, st, name, line, stack), name),
        entered(source, st, name, line, stack).state.context == Some(name),
{
    let m = entered(source, st, name, line, stack);
    if st.context == Some(name) {
        assert(m.ops =~= seq![]);
        assert(st.functions + registered(m.ops) =~= st.functions);
        assert(TracerView { context: Some(name), ..m.state } == st);
    } else {
        let reg = registration(st.functions, name, line);
        let known = TracerView { functions: with_function(st.functions, name), ..st };
        lemma_registration(st.functions, name, line);
        let inner = match st.context {
            None => first_context(source, known, name, line),
            Some(prev) => switched(source, known, prev, name, stack),
        };
        match st.context {
            None => {
                lemma_opens_first(source, known, name, line);
            },
            Some(prev) => {
                lemma_opens_switched(source, known, prev, name, stack);
            },
        }
        assert(waiting(known) == waiting(st));
        lemma_open_calm(st.functions, waiting(st), reg);
        lemma_open_joined(st.functions, waiting(st), reg, inner.ops);
        lemma_joined(reg, inner.ops);
        assert(st.functions + registered(m.ops) =~= (st.functions + registered(reg)) + registered(
            inner.ops,
        ));
        let there = TracerView { context: Some(name), ..inner.state };
        assert(waiting(m.state) == waiting(there));
    }
}

proof fn lemma_local_calm(slots: Seq<u32>, num_locals: u16, fmp: u64, memory: Seq<(u32, u64)>)
    ensures
        forall|k: int|
            0 <= k < local_variables(slots, num_locals, fmp, memory).len() ==> (
            #[trigger] local_variables(slots, num_locals, fmp, memory)[k]) is Variable,
    decreases slots.len(),
{
    if slots.len() > 0 && num_locals > 0 {
        lemma_local_calm(slots.drop_last(), num_locals, fmp, memory);
        let earlier = local_variables(slots.drop_last(), num_locals, fmp, memory);
        let all = local_variables(slots, num_locals, fmp, memory);
        assert forall|k: int| 0 <= k < all.len() implies (#[trigger] all[k]) is Variable by {
            if k < earlier.len() {
                assert(earlier[k] is Variable);
            }
        }
    }
}

proof fn lemma_observed_opens(source: Seq<char>, st: TracerView, step: VmStepView)
    requires
        sound(st),
    ensures
        open_after(st.functions, waiting(st), observed(source, st, step).ops) == waiting(
            observed(source, st, step).state,
        ),
        sound(observed(source, st, step).state),
        observed(source, st, step).state.functions == st.functions + registered(
            observed(source, st, step).ops,
        ),
        enters(VmEventView::State(step)) ==> observed(source, st, step).state.context == Some(
            context_of(VmEventView::State(step)),
        ),
{
    let m = observed(source, st, step);
    if enters(VmEventView::State(step)) {
        let a = step.asmop->0;
        let taken = captured(st, step.stack, a);
        let line = line_at(source, a.start->0);
        let inside = entered(source, taken, a.context_name, line, step.stack);
        lemma_opens_entered(source, taken, a.context_name, line, step.stack);
        assert(waiting(taken) == waiting(st));
        let moved = stepped(inside.state, line, a.op);
        let done = shown_values(moved.state, a.op, step);
        lemma_local_calm(
            with_slot(moved.state.slots, a.op),
            moved.state.num_locals,
            step.fmp,
            step.memory,
        );
        let rest = moved.ops + done.ops;
        assert forall|k: int| 0 <= k < rest.len() implies calm(#[trigger] rest[k]) && !(rest[k] is
            EnsureFunction) by {
            if k < moved.ops.len() {
                assert(rest[k] == moved.ops[k]);
            } else {
                assert(rest[k] == done.ops[k - moved.ops.len()]);
            }
        }
        lemma_no_names(rest);
        lemma_open_calm(inside.state.functions, waiting(inside.state), rest);
        lemma_open_joined(st.functions, waiting(st), inside.ops, rest);
        lemma_joined(inside.ops, rest);
        assert(m.ops =~= inside.ops + rest);
        assert(st.functions + registered(m.ops) =~= st.functions + registered(inside.ops));
        assert(TracerView { context: Some(a.context_name), ..inside.state } == inside.state);
        assert(waiting(m.state) == waiting(inside.state));
    } else {
        assert(m.ops =~= seq![]);
        assert(st.functions + registered(m.ops) =~= st.functions);
        assert(waiting(m.state) == waiting(st));
    }
}

proof fn lemma_progress_opens(source: Seq<char>, run: Seq<VmEventView>)
    requires
        runs_through(run),
    ensures
        open_after(Seq::empty(), Seq::empty(), progress(source, run).ops) == waiting(
            progress(source, run).state,
        ),
        sound(progress(source, run).state),
        progress(source, run).state.functions == registered(progress(source, run).ops),
    decreases run.len(),
{
    let none = Seq::<Seq<char>>::empty();
    let m = progress(source, run);
    if run.len() == 0 {
        let ops = opening(source);
        let functions = declared_functions(source);
        lemma_opening(source, functions.len() as int);
        assert(ops.take(functions.len() as int) =~= ops);
        assert(functions.take(functions.len() as int) =~= functions);
        lemma_open_calm(none, none, ops);
        lemma_declared_once(source);
    } else {
        let shorter = run.drop_last();
        let last = run.len() - 1;
        assert forall|i: int| 0 <= i < shorter.len() implies #[trigger] shorter[i] is State by {
            assert(run[i] is State);
        }
        lemma_progress_opens(source, shorter);
        assert(run[last] is State);
        let earlier = progress(source, shorter);
        let step = run[last]->State_0;
        let next = observed(source, earlier.state, step);
        lemma_observed_opens(source, earlier.state, step);
        lemma_open_joined(none, none, earlier.ops, next.ops);
        lemma_joined(earlier.ops, next.ops);
        assert(none + registered(earlier.ops) =~= registered(earlier.ops));
        assert(m.state.functions =~= registered(m.ops));
    }
}

/// At every point of a trace the open calls are those of the procedures to
/// return to and of the current procedure, in this order. So a return always
/// closes the procedure that was entered last. Where the trace began inside a
/// procedure for which no call was opened, that one is missing at the front.
pub proof fn lemma_open_calls(source: Seq<char>, run: Seq<VmEventView>)
    requires
        runs_through(run),
    ensures
        open_after(Seq::empty(), Seq::empty(), progress(source, run).ops) == waiting(
            progress(source, run).state,
        ),
{
    lemma_progress_opens(source, run);
}

/// Right after the first cycle of an instruction the innermost open call, if
/// any is open, is that of the procedure to which the instruction belongs.
pub proof fn lemma_innermost_call(source: Seq<char>, run: Seq<VmEventView>)
    requires
        runs_through(run),
        run.len() > 0,
        enters(run.last()),
    ensures
        ({
            let open = open_after(Seq::empty(), Seq::empty(), progress(source, run).ops);
            open.len() > 0 ==> open.last() == context_of(run.last())
        }),
{
    lemma_progress_opens(source, run);
    let shorter = run.drop_last();
    assert forall|i: int| 0 <= i < shorter.len() implies #[trigger] shorter[i] is State by {
        assert(run[i] is State);
    }
    lemma_progress_opens(source, shorter);
    let step = run.last()->State_0;
    lemma_observed_opens(source, progress(source, shorter).state, step);
    let st = progress(source, run).state;
    assert(st.context == Some(context_of(run.last())));
    let whole = st.frames.push(context_of(run.last()));
    assert(whole.skip(1).len() > 0 ==> whole.skip(1).last() == whole.last());
}

/// The line of the last step among the operations.
pub open spec fn last_line(ops: Seq<OpView>) -> Option<u32>
    decreases ops.len(),
{
    if ops.len() == 0 {
        None
    } else {
        match ops.last() {
            OpView::Step { line } => Some(line),
            _ => last_line(ops.drop_last()),
        }
    }
}

proof fn lemma_last_line_joined(a: Seq<OpView>, b: Seq<OpView>)
    ensures
        last_line(a + b) == match last_line(b) {
            Some(line) => Some(line),
            None => last_line(a),
        },
    decreases b.len(),
{
    if b.len() == 0 {
        assert(a + b =~= a);
    } else {
        assert((a + b).drop_last() =~= a + b.drop_last());
        lemma_last_line_joined(a, b.drop_last());
    }
}

proof fn lemma_no_last_line(ops: Seq<OpView>)
    requires
        no_step(ops),
    ensures
        last_line(ops) is None,
    decreases ops.len(),
{
    if ops.len() > 0 {
        assert(!(ops[ops.len() - 1] is Step));
        assert forall|k: int| 0 <= k < ops.drop_last().len() implies !(
        #[trigger] ops.drop_last()[k] is Step) by {
            assert(!(ops[k] is Step));
        }
        lemma_no_last_line(ops.drop_last());
    }
}

proof fn lemma_entered_line(
    source: Seq<char>,
    st: TracerView,
    name: Seq<char>,
    line: u32,
    stack: Seq<u64>,
)
    ensures
        entered(source, st, name, line, stack).state.line == st.line,
{
    if st.context is None {
        let known = TracerView { functions: with_function(st.functions, name), ..st };
        if let Some(c) = chain(
            parent_map(call_graph(source)),
            last_segment(name),
            CHAIN_LIMIT as nat,
        ) {
            lemma_inlined_line(known, c.subrange(1, c.len() - 1), line);
        }
    }
}

proof fn lemma_inlined_line(st: TracerView, callers: Seq<Seq<char>>, line: u32)
    ensures
        inlined(st, callers, line).state.line == st.line,
    decreases callers.len(),
{
    if callers.len() > 0 {
        lemma_inlined_line(st, callers.drop_last(), line);
    }
}

proof fn lemma_observed_line(source: Seq<char>, st: TracerView, step: VmStepView)
    ensures
        observed(source, st, step).state.line == match last_line(observed(source, st, step).ops) {
            Some(line) => Some(line),
            None => st.line,
        },
        enters(VmEventView::State(step)) ==> observed(source, st, step).state.line == Some(
            line_at(source, step.asmop->0.start->0),
        ),
{
    let m = observed(source, st, step);
    if enters(VmEventView::State(step)) {
        let a = step.asmop->0;
        let taken = captured(st, step.stack, a);
        let line = line_at(source, a.start->0);
        let inside = entered(source, taken, a.context_name, line, step.stack);
        lemma_entered_no_step(source, taken, a.context_name, line, step.stack);
        lemma_entered_line(source, taken, a.context_name, line, step.stack);
        lemma_no_last_line(inside.ops);
        let moved = stepped(inside.state, line, a.op);
        let done = shown_values(moved.state, a.op, step);
        lemma_local_calm(
            with_slot(moved.state.slots, a.op),
            moved.state.num_locals,
            step.fmp,
            step.memory,
        );
        assert(no_step(done.ops));
        lemma_no_last_line(done.ops);
        lemma_last_line_joined(inside.ops, moved.ops);
        lemma_last_line_joined(inside.ops + moved.ops, done.ops);
        reveal_with_fuel(last_line, 2);
    }
}

proof fn lemma_progress_line(source: Seq<char>, run: Seq<VmEventView>)
    requires
        runs_through(run),
    ensures
        progress(source, run).state.line == last_line(progress(source, run).ops),
    decreases run.len(),
{
    if run.len() == 0 {
        lemma_no_last_line(opening(source));
    } else {
        let shorter = run.drop_last();
        let last = run.len() - 1;
        assert forall|i: int| 0 <= i < shorter.len() implies #[trigger] shorter[i] is State by {
            assert(run[i] is State);
        }
        lemma_progress_line(source, shorter);
        assert(run[last] is State);
        let earlier = progress(source, shorter);
        let step = run[last]->State_0;
        lemma_observed_line(source, earlier.state, step);
        lemma_last_line_joined(earlier.ops, observed(source, earlier.state, step).ops);
    }
}

/// Right after the first cycle of an instruction the trace is at the line on
/// which the instruction begins.
pub proof fn lemma_current_line(source: Seq<char>, run: Seq<VmEventView>)
    requires
        runs_through(run),
        run.len() > 0,
        enters(run.last()),
    ensures
        last_line(progress(source, run).ops) == Some(
            line_at(source, run.last()->State_0.asmop->0.start->0),
        ),
{
    lemma_progress_line(source, run);
    let shorter = run.drop_last();
    lemma_observed_line(source, progress(source, shorter).state, run.last()->State_0);
}

} // verus!
