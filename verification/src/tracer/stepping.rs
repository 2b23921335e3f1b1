//! When a trace steps: at a change of line, and where the instruction that the
//! visit of a line began with comes round again.

use vstd::prelude::*;

use crate::source_map::line_number;
use crate::text::last_segment;
use crate::tracer::call_graph::call_graph;
use crate::tracer::call_graph::chain;
use crate::tracer::call_graph::parent_map;
use crate::tracer::call_graph::CHAIN_LIMIT;
use crate::tracer::laws::enters;
use crate::tracer::laws::lemma_entered_no_step;
use crate::tracer::laws::no_step;
use crate::tracer::laws::progress;
use crate::tracer::laws::runs_through;
use crate::tracer::model::captured;
use crate::tracer::model::entered;
use crate::tracer::model::inlined;
use crate::tracer::model::local_variables;
use crate::tracer::model::observed;
use crate::tracer::model::shown_values;
use crate::tracer::model::stepped;
use crate::tracer::model::with_function;
use crate::tracer::model::with_slot;
use crate::tracer::model::Move;
use crate::tracer::model::OpView;
use crate::tracer::model::TracerView;
use crate::tracer::vm::VmEventView;

verus! {

/// What the last event of a run adds to the trace.
pub open spec fn added(source: Seq<char>, run: Seq<VmEventView>) -> Seq<OpView> {
    progress(source, run).ops.skip(progress(source, run.drop_last()).ops.len() as int)
}

/// The instruction of an event, as it is written.
pub open spec fn op_of(event: VmEventView) -> Seq<char> {
    event->State_0.asmop->0.op
}

/// The line on which the instruction of an event begins.
pub open spec fn line_of(source: Seq<char>, event: VmEventView) -> u32 {
    line_number(vstd::utf8::encode_utf8(source), event->State_0.asmop->0.start->0 as int) as u32
}

/// The trace steps at an event of a run.
pub open spec fn steps_at(source: Seq<char>, run: Seq<VmEventView>, i: int) -> bool {
    exists|k: int|
        0 <= k < added(source, run.take(i + 1)).len() && (#[trigger] added(
            source,
            run.take(i + 1),
        )[k]) is Step
}

/// No instruction begins between two events.
pub open spec fn nothing_between(run: Seq<VmEventView>, i: int, j: int) -> bool {
    forall|k: int| i < k < j ==> !enters(#[trigger] run[k])
}

/// The instructions that begin from `v` to `p` are all on one line, and the one
/// before them, if there is one, is on another.
pub open spec fn one_visit(source: Seq<char>, run: Seq<VmEventView>, v: int, p: int) -> bool {
    &&& 0 <= v <= p < run.len()
    &&& enters(run[v])
    &&& enters(run[p])
    &&& forall|k: int|
        v <= k <= p && enters(#[trigger] run[k]) ==> line_of(source, run[k]) == line_of(
            source,
            run[p],
        )
    &&& forall|u: int|
        0 <= u < v && enters(#[trigger] run[u]) && nothing_between(run, u, v) ==> line_of(
            source,
            run[u],
        ) != line_of(source, run[v])
}

pub(crate) proof fn lemma_added(source: Seq<char>, run: Seq<VmEventView>)
    requires
        runs_through(run),
        run.len() > 0,
    ensures
        runs_through(run.drop_last()),
        run.last() is State,
        progress(source, run).state == observed(
            source,
            progress(source, run.drop_last()).state,
            run.last()->State_0,
        ).state,
        added(source, run) == observed(
            source,
            progress(source, run.drop_last()).state,
            run.last()->State_0,
        ).ops,
        progress(source, run).ops == progress(source, run.drop_last()).ops + added(source, run),
{
    assert forall|i: int| 0 <= i < run.drop_last().len() implies #[trigger] run.drop_last()[i] is
        State by {
        assert(run[i] is State);
    }
    assert(run[run.len() - 1] is State);
    let earlier = progress(source, run.drop_last());
    let next = observed(source, earlier.state, run.last()->State_0);
    assert((earlier.ops + next.ops).skip(earlier.ops.len() as int) =~= next.ops);
}

pub(crate) proof fn lemma_taken(run: Seq<VmEventView>, n: int)
    requires
        runs_through(run),
        0 <= n <= run.len(),
    ensures
        runs_through(run.take(n)),
        n > 0 ==> run.take(n).drop_last() == run.take(n - 1),
        n > 0 ==> run.take(n).last() == run[n - 1],
{
    assert forall|i: int| 0 <= i < n implies #[trigger] run.take(n)[i] is State by {
        assert(run[i] is State);
    }
    if n > 0 {
        assert(run.take(n).drop_last() =~= run.take(n - 1));
    }
}

proof fn lemma_inlined_keeps(st: TracerView, callers: Seq<Seq<char>>, line: u32)
    ensures
        ({
            let after = inlined(st, callers, line).state;
            &&& after.line == st.line
            &&& after.first_op == st.first_op
            &&& after.moved == st.moved
            &&& after.word == st.word
            &&& after.advice == st.advice
        }),
    decreases callers.len(),
{
    if callers.len() > 0 {
        lemma_inlined_keeps(st, callers.drop_last(), line);
    }
}

pub(crate) proof fn lemma_entered_keeps(
    source: Seq<char>,
    st: TracerView,
    name: Seq<char>,
    line: u32,
    stack: Seq<u64>,
)
    ensures
        ({
            let after = entered(source, st, name, line, stack).state;
            &&& after.line == st.line
            &&& after.first_op == st.first_op
            &&& after.moved == st.moved
            &&& after.word == st.word
            &&& after.advice == st.advice
            &&& after.context == Some(name)
        }),
{
    if st.context is None {
        let known = TracerView { functions: with_function(st.functions, name), ..st };
        if let Some(c) = chain(
            parent_map(call_graph(source)),
            last_segment(name),
            CHAIN_LIMIT as nat,
        ) {
            lemma_inlined_keeps(known, c.subrange(1, c.len() - 1), line);
        }
    }
}

/// The three parts of what an instruction adds.
pub(crate) struct Parts {
    pub entry: Move,
    pub stop: Move,
    pub values: Move,
}

pub(crate) open spec fn parts(source: Seq<char>, run: Seq<VmEventView>) -> Parts {
    let st = progress(source, run.drop_last()).state;
    let step = run.last()->State_0;
    let a = step.asmop->0;
    let line = line_of(source, run.last());
    let entry = entered(source, captured(st, step.stack, a), a.context_name, line, step.stack);
    let stop = stepped(entry.state, line, a.op);
    Parts { entry, stop, values: shown_values(stop.state, a.op, step) }
}

#[verifier::rlimit(50)]
pub(crate) proof fn lemma_parts(source: Seq<char>, run: Seq<VmEventView>)
    requires
        runs_through(run),
        run.len() > 0,
        enters(run.last()),
    ensures
        ({
            let p = parts(source, run);
            &&& added(source, run) == p.entry.ops + p.stop.ops + p.values.ops
            &&& progress(source, run).state == p.values.state
            &&& no_step(p.entry.ops)
            &&& no_step(p.values.ops)
            &&& forall|k: int|
                0 <= k < p.values.ops.len() ==> {
                    ||| (#[trigger] p.values.ops[k]) is Variable
                    ||| p.values.ops[k] is Word
                    ||| p.values.ops[k] is Event
                }
        }),
{
    lemma_added(source, run);
    let p = parts(source, run);
    let st = progress(source, run.drop_last()).state;
    let step = run.last()->State_0;
    let a = step.asmop->0;
    let line = line_of(source, run.last());
    lemma_entered_no_step(source, captured(st, step.stack, a), a.context_name, line, step.stack);
    let slots = with_slot(p.stop.state.slots, a.op);
    let locals = local_variables(slots, p.stop.state.num_locals, step.fmp, step.memory);
    lemma_locals_variables(slots, p.stop.state.num_locals, step.fmp, step.memory);
    assert forall|k: int| 0 <= k < p.values.ops.len() implies {
        ||| (#[trigger] p.values.ops[k]) is Variable
        ||| p.values.ops[k] is Word
        ||| p.values.ops[k] is Event
    } by {
        let head = p.values.ops.len() - locals.len();
        if k >= head {
            assert(p.values.ops[k] == locals[k - head]);
        }
    }
}

proof fn lemma_locals_variables(
    slots: Seq<u32>,
    num_locals: u16,
    fmp: u64,
    memory: Seq<(u32, u64)>,
)
    ensures
        forall|k: int|
            0 <= k < local_variables(slots, num_locals, fmp, memory).len() ==> (
            #[trigger] local_variables(slots, num_locals, fmp, memory)[k]) is Variable,
    decreases slots.len(),
{
    if slots.len() > 0 && num_locals > 0 {
        lemma_locals_variables(slots.drop_last(), num_locals, fmp, memory);
        let earlier = local_variables(slots.drop_last(), num_locals, fmp, memory);
        let all = local_variables(slots, num_locals, fmp, memory);
        assert forall|k: int| 0 <= k < all.len() implies (#[trigger] all[k]) is Variable by {
            if k < earlier.len() {
                assert(earlier[k] is Variable);
            }
        }
    }
}

/// The instruction at the end of a run gives a step exactly where the tracer's
/// marks ask for one, and the marks are then those of the instruction.
#[verifier::rlimit(50)]
proof fn lemma_marks(source: Seq<char>, run: Seq<VmEventView>)
    requires
        runs_through(run),
        run.len() > 0,
        enters(run.last()),
    ensures
        ({
            let st = progress(source, run.drop_last()).state;
            let after = progress(source, run).state;
            let line = line_of(source, run.last());
            let op = op_of(run.last());
            let due = st.line != Some(line) || (st.moved && st.first_op == Some(op));
            &&& due == !no_step(added(source, run))
            &&& after.line == Some(line)
            &&& due ==> after.first_op == Some(op) && !after.moved
            &&& !due ==> after.first_op == st.first_op && after.moved == (st.moved || st.first_op
                != Some(op))
        }),
{
    lemma_parts(source, run);
    let p = parts(source, run);
    let st = progress(source, run.drop_last()).state;
    let step = run.last()->State_0;
    let a = step.asmop->0;
    let line = line_of(source, run.last());
    lemma_entered_keeps(source, captured(st, step.stack, a), a.context_name, line, step.stack);
    let all = added(source, run);
    let due = st.line != Some(line) || (st.moved && st.first_op == Some(a.op));
    if due {
        assert(all[p.entry.ops.len() as int] == OpView::Step { line });
    } else {
        assert forall|k: int| 0 <= k < all.len() implies !(#[trigger] all[k] is Step) by {
            if k < p.entry.ops.len() {
                assert(all[k] == p.entry.ops[k]);
            } else {
                assert(all[k] == p.values.ops[k - p.entry.ops.len()]);
            }
        }
    }
}

/// An event that begins no instruction leaves the marks as they are.
pub(crate) proof fn lemma_still(source: Seq<char>, run: Seq<VmEventView>)
    requires
        runs_through(run),
        run.len() > 0,
        !enters(run.last()),
    ensures
        added(source, run) == Seq::<OpView>::empty(),
        ({
            let st = progress(source, run.drop_last()).state;
            let after = progress(source, run).state;
            TracerView { word: st.word, advice: st.advice, ..after } == st
        }),
{
    lemma_added(source, run);
}

/// The tracer's marks after the instructions of a visit.
#[verifier::rlimit(50)]
proof fn lemma_standing(source: Seq<char>, run: Seq<VmEventView>, v: int, p: int)
    requires
        runs_through(run),
        one_visit(source, run, v, p),
        nothing_between(run, p, run.len() as int),
    ensures
        progress(source, run).state.line == Some(line_of(source, run[p])),
        progress(source, run).state.first_op == Some(op_of(run[v])),
        progress(source, run).state.moved == (op_of(run[p]) != op_of(run[v])),
    decreases run.len(),
{
    lemma_added(source, run);
    let shorter = run.drop_last();
    let last = run.len() - 1;
    if p < last {
        assert(!enters(run[last]));
        lemma_still(source, run);
        lemma_shorter_visit(source, run, v, p);
        lemma_standing(source, shorter, v, p);
    } else {
        lemma_marks(source, run);
        let u = latest(run, last);
        lemma_latest(run, last);
        if v == p {
            if u >= 0 {
                lemma_line_kept(source, shorter, u);
                assert(line_of(source, run[u]) != line_of(source, run[v]));
            } else {
                lemma_no_line(source, shorter);
            }
        } else {
            assert(u >= v) by {
                if u < v {
                    assert(!enters(run[v]));
                }
            }
            lemma_prefix_visit(source, run, v, p, u);
            lemma_shorter_visit(source, run, v, u);
            lemma_standing(source, shorter, v, u);
            assert(line_of(source, run[u]) == line_of(source, run[p]));
        }
    }
}

/// The last instruction that begins before a place, or -1.
pub(crate) open spec fn latest(run: Seq<VmEventView>, j: int) -> int
    decreases j,
{
    if j <= 0 {
        -1
    } else if enters(run[j - 1]) {
        j - 1
    } else {
        latest(run, j - 1)
    }
}

pub(crate) proof fn lemma_latest(run: Seq<VmEventView>, j: int)
    requires
        0 <= j <= run.len(),
    ensures
        -1 <= latest(run, j) < j,
        latest(run, j) >= 0 ==> enters(run[latest(run, j)]),
        nothing_between(run, latest(run, j), j),
    decreases j,
{
    if j > 0 && !enters(run[j - 1]) {
        lemma_latest(run, j - 1);
    }
}

proof fn lemma_shorter_visit(source: Seq<char>, run: Seq<VmEventView>, v: int, p: int)
    requires
        one_visit(source, run, v, p),
        p < run.len() - 1,
        nothing_between(run, p, run.len() - 1),
    ensures
        one_visit(source, run.drop_last(), v, p),
        nothing_between(run.drop_last(), p, run.len() - 1),
{
    let shorter = run.drop_last();
    assert forall|k: int| v <= k <= p && enters(#[trigger] shorter[k]) implies line_of(
        source,
        shorter[k],
    ) == line_of(source, shorter[p]) by {
        assert(shorter[k] == run[k]);
    }
    assert forall|u: int|
        0 <= u < v && enters(#[trigger] shorter[u]) && nothing_between(
            shorter,
            u,
            v,
        ) implies line_of(source, shorter[u]) != line_of(source, shorter[v]) by {
        assert(shorter[u] == run[u]);
        assert(nothing_between(run, u, v)) by {
            assert forall|k: int| u < k < v implies !enters(#[trigger] run[k]) by {
                assert(!enters(shorter[k]));
            }
        }
    }
    assert forall|k: int| p < k < run.len() - 1 implies !enters(#[trigger] shorter[k]) by {
        assert(!enters(run[k]));
    }
}

proof fn lemma_prefix_visit(source: Seq<char>, run: Seq<VmEventView>, v: int, p: int, u: int)
    requires
        one_visit(source, run, v, p),
        v <= u < p,
        enters(run[u]),
    ensures
        one_visit(source, run, v, u),
        line_of(source, run[u]) == line_of(source, run[p]),
{
}

proof fn lemma_line_kept(source: Seq<char>, run: Seq<VmEventView>, u: int)
    requires
        runs_through(run),
        0 <= u < run.len(),
        enters(run[u]),
        nothing_between(run, u, run.len() as int),
    ensures
        progress(source, run).state.line == Some(line_of(source, run[u])),
    decreases run.len(),
{
    lemma_added(source, run);
    let last = run.len() - 1;
    if u == last {
        lemma_marks(source, run);
    } else {
        assert(!enters(run[last]));
        lemma_still(source, run);
        let shorter = run.drop_last();
        assert forall|k: int| u < k < shorter.len() implies !enters(#[trigger] shorter[k]) by {
            assert(!enters(run[k]));
        }
        lemma_line_kept(source, shorter, u);
    }
}

proof fn lemma_no_line(source: Seq<char>, run: Seq<VmEventView>)
    requires
        runs_through(run),
        nothing_between(run, -1, run.len() as int),
    ensures
        progress(source, run).state.line is None,
    decreases run.len(),
{
    if run.len() > 0 {
        lemma_added(source, run);
        assert(!enters(run[run.len() - 1]));
        lemma_still(source, run);
        let shorter = run.drop_last();
        assert forall|k: int| -1 < k < shorter.len() implies !enters(#[trigger] shorter[k]) by {
            assert(!enters(run[k]));
        }
        lemma_no_line(source, shorter);
    }
}

/// The first instruction of a run gives a step.
pub proof fn lemma_first_step(source: Seq<char>, run: Seq<VmEventView>, j: int)
    requires
        runs_through(run),
        0 <= j < run.len(),
        enters(run[j]),
        nothing_between(run, -1, j),
    ensures
        steps_at(source, run, j),
{
    lemma_taken(run, j + 1);
    lemma_taken(run, j);
    let now = run.take(j + 1);
    lemma_marks(source, now);
    let before = run.take(j);
    assert forall|k: int| -1 < k < before.len() implies !enters(#[trigger] before[k]) by {
        assert(!enters(run[k]));
    }
    lemma_no_line(source, before);
    lemma_steps_at(source, run, j);
}

proof fn lemma_steps_at(source: Seq<char>, run: Seq<VmEventView>, j: int)
    ensures
        steps_at(source, run, j) == !no_step(added(source, run.take(j + 1))),
{
}

/// An instruction `j` behind another one, `p`, gives a step exactly where it is
/// on another line, or where it is the one that the visit of the line began
/// with, at `v`, and `p` is a different one. So the same instruction twice in a
/// row is one pass over a line, and a loop whose body is on one line gives one
/// step for each iteration.
#[verifier::rlimit(50)]
pub proof fn lemma_step_due(source: Seq<char>, run: Seq<VmEventView>, v: int, p: int, j: int)
    requires
        runs_through(run),
        one_visit(source, run, v, p),
        p < j < run.len(),
        enters(run[j]),
        nothing_between(run, p, j),
    ensures
        steps_at(source, run, j) <==> {
            ||| line_of(source, run[j]) != line_of(source, run[p])
            ||| op_of(run[j]) == op_of(run[v]) && op_of(run[p]) != op_of(run[v])
        },
{
    lemma_taken(run, j + 1);
    lemma_taken(run, j);
    let now = run.take(j + 1);
    let before = run.take(j);
    assert forall|k: int| v <= k <= p && enters(#[trigger] before[k]) implies line_of(
        source,
        before[k],
    ) == line_of(source, before[p]) by {
        assert(before[k] == run[k]);
    }
    assert forall|u: int|
        0 <= u < v && enters(#[trigger] before[u]) && nothing_between(
            before,
            u,
            v,
        ) implies line_of(source, before[u]) != line_of(source, before[v]) by {
        assert(before[u] == run[u]);
        assert(nothing_between(run, u, v)) by {
            assert forall|k: int| u < k < v implies !enters(#[trigger] run[k]) by {
                assert(!enters(before[k]));
            }
        }
    }
    assert forall|k: int| p < k < before.len() implies !enters(#[trigger] before[k]) by {
        assert(!enters(run[k]));
    }
    lemma_standing(source, before, v, p);
    lemma_marks(source, now);
    lemma_steps_at(source, run, j);
}

/// Between two steps to one line with none between them, the instructions in
/// between being on that line too, there is an instruction that differs from
/// the one that began the first of them, and both steps begin with the same.
pub proof fn lemma_step_again(source: Seq<char>, run: Seq<VmEventView>, b: int, j: int)
    requires
        runs_through(run),
        0 <= b < j < run.len(),
        enters(run[b]),
        enters(run[j]),
        steps_at(source, run, b),
        steps_at(source, run, j),
        forall|k: int| b < k < j ==> !(#[trigger] steps_at(source, run, k)),
        line_of(source, run[b]) == line_of(source, run[j]),
    ensures
        op_of(run[b]) == op_of(run[j]),
        exists|k: int| b < k < j && enters(#[trigger] run[k]) && op_of(run[k]) != op_of(run[b]),
{
    lemma_taken(run, j + 1);
    lemma_taken(run, b + 1);
    let now = run.take(j + 1);
    lemma_marks(source, now);
    lemma_steps_at(source, run, j);
    lemma_steps_at(source, run, b);
    lemma_marks(source, run.take(b + 1));
    lemma_since_step(source, run, b, j);
}

/// The marks before an event `j` with no step between it and the step at `b`.
proof fn lemma_since_step(source: Seq<char>, run: Seq<VmEventView>, b: int, j: int)
    requires
        runs_through(run),
        0 <= b < j <= run.len(),
        enters(run[b]),
        steps_at(source, run, b),
        forall|k: int| b < k < j ==> !(#[trigger] steps_at(source, run, k)),
    ensures
        progress(source, run.take(j)).state.line == Some(line_of(source, run[b])),
        progress(source, run.take(j)).state.first_op == Some(op_of(run[b])),
        progress(source, run.take(j)).state.moved ==> exists|k: int|
            b < k < j && enters(#[trigger] run[k]) && op_of(run[k]) != op_of(run[b]),
    decreases j,
{
    lemma_taken(run, j);
    let now = run.take(j);
    lemma_steps_at(source, run, j - 1);
    if j == b + 1 {
        lemma_marks(source, now);
    } else {
        lemma_since_step(source, run, b, j - 1);
        assert(!steps_at(source, run, j - 1));
        if enters(run[j - 1]) {
            lemma_marks(source, now);
        } else {
            lemma_still(source, now);
        }
    }
}

/// An event adds one step at most, to the line on which its instruction begins,
/// and an event that begins no instruction adds nothing at all. The calls that
/// are opened and closed come before the step, and the values behind it.
#[verifier::rlimit(50)]
pub proof fn lemma_step_line(source: Seq<char>, run: Seq<VmEventView>)
    requires
        runs_through(run),
        run.len() > 0,
    ensures
        !enters(run.last()) ==> added(source, run) == Seq::<OpView>::empty(),
        forall|k: int|
            0 <= k < added(source, run).len() && (#[trigger] added(source, run)[k]) is Step
                ==> added(source, run)[k] == (OpView::Step { line: line_of(source, run.last()) }),
        forall|k: int, l: int|
            0 <= k < l < added(source, run).len() ==> rank(#[trigger] added(source, run)[k]) <= rank(
                #[trigger] added(source, run)[l],
            ),
        forall|k: int, l: int|
            0 <= k < l < added(source, run).len() && (#[trigger] added(source, run)[k]) is Step
                ==> !((#[trigger] added(source, run)[l]) is Step),
{
    if enters(run.last()) {
        lemma_parts(source, run);
        let p = parts(source, run);
        let all = added(source, run);
        let n = p.entry.ops.len() as int;
        let m = n + p.stop.ops.len();
        let st = progress(source, run.drop_last()).state;
        let step = run.last()->State_0;
        let a = step.asmop->0;
        lemma_entry_ranks(
            source,
            captured(st, step.stack, a),
            a.context_name,
            line_of(source, run.last()),
            step.stack,
        );
        assert forall|k: int| 0 <= k < all.len() implies {
            &&& k < n ==> rank(#[trigger] all[k]) == 0
            &&& n <= k < m ==> all[k] == OpView::Step { line: line_of(source, run.last()) }
            &&& k >= m ==> rank(all[k]) == 2
        } by {
            if k < n {
                assert(all[k] == p.entry.ops[k]);
            } else if k < m {
                assert(all[k] == p.stop.ops[k - n]);
            } else {
                assert(all[k] == p.values.ops[k - m]);
            }
        }
    } else {
        lemma_still(source, run);
    }
}

/// No value comes before the step or its place.
pub(crate) proof fn lemma_early_ranks(source: Seq<char>, run: Seq<VmEventView>)
    requires
        runs_through(run),
        run.len() > 0,
        enters(run.last()),
    ensures
        forall|k: int|
            0 <= k < parts(source, run).entry.ops.len() + parts(source, run).stop.ops.len() ==> rank(
                #[trigger] added(source, run)[k],
            ) <= 1,
{
    lemma_parts(source, run);
    let p = parts(source, run);
    let all = added(source, run);
    let st = progress(source, run.drop_last()).state;
    let step = run.last()->State_0;
    let a = step.asmop->0;
    let line = line_of(source, run.last());
    lemma_entry_ranks(source, captured(st, step.stack, a), a.context_name, line, step.stack);
    let n = p.entry.ops.len();
    assert forall|k: int| 0 <= k < n + p.stop.ops.len() implies rank(#[trigger] all[k]) <= 1 by {
        if k < n {
            assert(all[k] == p.entry.ops[k]);
        } else {
            assert(all[k] == p.stop.ops[k - n]);
        }
    }
}

/// Where an operation stands among those of one instruction: calls, then the
/// step, then the values.
pub open spec fn rank(op: OpView) -> int {
    match op {
        OpView::Step { .. } => 1,
        OpView::Variable { .. } => 2,
        OpView::Word { .. } => 2,
        OpView::Event { .. } => 2,
        _ => 0,
    }
}

proof fn lemma_inlined_ranks(st: TracerView, callers: Seq<Seq<char>>, line: u32)
    ensures
        forall|k: int|
            0 <= k < inlined(st, callers, line).ops.len() ==> rank(
                #[trigger] inlined(st, callers, line).ops[k],
            ) == 0,
    decreases callers.len(),
{
    if callers.len() > 0 {
        lemma_inlined_ranks(st, callers.drop_last(), line);
    }
}

proof fn lemma_entry_ranks(
    source: Seq<char>,
    st: TracerView,
    name: Seq<char>,
    line: u32,
    stack: Seq<u64>,
)
    ensures
        forall|k: int|
            0 <= k < entered(source, st, name, line, stack).ops.len() ==> rank(
                #[trigger] entered(source, st, name, line, stack).ops[k],
            ) == 0,
{
    if st.context is None {
        let known = TracerView { functions: with_function(st.functions, name), ..st };
        if let Some(c) = chain(
            parent_map(call_graph(source)),
            last_segment(name),
            CHAIN_LIMIT as nat,
        ) {
            lemma_inlined_ranks(known, c.subrange(1, c.len() - 1), line);
        }
    }
}

/// How many of the events from one place to before another give a step.
pub open spec fn steps_in(source: Seq<char>, run: Seq<VmEventView>, from: int, to: int) -> nat
    decreases to - from,
{
    if to <= from {
        0
    } else {
        steps_in(source, run, from, to - 1) + (if steps_at(source, run, to - 1) {
            1nat
        } else {
            0nat
        })
    }
}

/// How many passes over a line begin from one place to before another: a pass
/// begins with the first instruction, and wherever that comes again behind a
/// different one.
pub open spec fn passes_in(run: Seq<VmEventView>, from: int, to: int) -> nat
    decreases to - from,
{
    if to <= from {
        0
    } else {
        let j = to - 1;
        passes_in(run, from, j) + (if j == from || (op_of(run[j]) == op_of(run[from]) && op_of(
            run[j - 1],
        ) != op_of(run[from])) {
            1nat
        } else {
            0nat
        })
    }
}

/// The instruction that a visit of a line begins with gives a step.
proof fn lemma_visit_steps(source: Seq<char>, run: Seq<VmEventView>, v: int)
    requires
        runs_through(run),
        one_visit(source, run, v, v),
    ensures
        steps_at(source, run, v),
{
    lemma_taken(run, v + 1);
    lemma_taken(run, v);
    let now = run.take(v + 1);
    let before = run.take(v);
    lemma_marks(source, now);
    lemma_steps_at(source, run, v);
    let u = latest(run, v);
    lemma_latest(run, v);
    assert forall|k: int| u < k < before.len() implies !enters(#[trigger] before[k]) by {
        assert(!enters(run[k]));
    }
    if u >= 0 {
        assert(before[u] == run[u]);
        lemma_line_kept(source, before, u);
        assert(line_of(source, run[u]) != line_of(source, run[v]));
    } else {
        lemma_no_line(source, before);
    }
}

/// A visit of a line gives as many steps as there are passes over the line.
pub proof fn lemma_passes(source: Seq<char>, run: Seq<VmEventView>, from: int, to: int)
    requires
        runs_through(run),
        from < to <= run.len(),
        one_visit(source, run, from, to - 1),
        forall|k: int| from <= k < to ==> enters(#[trigger] run[k]),
    ensures
        steps_in(source, run, from, to) == passes_in(run, from, to),
    decreases to - from,
{
    let j = to - 1;
    if j == from {
        lemma_visit_steps(source, run, from);
        assert(steps_in(source, run, from, j) == 0);
        assert(passes_in(run, from, j) == 0);
    } else {
        assert(enters(run[j - 1]));
        assert(enters(run[j]));
        assert(line_of(source, run[j - 1]) == line_of(source, run[j]));
        lemma_prefix_visit(source, run, from, j, j - 1);
        lemma_passes(source, run, from, j);
        lemma_step_due(source, run, from, j - 1, j);
    }
}

} // verus!
