//! The calls of a trace as a walk over the procedures of a program: into a
//! callee, back to the caller, and on to the caller's next callee.

use vstd::prelude::*;

use crate::number::decimal;
use crate::text::last_segment;
use crate::tracer::call_graph::call_graph;
use crate::tracer::call_graph::calls;
use crate::tracer::call_graph::chain;
use crate::tracer::call_graph::lemma_chain;
use crate::tracer::call_graph::lemma_chain_calls;
use crate::tracer::call_graph::parent_map;
use crate::tracer::call_graph::proc_locals;
use crate::tracer::call_graph::sole_caller;
use crate::tracer::call_graph::CHAIN_LIMIT;
use crate::tracer::laws::context_of;
use crate::tracer::laws::enters;
use crate::tracer::laws::lemma_trace_in_two;
use crate::tracer::laws::progress;
use crate::tracer::laws::run_length;
use crate::tracer::laws::runs_through;
use crate::tracer::model::arguments;
use crate::tracer::model::call_of;
use crate::tracer::model::captured;
use crate::tracer::model::executable_name;
use crate::tracer::model::holds_main;
use crate::tracer::model::inlined;
use crate::tracer::model::opening;
use crate::tracer::model::registration;
use crate::tracer::model::return_ops;
use crate::tracer::model::switched;
use crate::tracer::model::trace_of;
use crate::tracer::model::with_function;
use crate::tracer::model::OpView;
use crate::tracer::model::TracerView;
use crate::tracer::nesting::lemma_open_calls;
use crate::tracer::nesting::open_after;
use crate::tracer::nesting::waiting;
use crate::tracer::showing::lemma_signed;
use crate::tracer::showing::signed;
use crate::tracer::showing::stack_of;
use crate::tracer::stepping::added;
use crate::tracer::stepping::lemma_added;
use crate::tracer::stepping::lemma_parts;
use crate::tracer::stepping::lemma_still;
use crate::tracer::stepping::lemma_taken;
use crate::tracer::stepping::line_of;
use crate::tracer::stepping::nothing_between;
use crate::tracer::stepping::parts;
use crate::tracer::vm::VmEventView;

verus! {

/// The procedures whose calls a trace has open after a run, the innermost last.
pub open spec fn open_at(source: Seq<char>, run: Seq<VmEventView>) -> Seq<Seq<char>> {
    open_after(Seq::empty(), Seq::empty(), progress(source, run).ops)
}

/// The body of the program.
pub open spec fn is_main(name: Seq<char>) -> bool {
    last_segment(name) == "#main"@
}

/// The body of one procedure invokes both of two others.
pub open spec fn invokes_both(
    source: Seq<char>,
    caller: Seq<char>,
    a: Seq<char>,
    b: Seq<char>,
) -> bool {
    &&& calls(call_graph(source), last_segment(caller), last_segment(a))
    &&& calls(call_graph(source), last_segment(caller), last_segment(b))
}

/// How a walk goes on from one path to another, each from the body of the
/// program to a procedure: it stays, it goes back to the caller, on to another
/// callee of the same caller, or into a callee.
pub open spec fn walks(source: Seq<char>, from: Seq<Seq<char>>, to: Seq<Seq<char>>) -> bool {
    let caller = from[from.len() - 2];
    ||| to == from
    ||| from.len() >= 2 && to == from.drop_last()
    ||| {
        &&& from.len() >= 2
        &&& to.len() == from.len()
        &&& to.drop_last() == from.drop_last()
        &&& to.last() != from.last()
        &&& to.last() != caller
        &&& invokes_both(source, caller, from.last(), to.last())
    }
    ||| {
        &&& to.len() == from.len() + 1
        &&& to.drop_last() == from
        &&& to.last() != from.last()
        &&& from.len() >= 2 ==> to.last() != caller && !invokes_both(
            source,
            caller,
            from.last(),
            to.last(),
        )
    }
}

/// The run goes along the walk: the first instruction belongs to the body of
/// the program, each one belongs to the last procedure of its path, and where
/// no instruction begins the walk stays.
pub open spec fn along(
    source: Seq<char>,
    run: Seq<VmEventView>,
    walk: Seq<Seq<Seq<char>>>,
) -> bool {
    &&& walk.len() == run.len()
    &&& forall|i: int|
        0 <= i < run.len() && enters(#[trigger] run[i]) ==> walk[i].len() > 0 && walk[i].last()
            == context_of(run[i])
    &&& run.len() > 0 ==> enters(run[0]) && walk[0].len() == 1 && is_main(walk[0][0])
    &&& forall|i: int| 0 < i < run.len() ==> walks(source, walk[i - 1], #[trigger] walk[i])
    &&& forall|i: int|
        0 < i < run.len() && !enters(#[trigger] run[i]) ==> walk[i] == walk[i - 1]
}

/// The tracer's account of the calls before and after an instruction that is
/// not the first.
proof fn lemma_next(source: Seq<char>, run: Seq<VmEventView>, prev: Seq<char>)
    requires
        runs_through(run),
        run.len() > 0,
        enters(run.last()),
        progress(source, run.drop_last()).state.context == Some(prev),
    ensures
        ({
            let st = progress(source, run.drop_last()).state;
            let now = progress(source, run).state;
            let name = context_of(run.last());
            let frames = st.frames;
            &&& now.context == Some(name)
            &&& now.main_open == st.main_open
            &&& if name == prev {
                now.frames == frames && now.leaf_open == st.leaf_open
            } else if frames.len() > 0 && frames.last() == name {
                now.frames == frames.drop_last() && now.leaf_open == st.leaf_open
            } else if st.leaf_open && is_main(name) && !holds_main(frames) {
                now.frames == Seq::<Seq<char>>::empty() && !now.leaf_open
            } else if frames.len() > 0 && invokes_both(source, frames.last(), prev, name) {
                now.frames == frames && now.leaf_open == st.leaf_open
            } else {
                now.frames == frames.push(prev) && now.leaf_open == st.leaf_open
            }
        }),
{
    lemma_parts(source, run);
}

/// For a run that goes along a walk over the procedures of the program, the
/// calls open at each instruction are those of the path from the body of the
/// program to the instruction's procedure, at every depth.
pub proof fn lemma_call_tree(source: Seq<char>, run: Seq<VmEventView>, walk: Seq<Seq<Seq<char>>>)
    requires
        runs_through(run),
        run.len() > 0,
        along(source, run, walk),
    ensures
        open_at(source, run) == walk.last(),
{
    lemma_on_walk(source, run, walk);
    lemma_open_calls(source, run);
}

#[verifier::rlimit(50)]
proof fn lemma_on_walk(source: Seq<char>, run: Seq<VmEventView>, walk: Seq<Seq<Seq<char>>>)
    requires
        runs_through(run),
        run.len() > 0,
        along(source, run, walk),
    ensures
        ({
            let st = progress(source, run).state;
            &&& st.context is Some
            &&& st.main_open
            &&& !st.leaf_open
            &&& st.frames.push(st.context->0) == walk.last()
        }),
    decreases run.len(),
{
    lemma_added(source, run);
    let last = run.len() - 1;
    let shorter = run.drop_last();
    let st = progress(source, run).state;
    if last == 0 {
        assert(shorter =~= Seq::empty());
        lemma_parts(source, run);
        assert(walk[0] =~= seq![context_of(run[0])]);
    } else {
        let less = walk.drop_last();
        assert(along(source, shorter, less)) by {
            assert forall|i: int| 0 <= i < shorter.len() && enters(#[trigger] shorter[i]) implies
                less[i].len() > 0 && less[i].last() == context_of(shorter[i]) by {
                assert(enters(run[i]));
            }
            assert forall|i: int| 0 < i < shorter.len() implies walks(
                source,
                less[i - 1],
                #[trigger] less[i],
            ) by {
                assert(walks(source, walk[i - 1], walk[i]));
            }
            assert forall|i: int| 0 < i < shorter.len() && !enters(#[trigger] shorter[i]) implies
                less[i] == less[i - 1] by {
                assert(!enters(run[i]));
            }
        }
        lemma_on_walk(source, shorter, less);
        let before = progress(source, shorter).state;
        let from = walk[last - 1];
        let to = walk[last];
        assert(walks(source, from, to));
        assert(before.frames == from.drop_last());
        assert(before.context->0 == from.last());
        if from.len() >= 2 {
            assert(before.frames.last() == from[from.len() - 2]);
        }
        if enters(run[last]) {
            lemma_next(source, run, from.last());
            assert(to.last() == context_of(run[last]));
            assert(to == to.drop_last().push(to.last()));
            assert(from == from.drop_last().push(from.last()));
            if from.len() >= 2 && to == from.drop_last() {
                assert(to.last() == from[from.len() - 2]);
                if to.last() == from.last() {
                    lemma_no_twins(source, shorter, less);
                }
                assert(st.frames =~= to.drop_last());
            } else {
                assert(st.frames =~= to.drop_last());
            }
        } else {
            lemma_still(source, run);
        }
    }
}

/// No procedure of a walk's path is its own caller there.
proof fn lemma_no_twins(source: Seq<char>, run: Seq<VmEventView>, walk: Seq<Seq<Seq<char>>>)
    requires
        run.len() > 0,
        along(source, run, walk),
    ensures
        forall|i: int|
            1 <= i < walk.last().len() ==> #[trigger] walk.last()[i] != walk.last()[i - 1],
    decreases run.len(),
{
    let last = run.len() - 1;
    if last > 0 {
        let shorter = run.drop_last();
        let less = walk.drop_last();
        assert(along(source, shorter, less)) by {
            assert forall|i: int| 0 <= i < shorter.len() && enters(#[trigger] shorter[i]) implies
                less[i].len() > 0 && less[i].last() == context_of(shorter[i]) by {
                assert(enters(run[i]));
            }
            assert forall|i: int| 0 < i < shorter.len() implies walks(
                source,
                less[i - 1],
                #[trigger] less[i],
            ) by {
                assert(walks(source, walk[i - 1], walk[i]));
            }
            assert forall|i: int| 0 < i < shorter.len() && !enters(#[trigger] shorter[i]) implies
                less[i] == less[i - 1] by {
                assert(!enters(run[i]));
            }
        }
        lemma_no_twins(source, shorter, less);
        let from = walk[last - 1];
        let to = walk[last];
        assert(walks(source, from, to));
        assert(less.last() == from);
        assert forall|i: int| 1 <= i < from.len() implies #[trigger] from[i] != from[i - 1] by {
            assert(less.last()[i] != less.last()[i - 1]);
        }
        assert forall|i: int| 1 <= i < to.len() implies #[trigger] to[i] != to[i - 1] by {
            if i < to.len() - 1 {
                assert(to[i] == to.drop_last()[i]);
                assert(to[i - 1] == to.drop_last()[i - 1]);
                assert(from[i] != from[i - 1]);
            } else if to == from {
                assert(from[i] != from[i - 1]);
            } else if from.len() >= 2 && to == from.drop_last() {
                assert(from[i] != from[i - 1]);
            } else {
                assert(to[i - 1] == to.drop_last()[i - 1]);
            }
        }
    }
}

/// A row of procedures from the body of the program to one of them, each the
/// only one that invokes the next.
pub open spec fn only_way(source: Seq<char>, row: Seq<Seq<char>>, leaf: Seq<char>) -> bool {
    &&& 2 <= row.len() <= 257
    &&& row[0] == "#main"@
    &&& row.last() == leaf
    &&& forall|i: int| 0 < i < row.len() - 1 ==> #[trigger] row[i] != "#main"@
    &&& forall|i: int|
        0 <= i < row.len() - 1 ==> only_caller(call_graph(source), #[trigger] row[i + 1], row[i])
}

/// One procedure invokes another, and no other one does.
pub open spec fn only_caller(
    graph: Map<Seq<char>, Set<Seq<char>>>,
    child: Seq<char>,
    p: Seq<char>,
) -> bool {
    &&& calls(graph, p, child)
    &&& forall|q: Seq<char>| #[trigger] calls(graph, q, child) ==> q == p
}

/// The parent of a procedure is the only one that invokes it. A procedure that
/// two others invoke has an entry without a parent, and one that none invokes
/// has no entry.
pub proof fn lemma_parent(
    graph: Map<Seq<char>, Set<Seq<char>>>,
    child: Seq<char>,
    p: Seq<char>,
    q: Seq<char>,
)
    ensures
        only_caller(graph, child, p) <==> parent_map(graph).contains_key(child) && parent_map(
            graph,
        )[child] == Some(p),
        calls(graph, p, child) && calls(graph, q, child) && p != q ==> parent_map(
            graph,
        ).contains_key(child) && parent_map(graph)[child] is None,
        (forall|r: Seq<char>| !(#[trigger] calls(graph, r, child))) <==> !parent_map(
            graph,
        ).contains_key(child),
{
    if only_caller(graph, child, p) {
        assert(sole_caller(graph, child, p));
        lemma_sole_parent(graph, child, p);
    }
    if parent_map(graph).contains_key(child) && parent_map(graph)[child] == Some(p) {
        let r = choose|r: Seq<char>| sole_caller(graph, child, r);
        assert(sole_caller(graph, child, r));
    }
}

/// The chain to a procedure is the only row of calls that leads to it from the
/// body of the program.
pub proof fn lemma_only_way(source: Seq<char>, row: Seq<Seq<char>>, leaf: Seq<char>)
    ensures
        only_way(source, row, leaf) <==> chain(parent_map(call_graph(source)), leaf, 256) == Some(
            row,
        ),
{
    let graph = call_graph(source);
    if only_way(source, row, leaf) {
        lemma_chain_found(graph, row, 256);
    }
    if chain(parent_map(graph), leaf, 256) == Some(row) {
        lemma_chain(parent_map(graph), leaf, 256);
        lemma_chain_inner(parent_map(graph), leaf, 256);
        assert forall|i: int| 0 <= i < row.len() - 1 implies only_caller(
            graph,
            #[trigger] row[i + 1],
            row[i],
        ) by {
            lemma_chain_calls(graph, leaf, 256, i);
        }
    }
}

proof fn lemma_sole_parent(graph: Map<Seq<char>, Set<Seq<char>>>, child: Seq<char>, p: Seq<char>)
    requires
        sole_caller(graph, child, p),
    ensures
        parent_map(graph).contains_key(child),
        parent_map(graph)[child] == Some(p),
{
    let q = choose|q: Seq<char>| sole_caller(graph, child, q);
    assert(sole_caller(graph, child, q));
}

proof fn lemma_chain_found(
    graph: Map<Seq<char>, Set<Seq<char>>>,
    row: Seq<Seq<char>>,
    fuel: nat,
)
    requires
        2 <= row.len() <= fuel + 1,
        row[0] == "#main"@,
        forall|i: int| 0 < i < row.len() - 1 ==> #[trigger] row[i] != "#main"@,
        forall|i: int| 0 <= i < row.len() - 1 ==> only_caller(graph, #[trigger] row[i + 1], row[i]),
    ensures
        chain(parent_map(graph), row.last(), fuel) == Some(row),
    decreases row.len(),
{
    let n = row.len() as int;
    let p = row[n - 2];
    assert(only_caller(graph, row[n - 2 + 1], row[n - 2]));
    assert(sole_caller(graph, row.last(), p));
    lemma_sole_parent(graph, row.last(), p);
    if n == 2 {
        assert(row =~= seq![p, row.last()]);
    } else {
        assert(p != "#main"@);
        let outer = row.drop_last();
        assert forall|i: int| 0 < i < outer.len() - 1 implies #[trigger] outer[i] != "#main"@ by {
            assert(row[i] != "#main"@);
        }
        assert forall|i: int| 0 <= i < outer.len() - 1 implies only_caller(
            graph,
            #[trigger] outer[i + 1],
            outer[i],
        ) by {
            assert(only_caller(graph, row[i + 1], row[i]));
        }
        lemma_chain_found(graph, outer, (fuel - 1) as nat);
        assert(outer.push(row.last()) =~= row);
    }
}

proof fn lemma_chain_inner(
    parents: Map<Seq<char>, Option<Seq<char>>>,
    leaf: Seq<char>,
    fuel: nat,
)
    requires
        chain(parents, leaf, fuel) is Some,
    ensures
        forall|i: int|
            0 < i < chain(parents, leaf, fuel)->0.len() - 1 ==> #[trigger] chain(
                parents,
                leaf,
                fuel,
            )->0[i] != "#main"@,
    decreases fuel,
{
    let p = parents[leaf]->0;
    let c = chain(parents, leaf, fuel)->0;
    if p != "#main"@ {
        lemma_chain(parents, p, (fuel - 1) as nat);
        lemma_chain_inner(parents, p, (fuel - 1) as nat);
        let outer = chain(parents, p, (fuel - 1) as nat)->0;
        assert forall|i: int| 0 < i < c.len() - 1 implies #[trigger] c[i] != "#main"@ by {
            assert(c[i] == outer[i]);
        }
    }
}

proof fn lemma_inlined_frames(st: TracerView, callers: Seq<Seq<char>>, line: u32)
    ensures
        inlined(st, callers, line).state.frames == st.frames + callers.map_values(
            |c: Seq<char>| executable_name(c),
        ),
        inlined(st, callers, line).state.main_open == st.main_open,
    decreases callers.len(),
{
    if callers.len() > 0 {
        lemma_inlined_frames(st, callers.drop_last(), line);
    }
}

/// The first instruction of a trace. In the body of the program it opens a call
/// of that. In a procedure that only one row of calls leads to, of one inlined
/// procedure or more, it opens the calls of that row. Else it opens none.
#[verifier::rlimit(50)]
pub proof fn lemma_first_calls(source: Seq<char>, run: Seq<VmEventView>)
    requires
        runs_through(run),
        run.len() > 0,
        enters(run.last()),
        nothing_between(run, -1, run.len() - 1),
    ensures
        ({
            let name = context_of(run.last());
            let open = open_at(source, run);
            &&& is_main(name) ==> open == seq![name]
            &&& forall|row: Seq<Seq<char>>| #[trigger]
                only_way(source, row, last_segment(name)) && row.len() > 2 && !is_main(name)
                    ==> open.len() == row.len() - 1 && open.last() == name && forall|i: int|
                    0 <= i < open.len() - 1 ==> #[trigger] open[i] == "#exec::"@ + row[i + 1]
            &&& !is_main(name) && (forall|row: Seq<Seq<char>>| #[trigger]
                only_way(source, row, last_segment(name)) ==> row.len() == 2) ==> open.len() == 0
        }),
{
    lemma_open_calls(source, run);
    lemma_parts(source, run);
    lemma_added(source, run);
    lemma_untouched(source, run.drop_last(), run);
    let name = context_of(run.last());
    let leaf = last_segment(name);
    let graph = call_graph(source);
    let st = progress(source, run.drop_last()).state;
    let step = run.last()->State_0;
    let taken = captured(st, step.stack, step.asmop->0);
    let line = line_of(source, run.last());
    let now = progress(source, run).state;
    let open = open_at(source, run);
    let known = TracerView { functions: with_function(taken.functions, name), ..taken };
    assert(now.context == Some(name));
    if is_main(name) {
        assert(now.main_open);
        assert(now.frames =~= Seq::empty());
        assert(open =~= seq![name]);
    } else {
        assert forall|row: Seq<Seq<char>>| #[trigger]
            only_way(source, row, leaf) && row.len() > 2 implies open.len() == row.len() - 1
            && open.last() == name && forall|i: int|
            0 <= i < open.len() - 1 ==> #[trigger] open[i] == "#exec::"@ + row[i + 1] by {
            lemma_chain_found(graph, row, CHAIN_LIMIT as nat);
            let callers = row.subrange(1, row.len() - 1);
            lemma_inlined_frames(known, callers, line);
            assert(now.leaf_open);
            assert(open == now.frames.push(name));
        }
        if forall|row: Seq<Seq<char>>| #[trigger] only_way(source, row, leaf) ==> row.len() == 2 {
            if let Some(c) = chain(parent_map(graph), leaf, CHAIN_LIMIT as nat) {
                lemma_chain(parent_map(graph), leaf, CHAIN_LIMIT as nat);
                lemma_chain_inner(parent_map(graph), leaf, CHAIN_LIMIT as nat);
                assert forall|i: int| 0 <= i < c.len() - 1 implies only_caller(
                    graph,
                    #[trigger] c[i + 1],
                    c[i],
                ) by {
                    lemma_chain_calls(graph, leaf, CHAIN_LIMIT as nat, i);
                }
                assert(only_way(source, c, leaf));
            }
            assert(!now.leaf_open && !now.main_open);
            assert(now.frames =~= Seq::empty());
            assert(open =~= Seq::empty());
        }
    }
}

/// Before the first instruction the tracer has no calls and no procedure.
proof fn lemma_untouched(source: Seq<char>, run: Seq<VmEventView>, whole: Seq<VmEventView>)
    requires
        runs_through(run),
        whole.len() == run.len() + 1,
        run == whole.drop_last(),
        nothing_between(whole, -1, run.len() as int),
    ensures
        ({
            let st = progress(source, run).state;
            &&& st.context is None
            &&& st.frames == Seq::<Seq<char>>::empty()
            &&& !st.main_open
            &&& !st.leaf_open
        }),
    decreases run.len(),
{
    if run.len() > 0 {
        lemma_added(source, run);
        assert(run.last() == whole[run.len() - 1]);
        lemma_still(source, run);
        assert forall|k: int| -1 < k < run.len() - 1 implies !enters(#[trigger] run[k]) by {
            assert(!enters(whole[k]));
        }
        lemma_untouched(source, run.drop_last(), run);
    }
}

/// How the outermost procedure of a path is known to the trace.
pub enum Root {
    /// Its call was opened for the first instruction, in the body of the
    /// program.
    Main,
    /// Its call was opened for the first instruction, in a procedure that it
    /// leads to.
    Inlined,
    /// The trace began inside it, and opened no call.
    Unopened,
}

/// Where a trace stands: the procedures from the outermost to the current one.
pub struct Place {
    pub root: Root,
    pub path: Seq<Seq<char>>,
}

/// The calls that are open at a place.
pub open spec fn calls_at(place: Place) -> Seq<Seq<char>> {
    if place.root is Unopened {
        place.path.skip(1)
    } else {
        place.path
    }
}

/// How a trace goes on from a place to the procedure `name`. Out of a row of
/// inlined procedures it goes to the body of the program by leaving them all.
pub open spec fn goes(source: Seq<char>, from: Place, name: Seq<char>, to: Place) -> bool {
    let path = from.path;
    let caller = path[path.len() - 2];
    if name == path.last() {
        to == from
    } else if path.len() >= 2 && name == caller {
        to == Place { root: from.root, path: path.drop_last() }
    } else if from.root is Inlined && is_main(name) && (forall|i: int|
        0 <= i < path.len() - 1 ==> !is_main(#[trigger] path[i])) {
        to == Place { root: Root::Unopened, path: seq![name] }
    } else if path.len() >= 2 && invokes_both(source, caller, path.last(), name) {
        to == Place { root: from.root, path: path.drop_last().push(name) }
    } else {
        to == Place { root: from.root, path: path.push(name) }
    }
}

/// The tracer stands at a place.
spec fn stands(st: TracerView, place: Place) -> bool {
    &&& st.context is Some
    &&& place.path == st.frames.push(st.context->0)
    &&& st.main_open == place.root is Main
    &&& st.leaf_open == place.root is Inlined
}

/// From each instruction to the next, whatever the trace began with, the open
/// calls go from those of one place to those of the next.
pub proof fn lemma_call_steps(
    source: Seq<char>,
    run: Seq<VmEventView>,
    f: int,
    places: Seq<Place>,
)
    requires
        runs_through(run),
        0 <= f < run.len(),
        places.len() == run.len(),
        enters(run[f]),
        nothing_between(run, -1, f),
        calls_at(places[f]) == open_at(source, run.take(f + 1)),
        places[f].path.len() > 0,
        places[f].path.last() == context_of(run[f]),
        places[f].root is Main <==> is_main(context_of(run[f])),
        places[f].root is Unopened ==> places[f].path.len() == 1,
        places[f].root is Unopened <==> open_at(source, run.take(f + 1)).len() == 0,
        forall|i: int|
            f < i < run.len() && enters(#[trigger] run[i]) ==> goes(
                source,
                places[i - 1],
                context_of(run[i]),
                places[i],
            ),
        forall|i: int| f < i < run.len() && !enters(#[trigger] run[i]) ==> places[i] == places[i - 1],
    ensures
        open_at(source, run) == calls_at(places.last()),
{
    lemma_taken(run, f + 1);
    let start = run.take(f + 1);
    lemma_first_place(source, start, places[f]);
    lemma_stands(source, run, f, places, run.len() as int);
    assert(run.take(run.len() as int) =~= run);
    lemma_open_calls(source, run);
}

proof fn lemma_first_place(source: Seq<char>, start: Seq<VmEventView>, place: Place)
    requires
        runs_through(start),
        start.len() > 0,
        enters(start.last()),
        nothing_between(start, -1, start.len() - 1),
        calls_at(place) == open_at(source, start),
        place.path.len() > 0,
        place.path.last() == context_of(start.last()),
        place.root is Main <==> is_main(context_of(start.last())),
        place.root is Unopened ==> place.path.len() == 1,
        place.root is Unopened <==> open_at(source, start).len() == 0,
    ensures
        stands(progress(source, start).state, place),
{
    lemma_open_calls(source, start);
    lemma_parts(source, start);
    lemma_added(source, start);
    lemma_untouched(source, start.drop_last(), start);
    let name = context_of(start.last());
    let now = progress(source, start).state;
    let st = progress(source, start.drop_last()).state;
    let step = start.last()->State_0;
    let taken = captured(st, step.stack, step.asmop->0);
    let known = TracerView { functions: with_function(taken.functions, name), ..taken };
    if !is_main(name) {
        if let Some(c) = chain(
            parent_map(call_graph(source)),
            last_segment(name),
            CHAIN_LIMIT as nat,
        ) {
            lemma_inlined_frames(known, c.subrange(1, c.len() - 1), line_of(source, start.last()));
        }
    }
    assert(waiting(now) == open_at(source, start));
    if !now.main_open && !now.leaf_open {
        assert(now.frames =~= Seq::empty());
        assert(open_at(source, start).len() == 0);
        assert(place.path =~= seq![name]);
        assert(place.path =~= now.frames.push(name));
    } else {
        assert(open_at(source, start).len() > 0);
    }
}

#[verifier::rlimit(50)]
proof fn lemma_stands(
    source: Seq<char>,
    run: Seq<VmEventView>,
    f: int,
    places: Seq<Place>,
    n: int,
)
    requires
        runs_through(run),
        0 <= f < n <= run.len(),
        places.len() == run.len(),
        stands(progress(source, run.take(f + 1)).state, places[f]),
        forall|i: int|
            f < i < run.len() && enters(#[trigger] run[i]) ==> goes(
                source,
                places[i - 1],
                context_of(run[i]),
                places[i],
            ),
        forall|i: int| f < i < run.len() && !enters(#[trigger] run[i]) ==> places[i] == places[i - 1],
    ensures
        stands(progress(source, run.take(n)).state, places[n - 1]),
    decreases n,
{
    if n > f + 1 {
        lemma_stands(source, run, f, places, n - 1);
        lemma_taken(run, n);
        let now = run.take(n);
        let before = progress(source, now.drop_last()).state;
        let st = progress(source, now).state;
        let from = places[n - 2];
        let to = places[n - 1];
        if enters(run[n - 1]) {
            let name = context_of(run[n - 1]);
            assert(goes(source, from, name, to));
            lemma_next(source, now, before.context->0);
            assert(from.path.last() == before.context->0);
            assert(from.path.drop_last() =~= before.frames);
            if from.path.len() >= 2 {
                assert(from.path[from.path.len() - 2] == before.frames.last());
            }
            assert(holds_main(before.frames) <==> !(forall|i: int|
                0 <= i < from.path.len() - 1 ==> !is_main(#[trigger] from.path[i]))) by {
                if holds_main(before.frames) {
                    let i = choose|i: int|
                        0 <= i < before.frames.len() && last_segment(#[trigger] before.frames[i])
                            == "#main"@;
                    assert(is_main(from.path[i]));
                }
                if !(forall|i: int|
                    0 <= i < from.path.len() - 1 ==> !is_main(#[trigger] from.path[i])) {
                    let i = choose|i: int|
                        0 <= i < from.path.len() - 1 && is_main(#[trigger] from.path[i]);
                    assert(last_segment(before.frames[i]) == "#main"@);
                }
            }
            assert(to.path =~= st.frames.push(name));
        } else {
            lemma_still(source, now);
        }
    }
}

/// An instruction behind another one opens one call at most. Directly before it
/// stand its arguments, the four topmost stack items as far as there are so
/// many, and the calls that are closed are closed before that. An instruction
/// that opens no call has no arguments.
#[verifier::rlimit(50)]
pub proof fn lemma_arguments(source: Seq<char>, run: Seq<VmEventView>, p: int)
    requires
        runs_through(run),
        run.len() > 0,
        enters(run.last()),
        0 <= p < run.len() - 1,
        enters(run[p]),
    ensures
        ({
            let ops = added(source, run);
            let stack = stack_of(run.last());
            let n = if stack.len() < 4 {
                stack.len() as int
            } else {
                4
            };
            &&& forall|k: int|
                0 <= k < ops.len() && (#[trigger] ops[k]) is Call ==> {
                    &&& k >= n
                    &&& forall|i: int|
                        0 <= i < n ==> (#[trigger] ops[k - n + i]) is Arg && ops[k - n
                            + i]->Arg_name == "s"@ + decimal(i) && ops[k - n + i]->Arg_value as int
                            == signed(stack[i])
                    &&& forall|l: int|
                        0 <= l < ops.len() && l != k ==> !((#[trigger] ops[l]) is Call)
                    &&& forall|l: int|
                        0 <= l < ops.len() && (#[trigger] ops[l]) is Return ==> l < k - n
                    &&& forall|l: int|
                        0 <= l < ops.len() && (#[trigger] ops[l]) is Arg ==> k - n <= l < k
                }
            &&& (forall|k: int| 0 <= k < ops.len() ==> !((#[trigger] ops[k]) is Call)) ==> (forall|
                k: int,
            | 0 <= k < ops.len() ==> !((#[trigger] ops[k]) is Arg))
        }),
{
    lemma_parts(source, run);
    let parts = parts(source, run);
    let ops = added(source, run);
    let entry = parts.entry.ops;
    let stack = stack_of(run.last());
    let args = arguments(stack);
    let st = progress(source, run.drop_last()).state;
    let step = run.last()->State_0;
    let a = step.asmop->0;
    let name = context_of(run.last());
    let line = line_of(source, run.last());
    let taken = captured(st, step.stack, a);
    lemma_has_context(source, run.drop_last(), run, p);
    let n = args.len() as int;
    assert forall|k: int| entry.len() <= k < ops.len() implies !((#[trigger] ops[k]) is Call
        || ops[k] is Return || ops[k] is Arg) by {
        let m = entry.len() + parts.stop.ops.len();
        if k < m {
            assert(ops[k] == parts.stop.ops[k - entry.len()]);
        } else {
            assert(ops[k] == parts.values.ops[k - m]);
        }
    }
    assert forall|i: int| 0 <= i < n implies (#[trigger] args[i]) is Arg && args[i]->Arg_name == "s"@
        + decimal(i) && args[i]->Arg_value as int == signed(stack[i]) by {
        lemma_signed(stack[i]);
    }
    if st.context != Some(name) {
        let known = TracerView { functions: with_function(st.functions, name), ..taken };
        let inner = switched(source, known, st.context->0, name, stack);
        let reg = registration(st.functions, name, line);
        assert(entry == reg + inner.ops);
        let call = call_of(known.functions, name);
        let r = if inner.ops.len() > 0 && inner.ops[inner.ops.len() - 1] is Return {
            inner.ops.len() as int
        } else {
            inner.ops.len() - 1 - n
        };
        let tail = args.push(call);
        assert(r == inner.ops.len() || (r >= 0 && inner.ops == return_ops(r as nat) + tail)) by {
            if inner.ops == tail {
                assert(tail =~= return_ops(0) + tail);
            }
        }
        let base = reg.len() as int;
        assert forall|k: int| 0 <= k < base + r implies !((#[trigger] entry[k]) is Call
            || entry[k] is Arg) by {
            if k >= base {
                assert(entry[k] == inner.ops[k - base]);
            }
        }
        if r < inner.ops.len() {
            assert forall|k: int| base + r <= k < base + r + n implies #[trigger] entry[k] == args[k
                - base - r] by {
                assert(entry[k] == inner.ops[k - base]);
                assert(inner.ops[k - base] == tail[k - base - r]);
            }
            let at = base + r + n;
            assert(entry[at] == inner.ops[r + n]);
            assert(entry[at] == call);
            assert(entry.len() == at + 1);
            assert(ops[at] is Call);
            assert forall|i: int| 0 <= i < n implies #[trigger] ops[at - n + i] == args[i] by {
                assert(ops[at - n + i] == entry[base + r + i]);
            }
            assert forall|k: int| 0 <= k < ops.len() && (#[trigger] ops[k]) is Call implies k
                == at by {
                if k < at {
                    assert(ops[k] == entry[k]);
                    if k >= base + r {
                        assert(entry[k] == args[k - base - r]);
                    }
                }
            }
            assert forall|l: int| 0 <= l < ops.len() && (#[trigger] ops[l]) is Return implies l < at
                - n by {
                if l < at {
                    assert(ops[l] == entry[l]);
                    if l >= base + r {
                        assert(entry[l] == args[l - base - r]);
                    }
                }
            }
            assert forall|l: int| 0 <= l < ops.len() && (#[trigger] ops[l]) is Arg implies at - n
                <= l < at by {
                if l < at {
                    assert(ops[l] == entry[l]);
                }
            }
        } else {
            assert forall|k: int| 0 <= k < ops.len() implies !((#[trigger] ops[k]) is Call
                || ops[k] is Arg) by {
                if k < entry.len() {
                    assert(ops[k] == entry[k]);
                }
            }
        }
    }
}

/// Behind the first instruction the tracer has a procedure.
proof fn lemma_has_context(
    source: Seq<char>,
    run: Seq<VmEventView>,
    whole: Seq<VmEventView>,
    p: int,
)
    requires
        runs_through(run),
        whole.len() == run.len() + 1,
        run == whole.drop_last(),
        0 <= p < run.len(),
        enters(whole[p]),
    ensures
        progress(source, run).state.context is Some,
    decreases run.len(),
{
    lemma_added(source, run);
    assert(run.last() == whole[run.len() - 1]);
    if enters(run.last()) {
        lemma_parts(source, run);
    } else {
        lemma_still(source, run);
        assert(run[p] == whole[p]);
        lemma_has_context(source, run.drop_last(), run, p);
    }
}

/// A trace begins with the registration of every procedure that the source
/// declares with its local slots, in order, at the first line, under the name
/// that the VM gives it.
pub proof fn lemma_trace_opens(source: Seq<char>, events: Seq<VmEventView>)
    ensures
        ({
            let names = proc_locals(source).names;
            &&& trace_of(source, events).len() > names.len()
            &&& forall|i: int|
                0 <= i < names.len() ==> #[trigger] trace_of(source, events)[i]
                    == (OpView::EnsureFunction { name: "#exec::"@ + names[i], line: 1 })
        }),
{
    let names = proc_locals(source).names;
    let ops = opening(source);
    assert(ops.len() == names.len());
    let run = events.take(run_length(events) as int);
    lemma_trace_in_two(source, events);
    lemma_opening_kept(source, run);
    let all = progress(source, run).ops;
    let trace = trace_of(source, events);
    assert forall|i: int| 0 <= i < names.len() implies #[trigger] trace[i]
        == (OpView::EnsureFunction { name: "#exec::"@ + names[i], line: 1 }) by {
        assert(all[i] == ops[i]);
    }
}

proof fn lemma_opening_kept(source: Seq<char>, run: Seq<VmEventView>)
    ensures
        progress(source, run).ops.len() >= opening(source).len(),
        forall|i: int|
            0 <= i < opening(source).len() ==> #[trigger] progress(source, run).ops[i] == opening(
                source,
            )[i],
    decreases run.len(),
{
    if run.len() > 0 {
        lemma_opening_kept(source, run.drop_last());
        let before = progress(source, run.drop_last()).ops;
        let now = progress(source, run).ops;
        assert forall|i: int| 0 <= i < opening(source).len() implies #[trigger] now[i] == opening(
            source,
        )[i] by {
            assert(now[i] == before[i]);
        }
    }
}

proof fn lemma_inlined_registers(st: TracerView, callers: Seq<Seq<char>>, line: u32)
    ensures
        forall|k: int|
            0 <= k < inlined(st, callers, line).ops.len() && (#[trigger] inlined(
                st,
                callers,
                line,
            ).ops[k]) is EnsureFunction ==> inlined(st, callers, line).ops[k]->EnsureFunction_line
                == line && exists|i: int|
                0 <= i < callers.len() && inlined(st, callers, line).ops[k]->EnsureFunction_name
                    == "#exec::"@ + #[trigger] callers[i],
    decreases callers.len(),
{
    if callers.len() > 0 {
        let less = callers.drop_last();
        lemma_inlined_registers(st, less, line);
        let outer = inlined(st, less, line);
        let all = inlined(st, callers, line).ops;
        assert forall|k: int| 0 <= k < all.len() && (#[trigger] all[k]) is EnsureFunction implies
            all[k]->EnsureFunction_line == line && exists|i: int|
            0 <= i < callers.len() && all[k]->EnsureFunction_name == "#exec::"@
                + #[trigger] callers[i] by {
            if k < outer.ops.len() {
                assert(all[k] == outer.ops[k]);
                let i = choose|i: int|
                    0 <= i < less.len() && all[k]->EnsureFunction_name == "#exec::"@
                        + #[trigger] less[i];
                assert(callers[i] == less[i]);
            } else {
                assert(all[k]->EnsureFunction_name == "#exec::"@ + callers[callers.len() - 1]);
            }
        }
    }
}

/// A procedure that is registered for an instruction is the instruction's own,
/// or for the first instruction one whose call it opens, and it is registered at
/// the line of the instruction.
#[verifier::rlimit(50)]
pub proof fn lemma_registered_at(source: Seq<char>, run: Seq<VmEventView>, k: int)
    requires
        runs_through(run),
        run.len() > 0,
        enters(run.last()),
        0 <= k < added(source, run).len(),
        added(source, run)[k] is EnsureFunction,
    ensures
        added(source, run)[k]->EnsureFunction_line == line_of(source, run.last()),
        added(source, run)[k]->EnsureFunction_name == context_of(run.last()) || (open_at(
            source,
            run,
        ).contains(added(source, run)[k]->EnsureFunction_name) && nothing_between(
            run,
            -1,
            run.len() - 1,
        )),
{
    lemma_parts(source, run);
    lemma_added(source, run);
    lemma_open_calls(source, run);
    let parts = parts(source, run);
    let all = added(source, run);
    let entry = parts.entry.ops;
    let name = context_of(run.last());
    let line = line_of(source, run.last());
    let st = progress(source, run.drop_last()).state;
    let step = run.last()->State_0;
    let taken = captured(st, step.stack, step.asmop->0);
    assert(k < entry.len()) by {
        if k >= entry.len() {
            let m = entry.len() + parts.stop.ops.len();
            if k < m {
                assert(all[k] == parts.stop.ops[k - entry.len()]);
            } else {
                assert(all[k] == parts.values.ops[k - m]);
            }
        }
    }
    assert(all[k] == entry[k]);
    let reg = registration(taken.functions, name, line);
    let known = TracerView { functions: with_function(taken.functions, name), ..taken };
    if k >= reg.len() {
        if st.context is None {
            let found = chain(
                parent_map(call_graph(source)),
                last_segment(name),
                CHAIN_LIMIT as nat,
            );
            assert(found is Some && found->0.len() > 2 && !is_main(name));
            let c = found->0;
            let callers = c.subrange(1, c.len() - 1);
            let outer = inlined(known, callers, line);
            lemma_inlined_registers(known, callers, line);
            lemma_inlined_frames(known, callers, line);
            let at = k - reg.len();
            assert(entry[k] == outer.ops.push(call_of(outer.state.functions, name))[at]);
            assert(at < outer.ops.len());
            assert(outer.ops[at] is EnsureFunction);
            let i = choose|i: int|
                0 <= i < callers.len() && outer.ops[at]->EnsureFunction_name == "#exec::"@
                    + #[trigger] callers[i];
            let now = progress(source, run).state;
            assert(nothing_between(run, -1, run.len() - 1)) by {
                if exists|p: int| -1 < p < run.len() - 1 && enters(#[trigger] run[p]) {
                    let p = choose|p: int| -1 < p < run.len() - 1 && enters(#[trigger] run[p]);
                    lemma_has_context(source, run.drop_last(), run, p);
                }
            }
            lemma_untouched(source, run.drop_last(), run);
            assert(now.frames == known.frames + callers.map_values(
                |c: Seq<char>| executable_name(c),
            ));
            assert(now.frames[i] == executable_name(callers[i]));
            assert(open_at(source, run) == now.frames.push(name));
            assert(open_at(source, run)[i] == entry[k]->EnsureFunction_name);
        } else {
            let inner = switched(source, known, st.context->0, name, step.stack);
            assert(entry[k] == inner.ops[k - reg.len()]);
            assert(false);
        }
    }
}

/// Neither a call is opened nor one closed.
pub open spec fn turns_none(ops: Seq<OpView>) -> bool {
    forall|m: int| 0 <= m < ops.len() ==> !((#[trigger] ops[m]) is Call || ops[m] is Return)
}

/// One call is closed, and nothing else happens to the calls.
pub open spec fn turns_back(ops: Seq<OpView>) -> bool {
    exists|k: int|
        0 <= k < ops.len() && (#[trigger] ops[k]) is Return && turns_none(ops.take(k))
            && turns_none(ops.skip(k + 1))
}

/// One call is opened, and nothing else happens to the calls.
pub open spec fn turns_in(ops: Seq<OpView>) -> bool {
    exists|k: int|
        0 <= k < ops.len() && (#[trigger] ops[k]) is Call && turns_none(ops.take(k)) && turns_none(
            ops.skip(k + 1),
        )
}

/// One call is closed, then one is opened, and nothing else happens to the
/// calls.
pub open spec fn turns_on(ops: Seq<OpView>) -> bool {
    exists|k: int|
        0 <= k < ops.len() && turns_back(#[trigger] ops.take(k)) && turns_in(ops.skip(k))
}

proof fn lemma_back_within(a: Seq<OpView>, b: Seq<OpView>)
    requires
        turns_none(a),
        turns_none(b),
    ensures
        turns_back(a.push(OpView::Return) + b),
{
    let ops = a.push(OpView::Return) + b;
    let k = a.len() as int;
    assert(ops[k] is Return);
    assert(ops.take(k) =~= a);
    assert(ops.skip(k + 1) =~= b);
}

proof fn lemma_in_within(a: Seq<OpView>, call: OpView, b: Seq<OpView>)
    requires
        turns_none(a),
        turns_none(b),
        call is Call,
    ensures
        turns_in(a.push(call) + b),
{
    let ops = a.push(call) + b;
    let k = a.len() as int;
    assert(ops[k] is Call);
    assert(ops.take(k) =~= a);
    assert(ops.skip(k + 1) =~= b);
}

proof fn lemma_none_joined(a: Seq<OpView>, b: Seq<OpView>)
    requires
        turns_none(a),
        turns_none(b),
    ensures
        turns_none(a + b),
{
    assert forall|m: int| 0 <= m < (a + b).len() implies !((#[trigger] (a + b)[m]) is Call || (a
        + b)[m] is Return) by {
        if m < a.len() {
            assert((a + b)[m] == a[m]);
        } else {
            assert((a + b)[m] == b[m - a.len()]);
        }
    }
}

/// What an instruction does to the calls where at least two are open and it does
/// not belong to the body of the program. In the current procedure it opens and
/// closes none. In the caller it closes the current call. In a procedure that
/// the caller invokes besides the current one it closes the current call and
/// opens one of that procedure, and the callers stay as they are. In any other
/// procedure it opens a call.
#[verifier::rlimit(50)]
pub proof fn lemma_one_move(source: Seq<char>, run: Seq<VmEventView>, p: int)
    requires
        runs_through(run),
        run.len() > 0,
        enters(run.last()),
        0 <= p < run.len() - 1,
        enters(run[p]),
        nothing_between(run, p, run.len() - 1),
        open_at(source, run.drop_last()).len() >= 2,
        !is_main(context_of(run.last())),
    ensures
        ({
            let open = open_at(source, run.drop_last());
            let now = open_at(source, run);
            let ops = added(source, run);
            let name = context_of(run.last());
            let current = open.last();
            let caller = open[open.len() - 2];
            &&& current == context_of(run[p])
            &&& name == current ==> now == open && turns_none(ops)
            &&& name != current && name == caller ==> now == open.drop_last() && turns_back(ops)
            &&& name != current && name != caller && invokes_both(source, caller, current, name)
                ==> now == open.drop_last().push(name) && turns_on(ops)
            &&& name != current && name != caller && !invokes_both(source, caller, current, name)
                ==> now == open.push(name) && turns_in(ops)
        }),
{
    lemma_added(source, run);
    let shorter = run.drop_last();
    lemma_open_calls(source, run);
    lemma_open_calls(source, shorter);
    lemma_context_at(source, shorter, run, p);
    let st = progress(source, shorter).state;
    let current = context_of(run[p]);
    let name = context_of(run.last());
    lemma_next(source, run, current);
    let open = open_at(source, shorter);
    let now = open_at(source, run);
    let frames = st.frames;
    let whole = frames.push(current);
    assert(open == whole || open == whole.skip(1));
    assert(frames.len() > 0);
    assert(open[open.len() - 2] == frames.last());
    assert(open.last() == current);
    lemma_move_turns(source, run, current);
    let after = progress(source, run).state;
    if name == current {
        assert(now =~= open);
    } else if name == frames.last() {
        assert(after.frames.push(name) =~= whole.drop_last());
        assert(now =~= open.drop_last());
    } else if invokes_both(source, frames.last(), current, name) {
        assert(after.frames.push(name) =~= whole.drop_last().push(name));
        assert(now =~= open.drop_last().push(name));
    } else {
        assert(after.frames.push(name) =~= whole.push(name));
        assert(now =~= open.push(name));
    }
}

/// The calls that an instruction closes and opens, by the tracer's account.
#[verifier::rlimit(50)]
proof fn lemma_move_turns(source: Seq<char>, run: Seq<VmEventView>, current: Seq<char>)
    requires
        runs_through(run),
        run.len() > 0,
        enters(run.last()),
        progress(source, run.drop_last()).state.context == Some(current),
        progress(source, run.drop_last()).state.frames.len() > 0,
        !is_main(context_of(run.last())),
    ensures
        ({
            let frames = progress(source, run.drop_last()).state.frames;
            let ops = added(source, run);
            let name = context_of(run.last());
            &&& name == current ==> turns_none(ops)
            &&& name != current && name == frames.last() ==> turns_back(ops)
            &&& name != current && name != frames.last() && invokes_both(
                source,
                frames.last(),
                current,
                name,
            ) ==> turns_on(ops)
            &&& name != current && name != frames.last() && !invokes_both(
                source,
                frames.last(),
                current,
                name,
            ) ==> turns_in(ops)
        }),
{
    lemma_parts(source, run);
    let st = progress(source, run.drop_last()).state;
    let frames = st.frames;
    let name = context_of(run.last());
    let parts = parts(source, run);
    let entry = parts.entry.ops;
    let rest = parts.stop.ops + parts.values.ops;
    let ops = added(source, run);
    assert(ops =~= entry + rest);
    assert(turns_none(parts.stop.ops));
    assert(turns_none(parts.values.ops));
    lemma_none_joined(parts.stop.ops, parts.values.ops);
    let step = run.last()->State_0;
    let taken = captured(st, step.stack, step.asmop->0);
    let known = TracerView { functions: with_function(taken.functions, name), ..taken };
    let reg = registration(taken.functions, name, line_of(source, run.last()));
    if name == current {
        assert(entry =~= Seq::empty());
        assert(ops =~= rest);
    } else {
        let inner = switched(source, known, current, name, step.stack);
        assert(entry == reg + inner.ops);
        let call = call_of(known.functions, name);
        lemma_turns_of(reg, return_ops(1), arguments(step.stack), call, rest);
    }
}

/// How the parts of what an instruction adds fit together.
proof fn lemma_turns_of(
    reg: Seq<OpView>,
    back: Seq<OpView>,
    args: Seq<OpView>,
    call: OpView,
    rest: Seq<OpView>,
)
    requires
        turns_none(reg),
        back == return_ops(1),
        turns_none(args),
        call is Call,
        turns_none(rest),
    ensures
        turns_back(reg + back + rest),
        turns_on(reg + (back + args.push(call)) + rest),
        turns_in(reg + args.push(call) + rest),
{
    let none = Seq::<OpView>::empty();
    assert(reg + back + rest =~= reg.push(OpView::Return) + rest);
    lemma_back_within(reg, rest);
    let on = reg + (back + args.push(call)) + rest;
    let k = reg.len() + 1;
    assert(on.take(k as int) =~= reg.push(OpView::Return) + none);
    assert(on.skip(k as int) =~= args.push(call) + rest);
    lemma_back_within(reg, none);
    lemma_in_within(args, call, rest);
    assert(turns_back(on.take(k as int)));
    lemma_none_joined(reg, args);
    assert(reg + args.push(call) + rest =~= (reg + args).push(call) + rest);
    lemma_in_within(reg + args, call, rest);
}

/// The tracer's procedure is that of the last instruction.
proof fn lemma_context_at(
    source: Seq<char>,
    run: Seq<VmEventView>,
    whole: Seq<VmEventView>,
    p: int,
)
    requires
        runs_through(run),
        whole.len() == run.len() + 1,
        run == whole.drop_last(),
        0 <= p < run.len(),
        enters(whole[p]),
        nothing_between(whole, p, run.len() as int),
    ensures
        progress(source, run).state.context == Some(context_of(whole[p])),
    decreases run.len(),
{
    lemma_added(source, run);
    assert(run.last() == whole[run.len() - 1]);
    if p == run.len() - 1 {
        lemma_parts(source, run);
        let st = progress(source, run.drop_last()).state;
        let step = run.last()->State_0;
        crate::tracer::stepping::lemma_entered_keeps(
            source,
            captured(st, step.stack, step.asmop->0),
            context_of(run.last()),
            line_of(source, run.last()),
            step.stack,
        );
    } else {
        assert(!enters(whole[run.len() - 1]));
        lemma_still(source, run);
        assert forall|k: int| p < k < run.len() - 1 implies !enters(#[trigger] run[k]) by {
            assert(!enters(whole[k]));
        }
        assert(run[p] == whole[p]);
        lemma_context_at(source, run.drop_last(), run, p);
    }
}

} // verus!
