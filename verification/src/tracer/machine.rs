//! The tracer: it takes the states of an execution one by one and writes down
//! the operations of the trace.

use miden_processor::VmStateIterator;
use std::path::PathBuf;
use vstd::prelude::*;
use vstd::string::StringExecFns;

use crate::number::decimal_text;
use crate::number::signed_text;
use crate::source_map::SourceMap;
use crate::table::Table;
use crate::text::last_segment;
use crate::text::option_text;
use crate::text::same_text;
use crate::text::texts;
use crate::tracer::call_graph::bare_proc_name;
use crate::tracer::call_graph::build_parent_map;
use crate::tracer::call_graph::call_graph;
use crate::tracer::call_graph::chain_from_main;
use crate::tracer::call_graph::parent_map;
use crate::tracer::call_graph::parse_call_graph;
use crate::tracer::call_graph::parse_proc_locals;
use crate::tracer::call_graph::proc_locals;
use crate::tracer::call_graph::CallGraph;
use crate::tracer::call_graph::ParentMap;
use crate::tracer::laws::lemma_declared_once;
use crate::tracer::model::advice_ops;
use crate::tracer::model::advice_report;
use crate::tracer::model::arguments;
use crate::tracer::model::begun;
use crate::tracer::model::captured;
use crate::tracer::model::cell;
use crate::tracer::model::closing;
use crate::tracer::model::declared_functions;
use crate::tracer::model::entered;
use crate::tracer::model::failure;
use crate::tracer::model::finished_read;
use crate::tracer::model::first_context;
use crate::tracer::model::fresh;
use crate::tracer::model::holds_main;
use crate::tracer::model::inlined;
use crate::tracer::model::ints;
use crate::tracer::model::local_variables;
use crate::tracer::model::locals_of;
use crate::tracer::model::observed;
use crate::tracer::model::op_views;
use crate::tracer::model::opening;
use crate::tracer::model::registration;
use crate::tracer::model::rest_of_trace;
use crate::tracer::model::return_ops;
use crate::tracer::model::shown_values;
use crate::tracer::model::siblings;
use crate::tracer::model::slot_value;
use crate::tracer::model::stack_variables;
use crate::tracer::model::stepped;
use crate::tracer::model::switched;
use crate::tracer::model::value_list;
use crate::tracer::model::with_function;
use crate::tracer::model::with_slot;
use crate::tracer::model::word_ops;
use crate::tracer::model::EventKind;
use crate::tracer::model::Move;
use crate::tracer::model::OpView;
use crate::tracer::model::TraceOp;
use crate::tracer::model::TracerView;
use crate::tracer::ops::is_adv_loadw;
use crate::tracer::ops::is_word_load;
use crate::tracer::ops::parse_adv_push_count;
use crate::tracer::ops::parse_loc_store;
use crate::tracer::ops::stored_slot;
use crate::tracer::vm::next_event;
use crate::tracer::vm::remaining;
use crate::tracer::vm::AsmOp;
use crate::tracer::vm::VmEvent;
use crate::tracer::vm::VmEventView;
use crate::tracer::vm::VmStep;

verus! {

/// What the events of a list hold.
pub open spec fn event_views(v: Seq<VmEvent>) -> Seq<VmEventView> {
    v.map_values(|e: VmEvent| e@)
}

/// What the source of a program says of it.
struct ProgramInfo {
    map: SourceMap,
    locals: Table<u16>,
    graph: CallGraph,
    parents: ParentMap,
}

impl ProgramInfo {
    spec fn wf(&self) -> bool {
        let source = self.map.text();
        &&& self.locals.wf()
        &&& self.locals.names() == proc_locals(source).names
        &&& self.locals@ == proc_locals(source).locals
        &&& self.graph.wf()
        &&& self.graph@ == call_graph(source)
        &&& self.parents.wf()
        &&& self.parents@ == parent_map(call_graph(source))
    }

    fn new(path: &PathBuf, source: &str) -> (r: Self)
        ensures
            r.wf(),
            r.map.text() == source@,
    {
        let graph = parse_call_graph(source);
        let parents = build_parent_map(&graph);
        ProgramInfo {
            map: SourceMap::from_source(path, source),
            locals: parse_proc_locals(source),
            graph,
            parents,
        }
    }

    fn locals_of(&self, name: &str) -> (r: u16)
        requires
            self.wf(),
        ensures
            r == locals_of(self.map.text(), name@),
    {
        match self.locals.get(name) {
            Some(n) => *n,
            None => match self.locals.get(bare_proc_name(name).as_str()) {
                Some(n) => *n,
                None => 0,
            },
        }
    }
}

fn is_name(o: &Option<String>, name: &str) -> (r: bool)
    ensures
        r == (option_text(*o) == Some(name@)),
{
    match o {
        Some(s) => same_text(s.as_str(), name),
        None => false,
    }
}

fn top(stack: &Vec<u64>, n: usize) -> (r: Vec<i64>)
    requires
        n <= stack@.len(),
    ensures
        r@ == ints(stack@.take(n as int)),
{
    let mut out: Vec<i64> = Vec::new();
    let mut i: usize = 0;
    while i < n
        invariant
            i <= n <= stack@.len(),
            out@.len() == i,
            forall|k: int| 0 <= k < i ==> #[trigger] out@[k] == stack@[k] as i64,
        decreases n - i,
    {
        let value: i64 = #[verifier::truncate]
        (stack[i] as i64);
        out.push(value);
        i += 1;
    }
    assert(out@ =~= ints(stack@.take(n as int)));
    out
}

fn list_text(values: &Vec<i64>) -> (r: String)
    ensures
        r@ == value_list(values@),
{
    let mut out = String::new();
    let mut i: usize = 0;
    assert(values@.take(0) =~= seq![]);
    assert(out@ =~= seq![]);
    while i < values.len()
        invariant
            i <= values.len(),
            out@ == value_list(values@.take(i as int)),
        decreases values.len() - i,
    {
        assert(values@.take(i + 1).drop_last() =~= values@.take(i as int));
        if i > 0 {
            out.append(", ");
        }
        out.append(signed_text(values[i]).as_str());
        i += 1;
        assert(out@ =~= value_list(values@.take(i as int)));
    }
    assert(values@.take(i as int) =~= values@);
    out
}

fn report(kind: &str, values: &Vec<i64>) -> (r: String)
    ensures
        r@ == advice_report(kind@, values@),
{
    let mut out = "advice_read kind=".to_owned();
    out.append(kind);
    out.append(" count=");
    out.append(decimal_text(values.len() as u64).as_str());
    out.append(" values=[");
    out.append(list_text(values).as_str());
    out.append("]");
    out
}

fn read_by(op: &str, stack: &Vec<u64>) -> (r: Option<String>)
    ensures
        option_text(r) == finished_read(op@, stack@),
{
    match parse_adv_push_count(op) {
        Some(n) => if stack.len() >= n as usize {
            Some(report("adv_push", &top(stack, n as usize)))
        } else {
            None
        },
        None => if is_adv_loadw(op) && stack.len() >= 4 {
            Some(report("adv_loadw", &top(stack, 4)))
        } else {
            None
        },
    }
}

fn find_cell(memory: &Vec<(u32, u64)>, address: u32) -> (r: Option<u64>)
    ensures
        r == cell(memory@, address),
{
    let mut i: usize = 0;
    assert(memory@.skip(0) =~= memory@);
    while i < memory.len()
        invariant
            i <= memory.len(),
            cell(memory@, address) == cell(memory@.skip(i as int), address),
        decreases memory.len() - i,
    {
        assert(memory@.skip(i as int).drop_first() =~= memory@.skip(i + 1));
        if memory[i].0 == address {
            return Some(memory[i].1);
        }
        i += 1;
    }
    None
}

fn find_slot(num_locals: u16, fmp: u64, memory: &Vec<(u32, u64)>, slot: u32) -> (r: Option<u64>)
    ensures
        r == slot_value(num_locals, fmp, memory@, slot),
{
    if slot > num_locals as u32 {
        return None;
    }
    let offset: u64 = (num_locals as u32 - slot) as u64;
    if fmp < offset {
        return None;
    }
    let distance: u64 = fmp - offset;
    let address: u32 = #[verifier::truncate]
    (distance as u32);
    find_cell(memory, address)
}

/// The tracer of one execution.
pub struct MidenTracer {
    info: ProgramInfo,
    functions: Vec<String>,
    line: Option<u32>,
    context: Option<String>,
    first_op: Option<String>,
    moved: bool,
    slots: Vec<u32>,
    frames: Vec<String>,
    num_locals: u16,
    main_open: bool,
    leaf_open: bool,
    word: Option<Vec<i64>>,
    advice: Option<String>,
    ops: Vec<TraceOp>,
}

impl MidenTracer {
    /// The text of the program.
    pub closed spec fn source(&self) -> Seq<char> {
        self.info.map.text()
    }

    /// What the tracer remembers.
    pub closed spec fn state(&self) -> TracerView {
        TracerView {
            functions: texts(self.functions@),
            line: self.line,
            context: option_text(self.context),
            first_op: option_text(self.first_op),
            moved: self.moved,
            slots: self.slots@,
            frames: texts(self.frames@),
            num_locals: self.num_locals,
            main_open: self.main_open,
            leaf_open: self.leaf_open,
            word: match self.word {
                Some(w) => Some(w@),
                None => None,
            },
            advice: option_text(self.advice),
        }
    }

    /// The operations so far.
    pub closed spec fn emitted(&self) -> Seq<OpView> {
        op_views(self.ops@)
    }

    /// What is known of the program fits its text, and no function is
    /// registered twice.
    pub closed spec fn wf(&self) -> bool {
        &&& self.info.wf()
        &&& texts(self.functions@).no_duplicates()
    }

    spec fn follows(&self, before: Self, m: Move) -> bool {
        &&& self.wf()
        &&& self.source() == before.source()
        &&& self.state() == m.state
        &&& self.emitted() == before.emitted() + m.ops
    }

    fn emit(&mut self, op: TraceOp)
        requires
            old(self).wf(),
        ensures
            final(self).follows(*old(self), (Move { state: old(self).state(), ops: seq![op@] })),
    {
        let ghost before = self.ops@;
        self.ops.push(op);
        assert(op_views(self.ops@) =~= op_views(before) + seq![op@]);
    }

    fn emit_returns(&mut self, n: usize)
        requires
            old(self).wf(),
        ensures
            final(self).follows(
                *old(self),
                (Move { state: old(self).state(), ops: return_ops(n as nat) }),
            ),
    {
        let ghost before = *self;
        let mut i: usize = 0;
        assert(before.emitted() + return_ops(0) =~= before.emitted());
        while i < n
            invariant
                i <= n,
                self.follows(
                    before,
                    (Move { state: before.state(), ops: return_ops(i as nat) }),
                ),
            decreases n - i,
        {
            self.emit(TraceOp::Return);
            i += 1;
            assert(before.emitted() + return_ops(i as nat) =~= (before.emitted() + return_ops(
                (i - 1) as nat,
            )) + seq![OpView::Return]);
        }
    }

    fn emit_arguments(&mut self, stack: &Vec<u64>)
        requires
            old(self).wf(),
        ensures
            final(self).follows(
                *old(self),
                (Move { state: old(self).state(), ops: arguments(stack@) }),
            ),
    {
        let ghost before = *self;
        let mut i: usize = 0;
        assert(before.emitted() + arguments(stack@).take(0) =~= before.emitted());
        while i < stack.len() && i < 4
            invariant
                i <= stack.len(),
                i <= 4,
                self.follows(
                    before,
                    (Move { state: before.state(), ops: arguments(stack@).take(i as int) }),
                ),
            decreases stack.len() - i,
        {
            let mut name = "s".to_owned();
            name.append(decimal_text(i as u64).as_str());
            let value: i64 = #[verifier::truncate]
            (stack[i] as i64);
            self.emit(TraceOp::Arg { name, value });
            i += 1;
            assert(before.emitted() + arguments(stack@).take(i as int) =~= (before.emitted()
                + arguments(stack@).take(i - 1)) + seq![arguments(stack@)[i - 1]]);
        }
        assert(arguments(stack@).take(i as int) =~= arguments(stack@));
    }

    fn emit_stack(&mut self, stack: &Vec<u64>)
        requires
            old(self).wf(),
        ensures
            final(self).follows(
                *old(self),
                (Move { state: old(self).state(), ops: stack_variables(stack@) }),
            ),
    {
        let ghost before = *self;
        let mut i: usize = 0;
        assert(before.emitted() + stack_variables(stack@).take(0) =~= before.emitted());
        while i < stack.len() && i < 4
            invariant
                i <= stack.len(),
                i <= 4,
                self.follows(
                    before,
                    (Move { state: before.state(), ops: stack_variables(stack@).take(i as int) }),
                ),
            decreases stack.len() - i,
        {
            let mut name = "stack[".to_owned();
            name.append(decimal_text(i as u64).as_str());
            name.append("]");
            let value: i64 = #[verifier::truncate]
            (stack[i] as i64);
            self.emit(TraceOp::Variable { name, value });
            i += 1;
            assert(before.emitted() + stack_variables(stack@).take(i as int) =~= (before.emitted()
                + stack_variables(stack@).take(i - 1)) + seq![stack_variables(stack@)[i - 1]]);
        }
        assert(stack_variables(stack@).take(i as int) =~= stack_variables(stack@));
    }

    /// The number of a function, which is registered where it is new.
    fn function_number(&mut self, name: &str, line: u32) -> (r: usize)
        requires
            old(self).wf(),
        ensures
            final(self).follows(
                *old(self),
                (Move {
                    state: TracerView {
                        functions: with_function(old(self).state().functions, name@),
                        ..old(self).state()
                    },
                    ops: registration(old(self).state().functions, name@, line),
                }),
            ),
            r < final(self).state().functions.len(),
            final(self).state().functions[r as int] == name@,
            r == final(self).state().functions.index_of(name@),
    {
        let ghost before = *self;
        let ghost functions = texts(self.functions@);
        let mut i: usize = 0;
        while i < self.functions.len()
            invariant
                i <= self.functions.len(),
                *self == before,
                functions == texts(self.functions@),
                functions.no_duplicates(),
                before.wf(),
                forall|k: int| 0 <= k < i ==> #[trigger] functions[k] != name@,
            decreases self.functions.len() - i,
        {
            if same_text(self.functions[i].as_str(), name) {
                assert(functions[i as int] == name@);
                assert(functions.contains(name@));
                assert(functions[functions.index_of(name@)] == name@);
                assert(self.emitted() + registration(functions, name@, line) =~= self.emitted());
                return i;
            }
            assert(functions[i as int] == self.functions@[i as int]@);
            i += 1;
        }
        assert(!functions.contains(name@));
        self.functions.push(name.to_owned());
        let ghost longer = texts(self.functions@);
        assert(longer =~= functions.push(name@));
        assert(longer.no_duplicates());
        assert(longer[i as int] == name@);
        assert(longer.contains(name@));
        assert(longer[longer.index_of(name@)] == name@);
        self.emit(TraceOp::EnsureFunction { name: name.to_owned(), line });
        i
    }

    /// Opens calls of the procedures `callers[1..end]`.
    fn open_inlined(&mut self, callers: &Vec<String>, end: usize, line: u32)
        requires
            old(self).wf(),
            1 <= end <= callers@.len(),
        ensures
            final(self).follows(
                *old(self),
                inlined(old(self).state(), texts(callers@).subrange(1, end as int), line),
            ),
    {
        let ghost before = *self;
        let ghost all = texts(callers@);
        let mut i: usize = 1;
        assert(all.subrange(1, 1) =~= seq![]);
        assert(before.emitted() + seq![] =~= before.emitted());
        while i < end
            invariant
                1 <= i <= end <= callers@.len(),
                all == texts(callers@),
                self.follows(before, inlined(before.state(), all.subrange(1, i as int), line)),
            decreases end - i,
        {
            let ghost outer = *self;
            let ghost so_far = all.subrange(1, i as int);
            let ghost next = all.subrange(1, i + 1);
            assert(next.drop_last() =~= so_far);
            assert(next.last() == callers@[i as int]@);
            let mut name = "#exec::".to_owned();
            name.append(callers[i].as_str());
            let function: usize = self.function_number(name.as_str(), line);
            self.emit(TraceOp::Call { function });
            let ghost frames = texts(self.frames@);
            let ghost pushed = name@;
            self.frames.push(name);
            assert(texts(self.frames@) =~= frames.push(pushed));
            assert(self.emitted() =~= before.emitted() + inlined(before.state(), next, line).ops);
            i += 1;
        }
    }

    /// Enters the first procedure that is seen, under its number.
    fn enter_first(&mut self, name: &str, function: usize, line: u32)
        requires
            old(self).wf(),
            function < old(self).state().functions.len(),
            old(self).state().functions[function as int] == name@,
        ensures
            final(self).follows(
                *old(self),
                first_context(old(self).source(), old(self).state(), name@, line),
            ),
    {
        let ghost before = *self;
        let bare = bare_proc_name(name);
        proof {
            lemma_number(before.state().functions, function as int, name@);
        }
        if same_text(bare.as_str(), "#main") {
            self.emit(TraceOp::Call { function });
            self.main_open = true;
        } else {
            match chain_from_main(&self.info.parents, bare.as_str()) {
                Some(callers) => {
                    assert(texts(callers@).len() == callers@.len());
                    if callers.len() > 2 {
                        let end: usize = callers.len() - 1;
                        self.open_inlined(&callers, end, line);
                        proof {
                            lemma_inlined_functions(
                                before.state(),
                                texts(callers@).subrange(1, end as int),
                                line,
                            );
                            lemma_number(self.state().functions, function as int, name@);
                        }
                        self.emit(TraceOp::Call { function });
                        self.leaf_open = true;
                        assert(self.emitted() =~= before.emitted() + first_context(
                            before.source(),
                            before.state(),
                            name@,
                            line,
                        ).ops);
                    } else {
                        assert(before.emitted() + seq![] =~= before.emitted());
                    }
                },
                None => {
                    assert(before.emitted() + seq![] =~= before.emitted());
                },
            }
        }
    }

    /// Tells whether one of the frames is the body of the program.
    fn main_waits(&self) -> (r: bool)
        ensures
            r == holds_main(self.state().frames),
    {
        let ghost frames = texts(self.frames@);
        let mut i: usize = 0;
        while i < self.frames.len()
            invariant
                i <= self.frames.len(),
                frames == texts(self.frames@),
                forall|k: int|
                    0 <= k < i ==> last_segment(#[trigger] frames[k]) != "#main"@,
            decreases self.frames.len() - i,
        {
            assert(frames[i as int] == self.frames@[i as int]@);
            if same_text(bare_proc_name(self.frames[i].as_str()).as_str(), "#main") {
                return true;
            }
            i += 1;
        }
        false
    }

    /// Tells whether the innermost caller invokes both procedures.
    fn are_siblings(&self, a: &str, b: &str) -> (r: bool)
        requires
            self.wf(),
        ensures
            r == siblings(self.source(), self.state().frames, a@, b@),
    {
        let n: usize = self.frames.len();
        if n == 0 {
            return false;
        }
        assert(texts(self.frames@).last() == self.frames@[n - 1]@);
        let caller = bare_proc_name(self.frames[n - 1].as_str());
        self.info.graph.invokes(caller.as_str(), bare_proc_name(a).as_str())
            && self.info.graph.invokes(caller.as_str(), bare_proc_name(b).as_str())
    }

    /// Goes from one procedure to another, which has the given number.
    fn switch_to(&mut self, prev: &str, name: &str, function: usize, stack: &Vec<u64>)
        requires
            old(self).wf(),
            function < old(self).state().functions.len(),
            old(self).state().functions[function as int] == name@,
        ensures
            final(self).follows(
                *old(self),
                switched(old(self).source(), old(self).state(), prev@, name@, stack@),
            ),
    {
        let ghost before = *self;
        let ghost target = switched(before.source(), before.state(), prev@, name@, stack@);
        proof {
            lemma_number(before.state().functions, function as int, name@);
        }
        let n: usize = self.frames.len();
        assert(n > 0 ==> texts(self.frames@).last() == self.frames@[n - 1]@);
        if n > 0 && same_text(self.frames[n - 1].as_str(), name) {
            let _ = self.frames.pop();
            assert(texts(self.frames@) =~= texts(before.frames@).drop_last());
            self.emit(TraceOp::Return);
            assert(return_ops(1) =~= seq![OpView::Return]);
        } else if self.leaf_open && same_text(bare_proc_name(name).as_str(), "#main")
            && !self.main_waits() {
            self.emit_returns(n);
            self.emit(TraceOp::Return);
            self.frames = Vec::new();
            self.leaf_open = false;
            assert(texts(self.frames@) =~= seq![]);
            assert(self.emitted() =~= before.emitted() + target.ops);
        } else if self.are_siblings(prev, name) {
            self.emit(TraceOp::Return);
            self.emit_arguments(stack);
            self.emit(TraceOp::Call { function });
            assert(return_ops(1) =~= seq![OpView::Return]);
            assert(self.emitted() =~= before.emitted() + target.ops);
        } else {
            self.frames.push(prev.to_owned());
            assert(texts(self.frames@) =~= texts(before.frames@).push(prev@));
            self.emit_arguments(stack);
            self.emit(TraceOp::Call { function });
            assert(self.emitted() =~= before.emitted() + target.ops);
        }
    }

    /// Enters the procedure of an instruction.
    fn enter(&mut self, name: &str, line: u32, stack: &Vec<u64>)
        requires
            old(self).wf(),
        ensures
            final(self).follows(
                *old(self),
                entered(old(self).source(), old(self).state(), name@, line, stack@),
            ),
    {
        let ghost before = *self;
        if is_name(&self.context, name) {
            assert(before.emitted() + seq![] =~= before.emitted());
            return ;
        }
        let function: usize = self.function_number(name, line);
        let prev = match &self.context {
            Some(p) => Some(p.clone()),
            None => None,
        };
        match prev {
            None => {
                self.enter_first(name, function, line);
            },
            Some(p) => {
                self.switch_to(p.as_str(), name, function, stack);
            },
        }
        self.num_locals = self.info.locals_of(name);
        self.slots = Vec::new();
        self.context = Some(name.to_owned());
        let ghost target = entered(before.source(), before.state(), name@, line, stack@);
        assert(self.slots@ =~= seq![]);
        assert(self.emitted() =~= before.emitted() + target.ops);
        assert(self.state() =~= target.state);
    }

    /// Steps to a line where that is due.
    fn step_to(&mut self, line: u32, op: &str)
        requires
            old(self).wf(),
        ensures
            final(self).follows(*old(self), stepped(old(self).state(), line, op@)),
    {
        let ghost before = *self;
        let changed = match self.line {
            Some(l) => l != line,
            None => true,
        };
        let back = is_name(&self.first_op, op);
        if changed || (self.moved && back) {
            self.emit(TraceOp::Step { line });
            self.line = Some(line);
            self.first_op = Some(op.to_owned());
            self.moved = false;
        } else {
            assert(before.emitted() + seq![] =~= before.emitted());
            if !back {
                self.moved = true;
            }
        }
    }

    /// Notes the slot that an instruction writes.
    fn note_slot(&mut self, op: &str)
        requires
            old(self).wf(),
        ensures
            final(self).wf(),
            final(self).source() == old(self).source(),
            final(self).emitted() == old(self).emitted(),
            final(self).state() == (TracerView {
                slots: with_slot(old(self).state().slots, op@),
                ..old(self).state()
            }),
    {
        if let Some(slot) = parse_loc_store(op) {
            let mut i: usize = 0;
            while i < self.slots.len()
                invariant
                    i <= self.slots.len(),
                    *self == *old(self),
                    self.wf(),
                    stored_slot(op@) == Some(slot as nat),
                    forall|k: int| 0 <= k < i ==> self.slots@[k] != slot,
                decreases self.slots.len() - i,
            {
                if self.slots[i] == slot {
                    assert(self.slots@.contains(slot));
                    return ;
                }
                i += 1;
            }
            assert(!self.slots@.contains(slot));
            self.slots.push(slot);
        }
    }

    fn emit_slots(&mut self, fmp: u64, memory: &Vec<(u32, u64)>)
        requires
            old(self).wf(),
        ensures
            final(self).follows(
                *old(self),
                (Move {
                    state: old(self).state(),
                    ops: local_variables(
                        old(self).state().slots,
                        old(self).state().num_locals,
                        fmp,
                        memory@,
                    ),
                }),
            ),
    {
        let ghost before = *self;
        let ghost slots = self.slots@;
        let ghost num_locals = self.num_locals;
        assert(before.emitted() + seq![] =~= before.emitted());
        if self.num_locals == 0 {
            return ;
        }
        let mut i: usize = 0;
        assert(slots.take(0) =~= seq![]);
        while i < self.slots.len()
            invariant
                i <= slots.len(),
                self.state() == before.state(),
                slots == before.state().slots,
                num_locals == before.state().num_locals,
                num_locals > 0,
                self.follows(
                    before,
                    (Move {
                        state: before.state(),
                        ops: local_variables(slots.take(i as int), num_locals, fmp, memory@),
                    }),
                ),
            decreases slots.len() - i,
        {
            let slot: u32 = self.slots[i];
            let ghost next = slots.take(i + 1);
            assert(next.drop_last() =~= slots.take(i as int));
            assert(next.last() == slot);
            if let Some(v) = find_slot(self.num_locals, fmp, memory, slot) {
                let mut name = "local[".to_owned();
                name.append(decimal_text(slot as u64).as_str());
                name.append("]");
                let value: i64 = #[verifier::truncate]
                (v as i64);
                self.emit(TraceOp::Variable { name, value });
                assert(self.emitted() =~= before.emitted() + local_variables(
                    next,
                    num_locals,
                    fmp,
                    memory@,
                ));
            }
            i += 1;
        }
        assert(slots.take(i as int) =~= slots);
    }

    /// Shows what the VM holds at the beginning of an instruction.
    fn show_values(&mut self, op: &str, step: &VmStep)
        requires
            old(self).wf(),
        ensures
            final(self).follows(*old(self), shown_values(old(self).state(), op@, step@)),
    {
        let ghost before = *self;
        let ghost target = shown_values(before.state(), op@, step@);
        self.note_slot(op);
        self.emit_stack(&step.stack);
        let ghost word = self.state().word;
        let ghost emitted = self.emitted();
        let loaded = self.word.take();
        if let Some(elements) = loaded {
            self.emit(TraceOp::Word { elements });
        }
        assert(self.emitted() =~= emitted + word_ops(word));
        let ghost advice = self.state().advice;
        let ghost emitted = self.emitted();
        let read = self.advice.take();
        if let Some(content) = read {
            self.emit(
                TraceOp::Event {
                    kind: EventKind::Read,
                    metadata: "advice_read".to_owned(),
                    content,
                },
            );
        }
        assert(self.emitted() =~= emitted + advice_ops(advice));
        self.emit_slots(step.fmp, &step.memory);
        assert(self.emitted() =~= before.emitted() + target.ops);
    }

    /// Takes up what an instruction leaves on the stack in its last cycle.
    fn capture(&mut self, stack: &Vec<u64>, a: &AsmOp)
        requires
            old(self).wf(),
        ensures
            final(self).wf(),
            final(self).source() == old(self).source(),
            final(self).emitted() == old(self).emitted(),
            final(self).state() == captured(old(self).state(), stack@, a@),
    {
        if a.cycle_idx != a.num_cycles {
            return ;
        }
        if is_word_load(a.op.as_str()) && stack.len() >= 4 {
            self.word = Some(top(stack, 4));
        }
        let read = read_by(a.op.as_str(), stack);
        if read.is_some() {
            self.advice = read;
        }
    }

    /// Takes the next state of the VM.
    pub fn observe(&mut self, step: &VmStep)
        requires
            old(self).wf(),
        ensures
            final(self).wf(),
            final(self).source() == old(self).source(),
            final(self).state() == observed(old(self).source(), old(self).state(), step@).state,
            final(self).emitted() == old(self).emitted() + observed(
                old(self).source(),
                old(self).state(),
                step@,
            ).ops,
    {
        let ghost before = *self;
        assert(before.emitted() + seq![] =~= before.emitted());
        if let Some(a) = &step.asmop {
            self.capture(&step.stack, a);
            if a.cycle_idx == 1 {
                if let Some(start) = a.start {
                    let line: u32 = self.info.map.byte_to_line(start);
                    let ghost taken = *self;
                    self.enter(a.context_name.as_str(), line, &step.stack);
                    self.step_to(line, a.op.as_str());
                    self.show_values(a.op.as_str(), step);
                    assert(self.emitted() =~= before.emitted() + begun(
                        before.source(),
                        taken.state(),
                        a@,
                        line,
                        step@,
                    ).ops);
                }
            }
        }
    }

    /// Ends the trace: logs the error, if there was one, and closes every open
    /// call, the toplevel one last.
    pub fn finish(self, error: Option<String>) -> (r: Vec<TraceOp>)
        requires
            self.wf(),
        ensures
            op_views(r@) == self.emitted() + closing(self.state(), option_text(error)),
    {
        let mut tracer = self;
        let ghost before = tracer;
        if let Some(message) = error {
            tracer.emit(
                TraceOp::Event {
                    kind: EventKind::Error,
                    metadata: "miden_vm_error".to_owned(),
                    content: message,
                },
            );
        }
        assert(tracer.emitted() =~= before.emitted() + failure(option_text(error)));
        let n: usize = tracer.frames.len();
        tracer.emit_returns(n);
        if tracer.main_open {
            tracer.emit(TraceOp::Return);
        }
        if tracer.leaf_open {
            tracer.emit(TraceOp::Return);
        }
        tracer.emit(TraceOp::Return);
        assert(tracer.emitted() =~= before.emitted() + closing(
            before.state(),
            option_text(error),
        ));
        tracer.ops
    }

    /// A tracer of the program `source`, before the first state. The functions
    /// that the program declares are registered, in the order of their
    /// declarations.
    pub fn new(path: &PathBuf, source: &str) -> (r: Self)
        ensures
            r.wf(),
            r.source() == source@,
            r.state() == fresh(source@),
            r.emitted() == opening(source@),
    {
        let info = ProgramInfo::new(path, source);
        let ghost names = proc_locals(source@).names;
        let ghost functions = declared_functions(source@);
        proof {
            lemma_declared_once(source@);
        }
        let mut r = MidenTracer {
            info,
            functions: Vec::new(),
            line: None,
            context: None,
            first_op: None,
            moved: false,
            slots: Vec::new(),
            frames: Vec::new(),
            num_locals: 0,
            main_open: false,
            leaf_open: false,
            word: None,
            advice: None,
            ops: Vec::new(),
        };
        assert(r.slots@ =~= seq![]);
        assert(texts(r.frames@) =~= seq![]);
        assert(texts(r.functions@) =~= functions.take(0));
        assert(r.emitted() =~= opening(source@).take(0));
        let mut i: usize = 0;
        while i < r.info.locals.len()
            invariant
                i <= names.len(),
                names == r.info.locals.names(),
                names == proc_locals(source@).names,
                functions == declared_functions(source@),
                functions.no_duplicates(),
                r.wf(),
                r.source() == source@,
                r.state() == (TracerView { functions: functions.take(i as int), ..fresh(source@) }),
                r.emitted() == opening(source@).take(i as int),
            decreases names.len() - i,
        {
            let mut name = "#exec::".to_owned();
            name.append(r.info.locals.name_at(i).as_str());
            assert(name@ == functions[i as int]);
            r.functions.push(name.clone());
            assert(texts(r.functions@) =~= functions.take(i + 1)) by {
                assert(functions.take(i + 1) =~= functions.take(i as int).push(
                    functions[i as int],
                ));
                assert(texts(r.functions@).drop_last() =~= functions.take(i as int));
            }
            r.emit(TraceOp::EnsureFunction { name, line: 1 });
            assert(opening(source@).take(i + 1) =~= opening(source@).take(i as int) + seq![
                opening(source@)[i as int],
            ]);
            i += 1;
        }
        assert(functions.take(i as int) =~= functions);
        assert(opening(source@).take(i as int) =~= opening(source@));
        r
    }

    /// Takes what the VM reports, up to an error, and ends the trace.
    pub fn process_events(self, events: &Vec<VmEvent>) -> (r: Vec<TraceOp>)
        requires
            self.wf(),
        ensures
            op_views(r@) == self.emitted() + rest_of_trace(
                self.source(),
                self.state(),
                event_views(events@),
            ),
    {
        let mut tracer = self;
        let ghost all = event_views(events@);
        let mut i: usize = 0;
        assert(all.skip(0) =~= all);
        while i < events.len()
            invariant
                i <= events.len(),
                all == event_views(events@),
                tracer.wf(),
                tracer.source() == self.source(),
                tracer.emitted() + rest_of_trace(
                    tracer.source(),
                    tracer.state(),
                    all.skip(i as int),
                ) == self.emitted() + rest_of_trace(self.source(), self.state(), all),
            decreases events.len() - i,
        {
            let ghost rest = all.skip(i as int);
            let ghost before = tracer;
            assert(rest[0] == events@[i as int]@);
            assert(rest.drop_first() =~= all.skip(i + 1));
            match &events[i] {
                VmEvent::Failed(message) => {
                    return tracer.finish(Some(message.clone()));
                },
                VmEvent::State(step) => {
                    tracer.observe(step);
                    proof {
                        lemma_one_state(before.source(), before.state(), rest, before.emitted());
                    }
                },
            }
            i += 1;
        }
        tracer.finish(None)
    }

    /// Takes the states of an execution from its iterator, up to an error, and
    /// ends the trace.
    pub fn process_vm_states(self, states: VmStateIterator) -> (r: Vec<TraceOp>)
        requires
            self.wf(),
        ensures
            op_views(r@) == self.emitted() + rest_of_trace(
                self.source(),
                self.state(),
                remaining(states),
            ),
    {
        let mut tracer = self;
        let mut rest_states = states;
        let ghost all = remaining(states);
        loop
            invariant
                all == remaining(states),
                tracer.wf(),
                tracer.source() == self.source(),
                tracer.emitted() + rest_of_trace(
                    tracer.source(),
                    tracer.state(),
                    remaining(rest_states),
                ) == self.emitted() + rest_of_trace(self.source(), self.state(), all),
            decreases remaining(rest_states).len(),
        {
            let ghost rest = remaining(rest_states);
            let ghost before = tracer;
            match next_event(&mut rest_states) {
                None => {
                    return tracer.finish(None);
                },
                Some(event) => {
                    assert(event@ == rest[0]);
                    match event {
                        VmEvent::Failed(message) => {
                            assert(rest[0] == VmEventView::Failed(message@));
                            return tracer.finish(Some(message));
                        },
                        VmEvent::State(step) => {
                            assert(rest[0] == VmEventView::State(step@));
                            tracer.observe(&step);
                            proof {
                                lemma_one_state(
                                    before.source(),
                                    before.state(),
                                    rest,
                                    before.emitted(),
                                );
                            }
                        },
                    }
                },
            }
        }
    }
}

/// Taking one state moves its operations from what is left of a trace to what
/// is done of it.
proof fn lemma_one_state(
    source: Seq<char>,
    st: TracerView,
    events: Seq<VmEventView>,
    done: Seq<OpView>,
)
    requires
        events.len() > 0,
        events[0] is State,
    ensures
        done + rest_of_trace(source, st, events) == (done + observed(
            source,
            st,
            events[0]->State_0,
        ).ops) + rest_of_trace(
            source,
            observed(source, st, events[0]->State_0).state,
            events.drop_first(),
        ),
{
    let next = observed(source, st, events[0]->State_0);
    assert(done + (next.ops + rest_of_trace(source, next.state, events.drop_first())) =~= (done
        + next.ops) + rest_of_trace(source, next.state, events.drop_first()));
}

proof fn lemma_number(functions: Seq<Seq<char>>, i: int, name: Seq<char>)
    requires
        functions.no_duplicates(),
        0 <= i < functions.len(),
        functions[i] == name,
    ensures
        functions.index_of(name) == i,
{
    assert(functions[functions.index_of(name)] == name);
}

/// Opening inlined calls keeps the functions and their numbers.
proof fn lemma_inlined_functions(st: TracerView, callers: Seq<Seq<char>>, line: u32)
    ensures
        st.functions.is_prefix_of(inlined(st, callers, line).state.functions),
    decreases callers.len(),
{
    if callers.len() > 0 {
        lemma_inlined_functions(st, callers.drop_last(), line);
    }
}

} // verus!
