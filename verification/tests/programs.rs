//! Traces of whole programs: their steps, calls and values.

use std::collections::HashMap;
use std::collections::HashSet;
use std::path::PathBuf;

use codetracer_miden_recorder::tracer::merkle_tree_root_felts;
use codetracer_miden_recorder::tracer::parse_advice_stack;
use codetracer_miden_recorder::tracer::parse_call_kinds;
use codetracer_miden_recorder::tracer::parse_kernel_module;
use codetracer_miden_recorder::tracer::parse_merkle_trees;
use codetracer_miden_recorder::tracer::CallKind;
use codetracer_miden_recorder::tracer::EventKind;
use codetracer_miden_recorder::tracer::MidenTracer;
use codetracer_miden_recorder::tracer::TraceOp;

/// A step with the function it belongs to and the values shown at it.
struct Step {
    function: String,
    line: u32,
    vars: Vec<(String, i64)>,
    words: Vec<Vec<i64>>,
}

/// A trace by its steps and calls.
struct Doc {
    ops: Vec<TraceOp>,
    functions: Vec<String>,
    steps: Vec<Step>,
    calls: Vec<(String, Vec<(String, i64)>)>,
    /// The functions whose calls are closed. Of those that are closed at one
    /// step the one that was called first comes first.
    exits: Vec<String>,
    errors: Vec<String>,
    reads: Vec<String>,
    events: usize,
}

impl Doc {
    fn call_sequence(&self) -> Vec<&str> {
        self.calls.iter().map(|(name, _)| name.as_str()).collect()
    }

    fn sorted_functions(&self) -> Vec<&str> {
        let mut names: Vec<&str> = self.functions.iter().map(|n| n.as_str()).collect();
        names.sort_unstable();
        names
    }

    fn steps_at(&self, line: u32) -> Vec<&Step> {
        self.steps.iter().filter(|s| s.line == line).collect()
    }

    /// The values of a variable at the steps of a line.
    fn samples(&self, line: u32, name: &str) -> Vec<i64> {
        self.steps_at(line)
            .iter()
            .flat_map(|s| s.vars.iter())
            .filter(|(n, _)| n == name)
            .map(|(_, v)| *v)
            .collect()
    }

    /// The first four stack items at the only step of a function at a line.
    fn top4(&self, function: &str, line: u32) -> [i64; 4] {
        let found: Vec<&Step> =
            self.steps_at(line).into_iter().filter(|s| s.function == function).collect();
        assert_eq!(found.len(), 1, "{function} at {line}");
        top4(found[0])
    }

    /// The arguments of the only call of a function.
    fn args(&self, function: &str) -> [i64; 4] {
        let found: Vec<&(String, Vec<(String, i64)>)> =
            self.calls.iter().filter(|(name, _)| name == function).collect();
        assert_eq!(found.len(), 1, "{function}");
        let mut out = [0; 4];
        for (i, (name, value)) in found[0].1.iter().enumerate() {
            assert_eq!(*name, format!("s{i}"));
            out[i] = *value;
        }
        out
    }

    fn values(&self) -> Vec<i64> {
        self.steps.iter().flat_map(|s| s.vars.iter()).map(|(_, v)| *v).collect()
    }

    fn values_in(&self, function: &str) -> Vec<i64> {
        self.steps
            .iter()
            .filter(|s| s.function.ends_with(function))
            .flat_map(|s| s.vars.iter())
            .map(|(_, v)| *v)
            .collect()
    }

    /// The steps and their stack tops in brief, for messages.
    fn brief(&self) -> String {
        let steps: Vec<String> = self
            .steps
            .iter()
            .map(|s| {
                let tops: Vec<String> = s
                    .vars
                    .iter()
                    .filter(|(n, _)| n == "stack[0]")
                    .map(|(_, v)| v.to_string())
                    .collect();
                format!("{}:{}", s.line, tops.join(","))
            })
            .collect();
        format!("{} {:?} {:?}", steps.join(" "), self.call_sequence(), self.errors)
    }

    /// The numbers of steps, calls, other events and of all these with the
    /// closed calls.
    fn counts(&self) -> (usize, usize, usize, usize) {
        (self.steps.len(), self.calls.len(), self.errors.len() + self.reads.len(), self.events)
    }
}

fn top4(step: &Step) -> [i64; 4] {
    let mut out = [0; 4];
    for (i, slot) in out.iter_mut().enumerate() {
        let name = format!("stack[{i}]");
        *slot = step.vars.iter().find(|(n, _)| *n == name).expect("a stack item").1;
    }
    out
}

fn doc(source: &str) -> Doc {
    let ops = MidenTracer::trace_program(&PathBuf::from("program.masm"), source)
        .unwrap_or_else(|e| panic!("{source}\n{e}"));
    let mut functions: Vec<String> = Vec::new();
    let mut steps: Vec<Step> = Vec::new();
    let mut calls: Vec<(String, Vec<(String, i64)>)> = Vec::new();
    let mut staged: Vec<(String, i64)> = Vec::new();
    let mut open: Vec<usize> = Vec::new();
    let mut closed: Vec<(usize, usize)> = Vec::new();
    let mut errors: Vec<String> = Vec::new();
    let mut reads: Vec<String> = Vec::new();
    for op in &ops {
        match op {
            TraceOp::EnsureFunction { name, .. } => functions.push(name.clone()),
            TraceOp::Arg { name, value } => staged.push((name.clone(), *value)),
            TraceOp::Call { function } => {
                open.push(calls.len());
                calls.push((functions[*function].clone(), std::mem::take(&mut staged)));
            }
            TraceOp::Return => {
                if let Some(key) = open.pop() {
                    closed.push((steps.len(), key));
                }
            }
            TraceOp::Step { line } => steps.push(Step {
                function: open.last().map(|k| calls[*k].0.clone()).unwrap_or_default(),
                line: *line,
                vars: vec![],
                words: vec![],
            }),
            TraceOp::Variable { name, value } => {
                steps.last_mut().unwrap().vars.push((name.clone(), *value))
            }
            TraceOp::Word { elements } => {
                steps.last_mut().unwrap().words.push(elements.clone())
            }
            TraceOp::Event { kind: EventKind::Error, content, .. } => errors.push(content.clone()),
            TraceOp::Event { kind: EventKind::Read, content, .. } => reads.push(content.clone()),
            TraceOp::Event { .. } => {}
        }
    }
    closed.sort_unstable();
    let exits: Vec<String> = closed.iter().map(|(_, key)| calls[*key].0.clone()).collect();
    let events = steps.len() + calls.len() + exits.len() + errors.len() + reads.len();
    Doc { ops, functions, steps, calls, exits, errors, reads, events }
}

/// A source with the given lines at the given numbers, and empty lines between
/// them.
fn text(lines: &[(usize, &str)]) -> String {
    let mut out = String::new();
    let mut next = 1;
    for (number, line) in lines {
        assert!(*number >= next);
        while next < *number {
            out.push('\n');
            next += 1;
        }
        out.push_str(line);
        out.push('\n');
        next += 1;
    }
    out
}

fn compute_masm() -> String {
    String::from(
        "proc.fibonacci.2
    push.0 loc_store.0
    push.1 loc_store.1
    repeat.9
        loc_load.0 loc_load.1 add
        loc_load.1 loc_store.0
        loc_store.1
    end
    loc_load.1
end

proc.factorial
    push.1
    push.2 mul
    push.3 mul
    push.4 mul
    push.5 mul
    push.6 mul
    push.7 mul
end

proc.max_of_three
    push.17 push.42 u32max
    push.8 u32max
end

proc.array_sum
    push.10 push.100 mem_store
    push.20 push.101 mem_store
    push.30 push.102 mem_store
    push.40 push.103 mem_store
    push.50 push.104 mem_store
    push.100 mem_load
    push.101 mem_load add
    push.102 mem_load add
    push.103 mem_load add
    push.104 mem_load add
end

proc.bitwise_ops
    push.12 push.10 u32and
    push.3 u32or
end

proc.stack_manipulation
    push.1 push.2 push.3
    swap dup movup.2
    drop drop drop drop
end

proc.nested_control_flow
    push.1 drop
    if.true
        push.100
        push.7 add
    else
        push.200
        push.9 add
    end
    drop
end

proc.arithmetic_demo
    push.25 push.5 mul
end

proc.memory_word_ops
    push.1 push.2 push.3 push.4
    push.200 mem_storew dropw
    padw push.200 mem_loadw
    dropw
end

begin
    push.3 drop
    exec.fibonacci
    drop
    exec.factorial
    drop
    exec.max_of_three
    drop
    exec.array_sum
    drop
    exec.bitwise_ops
    drop
    exec.stack_manipulation
    push.1
    exec.nested_control_flow
    push.0
    exec.nested_control_flow
    push.6 drop
    exec.arithmetic_demo
    drop
    exec.memory_word_ops
    push.9 drop
end
",
    )
}

fn control_flow_masm() -> String {
    text(&[
        (14, "proc.if_else_demo.0"),
        (15, "    dup push.5"),
        (16, "    gt"),
        (17, "    if.true"),
        (18, "        push.200 add"),
        (19, "    else"),
        (20, "        push.100 add"),
        (21, "    end"),
        (22, "end"),
        (26, "proc.while_sum.2"),
        (27, "    push.0 loc_store.0"),
        (28, "    loc_store.1"),
        (30, "    loc_load.1 push.0 neq"),
        (31, "    while.true"),
        (32, "        loc_load.0 loc_load.1 add loc_store.0"),
        (33, "        loc_load.1 sub.1 loc_store.1"),
        (34, "        loc_load.1 push.0 neq"),
        (35, "    end"),
        (36, "    loc_load.0"),
        (37, "end"),
        (42, "proc.repeat_acc.1"),
        (43, "    push.0 loc_store.0"),
        (44, "    repeat.4"),
        (45, "        loc_load.0 push.7 add loc_store.0"),
        (46, "    end"),
        (47, "    loc_load.0"),
        (48, "end"),
        (57, "begin"),
        (58, "    push.8"),
        (59, "    exec.if_else_demo"),
        (60, "    push.5"),
        (61, "    exec.while_sum"),
        (62, "    exec.repeat_acc"),
        (64, "    drop drop drop"),
        (65, "end"),
    ])
}

fn nested_calls_masm() -> String {
    text(&[
        (16, "proc.inner.0"),
        (17, "    push.1 push.2 add"),
        (18, "end"),
        (20, "proc.middle.0"),
        (21, "    exec.inner"),
        (22, "    push.10 add"),
        (23, "end"),
        (25, "proc.outer.0"),
        (26, "    exec.middle"),
        (27, "    push.100 add"),
        (28, "end"),
        (30, "proc.compute.0"),
        (31, "    exec.outer"),
        (32, "end"),
        (34, "begin"),
        (35, "    exec.compute"),
        (36, "    drop"),
        (37, "    push.0 drop"),
        (38, "end"),
    ])
}

fn memory_ops_masm() -> String {
    text(&[
        (10, "proc.mem_writer.0"),
        (11, "    push.111 push.50 mem_store"),
        (12, "    push.222 push.51 mem_store"),
        (13, "    push.333 push.52 mem_store"),
        (14, "end"),
        (17, "proc.mem_reader.1"),
        (18, "    push.50 mem_load"),
        (19, "    loc_store.0"),
        (20, "    push.51 mem_load"),
        (21, "    loc_load.0 add loc_store.0"),
        (22, "    push.52 mem_load"),
        (23, "    loc_load.0 add loc_store.0"),
        (24, "    loc_load.0"),
        (25, "end"),
        (27, "begin"),
        (28, "    exec.mem_writer"),
        (29, "    exec.mem_reader"),
        (30, "    push.1"),
        (31, "    drop"),
        (32, "    drop"),
        (33, "end"),
    ])
}

fn assertions_pass_masm() -> String {
    text(&[
        (12, "proc.checks.0"),
        (13, "    push.1 assert"),
        (15, "    push.0 assertz"),
        (17, "    push.42 push.42 assert_eq"),
        (19, "    push.999"),
        (20, "end"),
        (22, "begin"),
        (23, "    exec.checks"),
        (24, "    push.1 drop"),
        (25, "    drop"),
        (26, "end"),
    ])
}

fn assertion_fail_masm() -> String {
    text(&[
        (10, "proc.boom.0"),
        (11, "    push.7 drop"),
        (12, "    push.0 assert"),
        (13, "end"),
        (15, "begin"),
        (16, "    exec.boom"),
        (17, "    push.1 drop"),
        (18, "end"),
    ])
}

fn stack_manip_masm() -> String {
    text(&[
        (9, "proc.shuffle.0"),
        (10, "    push.1 push.2 push.3 push.4"),
        (11, "    dup"),
        (12, "    drop"),
        (13, "    swap"),
        (14, "    swap.1"),
        (15, "    movup.2"),
        (16, "    movdn.2"),
        (17, "    movup.3"),
        (18, "    movdn.3"),
        (19, "    padw"),
        (20, "    dropw"),
        (21, "    dropw"),
        (22, "end"),
        (24, "begin"),
        (25, "    exec.shuffle"),
        (26, "    push.777 drop"),
        (27, "end"),
    ])
}

fn mast_inlining_masm() -> String {
    text(&[
        (21, "proc.leaf.0"),
        (22, "    push.1 push.2 add push.3 add"),
        (23, "end"),
        (25, "proc.one.0"),
        (26, "    exec.leaf"),
        (27, "    push.10 add"),
        (28, "end"),
        (30, "proc.two.0"),
        (31, "    exec.one"),
        (32, "    push.100 add"),
        (33, "end"),
        (35, "proc.three.0"),
        (36, "    exec.two"),
        (37, "    push.1000 add"),
        (38, "end"),
        (40, "proc.wrapper.0"),
        (41, "    exec.three"),
        (42, "    push.11 add"),
        (43, "end"),
        (45, "begin"),
        (46, "    exec.wrapper"),
        (47, "    push.1 drop"),
        (48, "    drop"),
        (49, "end"),
    ])
}

fn loop_iteration_masm() -> String {
    text(&[
        (22, "proc.repeat_three.1"),
        (23, "    push.0 loc_store.0"),
        (24, "    repeat.3"),
        (25, "        loc_load.0 add.1 loc_store.0"),
        (26, "    end"),
        (27, "    loc_load.0"),
        (28, "end"),
        (30, "proc.while_three.2"),
        (31, "    push.0 loc_store.1"),
        (32, "    push.3 loc_store.0"),
        (33, "    push.1"),
        (34, "    while.true"),
        (35, "        loc_load.1 add.1 loc_store.1"),
        (36, "        loc_load.0 sub.1 loc_store.0"),
        (37, "        loc_load.0 neq.0"),
        (38, "    end"),
        (39, "    loc_load.1"),
        (40, "end"),
        (42, "begin"),
        (43, "    push.0 drop"),
        (44, "    exec.repeat_three"),
        (45, "    exec.while_three"),
        (46, "    drop"),
        (47, "    drop"),
        (48, "end"),
    ])
}

fn proc_call_syscall_masm() -> String {
    text(&[
        (44, "proc.inner.0"),
        (45, "    push.10"),
        (46, "    add"),
        (47, "end"),
        (49, "proc.outer.0"),
        (50, "    push.0 drop"),
        (51, "    exec.inner"),
        (52, "    push.0 drop"),
        (53, "end"),
        (54, "begin"),
        (55, "    push.7 swap drop"),
        (56, "    call.outer"),
        (57, "    push.1 drop"),
        (58, "end"),
    ])
}

fn u32_arithmetic_masm() -> String {
    text(&[
        (20, "proc.wrap_ops.0"),
        (21, "    push.10 push.3 u32wrapping_add"),
        (22, "    push.10 push.3 u32wrapping_sub"),
        (23, "    push.10 push.3 u32wrapping_mul"),
        (24, "end"),
        (26, "proc.overflow_ops.0"),
        (27, "    push.0xFFFFFFFE push.3 u32overflowing_add"),
        (28, "end"),
        (30, "proc.bitwise_ops.0"),
        (31, "    push.0xF0 push.0x33 u32and"),
        (32, "    push.0xF0 push.0x33 u32or"),
        (33, "    push.0xF0 push.0x33 u32xor"),
        (34, "end"),
        (36, "proc.shift_ops.0"),
        (37, "    push.16 push.2 u32shl"),
        (38, "    push.16 push.2 u32shr"),
        (39, "end"),
        (54, "begin"),
        (55, "    push.0"),
        (56, "    exec.wrap_ops"),
        (57, "    exec.overflow_ops"),
        (58, "    exec.bitwise_ops"),
        (59, "    exec.shift_ops"),
        (61, "    drop"),
        (62, "    drop drop drop drop drop"),
        (63, "    drop drop drop drop drop"),
        (64, "end"),
    ])
}

fn boolean_predicates_masm() -> String {
    let mut out = String::new();
    for (name, body) in [
        ("not_op", "push.0 not"),
        ("and_op", "push.1 push.1 and"),
        ("or_op", "push.0 push.1 or"),
        ("xor_op", "push.1 push.1 xor"),
        ("eq_op", "push.5 push.5 eq"),
        ("neq_op", "push.5 push.6 neq"),
        ("lt_op", "push.3 push.5 lt"),
        ("gt_op", "push.5 push.3 gt"),
        ("lte_op", "push.3 push.5 lte"),
        ("gte_op", "push.5 push.3 gte"),
    ] {
        out.push_str(&format!("proc.{name}.0\n    {body}\nend\n"));
    }
    out.push_str("begin\n    push.0\n    exec.not_op exec.and_op exec.or_op exec.xor_op\n    exec.eq_op exec.neq_op exec.lt_op exec.gt_op\n    exec.lte_op exec.gte_op\n    drop drop drop drop drop\n    drop drop drop drop drop drop\nend\n");
    out
}

fn stack_manipulation_masm() -> String {
    text(&[
        (17, "proc.shuffle.0"),
        (18, "    push.1 push.2 push.3 push.4"),
        (23, "    dup.3"),
        (24, "    drop"),
        (29, "    swap.2"),
        (30, "    swap.2"),
        (35, "    movup.3"),
        (36, "    movdn.3"),
        (41, "    padw"),
        (46, "    dropw"),
        (47, "end"),
        (48, "begin push.0"),
        (49, "    exec.shuffle"),
        (50, "    drop"),
        (51, "    drop drop"),
        (52, "    drop drop"),
        (53, "end"),
    ])
}

fn memory_word_ops_masm() -> String {
    text(&[
        (28, "proc.word_writer.0"),
        (29, "    push.1.2.3.4"),
        (30, "    mem_storew.100 dropw"),
        (31, "end"),
        (37, "proc.word_reader.0"),
        (38, "    padw"),
        (39, "    mem_loadw.100 dropw"),
        (40, "end"),
        (43, "begin"),
        (44, "    push.1 drop"),
        (45, "    exec.word_writer"),
        (46, "    exec.word_reader"),
        (47, "    push.2 drop"),
        (48, "end"),
    ])
}

fn local_word_ops_masm() -> String {
    text(&[
        (20, "proc.word_local.4"),
        (21, "    push.10.20.30.40"),
        (22, "    loc_storew.0 dropw"),
        (23, "    padw"),
        (24, "    loc_loadw.0"),
        (25, "    dropw"),
        (26, "end"),
        (28, "begin"),
        (29, "    push.1 drop"),
        (30, "    exec.word_local"),
        (31, "    push.2 drop"),
        (32, "end"),
    ])
}

#[test]
fn test_miden_tracer_basic_execution() {
    assert!(!doc(&compute_masm()).steps.is_empty());
}

#[test]
fn test_miden_source_mapping() {
    let source = compute_masm();
    let d = doc(&source);
    let total = source.lines().count() as u32;
    for step in &d.steps {
        assert!(step.line >= 1 && step.line <= total);
    }
    assert!(d.steps.len() > 20);
}

#[test]
fn test_miden_variable_extraction() {
    let values = doc(&compute_masm()).values();
    assert!(values.len() > 50);
    assert!(values.contains(&55));
    assert!(values.contains(&5040));
}

#[test]
fn test_miden_trace_event_types() {
    let ops = doc(&compute_masm()).ops;
    assert!(ops.iter().any(|op| matches!(op, TraceOp::Step { .. })));
    assert!(ops.iter().any(|op| matches!(op, TraceOp::Call { .. })));
    assert!(ops.iter().any(|op| matches!(op, TraceOp::Return)));
    assert!(ops.iter().any(|op| matches!(op, TraceOp::EnsureFunction { .. })));
    assert!(ops.iter().any(|op| matches!(op, TraceOp::Variable { .. })));
}

#[test]
fn test_miden_multiple_procedure_calls() {
    let d = doc(&compute_masm());
    assert!(d.functions.len() >= 2);
    let calls = d.ops.iter().filter(|op| matches!(op, TraceOp::Call { .. })).count();
    let returns = d.ops.iter().filter(|op| matches!(op, TraceOp::Return)).count();
    // The last return closes the call of the program itself.
    assert_eq!(calls + 1, returns);
    assert!(calls >= 5);
}

#[test]
fn test_miden_locals_from_multiple_procedures() {
    let values = doc(&compute_masm()).values();
    assert!(values.len() > 50);
    assert!(values.contains(&55));
}

/// The lines of the two branches of `nested_control_flow`, first and last.
fn branches(source: &str) -> ((u32, u32), (u32, u32)) {
    let lines: Vec<&str> = source.lines().map(|l| l.trim()).collect();
    let start = lines.iter().position(|l| l.starts_with("proc.nested_control_flow")).unwrap();
    let yes = start + lines[start..].iter().position(|l| *l == "if.true").unwrap();
    let no = yes + lines[yes..].iter().position(|l| *l == "else").unwrap();
    let end = no + lines[no..].iter().position(|l| *l == "end").unwrap();
    ((yes as u32 + 2, no as u32), (no as u32 + 2, end as u32))
}

#[test]
fn test_miden_control_flow_branches() {
    let source = compute_masm();
    let d = doc(&source);
    let (yes, no) = branches(&source);
    assert!(d.steps.iter().any(|s| yes.0 <= s.line && s.line <= yes.1));
    assert!(d.steps.iter().any(|s| no.0 <= s.line && s.line <= no.1));
}

#[test]
fn test_miden_stack_values() {
    let d = doc(&compute_masm());
    for value in [55, 5040, 42, 10, 125] {
        assert!(d.values().contains(&value), "{value}");
    }
    for (name, value) in [
        ("fibonacci", 55),
        ("factorial", 5040),
        ("max_of_three", 42),
        ("array_sum", 10),
        ("arithmetic_demo", 125),
    ] {
        assert!(d.values_in(name).contains(&value), "{name}");
    }
    let shown: HashSet<&str> =
        d.steps.iter().filter(|s| !s.vars.is_empty()).map(|s| s.function.as_str()).collect();
    assert!(shown.len() >= 5);
}

#[test]
fn test_miden_fibonacci_value_at_location() {
    let source = compute_masm();
    let d = doc(&source);
    let lines: Vec<&str> = source.lines().map(|l| l.trim()).collect();
    let start = lines.iter().position(|l| l.starts_with("proc.fibonacci")).unwrap() + 1;
    let end = start + lines[start..].iter().position(|l| *l == "end").unwrap() + 1;
    assert!(d.steps.iter().any(|s| start as u32 <= s.line && s.line <= end as u32));
    assert!(d.steps.iter().any(|s| s.function.ends_with("fibonacci")));
    let values = d.values_in("fibonacci");
    assert!(values.contains(&55));
    let found = [1, 2, 3, 5, 8, 13, 21, 34, 55].iter().filter(|v| values.contains(v)).count();
    assert!(found >= 3);
}

#[test]
fn test_miden_call_tree_structure() {
    let d = doc(&compute_masm());
    for name in [
        "fibonacci",
        "factorial",
        "max_of_three",
        "array_sum",
        "bitwise_ops",
        "stack_manipulation",
        "nested_control_flow",
        "arithmetic_demo",
        "memory_word_ops",
    ] {
        assert!(d.functions.iter().any(|n| n.ends_with(name)), "{name}");
    }
    let expected = [
        "fibonacci",
        "factorial",
        "max_of_three",
        "array_sum",
        "bitwise_ops",
        "stack_manipulation",
        "nested_control_flow",
        "nested_control_flow",
        "arithmetic_demo",
        "memory_word_ops",
    ];
    let mut next = 0;
    for name in d.call_sequence() {
        if next < expected.len() && name.rsplit("::").next() == Some(expected[next]) {
            next += 1;
        }
    }
    assert_eq!(next, expected.len());
    // The call of the program itself is open from the start.
    let mut depth = 1;
    for op in &d.ops {
        match op {
            TraceOp::Call { .. } => depth += 1,
            TraceOp::Return => {
                depth -= 1;
                assert!(depth >= 0);
            }
            _ => {}
        }
    }
    assert_eq!(depth, 0);
}

#[test]
fn test_miden_conditional_branch_coverage() {
    let source = compute_masm();
    let d = doc(&source);
    let (yes, no) = branches(&source);
    for (first, last) in [yes, no] {
        assert!(d
            .steps
            .iter()
            .any(|s| s.function.ends_with("nested_control_flow")
                && first <= s.line
                && s.line <= last));
    }
}

#[test]
fn test_miden_memory_operations() {
    let d = doc(&compute_masm());
    let sums = d.values_in("array_sum");
    for value in [10, 20, 30, 40, 50, 100, 101, 102, 103, 104, 150] {
        assert!(sums.contains(&value), "{value}");
    }
    let words = d.values_in("memory_word_ops");
    for value in [1, 2, 3, 4, 200] {
        assert!(words.contains(&value), "{value}");
    }
}

#[test]
fn test_control_flow_test_via_ct_print_full() {
    let d = doc(&control_flow_masm());
    assert_eq!(
        d.sorted_functions(),
        vec!["#exec::#main", "#exec::if_else_demo", "#exec::repeat_acc", "#exec::while_sum"]
    );
    assert_eq!(d.counts(), (31, 4, 0, 39), "{}", d.brief());
    assert_eq!(
        d.call_sequence(),
        vec!["#exec::#main", "#exec::if_else_demo", "#exec::while_sum", "#exec::repeat_acc"]
    );
    assert_eq!(
        d.exits,
        vec!["#exec::if_else_demo", "#exec::while_sum", "#exec::repeat_acc", "#exec::#main"]
    );
    assert_eq!(d.args("#exec::if_else_demo"), [8, 8, 0, 0]);
    assert_eq!(d.args("#exec::while_sum")[2], 208);
    assert_eq!(d.args("#exec::repeat_acc")[1], 15);
    assert_eq!(d.samples(47, "local[0]"), vec![28]);
    assert_eq!(d.steps.last().map(|s| (s.function.as_str(), s.line)), Some(("#exec::#main", 64)));
    let body = d
        .steps
        .iter()
        .filter(|s| s.function == "#exec::while_sum" && 32 <= s.line && s.line <= 34)
        .count();
    assert_eq!(body, 15);
    let body =
        d.steps.iter().filter(|s| s.function == "#exec::repeat_acc" && s.line == 45).count();
    assert_eq!(body, 4);
}

#[test]
fn test_control_flow_call_exit_strict_lifo() {
    assert_eq!(
        doc(&control_flow_masm()).exits,
        vec!["#exec::if_else_demo", "#exec::while_sum", "#exec::repeat_acc", "#exec::#main"]
    );
}

#[test]
fn test_control_flow_repeat_emits_step_per_iteration() {
    assert_eq!(doc(&control_flow_masm()).steps_at(45).len(), 4);
}

#[test]
fn test_nested_calls_test_via_ct_print_full() {
    let d = doc(&nested_calls_masm());
    assert_eq!(
        d.sorted_functions(),
        vec!["#exec::#main", "#exec::compute", "#exec::inner", "#exec::middle", "#exec::outer"]
    );
    assert_eq!(d.counts(), (5, 4, 0, 13), "{}", d.brief());
    assert_eq!(
        d.call_sequence(),
        vec!["#exec::compute", "#exec::outer", "#exec::middle", "#exec::inner"]
    );
    assert_eq!(
        d.exits,
        vec!["#exec::inner", "#exec::middle", "#exec::compute", "#exec::outer"]
    );
    assert_eq!(d.samples(17, "stack[0]")[0], 0);
    assert_eq!(d.samples(22, "stack[0]")[0], 10);
    assert_eq!(d.samples(27, "stack[0]")[0], 100);
    assert!(d.samples(27, "stack[0]").contains(&113));
}

#[test]
fn test_nested_calls_full_chain_registered() {
    let d = doc(&nested_calls_masm());
    for name in ["compute", "outer", "middle", "inner", "#main"] {
        assert!(d.functions.contains(&format!("#exec::{name}")), "{name}");
    }
    assert_eq!(d.calls.len(), 4);
}

#[test]
fn test_memory_ops_test_via_ct_print_full() {
    let d = doc(&memory_ops_masm());
    assert_eq!(
        d.sorted_functions(),
        vec!["#exec::#main", "#exec::mem_reader", "#exec::mem_writer"]
    );
    assert_eq!(d.counts(), (13, 2, 0, 17), "{}", d.brief());
    assert_eq!(d.call_sequence(), vec!["#exec::mem_reader", "#exec::#main"]);
    assert_eq!(d.exits, vec!["#exec::mem_reader", "#exec::#main"]);
    for (line, value) in [(11, 111), (12, 222), (13, 333), (18, 50), (20, 51), (22, 52)] {
        assert!(d.samples(line, "stack[0]").contains(&value), "{line}");
    }
    assert_eq!(d.samples(24, "local[0]").iter().max(), Some(&666));
}

#[test]
fn test_memory_ops_mem_writer_registered() {
    assert!(doc(&memory_ops_masm()).functions.contains(&"#exec::mem_writer".to_string()));
}

#[test]
fn test_assertions_pass_test_via_ct_print_full() {
    let d = doc(&assertions_pass_masm());
    assert_eq!(d.sorted_functions(), vec!["#exec::#main", "#exec::checks"]);
    assert_eq!(d.counts(), (6, 1, 0, 8), "{}", d.brief());
    assert_eq!(d.samples(19, "stack[0]")[0], 999);
}

#[test]
fn test_assertions_pass_checks_registered() {
    assert!(doc(&assertions_pass_masm()).functions.contains(&"#exec::checks".to_string()));
}

#[test]
fn test_assertion_fail_test_via_ct_print_full() {
    let d = doc(&assertion_fail_masm());
    assert_eq!(d.functions, vec!["#exec::boom"]);
    assert_eq!(d.counts(), (2, 0, 1, 3), "{}", d.brief());
    assert!(d.errors[0].contains("assertion failed"));
}

#[test]
fn test_assertion_fail_records_boom_function() {
    assert!(doc(&assertion_fail_masm()).functions.contains(&"#exec::boom".to_string()));
}

#[test]
fn test_stack_manip_test_via_ct_print_full() {
    let d = doc(&stack_manip_masm());
    assert_eq!(d.sorted_functions(), vec!["#exec::#main", "#exec::shuffle"]);
    assert_eq!(d.counts(), (13, 1, 0, 15), "{}", d.brief());
    assert_eq!(d.samples(10, "stack[0]"), vec![0, 2, 3, 4]);
    let last: HashMap<String, i64> = d.steps_at(10)[0].vars.iter().cloned().collect();
    assert_eq!(last["stack[0]"], 4);
    assert_eq!(last["stack[1]"], 3);
    assert_eq!(last["stack[2]"], 2);
    assert_eq!(last["stack[3]"], 1);
    let main = d.steps.iter().find(|s| s.function == "#exec::#main").unwrap();
    assert_eq!(top4(main)[0], 777);
}

#[test]
fn test_stack_manip_shuffle_registered() {
    assert!(doc(&stack_manip_masm()).functions.contains(&"#exec::shuffle".to_string()));
}

#[test]
fn test_mast_inlining_test_via_ct_print_full() {
    let d = doc(&mast_inlining_masm());
    assert_eq!(
        d.sorted_functions(),
        vec![
            "#exec::#main",
            "#exec::leaf",
            "#exec::one",
            "#exec::three",
            "#exec::two",
            "#exec::wrapper",
        ]
    );
    assert_eq!(d.counts(), (7, 5, 0, 17), "{}", d.brief());
    assert_eq!(
        d.call_sequence(),
        vec!["#exec::wrapper", "#exec::three", "#exec::two", "#exec::one", "#exec::leaf"]
    );
    assert_eq!(
        d.exits,
        vec!["#exec::leaf", "#exec::one", "#exec::two", "#exec::three", "#exec::wrapper"]
    );
    for (line, value) in [(22, 6), (27, 16), (32, 116), (37, 1116), (42, 1127)] {
        assert_eq!(d.samples(line, "stack[0]").last(), Some(&value), "{line}");
    }
}

#[test]
fn test_loop_iteration_test_via_ct_print_full() {
    let d = doc(&loop_iteration_masm());
    assert_eq!(
        d.sorted_functions(),
        vec!["#exec::#main", "#exec::repeat_three", "#exec::while_three"]
    );
    assert_eq!(d.counts(), (21, 3, 0, 27), "{}", d.brief());
    assert_eq!(
        d.call_sequence(),
        vec!["#exec::#main", "#exec::repeat_three", "#exec::while_three"]
    );
    assert_eq!(d.exits, vec!["#exec::repeat_three", "#exec::while_three", "#exec::#main"]);
    assert_eq!(d.steps_at(25).len(), 3);
    let body: usize = [35, 36, 37].iter().map(|line| d.steps_at(*line).len()).sum();
    assert_eq!(body, 9);
    assert_eq!(d.samples(27, "local[0]")[0], 3);
    assert_eq!(d.samples(39, "local[1]")[0], 3);
}

#[test]
fn test_proc_call_syscall_test_via_ct_print_full() {
    let source = proc_call_syscall_masm();
    let d = doc(&source);
    assert_eq!(d.sorted_functions(), vec!["#exec::#main", "#exec::inner", "#exec::outer"]);
    assert_eq!(d.counts(), (6, 3, 0, 12), "{}", d.brief());
    assert_eq!(d.call_sequence(), vec!["#exec::#main", "#exec::outer", "#exec::inner"]);
    assert_eq!(d.exits, vec!["#exec::inner", "#exec::outer", "#exec::#main"]);
    assert_eq!(d.samples(46, "stack[0]")[0], 17);
    let kinds = parse_call_kinds(&source);
    assert_eq!(kinds.kind("#main", "outer"), Some(CallKind::Call));
    assert_eq!(kinds.kind("outer", "inner"), Some(CallKind::Exec));
    let synthetic = "proc.kernel_stub.0\nsyscall.foo\nend\nbegin\nexec.kernel_stub\nend\n";
    let kinds = parse_call_kinds(synthetic);
    assert_eq!(kinds.kind("kernel_stub", "foo"), Some(CallKind::SysCall));
    assert_eq!(CallKind::Exec.as_tag(), "Exec");
    assert_eq!(CallKind::Call.as_tag(), "Call");
    assert_eq!(CallKind::SysCall.as_tag(), "SysCall");
}

#[test]
fn test_memory_word_ops_test_via_ct_print_full() {
    let d = doc(&memory_word_ops_masm());
    assert_eq!(
        d.sorted_functions(),
        vec!["#exec::#main", "#exec::word_reader", "#exec::word_writer"]
    );
    assert_eq!(
        d.call_sequence(),
        vec!["#exec::#main", "#exec::word_writer", "#exec::word_reader"]
    );
    assert!(d.errors.is_empty());
    let found: Vec<&Vec<i64>> = d.steps_at(39).into_iter().flat_map(|s| s.words.iter()).collect();
    assert_eq!(found, vec![&vec![4, 3, 2, 1]], "{}", d.brief());
}

#[test]
fn test_local_word_ops_test_via_ct_print_full() {
    let d = doc(&local_word_ops_masm());
    assert_eq!(d.sorted_functions(), vec!["#exec::#main", "#exec::word_local"]);
    assert_eq!(d.call_sequence(), vec!["#exec::#main", "#exec::word_local"]);
    assert!(d.errors.is_empty());
    let found: Vec<&Vec<i64>> = d.steps.iter().flat_map(|s| s.words.iter()).collect();
    assert_eq!(found, vec![&vec![40, 30, 20, 10]], "{}", d.brief());
}

#[test]
fn test_assertion_error_codes_test_via_ct_print_full() {
    let d = doc("proc.boom.0\n    push.1 assertz.err=\"err=42\"\nend\n\nbegin\n    exec.boom\nend\n");
    assert_eq!(d.functions, vec!["#exec::boom"]);
    assert_eq!(d.calls.len(), 0);
    assert_eq!(d.errors.len(), 1);
    assert!(d.errors[0].contains("err=42"), "{}", d.errors[0]);
    assert!(d.errors[0].starts_with("assertion failed at clock cycle"));
}

#[test]
fn test_u32_arithmetic_test_via_ct_print_full() {
    let d = doc(&u32_arithmetic_masm());
    assert_eq!(
        d.sorted_functions(),
        vec![
            "#exec::#main",
            "#exec::bitwise_ops",
            "#exec::overflow_ops",
            "#exec::shift_ops",
            "#exec::wrap_ops",
        ]
    );
    assert_eq!(d.counts(), (13, 5, 0, 23), "{}", d.brief());
    assert_eq!(
        d.call_sequence(),
        vec![
            "#exec::#main",
            "#exec::wrap_ops",
            "#exec::overflow_ops",
            "#exec::bitwise_ops",
            "#exec::shift_ops",
        ]
    );
    assert_eq!(
        d.exits,
        vec![
            "#exec::wrap_ops",
            "#exec::overflow_ops",
            "#exec::bitwise_ops",
            "#exec::shift_ops",
            "#exec::#main",
        ]
    );
    assert_eq!(d.args("#exec::overflow_ops"), [4294967294, 30, 7, 13]);
    assert_eq!(d.args("#exec::bitwise_ops"), [240, 1, 1, 30]);
    assert_eq!(d.top4("#exec::#main", 61), [64, 195, 243, 48]);
}

#[test]
fn test_boolean_predicates_test_via_ct_print_full() {
    let d = doc(&boolean_predicates_masm());
    let names = [
        "not_op", "and_op", "or_op", "xor_op", "eq_op", "neq_op", "lt_op", "gt_op", "lte_op",
        "gte_op",
    ];
    assert_eq!(d.functions.len(), 11);
    assert_eq!(d.counts(), (13, 11, 0, 35), "{}", d.brief());
    let mut called = vec!["#exec::#main".to_string()];
    called.extend(names.iter().map(|n| format!("#exec::{n}")));
    assert_eq!(d.call_sequence(), called);
    called.rotate_left(1);
    assert_eq!(d.exits, called);
    for (name, args) in [
        ("not_op", [0, 0, 0, 0]),
        ("and_op", [0, 1, 0, 0]),
        ("or_op", [0, 1, 1, 0]),
        ("xor_op", [0, 1, 1, 1]),
        ("eq_op", [5, 0, 1, 1]),
        ("neq_op", [5, 1, 0, 1]),
        ("lt_op", [3, 1, 1, 0]),
        ("gt_op", [5, 1, 1, 1]),
        ("lte_op", [3, 1, 1, 1]),
        ("gte_op", [5, 1, 1, 1]),
    ] {
        assert_eq!(d.args(&format!("#exec::{name}")), args, "{name}");
    }
}

#[test]
fn test_stack_manipulation_test_via_ct_print_full() {
    let d = doc(&stack_manipulation_masm());
    assert_eq!(d.sorted_functions(), vec!["#exec::#main", "#exec::shuffle"]);
    assert_eq!(d.counts(), (13, 2, 0, 17), "{}", d.brief());
    assert_eq!(d.call_sequence(), vec!["#exec::#main", "#exec::shuffle"]);
    assert_eq!(d.exits, vec!["#exec::shuffle", "#exec::#main"]);
    for (line, stack) in [
        (18, [0, 0, 0, 0]),
        (23, [1, 4, 3, 2]),
        (24, [4, 3, 2, 1]),
        (29, [3, 4, 2, 1]),
        (30, [3, 2, 4, 1]),
        (35, [1, 4, 3, 2]),
        (36, [4, 3, 2, 1]),
        (41, [0, 4, 3, 2]),
        (46, [0, 0, 0, 4]),
    ] {
        assert_eq!(d.top4("#exec::shuffle", line), stack, "{line}");
    }
    assert_eq!(d.top4("#exec::#main", 50), [3, 2, 1, 0]);
}

#[test]
fn test_large_field_literal_test_via_ct_print_full() {
    let d = doc(&text(&[
        (21, "proc.lits.0"),
        (22, "    push.0xFFFFFFFE00000000"),
        (23, "    push.0x0100"),
        (24, "    push.1234"),
        (25, "end"),
        (27, "begin"),
        (28, "    push.0"),
        (29, "    exec.lits"),
        (30, "    drop drop"),
        (31, "    drop drop"),
        (32, "end"),
    ]));
    assert_eq!(d.sorted_functions(), vec!["#exec::#main", "#exec::lits"]);
    assert_eq!(d.counts(), (6, 2, 0, 10), "{}", d.brief());
    assert_eq!(d.call_sequence(), vec!["#exec::#main", "#exec::lits"]);
    assert_eq!(d.exits, vec!["#exec::lits", "#exec::#main"]);
    assert_eq!(d.top4("#exec::lits", 22), [-8589934592, 0, 0, 0]);
    assert_eq!((-8589934592_i64) as u64, 0xFFFFFFFE00000000_u64);
    assert_eq!(d.top4("#exec::lits", 23), [256, -8589934592, 0, 0]);
    assert_eq!(d.steps_at(24).len(), 1);
    assert_eq!(top4(d.steps_at(24)[0]), [1234, 256, -8589934592, 0]);
}

#[test]
fn test_stdlib_imports_test_via_ct_print_full() {
    let d = doc(
        "use.std::math::u64\nuse.std::sys\n\nproc.add_op.0\n    push.5 push.1 push.3 push.2\n    exec.u64::wrapping_add\nend\n\nproc.mul_op.0\n    push.0 push.1 push.2 push.0\n    exec.u64::wrapping_mul\nend\n\nbegin\n    push.0\n    exec.add_op\n    exec.mul_op\n    exec.sys::truncate_stack\nend\n",
    );
    assert_eq!(
        d.sorted_functions(),
        vec![
            "#exec::#main",
            "#exec::add_op",
            "#exec::mul_op",
            "std::math::u64::overflowing_add",
            "std::math::u64::wrapping_add",
            "std::math::u64::wrapping_mul",
            "std::sys::truncate_stack",
        ]
    );
    let called = vec![
        "#exec::#main",
        "#exec::add_op",
        "std::math::u64::overflowing_add",
        "std::math::u64::wrapping_add",
        "#exec::mul_op",
        "std::math::u64::wrapping_mul",
        "std::sys::truncate_stack",
    ];
    assert_eq!(d.call_sequence(), called);
    assert_eq!(d.exits, called);
    assert_eq!(d.args("#exec::mul_op"), [0, 3, 8, 0]);
    assert_eq!(d.args("std::sys::truncate_stack"), [-4294967299, 2, 0, 3]);
    assert_eq!(d.args("std::math::u64::overflowing_add"), [3, 2, 1, 5]);
    assert!(d.errors.is_empty());
}

#[test]
fn test_field_arithmetic_test_via_ct_print_full() {
    let mut source = String::new();
    for (name, body) in [
        ("add_wrap", "push.0xFFFFFFFF00000000 push.2 add"),
        ("sub_wrap", "push.1 push.2 sub"),
        ("mul_pair", "push.3 push.5 mul"),
        ("div_pair", "push.5 push.15 div"),
        ("neg_one", "push.7 neg"),
        ("inv_pair", "push.7 inv"),
        ("pow2_op", "push.5 pow2"),
        ("exp_op", "push.3 push.4 exp"),
    ] {
        source.push_str(&format!("proc.{name}.0\n    {body}\nend\n"));
    }
    source.push_str("begin\n    push.0\n    exec.add_wrap exec.sub_wrap exec.mul_pair\n    exec.div_pair exec.neg_one exec.inv_pair\n    exec.pow2_op exec.exp_op\n    drop drop drop drop\n    drop drop drop drop drop\nend\n");
    let d = doc(&source);
    assert_eq!(d.functions.len(), 9);
    assert_eq!(d.counts(), (11, 9, 0, 29), "{}", d.brief());
    let mut called: Vec<String> = [
        "#main", "add_wrap", "sub_wrap", "mul_pair", "div_pair", "neg_one", "inv_pair", "pow2_op",
        "exp_op",
    ]
    .iter()
    .map(|n| format!("#exec::{n}"))
    .collect();
    assert_eq!(d.call_sequence(), called);
    called.rotate_left(1);
    assert_eq!(d.exits, called);
    for (name, args) in [
        ("add_wrap", [-4294967296, 0, 0, 0]),
        ("sub_wrap", [0, 1, 0, 0]),
        ("mul_pair", [3, -4294967296, 1, 0]),
        ("div_pair", [5, 15, -4294967296, 1]),
        ("neg_one", [7, -6148914694099828735, 15, -4294967296]),
        ("inv_pair", [7, -4294967302, -6148914694099828735, 15]),
        ("pow2_op", [5, 2635249152773512046, -4294967302, -6148914694099828735]),
        ("exp_op", [3, 32, 2635249152773512046, -4294967302]),
    ] {
        assert_eq!(d.args(&format!("#exec::{name}")), args, "{name}");
    }
}

#[test]
fn test_if_else_branch_test_via_ct_print_full() {
    let d = doc(&text(&[
        (34, "proc.branch.0"),
        (35, "    if.true"),
        (36, "        push.111"),
        (37, "    else"),
        (38, "        push.222"),
        (39, "    end"),
        (40, "end"),
        (42, "begin"),
        (43, "    push.0 drop"),
        (44, "    push.1"),
        (45, "    exec.branch"),
        (46, "    push.0"),
        (47, "    exec.branch"),
        (48, "    drop"),
        (49, "    drop"),
        (50, "end"),
    ]));
    assert_eq!(d.sorted_functions(), vec!["#exec::#main", "#exec::branch"]);
    assert_eq!(d.counts(), (9, 3, 0, 15), "{}", d.brief());
    assert_eq!(d.call_sequence(), vec!["#exec::#main", "#exec::branch", "#exec::branch"]);
    assert_eq!(d.exits, vec!["#exec::branch", "#exec::branch", "#exec::#main"]);
    assert_eq!(d.steps_at(36).len(), 1);
    assert_eq!(d.samples(36, "stack[0]")[0], 111);
    assert_eq!(d.steps_at(38).len(), 1);
    assert_eq!(d.samples(38, "stack[0]")[0], 222);
    assert_eq!(d.steps_at(35).len(), 2);
    let args: Vec<Vec<i64>> = d.calls[1..]
        .iter()
        .map(|(_, args)| args.iter().map(|(_, v)| *v).collect())
        .collect();
    assert_eq!(args, vec![vec![0, 0, 0, 0], vec![111, 0, 0, 0]]);
}

#[test]
fn test_local_frame_decl_test_via_ct_print_full() {
    let d = doc(&text(&[
        (35, "proc.compute.4"),
        (36, "    push.10 loc_store.0"),
        (37, "    push.20 loc_store.1"),
        (38, "    push.30 loc_store.2"),
        (39, "    push.40 loc_store.3"),
        (40, "    loc_load.0"),
        (41, "    loc_load.1"),
        (42, "    loc_load.2"),
        (43, "    loc_load.3"),
        (44, "end"),
        (46, "begin"),
        (47, "    push.0"),
        (48, "    exec.compute"),
        (49, "    drop drop"),
        (50, "    drop drop drop"),
        (51, "end"),
    ]));
    assert_eq!(d.sorted_functions(), vec!["#exec::#main", "#exec::compute"]);
    assert_eq!(d.counts(), (11, 2, 0, 15), "{}", d.brief());
    assert_eq!(d.call_sequence(), vec!["#exec::#main", "#exec::compute"]);
    assert_eq!(d.exits, vec!["#exec::compute", "#exec::#main"]);
    let locals: HashMap<String, i64> = d.steps_at(40)[0]
        .vars
        .iter()
        .filter(|(n, _)| n.starts_with("local["))
        .cloned()
        .collect();
    let expected: HashMap<String, i64> =
        (0..4).map(|n| (format!("local[{n}]"), 10 * (n + 1))).collect();
    assert_eq!(locals, expected);
    let mut names: Vec<&str> = d
        .steps
        .iter()
        .flat_map(|s| s.vars.iter())
        .map(|(n, _)| n.as_str())
        .filter(|n| n.starts_with("local["))
        .collect();
    names.sort_unstable();
    names.dedup();
    assert_eq!(names, vec!["local[0]", "local[1]", "local[2]", "local[3]"]);
    assert_eq!(d.samples(41, "stack[1]")[0], 10);
    assert_eq!(d.samples(42, "stack[1]")[0], 20);
    assert_eq!(d.samples(42, "stack[2]")[0], 10);
    assert_eq!(d.args("#exec::compute"), [10, 0, 0, 0]);
}

#[test]
fn test_hash_primitives_test_via_ct_print_full() {
    let d = doc(&text(&[
        (37, "proc.hash_op.0"),
        (38, "    padw"),
        (39, "    hash"),
        (40, "    dropw"),
        (41, "end"),
        (42, "proc.hperm_op.0"),
        (43, "    padw padw padw"),
        (44, "    hperm"),
        (45, "    dropw dropw dropw"),
        (46, "end"),
        (47, "proc.hmerge_op.0"),
        (48, "    padw padw"),
        (49, "    hmerge"),
        (50, "    dropw"),
        (51, "end"),
        (53, "begin"),
        (54, "    push.0"),
        (55, "    exec.hash_op"),
        (56, "    exec.hperm_op"),
        (57, "    exec.hmerge_op"),
        (58, "    drop"),
        (59, "    push.0 drop"),
        (60, "end"),
    ]));
    assert_eq!(
        d.sorted_functions(),
        vec!["#exec::#main", "#exec::hash_op", "#exec::hmerge_op", "#exec::hperm_op"]
    );
    assert_eq!(d.counts(), (12, 4, 0, 20), "{}", d.brief());
    assert_eq!(
        d.call_sequence(),
        vec!["#exec::#main", "#exec::hash_op", "#exec::hperm_op", "#exec::hmerge_op"]
    );
    assert_eq!(
        d.exits,
        vec!["#exec::hash_op", "#exec::hperm_op", "#exec::hmerge_op", "#exec::#main"]
    );
    assert_eq!(
        top4(d.steps_at(44)[0]),
        [4949768242600167471, -1569765624114072829, 1403542540949983059, -4362507071928307730]
    );
    assert_eq!(top4(d.steps_at(39)[0]), [4, 0, 0, 0]);
}

#[test]
fn test_advice_tape_test_via_ct_print_full() {
    let source = "# advice_stack: 10, 20, 30, 40, 50, 60, 70, 80, 90, 100, 110, 120\n\nproc.tape_reader.0\n    adv_push.1\n    adv_push.1\n    adv_push.4\n    dropw drop drop\nend\n\nproc.loadw_op.0\n    padw adv_loadw\n    dropw\nend\n\nbegin\n    push.0\n    exec.tape_reader\n    exec.loadw_op\n    drop\nend\n";
    let d = doc(source);
    assert_eq!(
        d.sorted_functions(),
        vec!["#exec::#main", "#exec::loadw_op", "#exec::tape_reader"]
    );
    assert_eq!(d.counts(), (8, 3, 4, 18), "{}", d.brief());
    assert_eq!(
        d.call_sequence(),
        vec!["#exec::#main", "#exec::tape_reader", "#exec::loadw_op"]
    );
    assert_eq!(
        d.reads,
        vec![
            "advice_read kind=adv_push count=1 values=[10]",
            "advice_read kind=adv_push count=1 values=[20]",
            "advice_read kind=adv_push count=4 values=[60, 50, 40, 30]",
            "advice_read kind=adv_loadw count=4 values=[100, 90, 80, 70]",
        ]
    );
    assert_eq!(
        parse_advice_stack(source),
        vec![10u64, 20, 30, 40, 50, 60, 70, 80, 90, 100, 110, 120]
    );
}

#[test]
fn test_transaction_kernel_syscall_test_via_ct_print_full() {
    let kernel = "export.kernel_get_block_number\n    push.777\n    swap drop\nend\n\nexport.kernel_add_one\n    push.1 add\nend";
    let block: String = kernel.lines().map(|line| format!("# > {line}\n")).collect();
    let source = format!("# kernel_module:\n{block}\nbegin\n    push.5\n    syscall.kernel_get_block_number\n    syscall.kernel_add_one\n    push.0 drop\n    drop\nend\n");
    let d = doc(&source);
    assert_eq!(
        d.sorted_functions(),
        vec!["#exec::#main", "#sys::kernel_add_one", "#sys::kernel_get_block_number"]
    );
    assert_eq!(
        d.call_sequence(),
        vec!["#exec::#main", "#sys::kernel_get_block_number", "#sys::kernel_add_one"]
    );
    assert_eq!(
        d.exits,
        vec!["#sys::kernel_get_block_number", "#sys::kernel_add_one", "#exec::#main"]
    );
    assert!(d.errors.is_empty());
    let kinds = parse_call_kinds(&source);
    assert_eq!(kinds.kind("#main", "kernel_get_block_number"), Some(CallKind::SysCall));
    assert_eq!(kinds.kind("#main", "kernel_add_one"), Some(CallKind::SysCall));
    assert_eq!(parse_kernel_module(&source).as_deref(), Some(kernel));
    assert!(d.values_in("kernel_get_block_number").contains(&777), "{}", d.brief());
    assert!(d.values_in("kernel_add_one").contains(&778), "{}", d.brief());
}

#[test]
fn test_merkle_tree_test_via_ct_print_full() {
    let leaves_a = vec![[1, 0, 0, 0], [2, 0, 0, 0], [3, 0, 0, 0], [4, 0, 0, 0]];
    let leaves_b = vec![[1, 0, 0, 0], [2, 0, 0, 0], [3, 0, 0, 0], [9, 0, 0, 0]];
    let root_a = merkle_tree_root_felts(&leaves_a).unwrap();
    let root_b = merkle_tree_root_felts(&leaves_b).unwrap();
    let root: Vec<String> = root_a.iter().map(|e| format!("push.{e}")).collect();
    let mut lines: Vec<(usize, String)> = vec![
        (20, "# merkle_tree: 1 0 0 0 ; 2 0 0 0 ; 3 0 0 0 ; 4 0 0 0".to_string()),
        (21, "# merkle_tree: 1 0 0 0 ; 2 0 0 0 ; 3 0 0 0 ; 9 0 0 0".to_string()),
    ];
    for (line, name) in [(30, "mtree_get"), (40, "mtree_verify"), (50, "mtree_set")] {
        lines.push((line, format!("proc.{name}_op.0")));
        lines.push((line + 1, format!("    {name}")));
        lines.push((line + 2, "end".to_string()));
    }
    let mut body: Vec<String> = vec!["push.0 drop".to_string()];
    body.extend(root.clone());
    for line in ["push.1", "push.2", "exec.mtree_get_op", "dropw", "dropw"] {
        body.push(line.to_string());
    }
    body.extend(root.clone());
    for line in ["push.2", "push.2", "push.3", "push.0", "push.0", "push.0"] {
        body.push(line.to_string());
    }
    for line in ["exec.mtree_verify_op", "dropw", "drop drop", "dropw"] {
        body.push(line.to_string());
    }
    for line in ["push.9", "push.0", "push.0", "push.0"] {
        body.push(line.to_string());
    }
    body.extend(root.clone());
    for line in ["push.3", "push.2", "exec.mtree_set_op", "dropw", "mem_storew.100"] {
        body.push(line.to_string());
    }
    for line in ["mem_loadw.100", "dropw"] {
        body.push(line.to_string());
    }
    let first = 139 - body.len();
    lines.push((first - 1, "begin".to_string()));
    for (n, line) in body.iter().enumerate() {
        lines.push((first + n, format!("    {line}")));
    }
    lines.push((139, "end".to_string()));
    let lines: Vec<(usize, &str)> = lines.iter().map(|(n, l)| (*n, l.as_str())).collect();
    let source = text(&lines);
    let d = doc(&source);
    assert_eq!(
        d.sorted_functions(),
        vec![
            "#exec::#main",
            "#exec::mtree_get_op",
            "#exec::mtree_set_op",
            "#exec::mtree_verify_op",
        ]
    );
    assert_eq!(d.counts(), (39, 4, 0, 47), "{}", d.brief());
    assert_eq!(
        d.call_sequence(),
        vec![
            "#exec::#main",
            "#exec::mtree_get_op",
            "#exec::mtree_verify_op",
            "#exec::mtree_set_op",
        ]
    );
    assert_eq!(
        d.exits,
        vec![
            "#exec::mtree_get_op",
            "#exec::mtree_verify_op",
            "#exec::mtree_set_op",
            "#exec::#main",
        ]
    );
    let get = d.args("#exec::mtree_get_op");
    assert_eq!((get[0], get[1], get[2] as u64, get[3] as u64), (2, 1, root_a[3], root_a[2]));
    assert_eq!(d.args("#exec::mtree_verify_op"), [0, 0, 0, 3]);
    let set = d.args("#exec::mtree_set_op");
    assert_eq!((set[0], set[1], set[2] as u64, set[3] as u64), (2, 3, root_a[3], root_a[2]));
    let words: Vec<u64> =
        d.steps_at(138).iter().flat_map(|s| s.words.iter()).flatten().map(|v| *v as u64).collect();
    assert_eq!(words, vec![root_b[3], root_b[2], root_b[1], root_b[0]]);
    let parsed = parse_merkle_trees(&source);
    assert_eq!(parsed.len(), 2);
    assert_eq!(parsed[0].len(), 4);
    assert_eq!(parsed[1].len(), 4);
    assert_eq!(parsed[0][1], [2, 0, 0, 0]);
    assert_eq!(parsed[1][3], [9, 0, 0, 0]);
}

#[test]
fn test_cross_context_call_test_via_ct_print_full() {
    let source = text(&[
        (45, "proc.callee.1"),
        (46, "    push.555"),
        (47, "    loc_store.0"),
        (56, "    push.999 push.10 mem_store"),
        (65, "    push.777"),
        (66, "    swap drop"),
        (67, "end"),
        (80, "begin"),
        (81, "    push.0 drop"),
        (82, "    push.0 drop"),
        (83, "    push.0 drop"),
        (84, "    push.123 swap drop call.callee"),
        (85, "    push.0 drop"),
        (86, "    push.0 drop"),
        (87, "    push.0 drop"),
        (88, "end"),
    ]);
    let d = doc(&source);
    assert_eq!(d.sorted_functions(), vec!["#exec::#main", "#exec::callee"]);
    assert_eq!(d.counts(), (12, 2, 0, 16), "{}", d.brief());
    assert_eq!(d.call_sequence(), vec!["#exec::#main", "#exec::callee"]);
    assert_eq!(d.exits, vec!["#exec::callee", "#exec::#main"]);
    assert_eq!(d.samples(84, "stack[0]")[0], 123);
    assert_eq!(d.samples(46, "stack[0]")[0], 555);
    assert_eq!(d.samples(56, "local[0]")[0], 555);
    let top = top4(d.steps_at(66)[0]);
    assert_eq!([top[0], top[1]], [123, 777]);
    assert_eq!(parse_call_kinds(&source).kind("#main", "callee"), Some(CallKind::Call));
}

#[test]
fn test_transaction_account_storage_test_via_ct_print_full() {
    let source = text(&[
        (10, "proc.account_set_item.0"),
        (11, "    add.100"),
        (12, "    mem_store"),
        (13, "end"),
        (15, "proc.account_get_item.0"),
        (16, "    add.100"),
        (17, "    mem_load"),
        (18, "end"),
        (20, "begin"),
        (21, "    push.0 drop"),
        (22, "    push.42"),
        (23, "    push.0"),
        (24, "    exec.account_set_item"),
        (25, "    push.99"),
        (26, "    push.2"),
        (27, "    exec.account_set_item"),
        (28, "    push.0"),
        (29, "    exec.account_get_item"),
        (30, "    push.2"),
        (31, "    exec.account_get_item"),
        (32, "    push.1"),
        (33, "    exec.account_get_item"),
        (34, "    drop"),
        (35, "    drop drop"),
        (36, "end"),
    ]);
    let d = doc(&source);
    assert_eq!(
        d.sorted_functions(),
        vec!["#exec::#main", "#exec::account_get_item", "#exec::account_set_item"]
    );
    assert_eq!(d.counts(), (20, 6, 0, 32), "{}", d.brief());
    let mut called = vec![
        "#exec::#main",
        "#exec::account_set_item",
        "#exec::account_set_item",
        "#exec::account_get_item",
        "#exec::account_get_item",
        "#exec::account_get_item",
    ];
    assert_eq!(d.call_sequence(), called);
    called.rotate_left(1);
    assert_eq!(d.exits, called);
    let args: Vec<Vec<i64>> = d.calls[1..]
        .iter()
        .map(|(_, args)| args.iter().map(|(_, v)| *v).collect())
        .collect();
    assert_eq!(
        args,
        vec![
            vec![100, 0, 42, 0],
            vec![100, 2, 99, 0],
            vec![100, 0, 0, 0],
            vec![100, 2, 42, 0],
            vec![100, 1, 99, 42],
        ]
    );
    assert_eq!(d.samples(17, "stack[0]"), vec![42, 99, 0]);
    let kinds = parse_call_kinds(&source);
    assert_eq!(kinds.kind("#main", "account_set_item"), Some(CallKind::Exec));
    assert_eq!(kinds.kind("#main", "account_get_item"), Some(CallKind::Exec));
}

#[test]
fn test_transaction_note_consume_test_via_ct_print_full() {
    let mut source = String::from("# advice_stack: 51966, 0, 42, 51966, 1, 99, 51966, 2, 7\n\nproc.note_recv.0\n    adv_push.1\n    adv_push.1\n    adv_push.1\nend\n\nproc.note_unwrap.0\n    swap\n    movup.2\n    drop\nend\n\nproc.note_store.0\n    add.200\n    mem_store\nend\n\nbegin\n    push.0 drop\n");
    for _ in 0..3 {
        source.push_str("    exec.note_recv\n    exec.note_unwrap\n    exec.note_store\n");
    }
    source.push_str("    push.0 drop\n    push.1 drop\nend\n");
    let d = doc(&source);
    assert_eq!(
        d.sorted_functions(),
        vec!["#exec::#main", "#exec::note_recv", "#exec::note_store", "#exec::note_unwrap"]
    );
    assert_eq!(d.counts(), (27, 10, 9, 56), "{}", d.brief());
    let mut called = vec!["#exec::#main"];
    for _ in 0..3 {
        called.extend(["#exec::note_recv", "#exec::note_unwrap", "#exec::note_store"]);
    }
    assert_eq!(d.call_sequence(), called);
    called.rotate_left(1);
    assert_eq!(d.exits, called);
    let values = [51966, 0, 42, 51966, 1, 99, 51966, 2, 7];
    let reads: Vec<String> = values
        .iter()
        .map(|v| format!("advice_read kind=adv_push count=1 values=[{v}]"))
        .collect();
    assert_eq!(d.reads, reads);
    let args: Vec<Vec<i64>> = d.calls[1..]
        .iter()
        .map(|(_, args)| args.iter().map(|(_, v)| *v).collect())
        .collect();
    for (note, (key, value)) in [(0, 42), (1, 99), (2, 7)].into_iter().enumerate() {
        assert_eq!(args[3 * note], vec![51966, 0, 0, 0]);
        assert_eq!(args[3 * note + 1], vec![key, value, 51966, 0]);
        assert_eq!(args[3 * note + 2], vec![200, key, value, 0]);
    }
    let kinds = parse_call_kinds(&source);
    for name in ["note_recv", "note_unwrap", "note_store"] {
        assert_eq!(kinds.kind("#main", name), Some(CallKind::Exec));
    }
    assert_eq!(parse_advice_stack(&source), vec![51966u64, 0, 42, 51966, 1, 99, 51966, 2, 7]);
}

#[test]
fn falcon_verification_is_followed() {
    let d = doc("use.std::crypto::dsa::rpo_falcon512\n\nbegin\n    push.1 drop\n    exec.rpo_falcon512::verify\nend\n");
    assert_eq!(d.errors.len(), 1);
    for name in ["verify", "load_h_s2_and_product"] {
        let function = format!("std::crypto::dsa::rpo_falcon512::{name}");
        assert!(d.functions.contains(&function), "{name}");
    }
}
