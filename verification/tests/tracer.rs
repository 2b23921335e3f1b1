//! Traces: of given states, and of programs that the VM executes.

use std::path::PathBuf;

use codetracer_miden_recorder::tracer::merkle_tree_root_felts;
use codetracer_miden_recorder::tracer::syntax::is_sound_source;
use codetracer_miden_recorder::tracer::vm::AsmOp;
use codetracer_miden_recorder::tracer::vm::VmEvent;
use codetracer_miden_recorder::tracer::vm::VmStep;
use codetracer_miden_recorder::tracer::EventKind;
use codetracer_miden_recorder::tracer::MidenTracer;
use codetracer_miden_recorder::tracer::TraceOp;

fn path() -> PathBuf {
    PathBuf::from("program.masm")
}

/// A state at the given cycle of an instruction of `num_cycles` cycles.
fn cycle(
    source: &str,
    context: &str,
    op: &str,
    (cycle_idx, num_cycles): (u8, u8),
    stack: &[u64],
) -> VmStep {
    let start = source.find(op).map(|n| n as u32);
    VmStep {
        asmop: Some(AsmOp {
            op: op.to_string(),
            context_name: context.to_string(),
            num_cycles,
            cycle_idx,
            start,
        }),
        fmp: 0,
        stack: stack.to_vec(),
        memory: vec![],
    }
}

/// The one state of an instruction of one cycle.
fn state(source: &str, context: &str, op: &str, stack: &[u64]) -> VmEvent {
    VmEvent::State(cycle(source, context, op, (1, 1), stack))
}

fn function(name: &str, line: u32) -> TraceOp {
    TraceOp::EnsureFunction { name: name.to_string(), line }
}

fn call(function: usize) -> TraceOp {
    TraceOp::Call { function }
}

fn step(line: u32) -> TraceOp {
    TraceOp::Step { line }
}

fn arg(name: &str, value: i64) -> TraceOp {
    TraceOp::Arg { name: name.to_string(), value }
}

fn variable(name: &str, value: i64) -> TraceOp {
    TraceOp::Variable { name: name.to_string(), value }
}

fn event(kind: EventKind, metadata: &str, content: &str) -> TraceOp {
    TraceOp::Event { kind, metadata: metadata.to_string(), content: content.to_string() }
}

/// The names of the registered functions, by their numbers.
fn functions(ops: &[TraceOp]) -> Vec<String> {
    ops.iter()
        .filter_map(|op| match op {
            TraceOp::EnsureFunction { name, .. } => Some(name.clone()),
            _ => None,
        })
        .collect()
}

/// The functions that are called, in order.
fn called(ops: &[TraceOp]) -> Vec<String> {
    let names = functions(ops);
    ops.iter()
        .filter_map(|op| match op {
            TraceOp::Call { function } => Some(names[*function].clone()),
            _ => None,
        })
        .collect()
}

/// The functions whose calls are closed, in order.
fn closed(ops: &[TraceOp]) -> Vec<String> {
    let names = functions(ops);
    let mut open: Vec<String> = Vec::new();
    let mut out = Vec::new();
    for op in ops {
        match op {
            TraceOp::Call { function } => open.push(names[*function].clone()),
            TraceOp::Return => out.extend(open.pop()),
            _ => {}
        }
    }
    out
}

fn step_lines(ops: &[TraceOp]) -> Vec<u32> {
    ops.iter()
        .filter_map(|op| match op {
            TraceOp::Step { line } => Some(*line),
            _ => None,
        })
        .collect()
}

fn values_of(ops: &[TraceOp], variable: &str) -> Vec<i64> {
    ops.iter()
        .filter_map(|op| match op {
            TraceOp::Variable { name, value } if name == variable => Some(*value),
            _ => None,
        })
        .collect()
}

fn contents(ops: &[TraceOp], wanted: EventKind) -> Vec<String> {
    ops.iter()
        .filter_map(|op| match op {
            TraceOp::Event { kind, content, .. } if *kind == wanted => Some(content.clone()),
            _ => None,
        })
        .collect()
}

/// What holds of every trace.
fn assert_lawful(source: &str, ops: &[TraceOp]) {
    let mut depth: i64 = 0;
    let mut registered: Vec<&str> = Vec::new();
    for (i, op) in ops.iter().enumerate() {
        match op {
            TraceOp::EnsureFunction { name, .. } => {
                assert!(!registered.contains(&name.as_str()));
                registered.push(name);
            }
            TraceOp::Call { function } => {
                assert!(*function < registered.len());
                depth += 1;
            }
            TraceOp::Return => depth -= 1,
            TraceOp::Step { line } => {
                assert!(1 <= *line && *line as usize <= source.matches('\n').count() + 1);
            }
            _ => {}
        }
        if i + 1 < ops.len() {
            assert!(depth >= 0);
        }
    }
    assert_eq!(depth, -1);
    assert_eq!(ops.last(), Some(&TraceOp::Return));
}

fn run(source: &str) -> Vec<TraceOp> {
    let ops = MidenTracer::trace_program(&path(), source)
        .unwrap_or_else(|e| panic!("{source}: {e}"));
    assert_lawful(source, &ops);
    ops
}

fn refused(source: &str) -> String {
    MidenTracer::trace_program(&path(), source).unwrap_err()
}

#[test]
fn empty_execution_closes_the_toplevel_call() {
    let source = "proc.a.1\nend\nexport.b.2\nend\nproc.c\nend\n";
    let ops = MidenTracer::trace_events(&path(), source, &vec![]);
    assert_eq!(ops, vec![function("#exec::a", 1), function("#exec::b", 1), TraceOp::Return]);
}

#[test]
fn states_without_an_instruction_add_nothing() {
    let source = "begin\n    push.1\nend\n";
    let silent = VmStep { asmop: None, fmp: 1, stack: vec![1, 2], memory: vec![] };
    let later = cycle(source, "#exec::#main", "push.1", (2, 3), &[1]);
    let mut nowhere = cycle(source, "#exec::#main", "push.1", (1, 1), &[1]);
    if let Some(a) = nowhere.asmop.as_mut() {
        a.start = None;
    }
    let events =
        vec![VmEvent::State(silent), VmEvent::State(later), VmEvent::State(nowhere)];
    assert_eq!(MidenTracer::trace_events(&path(), source, &events), vec![TraceOp::Return]);
}

#[test]
fn trace_of_a_call_and_its_return() {
    let source = "proc.a.1\n    add\nend\nbegin\n    push.1\n    exec.a\n    drop\nend\n";
    let events = vec![
        state(source, "#exec::#main", "push.1", &[5]),
        state(source, "#exec::a", "add", &[u64::MAX, 5]),
        state(source, "#exec::#main", "drop", &[6]),
    ];
    let ops = MidenTracer::trace_events(&path(), source, &events);
    assert_lawful(source, &ops);
    assert_eq!(
        ops,
        vec![
            function("#exec::a", 1),
            function("#exec::#main", 5),
            call(1),
            step(5),
            variable("stack[0]", 5),
            arg("s0", -1),
            arg("s1", 5),
            call(0),
            step(2),
            variable("stack[0]", -1),
            variable("stack[1]", 5),
            TraceOp::Return,
            step(7),
            variable("stack[0]", 6),
            TraceOp::Return,
            TraceOp::Return,
        ]
    );
}

#[test]
fn sibling_calls_close_each_other() {
    let source = "proc.a.0\n    add\nend\nproc.b.0\n    mul\nend\nbegin\n    push.1\n    exec.a\n    exec.b\nend\n";
    let events = vec![
        state(source, "#exec::#main", "push.1", &[]),
        state(source, "#exec::a", "add", &[]),
        state(source, "#exec::b", "mul", &[]),
    ];
    let ops = MidenTracer::trace_events(&path(), source, &events);
    assert_lawful(source, &ops);
    assert_eq!(called(&ops), vec!["#exec::#main", "#exec::a", "#exec::b"]);
    assert_eq!(closed(&ops), vec!["#exec::a", "#exec::b", "#exec::#main"]);
}

#[test]
fn other_procedures_nest() {
    let source = "proc.b.0\n    mul\nend\nproc.a.0\n    add\n    exec.b\nend\nbegin\n    push.1\n    exec.a\nend\n";
    let events = vec![
        state(source, "#exec::#main", "push.1", &[]),
        state(source, "#exec::a", "add", &[]),
        state(source, "#exec::b", "mul", &[]),
    ];
    let ops = MidenTracer::trace_events(&path(), source, &events);
    assert_lawful(source, &ops);
    assert_eq!(closed(&ops), vec!["#exec::b", "#exec::a", "#exec::#main"]);
}

#[test]
fn inlined_callers_are_opened_and_drained() {
    let source = "proc.inner.0\n    add\nend\nproc.middle.0\n    exec.inner\nend\nproc.outer.0\n    exec.middle\nend\nbegin\n    exec.outer\n    drop\nend\n";
    let events = vec![
        state(source, "#exec::inner", "add", &[7]),
        state(source, "#exec::#main", "drop", &[8]),
    ];
    let ops = MidenTracer::trace_events(&path(), source, &events);
    assert_lawful(source, &ops);
    assert_eq!(
        ops,
        vec![
            function("#exec::inner", 1),
            function("#exec::middle", 1),
            function("#exec::outer", 1),
            call(2),
            call(1),
            call(0),
            step(2),
            variable("stack[0]", 7),
            function("#exec::#main", 12),
            TraceOp::Return,
            TraceOp::Return,
            TraceOp::Return,
            step(12),
            variable("stack[0]", 8),
            TraceOp::Return,
        ]
    );
}

#[test]
fn first_procedure_without_a_known_chain_opens_no_call() {
    let source = "proc.a.0\n    add\nend\nbegin\n    exec.a\nend\n";
    let events = vec![state(source, "#exec::a", "add", &[])];
    let ops = MidenTracer::trace_events(&path(), source, &events);
    assert_eq!(ops, vec![function("#exec::a", 1), step(2), TraceOp::Return]);
}

#[test]
fn step_comes_again_when_the_line_begins_again() {
    let source = "begin\n    push.1 add\n    drop\nend\n";
    let at = |op: &str| state(source, "#exec::#main", op, &[]);
    let wraps = vec![at("push.1"), at("add"), at("push.1"), at("add"), at("drop")];
    assert_eq!(step_lines(&MidenTracer::trace_events(&path(), source, &wraps)), vec![2, 2, 3]);
    let twice = vec![at("push.1"), at("push.1"), at("add"), at("add"), at("drop"), at("drop")];
    assert_eq!(step_lines(&MidenTracer::trace_events(&path(), source, &twice)), vec![2, 3]);
}

#[test]
fn failure_is_logged_and_nothing_after_it_counts() {
    let source = "begin\n    push.1\n    drop\nend\n";
    let ran = vec![state(source, "#exec::#main", "push.1", &[])];
    let failed = vec![
        state(source, "#exec::#main", "push.1", &[]),
        VmEvent::Failed("boom".to_string()),
        state(source, "#exec::#main", "drop", &[]),
        VmEvent::Failed("again".to_string()),
    ];
    let good = MidenTracer::trace_events(&path(), source, &ran);
    let bad = MidenTracer::trace_events(&path(), source, &failed);
    assert_lawful(source, &bad);
    let mut expected = good.clone();
    expected.insert(good.len() - 2, event(EventKind::Error, "miden_vm_error", "boom"));
    assert_eq!(bad, expected);
}

#[test]
fn written_slots_are_shown_from_memory() {
    let source = "proc.a.3\n    loc_store.1\n    loc_store.7\n    loc_store.0 swap\nend\n";
    let at = |op: &str, fmp: u64| {
        let mut s = cycle(source, "#exec::a", op, (1, 1), &[]);
        s.fmp = fmp;
        s.memory = vec![(98, 11), (97, 10), (98, 99)];
        VmEvent::State(s)
    };
    let ops = MidenTracer::trace_events(
        &path(),
        source,
        &vec![at("loc_store.1", 100), at("loc_store.7", 100), at("loc_store.0", 100), at("swap", 2)],
    );
    assert_eq!(values_of(&ops, "local[1]"), vec![11, 11, 11]);
    assert_eq!(values_of(&ops, "local[0]"), vec![10]);
    assert_eq!(values_of(&ops, "local[7]"), Vec::<i64>::new());
}

#[test]
fn slots_are_forgotten_in_another_procedure() {
    let source = "proc.a.1\n    loc_store.0\nend\nproc.b.1\n    swap\nend\n";
    let with_memory = |context: &str, op: &str| {
        let mut s = cycle(source, context, op, (1, 1), &[]);
        s.fmp = 10;
        s.memory = vec![(9, 4)];
        VmEvent::State(s)
    };
    let ops = MidenTracer::trace_events(
        &path(),
        source,
        &vec![with_memory("#exec::a", "loc_store.0"), with_memory("#exec::b", "swap")],
    );
    assert_eq!(values_of(&ops, "local[0]"), vec![4]);
}

#[test]
fn words_and_advice_are_taken_in_the_last_cycle() {
    let source = "begin\n    loc_loadw.0\n    adv_push.2\n    adv_loadw\n    drop\nend\n";
    let main = "#exec::#main";
    let later = |op: &str, c: u8, stack: &[u64]| VmEvent::State(cycle(source, main, op, (c, 3), stack));
    let ops = MidenTracer::trace_events(
        &path(),
        source,
        &vec![
            later("loc_loadw.0", 1, &[0, 0, 0, 0]),
            later("loc_loadw.0", 2, &[9, 9, 9, 9]),
            later("loc_loadw.0", 3, &[4, 3, 2, 1, 0]),
            later("adv_push.2", 1, &[]),
            later("adv_push.2", 3, &[20, u64::MAX, 5]),
            state(source, main, "adv_loadw", &[8, 7, 6, 5]),
            state(source, main, "drop", &[]),
        ],
    );
    let words: Vec<TraceOp> =
        ops.iter().filter(|op| matches!(op, TraceOp::Word { .. })).cloned().collect();
    assert_eq!(words, vec![TraceOp::Word { elements: vec![4, 3, 2, 1] }]);
    assert_eq!(
        contents(&ops, EventKind::Read),
        vec![
            "advice_read kind=adv_loadw count=4 values=[8, 7, 6, 5]",
        ]
    );
}

#[test]
fn advice_read_is_logged_with_the_next_instruction() {
    let source = "begin\n    adv_push.2\n    drop\nend\n";
    let main = "#exec::#main";
    let ops = MidenTracer::trace_events(
        &path(),
        source,
        &vec![
            VmEvent::State(cycle(source, main, "adv_push.2", (1, 2), &[])),
            VmEvent::State(cycle(source, main, "adv_push.2", (2, 2), &[20, u64::MAX, 5])),
            state(source, main, "drop", &[]),
        ],
    );
    assert_eq!(
        ops[ops.len() - 4..],
        [
            step(3),
            event(
                EventKind::Read,
                "advice_read",
                "advice_read kind=adv_push count=2 values=[20, -1]"
            ),
            TraceOp::Return,
            TraceOp::Return,
        ]
    );
}

#[test]
fn program_runs_with_locals() {
    let source = "proc.compute.5\n    push.10 loc_store.0\n    push.32 loc_store.1\n    loc_load.0 loc_load.1 add loc_store.2\n    loc_load.2 dup add loc_store.3\n    loc_load.3 loc_load.0 add loc_store.4\n    loc_load.4\nend\n\nbegin\n    push.1 drop\n    exec.compute\n    drop\nend\n";
    let ops = run(source);
    assert_eq!(functions(&ops), vec!["#exec::compute", "#exec::#main"]);
    assert_eq!(called(&ops), vec!["#exec::#main", "#exec::compute"]);
    assert!(values_of(&ops, "local[0]").contains(&10));
    assert!(values_of(&ops, "local[1]").contains(&32));
    assert!(values_of(&ops, "local[2]").contains(&42));
    assert!(values_of(&ops, "local[3]").contains(&84));
    assert!(values_of(&ops, "stack[0]").contains(&94));
    assert!(step_lines(&ops).contains(&5));
}

#[test]
fn nested_calls_surface_the_whole_chain() {
    let source = "proc.inner.0\n    push.1 push.2 add\nend\n\nproc.middle.0\n    exec.inner\n    push.10 add\nend\n\nproc.outer.0\n    exec.middle\n    push.100 add\nend\n\nproc.compute.0\n    exec.outer\nend\n\nbegin\n    exec.compute\n    drop\nend\n";
    let ops = run(source);
    for name in ["#exec::compute", "#exec::outer", "#exec::middle", "#exec::inner", "#exec::#main"] {
        assert!(functions(&ops).contains(&name.to_string()));
    }
    assert_eq!(
        called(&ops),
        vec!["#exec::compute", "#exec::outer", "#exec::middle", "#exec::inner"]
    );
    assert_eq!(
        closed(&ops),
        vec!["#exec::inner", "#exec::middle", "#exec::outer", "#exec::compute"]
    );
    assert!(values_of(&ops, "stack[0]").contains(&113));
}

#[test]
fn repeat_makes_a_step_for_each_iteration() {
    let source = "begin\n    push.0\n    repeat.4\n        push.5 add\n    end\n    drop\nend\n";
    let ops = run(source);
    assert_eq!(step_lines(&ops).iter().filter(|line| **line == 4).count(), 4);
    assert!(values_of(&ops, "stack[0]").contains(&20));
}

#[test]
fn failed_assertion_is_logged() {
    let source = "proc.boom.0\n    push.0 assert\nend\n\nbegin\n    push.1 drop\n    exec.boom\nend\n";
    let ops = run(source);
    let errors = contents(&ops, EventKind::Error);
    assert_eq!(errors.len(), 1);
    assert!(errors[0].contains("assertion failed"), "{}", errors[0]);
    assert!(called(&ops).contains(&"#exec::boom".to_string()));
}

#[test]
fn failures_at_blocks_are_logged() {
    for body in [
        "push.2 if.true push.1 drop else push.3 drop end",
        "push.2 while.true push.0 end",
        "push.1 while.true push.2 end",
        "push.1 if.true push.2 if.true push.1 end end",
        "repeat.3 push.0 inv end",
        "push.0 assert",
        "push.1 push.2 push.3 push.0 u32div",
        "push.4294967296 push.1 u32wrapping_add",
        "push.4294967296 mem_load",
        "push.3 mem_storew",
        "adv_push.1",
        "push.1 push.2 mtree_get",
        "push.4 push.2 push.0 arithmetic_circuit_eval",
        "push.3 push.2 push.0 arithmetic_circuit_eval",
        "emit.7 push.0 assert",
    ] {
        let ops = run(&format!("begin\n    {body}\nend\n"));
        assert_eq!(contents(&ops, EventKind::Error).len(), 1, "{body}: {ops:?}");
    }
    let called = "proc.f\n    push.1\nend\nbegin\n    call.f\nend\n";
    assert_eq!(contents(&run(called), EventKind::Error).len(), 1);
}

#[test]
fn operand_stack_is_prepared() {
    let source = "# operand_stack: 1, 2, 3\nbegin\n    add\n    swap drop\nend\n";
    let ops = run(source);
    assert_eq!(step_lines(&ops), vec![3, 4]);
    assert_eq!(values_of(&ops, "stack[0]")[0], 5);
    assert_eq!(values_of(&ops, "stack[1]")[0], 1);
    assert_ne!(ops, run("# operand_stack: 1, 3, 3\nbegin\n    add\n    swap drop\nend\n"));
}

#[test]
fn advice_stack_is_read() {
    let source = "# advice_stack: 10, 20, 30, 40, 50\nbegin\n    adv_push.1 drop\n    padw adv_loadw\n    dropw\nend\n";
    let ops = run(source);
    assert_eq!(
        contents(&ops, EventKind::Read),
        vec![
            "advice_read kind=adv_push count=1 values=[10]",
            "advice_read kind=adv_loadw count=4 values=[50, 40, 30, 20]",
        ]
    );
}

#[test]
fn advice_map_is_read() {
    let source = "# operand_stack: 1, 2, 3, 4\n# advice_map: 1 2 3 4 ; 77 78\nbegin\n    adv.push_mapval\n    adv_push.2\n    drop drop\nend\n";
    assert_eq!(
        contents(&run(source), EventKind::Read),
        vec!["advice_read kind=adv_push count=2 values=[78, 77]"]
    );
    let unknown = source.replace("# advice_map: 1 2", "# advice_map: 5 2");
    assert_eq!(contents(&run(&unknown), EventKind::Error).len(), 1);
}

#[test]
fn merkle_trees_are_stored() {
    let leaves = vec![[1, 0, 0, 0], [2, 0, 0, 0], [3, 0, 0, 0], [4, 0, 0, 0]];
    let root = merkle_tree_root_felts(&leaves).unwrap();
    let stack = format!("# operand_stack: {}, {}, {}, {}, 1, 2\n", root[0], root[1], root[2], root[3]);
    let program = "begin\n    mtree_get\n    drop drop drop\nend\n";
    let tree = "# merkle_tree: 1 0 0 0 ; 2 0 0 0 ; 3 0 0 0 ; 4 0 0 0\n";
    let ops = run(&format!("{stack}{tree}{program}"));
    assert!(contents(&ops, EventKind::Error).is_empty());
    assert!(values_of(&ops, "stack[2]").contains(&2));
    let without = run(&format!("{stack}{program}"));
    assert_eq!(contents(&without, EventKind::Error).len(), 1);
}

#[test]
fn kernel_procedures_are_called() {
    let source = "# kernel_module:\n# > export.answer\n# >     push.777 swap drop\n# > end\nbegin\n    push.1\n    syscall.answer\n    drop\nend\n";
    let ops = run(source);
    assert!(contents(&ops, EventKind::Error).is_empty());
    assert!(called(&ops).contains(&"#sys::answer".to_string()), "{:?}", called(&ops));
    assert!(values_of(&ops, "stack[0]").contains(&777));
}

#[test]
fn standard_library_is_at_hand() {
    let source = "use.std::math::u64\n\nbegin\n    push.2.0.3.0\n    exec.u64::wrapping_add\n    drop drop\nend\n";
    let ops = run(source);
    assert!(contents(&ops, EventKind::Error).is_empty());
    assert!(values_of(&ops, "stack[0]").contains(&5));
}

#[test]
fn loaded_words_are_shown() {
    let source = "begin\n    push.1.2.3.4\n    mem_storew.8 dropw\n    padw mem_loadw.8\n    push.9 drop\n    dropw\nend\n";
    let ops = run(source);
    let words: Vec<&TraceOp> =
        ops.iter().filter(|op| matches!(op, TraceOp::Word { .. })).collect();
    assert_eq!(words, vec![&TraceOp::Word { elements: vec![4, 3, 2, 1] }]);
}

#[test]
fn programs_that_do_not_start_are_refused() {
    let bad = refused("begin\n    no_such_instruction\nend\n");
    assert!(bad.starts_with("assembly failed: "), "{bad}");
    let bad = refused("# kernel_module:\n# > nonsense\nbegin\n    push.1 drop\nend\n");
    assert!(bad.starts_with("failed to assemble inline kernel: "), "{bad}");
    let good = "begin\n    push.1 drop\nend\n";
    let many: Vec<String> = (0..17).map(|n| n.to_string()).collect();
    let bad = refused(&format!("# operand_stack: {}\n{good}", many.join(",")));
    assert!(bad.starts_with("invalid `# operand_stack:` declaration: "), "{bad}");
    let bad = refused(&format!("# operand_stack: 0xffffffff00000001\n{good}"));
    assert!(bad.starts_with("invalid `# operand_stack:` declaration: "), "{bad}");
    let bad = refused(&format!("# advice_stack: 1, 0xffffffff00000001\n{good}"));
    assert!(bad.starts_with("invalid `# advice_stack:` declaration: "), "{bad}");
    let sixteen = format!("# operand_stack: {}\n{good}", many[..16].join(","));
    assert!(MidenTracer::trace_program(&path(), &sixteen).is_ok());
}

const UNSOUND: &str = "the source holds a form that the assembler or the VM does not survive";

#[test]
fn sources_that_would_not_be_survived_are_refused() {
    for (consts, body) in [
        ("", " $"),
        ("", "push.1 drop ?"),
        ("", "push.1 : drop"),
        ("", "push.0x drop"),
        ("", "push.0b2 drop"),
        ("const.A=0 const.B=10//A", "push.B drop"),
        ("const.A=5-5 const.B=10//A", "push.B drop"),
        ("const.A=2 const.B=A//0", "push.B drop"),
        ("const.A=2 const.B=10//(A-2)", "push.B drop"),
        ("const.A=2 const.C=A*3-6 const.B=10//C", "push.B drop"),
        ("const.A=\"text\"", "push.A drop"),
        ("const.A=\"text\" const.B=A+1", "push.B drop"),
        ("const.A=\"text\" const.B=1 const.C=\"x\"+B", "push.B drop"),
        ("const.A=(\"text\") const.B=A", "push.1 drop"),
        ("const.A=7", "push.1 assert.err=A"),
        ("", "debug.stack.0"),
        ("const.N=0", "debug.stack.N"),
        ("", "debug.mem"),
        ("", "debug.mem.3.2"),
        ("", "debug.mem.4294967295"),
        ("", "debug.local"),
        ("", "debug.local.2.1"),
        ("", "procref.0x0000000000000000000000000000000000000000000000000000000000000000"),
        ("", "exec.0x0000000000000000000000000000000000000000000000000000000000000000"),
        ("", "call.0x0000000000000000000000000000000000000000000000000000000000000000"),
        ("", "syscall.0x0000000000000000000000000000000000000000000000000000000000000000"),
        ("const.A=6 const.B=10//(A/2-3)", "push.B drop"),
        ("", "padw padw hmerge push.0 push.0 mtree_get"),
        ("", "padw padw hmerge push.0 push.65 mtree_get"),
        ("", "push.0 push.255 mtree_set"),
        ("", "push.0 mtree_set"),
        ("", "push.0 push.0 padw mtree_verify"),
        ("", "push.0 push.65 push.1.2.3.4 mtree_verify"),
        ("", "push.2 push.3 add mtree_get"),
        ("", "push.2 repeat.2 mtree_get end"),
        ("", "push.2 if.true push.2 else push.3 end mtree_get"),
        ("", "push.0x0200000000000000000000000000000000000000000000000000000000000000 mtree_get"),
        ("", "push.65 adv.push_mtnode"),
        ("", "mem_load.0 adv.push_mtnode"),
        ("", "push.4294967296 push.4294967296 push.0 arithmetic_circuit_eval"),
        ("", "push.4 push.4294967296 push.0 arithmetic_circuit_eval"),
        ("", "push.1073741824 push.2 push.0 arithmetic_circuit_eval"),
        ("", "push.18446744069414584320 push.4294967295 adv.push_falcon_div"),
        ("", "push.4294967296.1 adv.push_falcon_div"),
        ("", "emit.361943238"),
        ("const.E=3419226155", "emit.E"),
        ("const.E=1/0", "emit.E"),
        ("", "dynexec"),
        ("", "push.0 dyncall"),
        ("proc.f nop end", "procref.f mem_storew.4 dropw push.8 dynexec"),
        ("proc.f.65533 nop end", "exec.f"),
        ("proc.f.65535 nop end", "exec.f"),
        ("proc.f.1 loc_storew.0 end", "exec.f"),
        ("proc.f.3 padw loc_loadw.0 dropw end", "exec.f"),
        ("proc.f mtree_get end", "push.1 push.0 exec.f"),
        ("proc.f mtree_get end", "push.1 push.2 exec.f swapw exec.f"),
        ("proc.f mtree_get end", "push.2 procref.f dropw exec.f"),
        ("proc.f mtree_get end", "push.2 exec.f exec.\"f\""),
        ("proc.push.4 mtree_get end", "exec.push"),
        ("proc.f push.2 end proc.padw nop end", "push.1 exec.padw mtree_get"),
        ("use.std::crypto::fri::frie2f4", "exec.frie2f4::verify"),
        ("use.std::crypto::stark::verifier", "exec.verifier::verify"),
        ("use.std::crypto::dsa::rpo_falcon512", "exec.rpo_falcon512::mod_12289"),
        ("use.std::crypto::dsa::rpo_falcon512->f", "exec.f::\"mod_12289\""),
    ] {
        let source = format!("{consts}\nbegin\n    {body}\nend\n");
        assert!(!is_sound_source(&source), "{source}");
        assert_eq!(refused(&source), format!("assembly failed: {UNSOUND}"));
        let kernel: String =
            source.lines().map(|line| format!("# > {line}\n")).collect();
        let program = format!("# kernel_module:\n{kernel}begin\n    push.1 drop\nend\n");
        assert_eq!(refused(&program), format!("failed to assemble inline kernel: {UNSOUND}"));
    }
}

#[test]
fn constants_and_debug_instructions_are_taken() {
    for (consts, body, top) in [
        ("const.X=5", "push.X", 5),
        ("const.A=2 const.B=10//A", "push.B", 5),
        ("const.A=2 const.C=A*3-5 const.B=10//C", "push.B", 10),
        ("const.A=0x0a const.B=100//A//2+1", "push.B", 6),
        ("const.A=0-1 const.B=A//A+6", "push.B", 7),
        ("const.A=6 const.B=A/3", "push.B", 2),
        ("const.A=(2+1)*3", "push.A", 9),
        ("const.ERR=\"message\"", "push.4 push.1 assert.err=ERR", 4),
        ("", "push.4 push.1 assert.err=\"a // b\"", 4),
        ("const.N=2", "push.4 debug.stack debug.stack.2 debug.stack.N", 4),
        ("", "push.4 debug.mem.0 debug.mem.1.2", 4),
        ("", "push.4 # 10//0 debug.stack.0 $\n", 4),
        ("", "push.3 push.2 exp.u32 drop push.9", 9),
    ] {
        let source = format!("{consts}\nbegin\n    {body}\n    drop\nend\n");
        assert!(is_sound_source(&source), "{source}");
        let ops = run(&source);
        assert!(contents(&ops, EventKind::Error).is_empty(), "{source}");
        assert!(values_of(&ops, "stack[0]").contains(&top), "{source}: {ops:?}");
    }
}

#[test]
fn known_operands_are_taken() {
    let leaves = vec![[1, 0, 0, 0], [2, 0, 0, 0], [3, 0, 0, 0], [4, 0, 0, 0]];
    let root = merkle_tree_root_felts(&leaves).unwrap();
    let stack = format!("# operand_stack: {}, {}, {}, {}\n", root[0], root[1], root[2], root[3]);
    let tree = "# merkle_tree: 1 0 0 0 ; 2 0 0 0 ; 3 0 0 0 ; 4 0 0 0\n";
    for (head, body, value) in [
        ("", "push.1 push.2 mtree_get swapw dropw swapw dropw", 2),
        ("", "push.1.2 mtree_get swapw dropw swapw dropw", 2),
        ("const.D=(1+1)", "push.1.D mtree_get swapw dropw swapw dropw", 2),
        ("", "push.2 push.1 swap mtree_get swapw dropw swapw dropw", 2),
        ("", "push.2 push.1 push.9 drop swap.1 mtree_get swapw dropw swapw dropw", 2),
        ("", "push.2 push.1 push.9 movup.2 movdn.2 drop swap mtree_get swapw dropw swapw dropw", 2),
        ("proc.get.4\n    mtree_get\nend", "push.2 push.2 exec.get swapw dropw swapw dropw", 3),
        ("proc.get\n    mtree_get drop drop\nend", "push.3 push.2 call.get", 4),
        ("", "push.1 push.2 push.2.0.0.0 mtree_verify dropw drop drop dropw push.6", 6),
        (
            "proc.check\n    mtree_verify.err=\"wrong\"\nend",
            "push.1 push.2 push.2.0.0.0 exec.check dropw drop drop dropw push.6",
            6,
        ),
        ("", "push.0.0.0.7 swapw push.0 push.2 mtree_set dropw dropw push.6", 6),
        ("", "push.1 push.2 adv.push_mtnode drop drop dropw adv_push.4 dropw push.6", 6),
        ("", "dropw push.5 push.1 adv.push_falcon_div drop drop push.6", 6),
    ] {
        let source = format!("{stack}{tree}{head}\nbegin\n    {body}\n    push.8 drop\nend\n");
        assert!(is_sound_source(&source), "{source}");
        let ops = run(&source);
        let errors = contents(&ops, EventKind::Error);
        assert!(errors.is_empty() || errors[0].contains("stack"), "{source}: {errors:?}");
        let seen = (0..4).any(|n| values_of(&ops, &format!("stack[{n}]")).contains(&value));
        assert!(seen, "{source}: {ops:?}");
    }
}

#[test]
fn calls_with_a_known_root_are_taken() {
    let source = "proc.f\n    push.5 drop\nend\nbegin\n    procref.f mem_storew.4 dropw push.4\n    dynexec\n    push.1 drop\nend\n";
    assert!(!is_sound_source(&source.replace("push.4\n", "push.4 nop\n")));
    let ops = run(source);
    assert!(contents(&ops, EventKind::Error).is_empty());
    assert!(called(&ops).contains(&"#exec::f".to_string()), "{:?}", called(&ops));
    let call = source.replace("dynexec", "dyncall");
    assert!(contents(&run(&call), EventKind::Error).is_empty());
}

#[test]
fn locals_events_and_paths_are_taken() {
    for (head, body) in [
        ("proc.f.65532\n    push.1 drop\nend", "exec.f"),
        ("proc.f.4\n    push.1.2.3.4 loc_storew.0 dropw\nend", "exec.f"),
        ("proc.f.1\n    push.1 loc_store.0\nend", "exec.f"),
        ("const.A=10//(1+1) const.B=A//(6/3)", "push.B drop"),
        ("", "push.4 debug.mem.0b1 drop"),
        ("use.std::collections::smt", "push.1 drop"),
        ("use.std::collections::mmr", "push.3 exec.mmr::num_leaves_to_num_peaks drop"),
    ] {
        let source = format!("{head}\nbegin\n    {body}\n    push.8 drop\nend\n");
        assert!(is_sound_source(&source), "{source}");
        let errors = contents(&run(&source), EventKind::Error);
        assert!(errors.is_empty(), "{source}: {errors:?}");
    }
    assert!(is_sound_source("use.std::crypto::dsa::rpo_falcon512\nbegin\n    exec.rpo_falcon512::verify\nend\n"));
    assert!(is_sound_source("begin\n    emit.42\nend\n"));
}

#[test]
fn other_errors_are_left_to_the_assembler() {
    for body in ["push.$", "push.1 \"open", "push.UNKNOWN", "push.1 _a", "frobnicate", "push.0x1"] {
        let source = format!("begin\n    {body}\nend\n");
        assert!(is_sound_source(&source), "{source}");
        let error = refused(&source);
        assert!(error.starts_with("assembly failed: "), "{error}");
        assert!(!error.contains(UNSOUND));
    }
}

#[test]
fn calls_behind_a_block_belong_to_the_body() {
    let source = "proc.a.0\n    push.1 drop\nend\nproc.b.0\n    push.2 drop\nend\nproc.f.0\n    push.1\n    if.true\n        exec.a\n    end\n    exec.b\nend\nbegin\n    push.7 drop\n    exec.f\n    push.8 drop\nend\n";
    let ops = run(source);
    assert!(contents(&ops, EventKind::Error).is_empty());
    for name in ["#exec::a", "#exec::b", "#exec::f"] {
        assert!(called(&ops).contains(&name.to_string()), "{name}: {:?}", called(&ops));
    }
}
