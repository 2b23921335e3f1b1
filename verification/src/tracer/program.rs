//! From the source of a program to its trace: assembly, inputs, execution.

use miden_assembly::Assembler;
use miden_assembly::KernelLibrary;
use miden_core::Program;
use miden_processor::AdviceInputs;
use miden_processor::DefaultHost;
use miden_processor::MemAdviceProvider;
use miden_processor::VmStateIterator;
use std::path::PathBuf;
use vstd::prelude::*;
use vstd::string::StringExecFns;

use crate::path::lossy_text;
use crate::path::path_text;
use crate::tracer::declarations::declared_advice_map;
use crate::tracer::declarations::declared_advice_stack;
use crate::tracer::declarations::declared_kernel;
use crate::tracer::declarations::declared_operand_stack;
use crate::tracer::declarations::declared_trees;
use crate::tracer::declarations::entry_views;
use crate::tracer::declarations::parse_advice_map;
use crate::tracer::declarations::parse_advice_stack;
use crate::tracer::declarations::parse_kernel_module;
use crate::tracer::declarations::parse_merkle_trees;
use crate::tracer::declarations::parse_operand_stack;
use crate::tracer::declarations::tree_views;
use crate::tracer::machine::event_views;
use crate::tracer::machine::MidenTracer;
use crate::tracer::model::op_views;
use crate::tracer::model::trace_of;
use crate::tracer::model::OpView;
use crate::tracer::model::TraceOp;
use crate::tracer::syntax::is_sound_source;
use crate::tracer::syntax::sound_source;
use crate::tracer::syntax::unsound_words;
use crate::tracer::vm::advice_inputs;
use crate::tracer::vm::advice_with_entry;
use crate::tracer::vm::advice_with_stack;
use crate::tracer::vm::advice_with_tree;
use crate::tracer::vm::assemble_kernel;
use crate::tracer::vm::assemble_program;
use crate::tracer::vm::assembled_kernel;
use crate::tracer::vm::assembled_program;
use crate::tracer::vm::assembler_on_kernel;
use crate::tracer::vm::assembler_with_stdlib;
use crate::tracer::vm::execute;
use crate::tracer::vm::executed;
use crate::tracer::vm::host_with_advice;
use crate::tracer::vm::host_with_kernel;
use crate::tracer::vm::host_with_stdlib;
use crate::tracer::vm::initial_stack;
use crate::tracer::vm::load_kernel_forest;
use crate::tracer::vm::load_stdlib;
use crate::tracer::vm::load_stdlib_forest;
use crate::tracer::vm::map_advice;
use crate::tracer::vm::merkle_tree;
use crate::tracer::vm::new_assembler;
use crate::tracer::vm::new_host;
use crate::tracer::vm::new_kernel_assembler;
use crate::tracer::vm::plain_assembler;
use crate::tracer::vm::prepared;
use crate::tracer::vm::remaining;
use crate::tracer::vm::sound_kernel;
use crate::tracer::vm::stack_inputs;
use crate::tracer::vm::store_tree;
use crate::tracer::vm::tree_of;
use crate::tracer::vm::with_text;
use crate::tracer::vm::word_views;
use crate::tracer::vm::VmEvent;
use crate::tracer::vm::VmEventView;
use crate::tracer::vm::MODULUS;

verus! {

/// A result with words before the text of its error.
pub open spec fn explained<T>(words: Seq<char>, r: Result<T, Seq<char>>) -> Result<T, Seq<char>> {
    match r {
        Ok(v) => Ok(v),
        Err(e) => Err(words + e),
    }
}

/// The kernel that a source declares, assembled. It has to be sound.
pub open spec fn kernel_of(source: Seq<char>) -> Result<Option<KernelLibrary>, Seq<char>> {
    match declared_kernel(source) {
        None => Ok(None),
        Some(text) => if !sound_source(text) {
            Err("failed to assemble inline kernel: "@ + unsound_words())
        } else {
            match assembled_kernel(text, true) {
                Ok(kernel) => Ok(Some(kernel)),
                Err(e) => Err("failed to assemble inline kernel: "@ + e),
            }
        },
    }
}

/// The program that an assembler makes of a source. It has to be sound.
pub open spec fn program_of(assembler: Assembler, name: Seq<char>, source: Seq<char>) -> Result<
    Program,
    Seq<char>,
> {
    explained(
        "assembly failed: "@,
        if sound_source(source) {
            assembled_program(assembler, name, source)
        } else {
            Err(unsound_words())
        },
    )
}

/// The assembler, in debug mode, with the standard library and the kernel.
pub open spec fn assembler_of(kernel: Option<KernelLibrary>) -> Result<Assembler, Seq<char>> {
    explained(
        "failed to load miden stdlib: "@,
        assembler_with_stdlib(
            match kernel {
                Some(k) => assembler_on_kernel(k, true),
                None => plain_assembler(true),
            },
        ),
    )
}

/// Advice inputs with more entries in the advice map.
pub open spec fn with_entries(advice: AdviceInputs, entries: Seq<(Seq<u64>, Seq<u64>)>) -> AdviceInputs
    decreases entries.len(),
{
    if entries.len() == 0 {
        advice
    } else {
        advice_with_entry(
            with_entries(advice, entries.drop_last()),
            entries.last().0,
            entries.last().1,
        )
    }
}

/// Advice inputs with more trees in the Merkle store.
pub open spec fn with_trees(advice: AdviceInputs, trees: Seq<Seq<Seq<u64>>>) -> Result<
    AdviceInputs,
    Seq<char>,
>
    decreases trees.len(),
{
    if trees.len() == 0 {
        Ok(advice)
    } else {
        match with_trees(advice, trees.drop_last()) {
            Err(e) => Err(e),
            Ok(earlier) => match tree_of(trees.last()) {
                Ok(tree) => Ok(advice_with_tree(earlier, tree)),
                Err(e) => Err("invalid `# merkle_tree:` declaration: "@ + e),
            },
        }
    }
}

/// The advice inputs that a source declares.
pub open spec fn advice_of(source: Seq<char>) -> Result<AdviceInputs, Seq<char>> {
    match advice_with_stack(declared_advice_stack(source)) {
        Err(e) => Err("invalid `# advice_stack:` declaration: "@ + e),
        Ok(advice) => with_trees(
            with_entries(advice, declared_advice_map(source)),
            declared_trees(source),
        ),
    }
}

/// The host with its advice, the standard library and the kernel.
pub open spec fn host_of(advice: AdviceInputs, kernel: Option<KernelLibrary>) -> Result<
    DefaultHost<MemAdviceProvider>,
    Seq<char>,
> {
    match host_with_stdlib(host_with_advice(advice)) {
        Err(e) => Err("failed to load stdlib MAST forest into host: "@ + e),
        Ok(host) => match kernel {
            None => Ok(host),
            Some(k) => explained(
                "failed to load kernel MAST forest into host: "@,
                host_with_kernel(host, k),
            ),
        },
    }
}

/// What the VM reports of an execution of the program `source`, which has the
/// given name, on the inputs that it declares. The first step that fails gives
/// the error.
pub open spec fn execution_of(name: Seq<char>, source: Seq<char>) -> Result<
    Seq<VmEventView>,
    Seq<char>,
> {
    match kernel_of(source) {
        Err(e) => Err(e),
        Ok(kernel) => match assembler_of(kernel) {
            Err(e) => Err(e),
            Ok(assembler) => match program_of(assembler, name, source) {
                Err(e) => Err(e),
                Ok(program) => match initial_stack(declared_operand_stack(source)) {
                    Err(e) => Err("invalid `# operand_stack:` declaration: "@ + e),
                    Ok(stack) => match advice_of(source) {
                        Err(e) => Err(e),
                        Ok(advice) => match host_of(advice, kernel) {
                            Err(e) => Err(e),
                            Ok(host) => Ok(executed(program, stack, host, assembler)),
                        },
                    },
                },
            },
        },
    }
}

/// All values are canonical field elements.
pub open spec fn all_felts(values: Seq<u64>) -> bool {
    forall|i: int| 0 <= i < values.len() ==> values[i] < MODULUS
}

/// The VM takes the declared stacks: at most sixteen values on the operand
/// stack, and field elements alone.
pub open spec fn stacks_fit(source: Seq<char>) -> bool {
    &&& declared_operand_stack(source).len() <= 16
    &&& all_felts(declared_operand_stack(source))
    &&& all_felts(declared_advice_stack(source))
}

/// The trace of a program that runs, or the error of one that does not get
/// that far.
pub open spec fn program_trace(name: Seq<char>, source: Seq<char>) -> Result<
    Seq<crate::tracer::model::OpView>,
    Seq<char>,
> {
    match execution_of(name, source) {
        Ok(events) => Ok(trace_of(source, events)),
        Err(e) => Err(e),
    }
}

fn explain(words: &str, error: &str) -> (r: String)
    ensures
        r@ == words@ + error@,
{
    let mut message = words.to_owned();
    message.append(error);
    message
}

fn prepare_kernel(source: &str) -> (r: Result<Option<KernelLibrary>, String>)
    ensures
        with_text(r) == kernel_of(source@),
        r matches Ok(kernel) ==> sound_kernel(kernel),
{
    match parse_kernel_module(source) {
        None => Ok(None),
        Some(text) => if !is_sound_source(text.as_str()) {
            Err(
                explain(
                    "failed to assemble inline kernel: ",
                    "the source holds a form that the assembler or the VM does not survive",
                ),
            )
        } else {
            match assemble_kernel(text.as_str(), true) {
                Ok(kernel) => Ok(Some(kernel)),
                Err(e) => Err(explain("failed to assemble inline kernel: ", e.as_str())),
            }
        },
    }
}

fn prepare_program(assembler: &Assembler, name: &str, source: &str) -> (r: Result<Program, String>)
    ensures
        with_text(r) == program_of(*assembler, name@, source@),
        r is Ok ==> sound_source(source@),
{
    if !is_sound_source(source) {
        return Err(
            explain(
                "assembly failed: ",
                "the source holds a form that the assembler or the VM does not survive",
            ),
        );
    }
    match assemble_program(assembler, name, source) {
        Ok(program) => Ok(program),
        Err(e) => Err(explain("assembly failed: ", e.as_str())),
    }
}

fn prepare_assembler(kernel: &Option<KernelLibrary>) -> (r: Result<Assembler, String>)
    ensures
        with_text(r) == assembler_of(*kernel),
{
    let plain = match kernel {
        Some(k) => new_kernel_assembler(k, true),
        None => new_assembler(true),
    };
    match load_stdlib(plain) {
        Ok(assembler) => Ok(assembler),
        Err(e) => Err(explain("failed to load miden stdlib: ", e.as_str())),
    }
}

fn add_entries(advice: AdviceInputs, entries: &Vec<([u64; 4], Vec<u64>)>) -> (r: AdviceInputs)
    ensures
        r == with_entries(advice, entry_views(entries@)),
{
    let ghost all = entry_views(entries@);
    let mut out = advice;
    let mut i: usize = 0;
    assert(all.take(0) =~= seq![]);
    while i < entries.len()
        invariant
            i <= entries.len(),
            all == entry_views(entries@),
            out == with_entries(advice, all.take(i as int)),
        decreases entries.len() - i,
    {
        assert(all.take(i + 1).drop_last() =~= all.take(i as int));
        out = map_advice(out, entries[i].0, &entries[i].1);
        i += 1;
    }
    assert(all.take(i as int) =~= all);
    out
}

proof fn lemma_failed_tree(advice: AdviceInputs, trees: Seq<Seq<Seq<u64>>>, n: int)
    requires
        0 <= n <= trees.len(),
        with_trees(advice, trees.take(n)) is Err,
    ensures
        with_trees(advice, trees) == with_trees(advice, trees.take(n)),
    decreases trees.len(),
{
    if n == trees.len() {
        assert(trees.take(n) =~= trees);
    } else {
        assert(trees.drop_last().take(n) =~= trees.take(n));
        lemma_failed_tree(advice, trees.drop_last(), n);
    }
}

fn add_trees(advice: AdviceInputs, trees: &Vec<Vec<[u64; 4]>>) -> (r: Result<AdviceInputs, String>)
    ensures
        with_text(r) == with_trees(advice, tree_views(trees@)),
{
    let ghost all = tree_views(trees@);
    let mut out = advice;
    let mut i: usize = 0;
    assert(all.take(0) =~= seq![]);
    while i < trees.len()
        invariant
            i <= trees.len(),
            all == tree_views(trees@),
            with_trees(advice, all.take(i as int)) == Ok::<AdviceInputs, Seq<char>>(out),
        decreases trees.len() - i,
    {
        assert(all.take(i + 1).drop_last() =~= all.take(i as int));
        assert(all.take(i + 1).last() == word_views(trees@[i as int]@));
        match merkle_tree(&trees[i]) {
            Ok(tree) => {
                out = store_tree(out, &tree);
            },
            Err(e) => {
                proof {
                    lemma_failed_tree(advice, all, i + 1);
                }
                return Err(explain("invalid `# merkle_tree:` declaration: ", e.as_str()));
            },
        }
        i += 1;
    }
    assert(all.take(i as int) =~= all);
    Ok(out)
}

fn prepare_advice(source: &str) -> (r: Result<AdviceInputs, String>)
    ensures
        with_text(r) == advice_of(source@),
        r is Ok ==> all_felts(declared_advice_stack(source@)),
{
    match advice_inputs(&parse_advice_stack(source)) {
        Err(e) => Err(explain("invalid `# advice_stack:` declaration: ", e.as_str())),
        Ok(advice) => {
            let mapped = add_entries(advice, &parse_advice_map(source));
            add_trees(mapped, &parse_merkle_trees(source))
        },
    }
}

fn prepare_host(advice: AdviceInputs, kernel: &Option<KernelLibrary>) -> (r: Result<
    DefaultHost<MemAdviceProvider>,
    String,
>)
    ensures
        with_text(r) == host_of(advice, *kernel),
{
    match load_stdlib_forest(new_host(advice)) {
        Err(e) => Err(explain("failed to load stdlib MAST forest into host: ", e.as_str())),
        Ok(host) => match kernel {
            None => Ok(host),
            Some(k) => match load_kernel_forest(host, k) {
                Ok(loaded) => Ok(loaded),
                Err(e) => Err(
                    explain("failed to load kernel MAST forest into host: ", e.as_str()),
                ),
            },
        },
    }
}

/// Assembles a program and executes it on the inputs that it declares. A
/// source that the assembler or the VM would not survive is an error.
pub fn start_execution(name: &str, source: &str) -> (r: Result<VmStateIterator, String>)
    ensures
        match r {
            Ok(states) => execution_of(name@, source@) == Ok::<Seq<VmEventView>, Seq<char>>(
                remaining(states),
            ),
            Err(e) => execution_of(name@, source@) == Err::<Seq<VmEventView>, Seq<char>>(e@),
        },
        r is Ok ==> stacks_fit(source@),
{
    let kernel = match prepare_kernel(source) {
        Ok(kernel) => kernel,
        Err(e) => {
            return Err(e);
        },
    };
    let assembler = match prepare_assembler(&kernel) {
        Ok(assembler) => assembler,
        Err(e) => {
            return Err(e);
        },
    };
    let program = match prepare_program(&assembler, name, source) {
        Ok(program) => program,
        Err(e) => {
            return Err(e);
        },
    };
    let stack = match stack_inputs(&parse_operand_stack(source)) {
        Ok(stack) => stack,
        Err(e) => {
            return Err(explain("invalid `# operand_stack:` declaration: ", e.as_str()));
        },
    };
    let advice = match prepare_advice(source) {
        Ok(advice) => advice,
        Err(e) => {
            return Err(e);
        },
    };
    let host = match prepare_host(advice, &kernel) {
        Ok(host) => host,
        Err(e) => {
            return Err(e);
        },
    };
    assert(prepared(kernel, name@, source@, advice, program, host, assembler));
    Ok(execute(&program, stack, host, &assembler))
}

impl MidenTracer {
    /// The trace of an execution of the program `source`, of which the VM
    /// reported `events`.
    pub fn trace_events(path: &PathBuf, source: &str, events: &Vec<VmEvent>) -> (r: Vec<TraceOp>)
        ensures
            op_views(r@) == trace_of(source@, event_views(events@)),
    {
        MidenTracer::new(path, source).process_events(events)
    }

    /// Assembles the program `source_code` in debug mode, executes it, and
    /// gives its trace. An execution that fails is traced up to the failure;
    /// an error is returned only where the program does not start.
    pub fn trace_program(source_path: &PathBuf, source_code: &str) -> (r: Result<
        Vec<TraceOp>,
        String,
    >)
        ensures
            match r {
                Ok(ops) => program_trace(path_text(*source_path), source_code@) == Ok::<
                    Seq<crate::tracer::model::OpView>,
                    Seq<char>,
                >(op_views(ops@)),
                Err(e) => program_trace(path_text(*source_path), source_code@) == Err::<
                    Seq<crate::tracer::model::OpView>,
                    Seq<char>,
                >(e@),
            },
            r is Ok ==> stacks_fit(source_code@),
    {
        let name = lossy_text(source_path);
        match start_execution(name.as_str(), source_code) {
            Ok(states) => Ok(MidenTracer::new(source_path, source_code).process_vm_states(states)),
            Err(e) => Err(e),
        }
    }
}

} // verus!
