//! The Miden VM as the tracer sees it: its states as plain values, and the
//! calls that assemble and execute a program.

use miden_assembly::diagnostics::NamedSource;
use miden_assembly::Assembler;
use miden_assembly::DefaultSourceManager;
use miden_assembly::KernelLibrary;
use miden_core::crypto::hash::RpoDigest;
use miden_core::crypto::merkle::MerkleTree;
use miden_core::Felt;
use miden_core::Program;
use miden_core::StackInputs;
use miden_processor::execute_iter;
use miden_processor::AdviceInputs;
use miden_processor::DefaultHost;
use miden_processor::MemAdviceProvider;
use miden_processor::VmStateIterator;
use miden_stdlib::StdLibrary;
use std::sync::Arc;
use vstd::prelude::*;

use crate::tracer::declarations::declared_operand_stack;
use crate::tracer::syntax::sound_source;

verus! {

/// The assembly instruction that a VM state belongs to.
pub struct AsmOp {
    /// The instruction as it is written, such as `push.10`.
    pub op: String,
    /// The procedure that holds it, such as `#exec::compute`.
    pub context_name: String,
    /// How many cycles it takes.
    pub num_cycles: u8,
    /// Which of them this state shows, counted from one.
    pub cycle_idx: u8,
    /// Where it begins in the source, in bytes.
    pub start: Option<u32>,
}

/// One VM state: the frame pointer, the operand stack from its top down, the
/// memory cells in use, and the instruction in progress where one is known.
pub struct VmStep {
    pub asmop: Option<AsmOp>,
    pub fmp: u64,
    pub stack: Vec<u64>,
    pub memory: Vec<(u32, u64)>,
}

/// What the VM reports at one clock cycle: the state it reached, or the error
/// that ended the execution.
pub enum VmEvent {
    State(VmStep),
    Failed(String),
}

/// What an [`AsmOp`] holds.
pub struct AsmOpView {
    pub op: Seq<char>,
    pub context_name: Seq<char>,
    pub num_cycles: u8,
    pub cycle_idx: u8,
    pub start: Option<u32>,
}

/// What a [`VmStep`] holds.
pub struct VmStepView {
    pub asmop: Option<AsmOpView>,
    pub fmp: u64,
    pub stack: Seq<u64>,
    pub memory: Seq<(u32, u64)>,
}

/// What a [`VmEvent`] holds.
pub enum VmEventView {
    State(VmStepView),
    Failed(Seq<char>),
}

impl View for AsmOp {
    type V = AsmOpView;

    open spec fn view(&self) -> AsmOpView {
        AsmOpView {
            op: self.op@,
            context_name: self.context_name@,
            num_cycles: self.num_cycles,
            cycle_idx: self.cycle_idx,
            start: self.start,
        }
    }
}

impl View for VmStep {
    type V = VmStepView;

    open spec fn view(&self) -> VmStepView {
        VmStepView {
            asmop: match self.asmop {
                Some(a) => Some(a@),
                None => None,
            },
            fmp: self.fmp,
            stack: self.stack@,
            memory: self.memory@,
        }
    }
}

impl View for VmEvent {
    type V = VmEventView;

    open spec fn view(&self) -> VmEventView {
        match self {
            VmEvent::State(s) => VmEventView::State(s@),
            VmEvent::Failed(m) => VmEventView::Failed(m@),
        }
    }
}

/// The assembler, with its libraries and its source manager.
#[verifier::external_type_specification]
#[verifier::external_body]
pub struct ExAssembler(miden_assembly::Assembler);

/// An assembled kernel.
#[verifier::external_type_specification]
#[verifier::external_body]
pub struct ExKernelLibrary(miden_assembly::KernelLibrary);

/// An assembled program.
#[verifier::external_type_specification]
#[verifier::external_body]
pub struct ExProgram(miden_core::Program);

/// The initial operand stack.
#[verifier::external_type_specification]
#[verifier::external_body]
pub struct ExStackInputs(miden_core::StackInputs);

/// The advice stack, the advice map and the Merkle store.
#[verifier::external_type_specification]
#[verifier::external_body]
pub struct ExAdviceInputs(miden_processor::AdviceInputs);

/// A balanced Merkle tree.
#[verifier::external_type_specification]
#[verifier::external_body]
pub struct ExMerkleTree(miden_core::crypto::merkle::MerkleTree);

/// The advice provider of a host.
#[verifier::external_type_specification]
#[verifier::external_body]
pub struct ExMemAdviceProvider(miden_processor::MemAdviceProvider);

/// The host that a program runs against.
#[verifier::external_type_specification]
#[verifier::external_body]
#[verifier::reject_recursive_types(A)]
pub struct ExDefaultHost<A>(miden_processor::DefaultHost<A>);

/// The states of an execution, handed out one by one.
#[verifier::external_type_specification]
#[verifier::external_body]
pub struct ExVmStateIterator(miden_processor::VmStateIterator);

/// One state as the iterator hands it out.
#[verifier::external_type_specification]
#[verifier::external_body]
pub struct ExVmState(miden_processor::VmState);

/// Why an execution ended early.
#[verifier::external_type_specification]
#[verifier::external_body]
pub struct ExExecutionError(miden_processor::ExecutionError);

/// A field element.
#[verifier::external_type_specification]
#[verifier::external_body]
pub struct ExFelt(miden_core::Felt);

/// The order of the VM's field.
pub const MODULUS: u64 = 0xffff_ffff_0000_0001;

/// `n` is a power of two.
pub open spec fn power_of_two(n: nat) -> bool
    decreases n,
{
    n == 1 || (n > 1 && n % 2 == 0 && power_of_two(n / 2))
}

/// A result whose error is taken by its text.
pub open spec fn with_text<T>(r: Result<T, String>) -> Result<T, Seq<char>> {
    match r {
        Ok(v) => Ok(v),
        Err(e) => Err(e@),
    }
}

/// What the words of a list hold.
pub open spec fn word_views(v: Seq<[u64; 4]>) -> Seq<Seq<u64>> {
    v.map_values(|w: [u64; 4]| w@)
}

/// The kernel that the assembler makes of a module's source.
pub uninterp spec fn assembled_kernel(source: Seq<char>, debug: bool) -> Result<
    KernelLibrary,
    Seq<char>,
>;

/// The assembler without a kernel.
pub uninterp spec fn plain_assembler(debug: bool) -> Assembler;

/// The assembler that resolves system calls in a kernel.
pub uninterp spec fn assembler_on_kernel(kernel: KernelLibrary, debug: bool) -> Assembler;

/// An assembler with the standard library added.
pub uninterp spec fn assembler_with_stdlib(assembler: Assembler) -> Result<Assembler, Seq<char>>;

/// The program that an assembler makes of a named source.
pub uninterp spec fn assembled_program(
    assembler: Assembler,
    name: Seq<char>,
    text: Seq<char>,
) -> Result<Program, Seq<char>>;

/// The operand stack with the given values, the last of them on top.
pub uninterp spec fn initial_stack(values: Seq<u64>) -> Result<StackInputs, Seq<char>>;

/// Advice inputs with the given advice stack, its first value popped first.
pub uninterp spec fn advice_with_stack(values: Seq<u64>) -> Result<AdviceInputs, Seq<char>>;

/// Advice inputs with one more entry in the advice map.
pub uninterp spec fn advice_with_entry(
    advice: AdviceInputs,
    key: Seq<u64>,
    values: Seq<u64>,
) -> AdviceInputs;

/// The Merkle tree over the given leaves.
pub uninterp spec fn tree_of(leaves: Seq<Seq<u64>>) -> Result<MerkleTree, Seq<char>>;

/// The root of a Merkle tree.
pub uninterp spec fn root_of(tree: MerkleTree) -> Seq<u64>;

/// Advice inputs with the inner nodes of one more tree in the Merkle store.
pub uninterp spec fn advice_with_tree(advice: AdviceInputs, tree: MerkleTree) -> AdviceInputs;

/// The host that provides the given advice.
pub uninterp spec fn host_with_advice(advice: AdviceInputs) -> DefaultHost<MemAdviceProvider>;

/// A host with the standard library's procedures loaded.
pub uninterp spec fn host_with_stdlib(host: DefaultHost<MemAdviceProvider>) -> Result<
    DefaultHost<MemAdviceProvider>,
    Seq<char>,
>;

/// A host with a kernel's procedures loaded.
pub uninterp spec fn host_with_kernel(
    host: DefaultHost<MemAdviceProvider>,
    kernel: KernelLibrary,
) -> Result<DefaultHost<MemAdviceProvider>, Seq<char>>;

/// A kernel that was assembled, in debug mode, from a sound source.
pub open spec fn sound_kernel(kernel: Option<KernelLibrary>) -> bool {
    kernel matches Some(k) ==> exists|source: Seq<char>| #[trigger]
        assembled_kernel(source, true) == Ok::<KernelLibrary, Seq<char>>(k) && sound_source(source)
}

/// The program was assembled from `text`, with the standard library and the
/// kernel, and the host holds both of these beside its advice.
pub open spec fn prepared(
    kernel: Option<KernelLibrary>,
    name: Seq<char>,
    text: Seq<char>,
    advice: AdviceInputs,
    program: Program,
    host: DefaultHost<MemAdviceProvider>,
    assembler: Assembler,
) -> bool {
    &&& assembler_with_stdlib(
        match kernel {
            Some(k) => assembler_on_kernel(k, true),
            None => plain_assembler(true),
        },
    ) == Ok::<Assembler, Seq<char>>(assembler)
    &&& assembled_program(assembler, name, text) == Ok::<Program, Seq<char>>(program)
    &&& match host_with_stdlib(host_with_advice(advice)) {
        Ok(h) => match kernel {
            Some(k) => host_with_kernel(h, k) == Ok::<DefaultHost<MemAdviceProvider>, Seq<char>>(
                host,
            ),
            None => h == host,
        },
        Err(_) => false,
    }
}

/// What the VM reports of an execution, cycle by cycle.
pub uninterp spec fn executed(
    program: Program,
    stack: StackInputs,
    host: DefaultHost<MemAdviceProvider>,
    assembler: Assembler,
) -> Seq<VmEventView>;

/// What an iterator has still to hand out.
pub uninterp spec fn remaining(states: VmStateIterator) -> Seq<VmEventView>;

/// `Felt::new` and `Felt::as_int` of `miden_core`: a number becomes a field
/// element, whose canonical value is the number modulo the field's order.
#[verifier::external_body]
pub(crate) fn canonical(value: u64) -> (r: u64)
    ensures
        r == value % MODULUS,
{
    Felt::new(value).as_int()
}

/// The division of `Felt` of `miden_core`, on canonical values: what it gives,
/// multiplied by the divisor, is the dividend in the field.
#[verifier::external_body]
pub(crate) fn divide(a: u64, b: u64) -> (r: u64)
    requires
        a < MODULUS,
        0 < b < MODULUS,
    ensures
        r < MODULUS,
        (r as nat * b as nat) % (MODULUS as nat) == a as nat,
{
    (Felt::new(a) / Felt::new(b)).as_int()
}

/// `Assembler::assemble_kernel` of `miden_assembly`, on a fresh assembler: the
/// kernel or the error's text is a function of the source and the debug mode.
/// The source is sound: on others the assembler may panic. A source that is
/// nested or repeated without measure can still exhaust the memory.
#[verifier::external_body]
pub(crate) fn assemble_kernel(source: &str, debug: bool) -> (r: Result<KernelLibrary, String>)
    requires
        sound_source(source@),
    ensures
        with_text(r) == assembled_kernel(source@, debug),
{
    Assembler::new(Arc::new(DefaultSourceManager::default()))
        .with_debug_mode(debug)
        .assemble_kernel(source)
        .map_err(|e| e.to_string())
}

/// `Assembler::default` of `miden_assembly`, in the given debug mode.
#[verifier::external_body]
pub(crate) fn new_assembler(debug: bool) -> (r: Assembler)
    ensures
        r == plain_assembler(debug),
{
    Assembler::default().with_debug_mode(debug)
}

/// `Assembler::with_kernel` of `miden_assembly`, in the given debug mode, with
/// a source manager of its own.
#[verifier::external_body]
pub(crate) fn new_kernel_assembler(kernel: &KernelLibrary, debug: bool) -> (r: Assembler)
    ensures
        r == assembler_on_kernel(*kernel, debug),
{
    Assembler::with_kernel(Arc::new(DefaultSourceManager::default()), kernel.clone())
        .with_debug_mode(debug)
}

/// `Assembler::with_library` of `miden_assembly` with the library that
/// `StdLibrary::default` of `miden_stdlib` gives.
#[verifier::external_body]
pub(crate) fn load_stdlib(assembler: Assembler) -> (r: Result<Assembler, String>)
    ensures
        with_text(r) == assembler_with_stdlib(assembler),
{
    assembler.with_library(StdLibrary::default()).map_err(|e| e.to_string())
}

/// `Assembler::assemble_program` of `miden_assembly`, on a source that is
/// known to its source manager by `name`. The source is sound: on others the
/// assembler may panic. A source that is nested or repeated without measure can
/// still exhaust the memory.
#[verifier::external_body]
pub(crate) fn assemble_program(assembler: &Assembler, name: &str, text: &str) -> (r: Result<
    Program,
    String,
>)
    requires
        sound_source(text@),
    ensures
        with_text(r) == assembled_program(*assembler, name@, text@),
{
    assembler.clone()
        .assemble_program(NamedSource::new(name, text.to_string()))
        .map_err(|e| e.to_string())
}

/// `StackInputs::try_from_ints` of `miden_core`: it succeeds exactly on at
/// most sixteen values that all lie below the field's order.
#[verifier::external_body]
pub(crate) fn stack_inputs(values: &Vec<u64>) -> (r: Result<StackInputs, String>)
    ensures
        with_text(r) == initial_stack(values@),
        r is Ok == (values@.len() <= 16 && forall|i: int|
            0 <= i < values@.len() ==> values@[i] < MODULUS),
{
    StackInputs::try_from_ints(values.iter().copied()).map_err(|e| e.to_string())
}

/// `AdviceInputs::with_stack_values` of `miden_processor`, on empty inputs: it
/// succeeds exactly on values that all lie below the field's order.
#[verifier::external_body]
pub(crate) fn advice_inputs(values: &Vec<u64>) -> (r: Result<AdviceInputs, String>)
    ensures
        with_text(r) == advice_with_stack(values@),
        r is Ok == (forall|i: int| 0 <= i < values@.len() ==> values@[i] < MODULUS),
{
    AdviceInputs::default().with_stack_values(values.iter().copied()).map_err(|e| e.to_string())
}

/// `AdviceInputs::extend_map` of `miden_processor` with one entry, whose key
/// is the digest of four elements.
#[verifier::external_body]
pub(crate) fn map_advice(advice: AdviceInputs, key: [u64; 4], values: &Vec<u64>) -> (r:
    AdviceInputs)
    ensures
        r == advice_with_entry(advice, key@, values@),
{
    let mut extended = advice;
    let felts: Vec<Felt> = values.iter().map(|v| Felt::new(*v)).collect();
    extended.extend_map([(RpoDigest::new(key.map(Felt::new)), felts)]);
    extended
}

/// `MerkleTree::new` of `miden_core`: it succeeds exactly where the number of
/// leaves is a power of two other than one.
#[verifier::external_body]
pub(crate) fn merkle_tree(leaves: &Vec<[u64; 4]>) -> (r: Result<MerkleTree, String>)
    ensures
        with_text(r) == tree_of(word_views(leaves@)),
        r is Ok == (leaves@.len() >= 2 && power_of_two(leaves@.len())),
{
    let words: Vec<[Felt; 4]> = leaves.iter().map(|l| l.map(Felt::new)).collect();
    MerkleTree::new(words).map_err(|e| e.to_string())
}

/// `MerkleTree::root` of `miden_core`, as the canonical values of its four
/// elements.
#[verifier::external_body]
pub(crate) fn merkle_root(tree: &MerkleTree) -> (r: [u64; 4])
    ensures
        r@ == root_of(*tree),
{
    let root: [Felt; 4] = tree.root().into();
    root.map(|e| e.as_int())
}

/// `AdviceInputs::extend_merkle_store` of `miden_processor` with what
/// `MerkleTree::inner_nodes` of `miden_core` gives.
#[verifier::external_body]
pub(crate) fn store_tree(advice: AdviceInputs, tree: &MerkleTree) -> (r: AdviceInputs)
    ensures
        r == advice_with_tree(advice, *tree),
{
    let mut extended = advice;
    extended.extend_merkle_store(tree.inner_nodes());
    extended
}

/// `DefaultHost::new` of `miden_processor`, on an advice provider made from
/// the advice inputs.
#[verifier::external_body]
pub(crate) fn new_host(advice: AdviceInputs) -> (r: DefaultHost<MemAdviceProvider>)
    ensures
        r == host_with_advice(advice),
{
    DefaultHost::new(MemAdviceProvider::from(advice))
}

/// `DefaultHost::load_mast_forest` of `miden_processor` with the forest of
/// `StdLibrary::default` of `miden_stdlib`.
#[verifier::external_body]
pub(crate) fn load_stdlib_forest(host: DefaultHost<MemAdviceProvider>) -> (r: Result<
    DefaultHost<MemAdviceProvider>,
    String,
>)
    ensures
        with_text(r) == host_with_stdlib(host),
{
    let mut loaded = host;
    loaded
        .load_mast_forest(StdLibrary::default().mast_forest().clone())
        .map(|_| loaded)
        .map_err(|e| e.to_string())
}

/// `DefaultHost::load_mast_forest` of `miden_processor` with the forest of a
/// kernel.
#[verifier::external_body]
pub(crate) fn load_kernel_forest(
    host: DefaultHost<MemAdviceProvider>,
    kernel: &KernelLibrary,
) -> (r: Result<DefaultHost<MemAdviceProvider>, String>)
    ensures
        with_text(r) == host_with_kernel(host, *kernel),
{
    let mut loaded = host;
    loaded.load_mast_forest(kernel.mast_forest().clone()).map(|_| loaded).map_err(|e| e.to_string())
}

/// `execute_iter` of `miden_processor`: the program runs to its end or to an
/// error, and the iterator holds what the VM reports of that. The program and
/// the kernel come from sound sources, the stack is the one that the program's
/// source declares, and nothing else is loaded: the VM may panic on others. How
/// long a program runs, and what it asks of the memory, is not bounded here.
/// Calls and blocks are carried out by recursion, so that a program that nests
/// them without measure exhausts the native stack; so would a procedure that
/// reaches itself by `dynexec`, but a sound source holds none. What a `debug`
/// instruction prints has to be taken by the standard output.
#[verifier::external_body]
pub(crate) fn execute(
    program: &Program,
    stack: StackInputs,
    host: DefaultHost<MemAdviceProvider>,
    assembler: &Assembler,
) -> (r: VmStateIterator)
    requires
        exists|
            kernel: Option<KernelLibrary>,
            name: Seq<char>,
            text: Seq<char>,
            advice: AdviceInputs,
        | #[trigger]
            prepared(kernel, name, text, advice, *program, host, *assembler) && sound_source(text)
                && sound_kernel(kernel) && initial_stack(declared_operand_stack(text)) == Ok::<
                StackInputs,
                Seq<char>,
            >(stack),
    ensures
        remaining(r) == executed(*program, stack, host, *assembler),
{
    let mut host = host;
    execute_iter(program, stack, &mut host, assembler.source_manager())
}

/// `VmStateIterator::next` of `miden_processor`: it hands out the first of
/// what remains, and nothing more once nothing remains. A state is taken over
/// field by field, an error by its text.
#[verifier::external_body]
pub(crate) fn next_event(states: &mut VmStateIterator) -> (r: Option<VmEvent>)
    ensures
        r is Some == (remaining(*old(states)).len() > 0),
        r matches Some(event) ==> event@ == remaining(*old(states))[0] && remaining(*final(states))
            == remaining(*old(states)).drop_first(),
        r is None ==> remaining(*final(states)) == remaining(*old(states)),
{
    states.next().map(|event| match event {
        Err(e) => VmEvent::Failed(e.to_string()),
        Ok(s) => VmEvent::State(VmStep {
            asmop: s.asmop.map(|a| AsmOp {
                op: a.op().to_string(),
                context_name: a.context_name().to_string(),
                num_cycles: a.num_cycles(),
                cycle_idx: a.cycle_idx(),
                start: a.as_ref().location().map(|l| l.start.to_u32()) }),
            fmp: s.fmp.as_int(),
            stack: s.stack.iter().map(Felt::as_int).collect(),
            memory: s.memory.iter().map(|(a, f)| (u32::from(*a), f.as_int())).collect() }),
    })
}

} // verus!
