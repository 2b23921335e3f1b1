//! What an execution starts from: every declared input, each in its place.

use miden_assembly::Assembler;
use miden_assembly::KernelLibrary;
use miden_core::Program;
use miden_core::StackInputs;
use miden_processor::AdviceInputs;
use miden_processor::DefaultHost;
use miden_processor::MemAdviceProvider;
use vstd::prelude::*;

use crate::tracer::declarations::declared_advice_map;
use crate::tracer::declarations::declared_advice_stack;
use crate::tracer::declarations::declared_kernel;
use crate::tracer::declarations::declared_operand_stack;
use crate::tracer::declarations::declared_trees;
use crate::tracer::model::trace_of;
use crate::tracer::program::advice_of;
use crate::tracer::program::execution_of;
use crate::tracer::program::program_trace;
use crate::tracer::program::with_entries;
use crate::tracer::program::with_trees;
use crate::tracer::syntax::sound_source;
use crate::tracer::syntax::unsound_words;
use crate::tracer::vm::advice_with_entry;
use crate::tracer::vm::advice_with_stack;
use crate::tracer::vm::advice_with_tree;
use crate::tracer::vm::assembled_kernel;
use crate::tracer::vm::assembled_program;
use crate::tracer::vm::assembler_on_kernel;
use crate::tracer::vm::assembler_with_stdlib;
use crate::tracer::vm::executed;
use crate::tracer::vm::initial_stack;
use crate::tracer::vm::plain_assembler;
use crate::tracer::vm::prepared;
use crate::tracer::vm::tree_of;
use crate::tracer::vm::VmEventView;

verus! {

/// Each advice of the row holds one entry more than the one before it: the
/// first entry of the list, then the second, and so on.
pub open spec fn enters_each(
    row: Seq<AdviceInputs>,
    entries: Seq<(Seq<u64>, Seq<u64>)>,
) -> bool {
    &&& row.len() == entries.len() + 1
    &&& forall|i: int|
        0 <= i < entries.len() ==> #[trigger] row[i + 1] == advice_with_entry(
            row[i],
            entries[i].0,
            entries[i].1,
        )
}

/// Each advice of the row holds one tree more than the one before it.
pub open spec fn stores_each(row: Seq<AdviceInputs>, trees: Seq<Seq<Seq<u64>>>) -> bool {
    &&& row.len() == trees.len() + 1
    &&& forall|i: int|
        0 <= i < trees.len() ==> (#[trigger] row[i + 1]) == advice_with_tree(
            row[i],
            tree_of(trees[i])->Ok_0,
        ) && tree_of(trees[i]) is Ok
}

/// One more entry at the end of the list is one more entry of the advice, and
/// no entry leaves the advice as it is. So no entry of a list is without
/// effect.
pub proof fn lemma_entry_more(
    advice: AdviceInputs,
    entries: Seq<(Seq<u64>, Seq<u64>)>,
    key: Seq<u64>,
    values: Seq<u64>,
)
    ensures
        with_entries(advice, Seq::empty()) == advice,
        with_entries(advice, entries.push((key, values))) == advice_with_entry(
            with_entries(advice, entries),
            key,
            values,
        ),
{
    assert(entries.push((key, values)).drop_last() =~= entries);
}

/// Two lists of entries one after the other are one list.
pub proof fn lemma_entries_joined(
    advice: AdviceInputs,
    first: Seq<(Seq<u64>, Seq<u64>)>,
    second: Seq<(Seq<u64>, Seq<u64>)>,
)
    ensures
        with_entries(advice, first + second) == with_entries(with_entries(advice, first), second),
    decreases second.len(),
{
    if second.len() == 0 {
        assert(first + second =~= first);
    } else {
        assert((first + second).drop_last() =~= first + second.drop_last());
        lemma_entries_joined(advice, first, second.drop_last());
    }
}

/// One more tree at the end of the list is one more tree of the advice, where
/// it is one and those before it are.
pub proof fn lemma_tree_more(
    advice: AdviceInputs,
    trees: Seq<Seq<Seq<u64>>>,
    leaves: Seq<Seq<u64>>,
)
    ensures
        with_trees(advice, Seq::empty()) == Ok::<AdviceInputs, Seq<char>>(advice),
        with_trees(advice, trees.push(leaves)) is Ok <==> with_trees(advice, trees) is Ok
            && tree_of(leaves) is Ok,
        with_trees(advice, trees.push(leaves)) is Ok ==> with_trees(advice, trees.push(leaves))->Ok_0
            == advice_with_tree(with_trees(advice, trees)->Ok_0, tree_of(leaves)->Ok_0),
{
    assert(trees.push(leaves).drop_last() =~= trees);
}

proof fn lemma_row_of_entries(
    row: Seq<AdviceInputs>,
    entries: Seq<(Seq<u64>, Seq<u64>)>,
)
    requires
        enters_each(row, entries),
    ensures
        row.last() == with_entries(row[0], entries),
    decreases entries.len(),
{
    if entries.len() > 0 {
        let n = entries.len() - 1;
        let less = row.drop_last();
        assert forall|i: int| 0 <= i < entries.drop_last().len() implies #[trigger] less[i + 1]
            == advice_with_entry(less[i], entries.drop_last()[i].0, entries.drop_last()[i].1) by {
            assert(row[i + 1] == advice_with_entry(row[i], entries[i].0, entries[i].1));
        }
        lemma_row_of_entries(less, entries.drop_last());
        assert(row[n + 1] == advice_with_entry(row[n], entries[n].0, entries[n].1));
    }
}

proof fn lemma_row_of_trees(row: Seq<AdviceInputs>, trees: Seq<Seq<Seq<u64>>>)
    requires
        stores_each(row, trees),
    ensures
        with_trees(row[0], trees) == Ok::<AdviceInputs, Seq<char>>(row.last()),
    decreases trees.len(),
{
    if trees.len() > 0 {
        let n = trees.len() - 1;
        let less = row.drop_last();
        assert forall|i: int| 0 <= i < trees.drop_last().len() implies (#[trigger] less[i + 1])
            == advice_with_tree(less[i], tree_of(trees.drop_last()[i])->Ok_0) && tree_of(
            trees.drop_last()[i],
        ) is Ok by {
            assert(row[i + 1] == advice_with_tree(row[i], tree_of(trees[i])->Ok_0));
        }
        lemma_row_of_trees(less, trees.drop_last());
        assert(row[n + 1] == advice_with_tree(row[n], tree_of(trees[n])->Ok_0));
    }
}

/// The advice after each entry of a list.
proof fn lemma_entries_row(
    advice: AdviceInputs,
    entries: Seq<(Seq<u64>, Seq<u64>)>,
) -> (row: Seq<AdviceInputs>)
    ensures
        enters_each(row, entries),
        row[0] == advice,
    decreases entries.len(),
{
    if entries.len() == 0 {
        seq![advice]
    } else {
        let less = lemma_entries_row(advice, entries.drop_last());
        let row = less.push(advice_with_entry(less.last(), entries.last().0, entries.last().1));
        assert forall|i: int| 0 <= i < entries.len() implies #[trigger] row[i + 1]
            == advice_with_entry(row[i], entries[i].0, entries[i].1) by {
            if i < entries.len() - 1 {
                assert(less[i + 1] == advice_with_entry(
                    less[i],
                    entries.drop_last()[i].0,
                    entries.drop_last()[i].1,
                ));
            }
        }
        row
    }
}

/// The advice after each tree of a list.
proof fn lemma_trees_row(advice: AdviceInputs, trees: Seq<Seq<Seq<u64>>>) -> (row: Seq<
    AdviceInputs,
>)
    requires
        with_trees(advice, trees) is Ok,
    ensures
        stores_each(row, trees),
        row[0] == advice,
    decreases trees.len(),
{
    if trees.len() == 0 {
        seq![advice]
    } else {
        let less = lemma_trees_row(advice, trees.drop_last());
        let row = less.push(advice_with_tree(less.last(), tree_of(trees.last())->Ok_0));
        assert forall|i: int| 0 <= i < trees.len() implies (#[trigger] row[i + 1]) == advice_with_tree(
            row[i],
            tree_of(trees[i])->Ok_0,
        ) && tree_of(trees[i]) is Ok by {
            if i < trees.len() - 1 {
                assert(less[i + 1] == advice_with_tree(
                    less[i],
                    tree_of(trees.drop_last()[i])->Ok_0,
                ));
                assert(trees.drop_last()[i] == trees[i]);
            }
        }
        row
    }
}

/// What an execution starts from: the kernel of the source, where it declares
/// one, the assembled program, the declared operand stack, and a host with the
/// advice that has the declared advice stack, then every declared entry of the
/// advice map, then every declared tree.
pub struct Start {
    pub kernel: Option<KernelLibrary>,
    pub assembler: Assembler,
    pub program: Program,
    pub stack: StackInputs,
    pub host: DefaultHost<MemAdviceProvider>,
    /// The advice after each entry of the advice map.
    pub entries: Seq<AdviceInputs>,
    /// The advice after each tree.
    pub trees: Seq<AdviceInputs>,
}

/// The execution of a source starts from it.
pub open spec fn starts(name: Seq<char>, source: Seq<char>, start: Start) -> bool {
    &&& sound_source(source)
    &&& match declared_kernel(source) {
        None => start.kernel is None,
        Some(text) => {
            &&& sound_source(text)
            &&& start.kernel is Some
            &&& assembled_kernel(text, true) == Ok::<KernelLibrary, Seq<char>>(start.kernel->0)
        },
    }
    &&& initial_stack(declared_operand_stack(source)) == Ok::<StackInputs, Seq<char>>(start.stack)
    &&& start.entries.len() > 0
    &&& start.trees.len() > 0
    &&& advice_with_stack(declared_advice_stack(source)) == Ok::<AdviceInputs, Seq<char>>(
        start.entries[0],
    )
    &&& enters_each(start.entries, declared_advice_map(source))
    &&& start.trees[0] == start.entries.last()
    &&& stores_each(start.trees, declared_trees(source))
    &&& prepared(
        start.kernel,
        name,
        source,
        start.trees.last(),
        start.program,
        start.host,
        start.assembler,
    )
}

/// A source whose inputs can all be prepared is executed on them, and traced.
pub proof fn lemma_execution_starts(name: Seq<char>, source: Seq<char>, start: Start)
    requires
        starts(name, source, start),
    ensures
        execution_of(name, source) == Ok::<_, Seq<char>>(
            executed(start.program, start.stack, start.host, start.assembler),
        ),
        program_trace(name, source) == Ok::<_, Seq<char>>(
            trace_of(
                source,
                executed(start.program, start.stack, start.host, start.assembler),
            ),
        ),
{
    lemma_row_of_entries(start.entries, declared_advice_map(source));
    lemma_row_of_trees(start.trees, declared_trees(source));
    assert(advice_of(source) == Ok::<AdviceInputs, Seq<char>>(start.trees.last()));
}

/// An execution has all the inputs that its source declares, and no others.
pub proof fn lemma_execution_started(name: Seq<char>, source: Seq<char>) -> (start: Start)
    requires
        execution_of(name, source) is Ok,
    ensures
        starts(name, source, start),
        execution_of(name, source)->Ok_0 == executed(
            start.program,
            start.stack,
            start.host,
            start.assembler,
        ),
{
    let kernel = crate::tracer::program::kernel_of(source)->Ok_0;
    let assembler = crate::tracer::program::assembler_of(kernel)->Ok_0;
    let program = crate::tracer::program::program_of(assembler, name, source)->Ok_0;
    let stack = initial_stack(declared_operand_stack(source))->Ok_0;
    let advice = advice_of(source)->Ok_0;
    let host = crate::tracer::program::host_of(advice, kernel)->Ok_0;
    let first = advice_with_stack(declared_advice_stack(source))->Ok_0;
    let entries = lemma_entries_row(first, declared_advice_map(source));
    lemma_row_of_entries(entries, declared_advice_map(source));
    let trees = lemma_trees_row(entries.last(), declared_trees(source));
    lemma_row_of_trees(trees, declared_trees(source));
    Start { kernel, assembler, program, stack, host, entries, trees }
}

/// The first tree that cannot be built decides.
proof fn lemma_bad_tree(advice: AdviceInputs, trees: Seq<Seq<Seq<u64>>>, i: int)
    requires
        0 <= i < trees.len(),
        tree_of(trees[i]) is Err,
        forall|k: int| 0 <= k < i ==> tree_of(#[trigger] trees[k]) is Ok,
    ensures
        with_trees(advice, trees) == Err::<AdviceInputs, Seq<char>>(
            "invalid `# merkle_tree:` declaration: "@ + tree_of(trees[i])->Err_0,
        ),
    decreases trees.len(),
{
    let less = trees.drop_last();
    if i < trees.len() - 1 {
        assert(less[i] == trees[i]);
        assert forall|k: int| 0 <= k < i implies tree_of(#[trigger] less[k]) is Ok by {
            assert(less[k] == trees[k]);
        }
        lemma_bad_tree(advice, less, i);
    } else {
        assert forall|k: int| 0 <= k < less.len() implies tree_of(#[trigger] less[k]) is Ok by {
            assert(less[k] == trees[k]);
        }
        lemma_good_trees(advice, less);
    }
}

proof fn lemma_good_trees(advice: AdviceInputs, trees: Seq<Seq<Seq<u64>>>)
    requires
        forall|k: int| 0 <= k < trees.len() ==> tree_of(#[trigger] trees[k]) is Ok,
    ensures
        with_trees(advice, trees) is Ok,
    decreases trees.len(),
{
    if trees.len() > 0 {
        let less = trees.drop_last();
        assert forall|k: int| 0 <= k < less.len() implies tree_of(#[trigger] less[k]) is Ok by {
            assert(less[k] == trees[k]);
        }
        lemma_good_trees(advice, less);
        assert(tree_of(trees[trees.len() - 1]) is Ok);
    }
}

/// The kernel that a source declares could be assembled.
pub open spec fn kernel_ready(source: Seq<char>, kernel: Option<KernelLibrary>) -> bool {
    match declared_kernel(source) {
        None => kernel is None,
        Some(text) => {
            &&& sound_source(text)
            &&& kernel is Some
            &&& assembled_kernel(text, true) == Ok::<KernelLibrary, Seq<char>>(kernel->0)
        },
    }
}

/// The assembler for the kernel, with the standard library or why it has none.
pub open spec fn assembler_for(kernel: Option<KernelLibrary>) -> Result<Assembler, Seq<char>> {
    assembler_with_stdlib(
        match kernel {
            Some(k) => assembler_on_kernel(k, true),
            None => plain_assembler(true),
        },
    )
}

/// A kernel that is not sound or does not assemble is the first error.
pub proof fn lemma_kernel_error(name: Seq<char>, source: Seq<char>, text: Seq<char>)
    requires
        declared_kernel(source) == Some(text),
    ensures
        !sound_source(text) ==> execution_of(name, source) == Err::<Seq<VmEventView>, Seq<char>>(
            "failed to assemble inline kernel: "@ + unsound_words(),
        ),
        sound_source(text) ==> (assembled_kernel(text, true) matches Err(e) ==> execution_of(
            name,
            source,
        ) == Err::<Seq<VmEventView>, Seq<char>>("failed to assemble inline kernel: "@ + e)),
{
}

/// Behind the kernel come, in this order, the standard library, the program,
/// the operand stack and the advice stack. The first of them that cannot be had
/// is the error, with its reason.
pub proof fn lemma_program_error(
    name: Seq<char>,
    source: Seq<char>,
    kernel: Option<KernelLibrary>,
    assembler: Assembler,
)
    requires
        kernel_ready(source, kernel),
    ensures
        assembler_for(kernel) matches Err(e) ==> execution_of(name, source) == Err::<Seq<VmEventView>, Seq<char>>(
            "failed to load miden stdlib: "@ + e,
        ),
        assembler_for(kernel) == Ok::<_, Seq<char>>(assembler) && !sound_source(source)
            ==> execution_of(name, source) == Err::<Seq<VmEventView>, Seq<char>>(
            "assembly failed: "@ + unsound_words(),
        ),
        assembler_for(kernel) == Ok::<_, Seq<char>>(assembler) && sound_source(source) ==> {
            &&& assembled_program(assembler, name, source) matches Err(e) ==> execution_of(
                name,
                source,
            ) == Err::<Seq<VmEventView>, Seq<char>>("assembly failed: "@ + e)
            &&& assembled_program(assembler, name, source) is Ok ==> {
                &&& initial_stack(declared_operand_stack(source)) matches Err(e) ==> execution_of(
                    name,
                    source,
                ) == Err::<Seq<VmEventView>, Seq<char>>("invalid `# operand_stack:` declaration: "@ + e)
                &&& initial_stack(declared_operand_stack(source)) is Ok ==> (advice_with_stack(
                    declared_advice_stack(source),
                ) matches Err(e) ==> execution_of(name, source) == Err::<Seq<VmEventView>, Seq<char>>(
                    "invalid `# advice_stack:` declaration: "@ + e,
                ))
            }
        },
{
}

/// Where all else can be had, the first declared tree that cannot be built is
/// the error.
pub proof fn lemma_tree_error(
    name: Seq<char>,
    source: Seq<char>,
    kernel: Option<KernelLibrary>,
    assembler: Assembler,
    i: int,
)
    requires
        kernel_ready(source, kernel),
        assembler_for(kernel) == Ok::<_, Seq<char>>(assembler),
        sound_source(source),
        assembled_program(assembler, name, source) is Ok,
        initial_stack(declared_operand_stack(source)) is Ok,
        advice_with_stack(declared_advice_stack(source)) is Ok,
        0 <= i < declared_trees(source).len(),
        tree_of(declared_trees(source)[i]) is Err,
        forall|k: int| 0 <= k < i ==> tree_of(#[trigger] declared_trees(source)[k]) is Ok,
    ensures
        execution_of(name, source) == Err::<Seq<VmEventView>, Seq<char>>(
            "invalid `# merkle_tree:` declaration: "@ + tree_of(declared_trees(source)[i])->Err_0,
        ),
{
    let first = advice_with_stack(declared_advice_stack(source))->Ok_0;
    lemma_bad_tree(
        with_entries(first, declared_advice_map(source)),
        declared_trees(source),
        i,
    );
}

} // verus!
