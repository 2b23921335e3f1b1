//! Kernel procedures: the system calls of a transaction, which have no source
//! of their own.

use vstd::prelude::*;
use vstd::string::StringExecFns;

use crate::text::chars_of;
use crate::text::holds_text;
use crate::text::last_segment;
use crate::text::occurs;
use crate::text::starts_with;
use crate::text::string_of;
use crate::text::tail_segment;

verus! {

/// The namespaces of the kernel, as text.
pub const KERNEL_PREFIXES: [&'static str; 10] = [
    "miden::kernel::",
    "kernel::",
    "miden::account::",
    "miden::note::",
    "miden::tx::",
    "miden::asset::",
    "miden::faucet::",
    "miden::sat::internal::",
    "#sys::",
    "#kernel::",
];

/// The namespaces of the kernel.
pub open spec fn kernel_prefixes() -> Seq<Seq<char>> {
    seq![
        "miden::kernel::"@,
        "kernel::"@,
        "miden::account::"@,
        "miden::note::"@,
        "miden::tx::"@,
        "miden::asset::"@,
        "miden::faucet::"@,
        "miden::sat::internal::"@,
        "#sys::"@,
        "#kernel::"@,
    ]
}

/// The name lies in a namespace of the kernel.
pub open spec fn is_kernel_name(name: Seq<char>) -> bool {
    exists|i: int|
        0 <= i < kernel_prefixes().len() && #[trigger] kernel_prefixes()[i].is_prefix_of(name)
}

/// The procedure sets a transaction up or takes it down.
pub open spec fn is_setup_name(name: Seq<char>) -> bool {
    ||| occurs("prologue"@, last_segment(name))
    ||| occurs("epilogue"@, last_segment(name))
    ||| occurs("#sys::"@, name)
}

/// The label of a procedure in a trace.
pub open spec fn display_name(name: Seq<char>) -> Seq<char> {
    if !is_kernel_name(name) {
        name
    } else if is_setup_name(name) {
        "[kernel:setup] "@ + last_segment(name)
    } else {
        "[kernel] "@ + last_segment(name)
    }
}

/// What is known of a kernel procedure by its name.
#[derive(Debug, Clone, PartialEq, Eq)]
pub struct KernelProcInfo {
    /// The full name.
    pub name: String,
    /// The last segment of the name.
    pub short_name: String,
    /// Whether the procedure sets a transaction up or takes it down.
    pub is_prologue: bool,
}

/// Tells whether a procedure belongs to the kernel: whether its name begins
/// with one of the kernel's namespaces.
pub fn is_kernel_procedure(name: &str) -> (r: bool)
    ensures
        r == is_kernel_name(name@),
{
    let chars = chars_of(name);
    let all = KERNEL_PREFIXES;
    let mut i: usize = 0;
    while i < 10
        invariant
            i <= 10,
            chars@ == name@,
            forall|k: int| 0 <= k < 10 ==> #[trigger] all@[k]@ == kernel_prefixes()[k],
            forall|k: int| 0 <= k < i ==> !(#[trigger] kernel_prefixes()[k]).is_prefix_of(name@),
        decreases 10 - i,
    {
        assert(all@[i as int]@ == kernel_prefixes()[i as int]);
        if starts_with(chars.as_slice(), all[i]) {
            return true;
        }
        i += 1;
    }
    false
}

/// What the name of a kernel procedure tells; `None` for any other procedure.
pub fn kernel_proc_info(name: &str) -> (r: Option<KernelProcInfo>)
    ensures
        r is Some == is_kernel_name(name@),
        r matches Some(info) ==> info.name@ == name@ && info.short_name@ == last_segment(name@)
            && info.is_prologue == is_setup_name(name@),
{
    if !is_kernel_procedure(name) {
        return None;
    }
    let chars = chars_of(name);
    let short = tail_segment(chars.as_slice());
    let is_prologue = holds_text(short, "prologue") || holds_text(short, "epilogue") || holds_text(
        chars.as_slice(),
        "#sys::",
    );
    Some(KernelProcInfo { name: name.to_owned(), short_name: string_of(short), is_prologue })
}

/// The label of a procedure in a trace: the short name behind `[kernel]` or
/// `[kernel:setup]`, or the name of a user's procedure as it is.
pub fn procedure_display_name(name: &str) -> (r: String)
    ensures
        r@ == display_name(name@),
{
    match kernel_proc_info(name) {
        Some(info) => {
            let mut label = if info.is_prologue {
                "[kernel:setup] ".to_owned()
            } else {
                "[kernel] ".to_owned()
            };
            label.append(info.short_name.as_str());
            label
        },
        None => name.to_owned(),
    }
}

/// The kernel's procedures are those of its ten namespaces. In a trace each is
/// labelled with the last segment of its name, those that set a transaction up
/// or take it down apart from the rest, and any other name stands for itself.
pub proof fn lemma_labels(name: Seq<char>)
    ensures
        is_kernel_name(name) <==> {
            ||| "miden::kernel::"@.is_prefix_of(name)
            ||| "kernel::"@.is_prefix_of(name)
            ||| "miden::account::"@.is_prefix_of(name)
            ||| "miden::note::"@.is_prefix_of(name)
            ||| "miden::tx::"@.is_prefix_of(name)
            ||| "miden::asset::"@.is_prefix_of(name)
            ||| "miden::faucet::"@.is_prefix_of(name)
            ||| "miden::sat::internal::"@.is_prefix_of(name)
            ||| "#sys::"@.is_prefix_of(name)
            ||| "#kernel::"@.is_prefix_of(name)
        },
        !is_kernel_name(name) ==> display_name(name) == name,
        is_kernel_name(name) && (occurs("prologue"@, last_segment(name)) || occurs(
            "epilogue"@,
            last_segment(name),
        ) || occurs("#sys::"@, name)) ==> display_name(name) == "[kernel:setup] "@ + last_segment(
            name,
        ),
        is_kernel_name(name) && !occurs("prologue"@, last_segment(name)) && !occurs(
            "epilogue"@,
            last_segment(name),
        ) && !occurs("#sys::"@, name) ==> display_name(name) == "[kernel] "@ + last_segment(name),
{
    let all = kernel_prefixes();
    assert(all[0] == "miden::kernel::"@);
    assert(all[1] == "kernel::"@);
    assert(all[2] == "miden::account::"@);
    assert(all[3] == "miden::note::"@);
    assert(all[4] == "miden::tx::"@);
    assert(all[5] == "miden::asset::"@);
    assert(all[6] == "miden::faucet::"@);
    assert(all[7] == "miden::sat::internal::"@);
    assert(all[8] == "#sys::"@);
    assert(all[9] == "#kernel::"@);
}

} // verus!
