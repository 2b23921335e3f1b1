//! The execution contexts of a transaction and the switches between them.

use std::path::PathBuf;
use vstd::prelude::*;
use vstd::string::StringExecFns;

use crate::kernel_procs::is_kernel_name;
use crate::kernel_procs::is_kernel_procedure;
use crate::mockchain::types::AccountId;
use crate::mockchain::types::NoteId;
use crate::number::decimal;
use crate::number::decimal_text;

verus! {

/// Identifies an execution context of a transaction.
#[derive(Debug, Clone, Copy, PartialEq, Eq, PartialOrd, Ord, Hash, Structural)]
pub struct ContextId(pub u32);

impl ContextId {
    /// The id as it is shown.
    pub open spec fn shown(self) -> Seq<char> {
        "ctx:"@ + decimal(self.0 as int)
    }

    /// Writes the id behind `ctx:`.
    pub fn to_string(&self) -> (r: String)
        ensures
            r@ == self.shown(),
    {
        let mut out = "ctx:".to_owned();
        out.append(decimal_text(self.0 as u64).as_str());
        out
    }
}

/// What runs in a context.
#[derive(Debug, Clone, Copy, PartialEq, Eq, Structural)]
pub enum ContextKind {
    /// System calls, prologue and epilogue.
    Kernel,
    /// The code of an account.
    AccountCode { account_id: AccountId },
    /// The script of a note.
    NoteScript { note_id: NoteId },
    /// The script of the transaction.
    TxScript,
    /// Anything else.
    Unknown,
}

impl ContextKind {
    /// The label of the kind in written summaries.
    pub open spec fn label(self) -> Seq<char> {
        match self {
            ContextKind::Kernel => "kernel"@,
            ContextKind::AccountCode { account_id } => "account:"@ + account_id.shown(),
            ContextKind::NoteScript { note_id } => "note:"@ + note_id.label(),
            ContextKind::TxScript => "tx_script"@,
            ContextKind::Unknown => "unknown"@,
        }
    }

    /// Writes the label of the kind.
    pub fn to_label(&self) -> (r: String)
        ensures
            r@ == self.label(),
    {
        match self {
            ContextKind::Kernel => "kernel".to_owned(),
            ContextKind::AccountCode { account_id } => {
                let mut out = "account:".to_owned();
                out.append(account_id.to_string().as_str());
                out
            },
            ContextKind::NoteScript { note_id } => {
                let mut out = "note:".to_owned();
                out.append(note_id.to_label().as_str());
                out
            },
            ContextKind::TxScript => "tx_script".to_owned(),
            ContextKind::Unknown => "unknown".to_owned(),
        }
    }
}

/// What is known of a context.
#[derive(Debug, Clone)]
pub struct ExecutionContextInfo {
    pub id: ContextId,
    pub kind: ContextKind,
    /// The source that runs in the context, where it is known.
    pub source_path: Option<PathBuf>,
    /// How many times the context was switched to.
    pub cycle_count: u64,
    /// Whether the context was entered.
    pub entered: bool,
}

/// What an [`ExecutionContextTracker`] holds.
pub struct TrackerView {
    /// The contexts, in the order of their first appearance.
    pub contexts: Seq<ExecutionContextInfo>,
    pub current: Option<ContextId>,
    /// The context of each switch and its clock cycle.
    pub history: Seq<(ContextId, u64)>,
}

/// One of the contexts has the id.
pub open spec fn known(contexts: Seq<ExecutionContextInfo>, id: ContextId) -> bool {
    exists|i: int| 0 <= i < contexts.len() && #[trigger] contexts[i].id == id
}

/// Where the context with the id stands.
pub open spec fn place(contexts: Seq<ExecutionContextInfo>, id: ContextId) -> int {
    choose|i: int| 0 <= i < contexts.len() && #[trigger] contexts[i].id == id
}

/// The contexts after a switch to one of them.
pub open spec fn visited(contexts: Seq<ExecutionContextInfo>, id: ContextId, kind: ContextKind) -> Seq<
    ExecutionContextInfo,
> {
    if known(contexts, id) {
        let i = place(contexts, id);
        contexts.update(
            i,
            ExecutionContextInfo {
                cycle_count: (contexts[i].cycle_count + 1) as u64,
                entered: true,
                ..contexts[i]
            },
        )
    } else {
        contexts.push(
            ExecutionContextInfo { id, kind, source_path: None, cycle_count: 1, entered: true },
        )
    }
}

/// The tracker after a switch. A switch to the current context changes nothing.
pub open spec fn switched_to(t: TrackerView, id: ContextId, kind: ContextKind, clock: u64) -> TrackerView {
    if t.current == Some(id) {
        t
    } else {
        TrackerView {
            contexts: visited(t.contexts, id, kind),
            current: Some(id),
            history: t.history.push((id, clock)),
        }
    }
}

/// The tracker before any switch.
pub open spec fn untouched() -> TrackerView {
    TrackerView { contexts: seq![], current: None, history: seq![] }
}

/// How often the history switches to a context.
pub open spec fn visits(history: Seq<(ContextId, u64)>, id: ContextId) -> nat
    decreases history.len(),
{
    if history.len() == 0 {
        0
    } else {
        visits(history.drop_last(), id) + if history.last().0 == id {
            1nat
        } else {
            0nat
        }
    }
}

/// The contexts of a history, in the order of their first appearance.
pub open spec fn appearances(history: Seq<(ContextId, u64)>) -> Seq<ContextId>
    decreases history.len(),
{
    if history.len() == 0 {
        seq![]
    } else {
        let earlier = appearances(history.drop_last());
        if earlier.contains(history.last().0) {
            earlier
        } else {
            earlier.push(history.last().0)
        }
    }
}

/// The ids of contexts.
pub open spec fn ids(contexts: Seq<ExecutionContextInfo>) -> Seq<ContextId> {
    contexts.map_values(|c: ExecutionContextInfo| c.id)
}

/// What every tracker keeps: its contexts are those of its history, in the order
/// of their first appearance, each counted as often as it was switched to; the
/// current context is that of the last switch; no switch goes to the context
/// that was current before it.
pub open spec fn consistent(t: TrackerView) -> bool {
    &&& ids(t.contexts) == appearances(t.history)
    &&& forall|i: int|
        0 <= i < t.contexts.len() ==> (#[trigger] t.contexts[i]).entered
            && t.contexts[i].cycle_count == visits(t.history, t.contexts[i].id)
    &&& t.current == if t.history.len() == 0 {
        None
    } else {
        Some(t.history.last().0)
    }
    &&& forall|i: int|
        0 <= i < t.history.len() - 1 ==> (#[trigger] t.history[i]).0 != t.history[i + 1].0
}

proof fn lemma_appearances(history: Seq<(ContextId, u64)>)
    ensures
        appearances(history).no_duplicates(),
    decreases history.len(),
{
    if history.len() > 0 {
        lemma_appearances(history.drop_last());
    }
}

proof fn lemma_visits(history: Seq<(ContextId, u64)>, id: ContextId)
    ensures
        visits(history, id) <= history.len(),
        visits(history, id) > 0 <==> appearances(history).contains(id),
    decreases history.len(),
{
    if history.len() > 0 {
        let shorter = history.drop_last();
        lemma_visits(shorter, id);
        let earlier = appearances(shorter);
        let now = appearances(history);
        if earlier.contains(id) {
            let i = earlier.index_of(id);
            assert(now[i] == id);
        }
        if !earlier.contains(history.last().0) {
            assert(now[earlier.len() as int] == history.last().0);
        }
        if now.contains(id) && !earlier.contains(id) {
            let i = now.index_of(id);
            if i < earlier.len() {
                assert(earlier[i] == id);
            }
        }
    }
}

/// A context is known exactly when the history switches to it.
pub proof fn lemma_known(t: TrackerView, id: ContextId)
    requires
        consistent(t),
    ensures
        known(t.contexts, id) <==> visits(t.history, id) > 0,
{
    lemma_visits(t.history, id);
    if known(t.contexts, id) {
        let i = place(t.contexts, id);
        assert(ids(t.contexts)[i] == id);
    }
    if appearances(t.history).contains(id) {
        let i = appearances(t.history).index_of(id);
        assert(ids(t.contexts)[i] == id);
        assert(t.contexts[i].id == id);
    }
}

proof fn lemma_place(t: TrackerView, i: int)
    requires
        consistent(t),
        0 <= i < t.contexts.len(),
    ensures
        known(t.contexts, t.contexts[i].id),
        place(t.contexts, t.contexts[i].id) == i,
{
    lemma_appearances(t.history);
    let id = t.contexts[i].id;
    let j = place(t.contexts, id);
    assert(ids(t.contexts)[i] == id && ids(t.contexts)[j] == id);
}

/// A switch keeps what every tracker keeps, wherever its count of switches
/// fits.
proof fn lemma_switched_consistent(t: TrackerView, id: ContextId, kind: ContextKind, clock: u64)
    requires
        consistent(t),
        t.history.len() < u64::MAX,
    ensures
        consistent(switched_to(t, id, kind, clock)),
{
    if t.current != Some(id) {
        let u = switched_to(t, id, kind, clock);
        assert(u.history.drop_last() =~= t.history);
        lemma_known(t, id);
        lemma_visits(t.history, id);
        if known(t.contexts, id) {
            let k = place(t.contexts, id);
            assert(ids(u.contexts) =~= ids(t.contexts));
            assert forall|i: int| 0 <= i < u.contexts.len() implies (#[trigger] u.contexts[i]).entered
                && u.contexts[i].cycle_count == visits(u.history, u.contexts[i].id) by {
                assert(t.contexts[i].entered);
                if i != k {
                    lemma_place(t, i);
                    assert(t.contexts[i].id != id);
                }
            }
        } else {
            assert(ids(u.contexts) =~= ids(t.contexts).push(id));
            assert forall|i: int| 0 <= i < u.contexts.len() implies (#[trigger] u.contexts[i]).entered
                && u.contexts[i].cycle_count == visits(u.history, u.contexts[i].id) by {
                if i < t.contexts.len() {
                    assert(t.contexts[i].entered);
                    assert(t.contexts[i].id != id);
                }
            }
        }
        assert forall|i: int| 0 <= i < u.history.len() - 1 implies (#[trigger] u.history[i]).0
            != u.history[i + 1].0 by {
            if i < t.history.len() - 1 {
                assert(t.history[i].0 != t.history[i + 1].0);
            }
        }
    }
}

/// Follows a transaction through its execution contexts.
pub struct ExecutionContextTracker {
    contexts: Vec<ExecutionContextInfo>,
    current_context: Option<ContextId>,
    switch_history: Vec<(ContextId, u64)>,
}

impl View for ExecutionContextTracker {
    type V = TrackerView;

    closed spec fn view(&self) -> TrackerView {
        TrackerView {
            contexts: self.contexts@,
            current: self.current_context,
            history: self.switch_history@,
        }
    }
}

impl ExecutionContextTracker {
    /// The tracker keeps what every tracker keeps.
    pub open spec fn wf(&self) -> bool {
        consistent(self@)
    }

    /// A tracker before any switch.
    pub fn new() -> (r: Self)
        ensures
            r.wf(),
            r@ == untouched(),
    {
        let r = ExecutionContextTracker {
            contexts: Vec::new(),
            current_context: None,
            switch_history: Vec::new(),
        };
        assert(ids(r@.contexts) =~= appearances(r@.history));
        r
    }

    fn find(&self, id: ContextId) -> (r: Option<usize>)
        requires
            self.wf(),
        ensures
            match r {
                Some(i) => i < self@.contexts.len() && known(self@.contexts, id) && place(
                    self@.contexts,
                    id,
                ) == i,
                None => !known(self@.contexts, id),
            },
    {
        let mut i: usize = 0;
        while i < self.contexts.len()
            invariant
                i <= self.contexts.len(),
                self.wf(),
                forall|k: int| 0 <= k < i ==> #[trigger] self@.contexts[k].id != id,
            decreases self.contexts.len() - i,
        {
            if self.contexts[i].id == id {
                proof {
                    lemma_place(self@, i as int);
                }
                return Some(i);
            }
            i += 1;
        }
        None
    }

    /// Records a switch at a clock cycle. A context that is new is registered
    /// with its kind. A switch to the current context changes nothing.
    pub fn switch_context(&mut self, context_id: ContextId, kind: ContextKind, clock_cycle: u64)
        requires
            old(self).wf(),
        ensures
            final(self).wf(),
            final(self)@ == switched_to(old(self)@, context_id, kind, clock_cycle),
    {
        let ghost before = self@;
        if let Some(current) = self.current_context {
            if current == context_id {
                return ;
            }
        }
        let found = self.find(context_id);
        self.current_context = Some(context_id);
        self.switch_history.push((context_id, clock_cycle));
        let count: usize = self.switch_history.len();
        assert(before.history.len() < count <= u64::MAX);
        proof {
            lemma_visits(before.history, context_id);
            lemma_switched_consistent(before, context_id, kind, clock_cycle);
        }
        match found {
            Some(i) => {
                assert(before.contexts[i as int].cycle_count <= before.history.len());
                let visits: u64 = self.contexts[i].cycle_count + 1;
                self.contexts[i].cycle_count = visits;
                self.contexts[i].entered = true;
            },
            None => {
                self.contexts.push(
                    ExecutionContextInfo {
                        id: context_id,
                        kind,
                        source_path: None,
                        cycle_count: 1,
                        entered: true,
                    },
                );
            },
        }
        assert(self@.contexts =~= visited(before.contexts, context_id, kind));
        assert(self@ == switched_to(before, context_id, kind, clock_cycle));
    }

    /// Names the source that runs in a context; nothing happens for a context
    /// that is not known.
    pub fn set_source_path(&mut self, context_id: ContextId, path: PathBuf)
        requires
            old(self).wf(),
        ensures
            final(self).wf(),
            final(self)@.current == old(self)@.current,
            final(self)@.history == old(self)@.history,
            final(self)@.contexts == if known(old(self)@.contexts, context_id) {
                let i = place(old(self)@.contexts, context_id);
                old(self)@.contexts.update(
                    i,
                    ExecutionContextInfo { source_path: Some(path), ..old(self)@.contexts[i] },
                )
            } else {
                old(self)@.contexts
            },
    {
        let ghost before = self@;
        if let Some(i) = self.find(context_id) {
            self.contexts[i].source_path = Some(path);
            assert(self@.contexts =~= before.contexts.update(
                i as int,
                ExecutionContextInfo { source_path: Some(path), ..before.contexts[i as int] },
            ));
            assert(ids(self@.contexts) =~= ids(before.contexts));
            assert forall|k: int| 0 <= k < self@.contexts.len() implies (
            #[trigger] self@.contexts[k]).entered && self@.contexts[k].cycle_count == visits(
                self@.history,
                self@.contexts[k].id,
            ) by {
                assert(before.contexts[k].entered);
            }
        }
    }

    /// The current context.
    pub fn current(&self) -> (r: Option<ContextId>)
        ensures
            r == self@.current,
    {
        self.current_context
    }

    /// What is known of a context.
    pub fn get_context(&self, id: &ContextId) -> (r: Option<&ExecutionContextInfo>)
        requires
            self.wf(),
        ensures
            match r {
                Some(info) => known(self@.contexts, *id) && *info == self@.contexts[place(
                    self@.contexts,
                    *id,
                )],
                None => !known(self@.contexts, *id),
            },
    {
        match self.find(*id) {
            Some(i) => Some(&self.contexts[i]),
            None => None,
        }
    }

    /// All contexts, in the order of their first appearance.
    pub fn all_contexts(&self) -> (r: Vec<&ExecutionContextInfo>)
        ensures
            r@.len() == self@.contexts.len(),
            forall|i: int| 0 <= i < r@.len() ==> *(#[trigger] r@[i]) == self@.contexts[i],
    {
        let mut out: Vec<&ExecutionContextInfo> = Vec::new();
        let mut i: usize = 0;
        while i < self.contexts.len()
            invariant
                i <= self.contexts.len(),
                out@.len() == i,
                forall|k: int| 0 <= k < i ==> *(#[trigger] out@[k]) == self@.contexts[k],
            decreases self.contexts.len() - i,
        {
            out.push(&self.contexts[i]);
            i += 1;
        }
        out
    }

    /// The context of each switch and its clock cycle.
    pub fn switch_history(&self) -> (r: &[(ContextId, u64)])
        ensures
            r@ == self@.history,
    {
        self.switch_history.as_slice()
    }

    /// How many contexts were seen.
    pub fn context_count(&self) -> (r: usize)
        ensures
            r == self@.contexts.len(),
    {
        self.contexts.len()
    }

    /// Tells whether the current context is one of the kernel.
    pub fn is_in_kernel(&self) -> (r: bool)
        requires
            self.wf(),
        ensures
            r == (self@.current matches Some(id) && known(self@.contexts, id)
                && self@.contexts[place(self@.contexts, id)].kind == ContextKind::Kernel),
    {
        match self.current_context {
            Some(id) => match self.find(id) {
                Some(i) => self.contexts[i].kind == ContextKind::Kernel,
                None => false,
            },
            None => false,
        }
    }

    /// The kind of context in which a procedure runs, as far as its name tells.
    pub fn classify_from_procedure(name: &str) -> (r: ContextKind)
        ensures
            r == if is_kernel_name(name@) {
                ContextKind::Kernel
            } else {
                ContextKind::Unknown
            },
    {
        if is_kernel_procedure(name) {
            ContextKind::Kernel
        } else {
            ContextKind::Unknown
        }
    }
}

impl Default for ExecutionContextTracker {
    /// A tracker before any switch.
    fn default() -> (r: Self)
        ensures
            r.wf(),
            r@ == untouched(),
    {
        ExecutionContextTracker::new()
    }
}

} // verus!
