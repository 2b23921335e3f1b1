//! The events of a transaction: kernel prologue, note scripts, account code,
//! transaction script, kernel epilogue.

use std::path::PathBuf;
use vstd::prelude::*;
use vstd::string::StringExecFns;

use crate::mockchain::context::switched_to;
use crate::mockchain::context::untouched;
use crate::mockchain::context::ContextId;
use crate::mockchain::context::ContextKind;
use crate::mockchain::context::ExecutionContextTracker;
use crate::mockchain::context::TrackerView;
use crate::mockchain::types::AccountId;
use crate::mockchain::types::NoteId;
use crate::number::decimal;
use crate::number::decimal_text;
use crate::path::path_of;
use crate::path::path_text;

verus! {

/// One event of a transaction.
#[derive(Debug, Clone)]
pub enum TraceEvent {
    /// A step to a place in a source.
    Step { source_path: PathBuf, line: u32, context_id: ContextId },
    /// A call of a function.
    Call { function_name: String, is_kernel: bool, context_id: ContextId },
    /// A return from a function.
    Return { context_id: ContextId },
    /// The value of a variable.
    Variable { name: String, value: String, context_id: ContextId },
    /// A switch between contexts.
    ContextSwitch { from: Option<ContextId>, to: ContextId, kind: ContextKind },
}

/// What a [`TraceEvent`] holds.
pub enum EventView {
    Step { source: Seq<char>, line: u32, context_id: ContextId },
    Call { function_name: Seq<char>, is_kernel: bool, context_id: ContextId },
    Return { context_id: ContextId },
    Variable { name: Seq<char>, value: Seq<char>, context_id: ContextId },
    ContextSwitch { from: Option<ContextId>, to: ContextId, kind: ContextKind },
}

impl View for TraceEvent {
    type V = EventView;

    open spec fn view(&self) -> EventView {
        match self {
            TraceEvent::Step { source_path, line, context_id } => EventView::Step {
                source: path_text(*source_path),
                line: *line,
                context_id: *context_id,
            },
            TraceEvent::Call { function_name, is_kernel, context_id } => EventView::Call {
                function_name: function_name@,
                is_kernel: *is_kernel,
                context_id: *context_id,
            },
            TraceEvent::Return { context_id } => EventView::Return { context_id: *context_id },
            TraceEvent::Variable { name, value, context_id } => EventView::Variable {
                name: name@,
                value: value@,
                context_id: *context_id,
            },
            TraceEvent::ContextSwitch { from, to, kind } => EventView::ContextSwitch {
                from: *from,
                to: *to,
                kind: *kind,
            },
        }
    }
}

/// What the events of a list hold.
pub open spec fn event_list(v: Seq<TraceEvent>) -> Seq<EventView> {
    v.map_values(|e: TraceEvent| e@)
}

/// The context of the kernel.
pub open spec fn kernel_context() -> ContextId {
    ContextId(0)
}

/// The context with a number.
pub open spec fn numbered(n: int) -> ContextId {
    ContextId(n as u32)
}

/// The events of the prologue.
pub open spec fn prologue_events() -> Seq<EventView> {
    seq![
        EventView::ContextSwitch { from: None, to: kernel_context(), kind: ContextKind::Kernel },
        EventView::Call {
            function_name: "#sys::prologue"@,
            is_kernel: true,
            context_id: kernel_context(),
        },
        EventView::Return { context_id: kernel_context() },
    ]
}

/// The events of the script of the `i`th note.
pub open spec fn note_events(i: int, note_id: NoteId) -> Seq<EventView> {
    let context_id = numbered(i + 1);
    let kernel = kernel_context();
    seq![
        EventView::ContextSwitch {
            from: Some(kernel),
            to: context_id,
            kind: ContextKind::NoteScript { note_id },
        },
        EventView::Call {
            function_name: "note_script_"@ + decimal(note_id.0 as int),
            is_kernel: false,
            context_id,
        },
        EventView::Step { source: "note_script.masm"@, line: 1, context_id },
        EventView::Variable { name: "note_input_0"@, value: "42"@, context_id },
        EventView::ContextSwitch {
            from: Some(context_id),
            to: kernel,
            kind: ContextKind::Kernel,
        },
        EventView::Call {
            function_name: "miden::note::get_inputs"@,
            is_kernel: true,
            context_id: kernel,
        },
        EventView::Return { context_id: kernel },
        EventView::Return { context_id },
    ]
}

/// The events of the scripts of the notes.
pub open spec fn notes_events(notes: Seq<NoteId>) -> Seq<EventView>
    decreases notes.len(),
{
    if notes.len() == 0 {
        seq![]
    } else {
        notes_events(notes.drop_last()) + note_events(notes.len() - 1, notes.last())
    }
}

/// The events of the code of the account, behind `n` notes.
pub open spec fn account_events(n: int, account_id: AccountId) -> Seq<EventView> {
    let context_id = numbered(n + 1);
    let kernel = kernel_context();
    seq![
        EventView::ContextSwitch {
            from: Some(kernel),
            to: context_id,
            kind: ContextKind::AccountCode { account_id },
        },
        EventView::Call {
            function_name: "account::receive_asset"@,
            is_kernel: false,
            context_id,
        },
        EventView::Step { source: "account.masm"@, line: 5, context_id },
        EventView::Call {
            function_name: "miden::kernel::account_vault_add_asset"@,
            is_kernel: true,
            context_id: kernel,
        },
        EventView::Return { context_id: kernel },
        EventView::Return { context_id },
    ]
}

/// The events of the transaction script, behind `n` notes.
pub open spec fn script_events(n: int) -> Seq<EventView> {
    let context_id = numbered(n + 2);
    seq![
        EventView::ContextSwitch {
            from: Some(numbered(n + 1)),
            to: context_id,
            kind: ContextKind::TxScript,
        },
        EventView::Call { function_name: "tx_script::main"@, is_kernel: false, context_id },
        EventView::Step { source: "tx_script.masm"@, line: 1, context_id },
        EventView::Return { context_id },
    ]
}

/// The events of the epilogue.
pub open spec fn epilogue_events() -> Seq<EventView> {
    seq![
        EventView::Call {
            function_name: "#sys::epilogue"@,
            is_kernel: true,
            context_id: kernel_context(),
        },
        EventView::Return { context_id: kernel_context() },
    ]
}

/// The events of a transaction.
pub open spec fn transaction_events(account: AccountId, notes: Seq<NoteId>, script: bool) -> Seq<
    EventView,
> {
    let n = notes.len() as int;
    prologue_events() + notes_events(notes) + account_events(n, account) + (if script {
        script_events(n)
    } else {
        seq![]
    }) + epilogue_events()
}

/// The clock after the prologue and `n` notes.
pub open spec fn clock_after_notes(n: int) -> int {
    100 + 100 * n
}

/// The tracker after the script of the `i`th note.
pub open spec fn after_note(t: TrackerView, i: int, note_id: NoteId) -> TrackerView {
    let clock = clock_after_notes(i);
    let kind = ContextKind::NoteScript { note_id };
    let in_note = switched_to(t, numbered(i + 1), kind, clock as u64);
    let in_kernel = switched_to(
        in_note,
        kernel_context(),
        ContextKind::Kernel,
        (clock + 50) as u64,
    );
    switched_to(in_kernel, numbered(i + 1), kind, (clock + 70) as u64)
}

/// The tracker after the scripts of the notes.
pub open spec fn after_notes(t: TrackerView, notes: Seq<NoteId>) -> TrackerView
    decreases notes.len(),
{
    if notes.len() == 0 {
        t
    } else {
        after_note(after_notes(t, notes.drop_last()), notes.len() - 1, notes.last())
    }
}

/// The tracker after the code of the account, behind `n` notes.
pub open spec fn after_account(t: TrackerView, n: int, account_id: AccountId) -> TrackerView {
    let clock = clock_after_notes(n);
    let kind = ContextKind::AccountCode { account_id };
    let in_account = switched_to(t, numbered(n + 1), kind, clock as u64);
    let in_kernel = switched_to(in_account, kernel_context(), ContextKind::Kernel, clock as u64);
    switched_to(in_kernel, numbered(n + 1), kind, (clock + 30) as u64)
}

/// The tracker after the end of the transaction, behind `n` notes.
pub open spec fn after_end(t: TrackerView, n: int, script: bool) -> TrackerView {
    let clock = clock_after_notes(n) + 50;
    if script {
        switched_to(
            switched_to(t, numbered(n + 2), ContextKind::TxScript, clock as u64),
            kernel_context(),
            ContextKind::Kernel,
            (clock + 40) as u64,
        )
    } else {
        switched_to(t, kernel_context(), ContextKind::Kernel, clock as u64)
    }
}

/// The tracker after a transaction.
pub open spec fn after_transaction(
    t: TrackerView,
    account: AccountId,
    notes: Seq<NoteId>,
    script: bool,
) -> TrackerView {
    let n = notes.len() as int;
    let begun = switched_to(t, kernel_context(), ContextKind::Kernel, 0);
    after_end(after_account(after_notes(begun, notes), n, account), n, script)
}

/// The clock of a transaction with `n` notes fits its type.
pub open spec fn clock_fits(n: nat) -> bool {
    clock_after_notes(n as int) + 90 <= u64::MAX
}

/// What a [`TransactionTrace`] holds.
pub struct TraceView {
    pub tracker: TrackerView,
    pub events: Seq<EventView>,
}

/// The trace before anything has run.
pub open spec fn empty_trace() -> TraceView {
    TraceView { tracker: untouched(), events: seq![] }
}

/// The trace after a transaction.
pub open spec fn traced(t: TraceView, account: AccountId, notes: Seq<NoteId>, script: bool) -> TraceView {
    TraceView {
        tracker: after_transaction(t.tracker, account, notes, script),
        events: t.events + transaction_events(account, notes, script),
    }
}

/// The events of a transaction and its switches between contexts.
pub struct TransactionTrace {
    pub tracker: ExecutionContextTracker,
    pub events: Vec<TraceEvent>,
}

impl View for TransactionTrace {
    type V = TraceView;

    open spec fn view(&self) -> TraceView {
        TraceView { tracker: self.tracker@, events: event_list(self.events@) }
    }
}

impl TransactionTrace {
    /// The tracker keeps what every tracker keeps.
    pub open spec fn wf(&self) -> bool {
        self.tracker.wf()
    }

    /// A trace before anything has run.
    pub fn new() -> (r: Self)
        ensures
            r.wf(),
            r@ == empty_trace(),
    {
        let r = TransactionTrace { tracker: ExecutionContextTracker::new(), events: Vec::new() };
        assert(r@.events =~= seq![]);
        r
    }

    fn switch(&mut self, id: ContextId, kind: ContextKind, clock: u64)
        requires
            old(self).wf(),
        ensures
            final(self).wf(),
            final(self)@ == (TraceView {
                tracker: switched_to(old(self)@.tracker, id, kind, clock),
                events: old(self)@.events,
            }),
    {
        self.tracker.switch_context(id, kind, clock);
    }

    fn emit(&mut self, event: TraceEvent)
        ensures
            final(self).wf() == old(self).wf(),
            final(self)@ == (TraceView {
                tracker: old(self)@.tracker,
                events: old(self)@.events.push(event@),
            }),
    {
        let ghost before = self.events@;
        self.events.push(event);
        assert(event_list(self.events@) =~= event_list(before).push(event@));
    }

    fn call(&mut self, name: &str, is_kernel: bool, context_id: ContextId)
        ensures
            final(self).wf() == old(self).wf(),
            final(self)@ == (TraceView {
                tracker: old(self)@.tracker,
                events: old(self)@.events.push(
                    EventView::Call { function_name: name@, is_kernel, context_id },
                ),
            }),
    {
        self.emit(TraceEvent::Call { function_name: name.to_owned(), is_kernel, context_id });
    }

    fn step(&mut self, source: &str, line: u32, context_id: ContextId)
        ensures
            final(self).wf() == old(self).wf(),
            final(self)@ == (TraceView {
                tracker: old(self)@.tracker,
                events: old(self)@.events.push(
                    EventView::Step { source: source@, line, context_id },
                ),
            }),
    {
        self.emit(TraceEvent::Step { source_path: path_of(source), line, context_id });
    }

    fn run_prologue(&mut self)
        requires
            old(self).wf(),
        ensures
            final(self).wf(),
            final(self)@ == (TraceView {
                tracker: switched_to(
                    old(self)@.tracker,
                    kernel_context(),
                    ContextKind::Kernel,
                    0,
                ),
                events: old(self)@.events + prologue_events(),
            }),
    {
        let ghost before = self@;
        let kernel = ContextId(0);
        self.switch(kernel, ContextKind::Kernel, 0);
        self.emit(
            TraceEvent::ContextSwitch { from: None, to: kernel, kind: ContextKind::Kernel },
        );
        self.call("#sys::prologue", true, kernel);
        self.emit(TraceEvent::Return { context_id: kernel });
        assert(self@.events =~= before.events + prologue_events());
    }

    fn run_note(&mut self, i: usize, note_id: NoteId, clock: u64)
        requires
            old(self).wf(),
            clock == clock_after_notes(i as int),
            clock + 70 <= u64::MAX,
            i < usize::MAX,
        ensures
            final(self).wf(),
            final(self)@ == (TraceView {
                tracker: after_note(old(self)@.tracker, i as int, note_id),
                events: old(self)@.events + note_events(i as int, note_id),
            }),
    {
        let ghost before = self@;
        let kernel = ContextId(0);
        let number: u32 = #[verifier::truncate]
        ((i + 1) as u32);
        let context_id = ContextId(number);
        let kind = ContextKind::NoteScript { note_id };
        self.switch(context_id, kind, clock);
        self.emit(TraceEvent::ContextSwitch { from: Some(kernel), to: context_id, kind });
        let mut name = "note_script_".to_owned();
        name.append(decimal_text(note_id.0).as_str());
        self.call(name.as_str(), false, context_id);
        self.step("note_script.masm", 1, context_id);
        self.emit(
            TraceEvent::Variable {
                name: "note_input_0".to_owned(),
                value: "42".to_owned(),
                context_id,
            },
        );
        self.switch(kernel, ContextKind::Kernel, clock + 50);
        self.emit(
            TraceEvent::ContextSwitch {
                from: Some(context_id),
                to: kernel,
                kind: ContextKind::Kernel,
            },
        );
        self.call("miden::note::get_inputs", true, kernel);
        self.emit(TraceEvent::Return { context_id: kernel });
        self.switch(context_id, kind, clock + 70);
        self.emit(TraceEvent::Return { context_id });
        assert(self@.events =~= before.events + note_events(i as int, note_id));
    }

    fn run_notes(&mut self, notes: &Vec<NoteId>)
        requires
            old(self).wf(),
            clock_fits(notes@.len()),
        ensures
            final(self).wf(),
            final(self)@ == (TraceView {
                tracker: after_notes(old(self)@.tracker, notes@),
                events: old(self)@.events + notes_events(notes@),
            }),
    {
        let ghost before = self@;
        let mut clock: u64 = 100;
        let mut i: usize = 0;
        assert(notes@.take(0) =~= seq![]);
        assert(before.events + notes_events(seq![]) =~= before.events);
        while i < notes.len()
            invariant
                i <= notes.len(),
                clock == clock_after_notes(i as int),
                clock_fits(notes@.len()),
                self.wf(),
                self@ == (TraceView {
                    tracker: after_notes(before.tracker, notes@.take(i as int)),
                    events: before.events + notes_events(notes@.take(i as int)),
                }),
            decreases notes.len() - i,
        {
            assert(notes@.take(i + 1).drop_last() =~= notes@.take(i as int));
            self.run_note(i, notes[i], clock);
            assert(self@.events =~= before.events + notes_events(notes@.take(i + 1)));
            clock += 100;
            i += 1;
        }
        assert(notes@.take(i as int) =~= notes@);
    }

    fn run_account(&mut self, n: u64, account_id: AccountId)
        requires
            old(self).wf(),
            clock_fits(n as nat),
        ensures
            final(self).wf(),
            final(self)@ == (TraceView {
                tracker: after_account(old(self)@.tracker, n as int, account_id),
                events: old(self)@.events + account_events(n as int, account_id),
            }),
    {
        let ghost before = self@;
        let clock: u64 = 100 + 100 * n;
        let kernel = ContextId(0);
        let number: u32 = #[verifier::truncate]
        ((n + 1) as u32);
        let context_id = ContextId(number);
        let kind = ContextKind::AccountCode { account_id };
        self.switch(context_id, kind, clock);
        self.emit(TraceEvent::ContextSwitch { from: Some(kernel), to: context_id, kind });
        self.call("account::receive_asset", false, context_id);
        self.step("account.masm", 5, context_id);
        self.switch(kernel, ContextKind::Kernel, clock);
        self.call("miden::kernel::account_vault_add_asset", true, kernel);
        self.emit(TraceEvent::Return { context_id: kernel });
        self.switch(context_id, kind, clock + 30);
        self.emit(TraceEvent::Return { context_id });
        assert(self@.events =~= before.events + account_events(n as int, account_id));
    }

    fn run_end(&mut self, n: u64, script: bool)
        requires
            old(self).wf(),
            clock_fits(n as nat),
        ensures
            final(self).wf(),
            final(self)@ == (TraceView {
                tracker: after_end(old(self)@.tracker, n as int, script),
                events: old(self)@.events + (if script {
                    script_events(n as int)
                } else {
                    seq![]
                }) + epilogue_events(),
            }),
    {
        let ghost before = self@;
        let mut clock: u64 = 150 + 100 * n;
        let kernel = ContextId(0);
        if script {
            let account_number: u32 = #[verifier::truncate]
            ((n + 1) as u32);
            let number: u32 = #[verifier::truncate]
            ((n + 2) as u32);
            let context_id = ContextId(number);
            self.switch(context_id, ContextKind::TxScript, clock);
            self.emit(
                TraceEvent::ContextSwitch {
                    from: Some(ContextId(account_number)),
                    to: context_id,
                    kind: ContextKind::TxScript,
                },
            );
            self.call("tx_script::main", false, context_id);
            self.step("tx_script.masm", 1, context_id);
            clock += 40;
            self.emit(TraceEvent::Return { context_id });
        }
        self.switch(kernel, ContextKind::Kernel, clock);
        self.call("#sys::epilogue", true, kernel);
        self.emit(TraceEvent::Return { context_id: kernel });
        assert(self@.events =~= before.events + (if script {
            script_events(n as int)
        } else {
            seq![]
        }) + epilogue_events());
    }

    /// Runs a transaction: every phase with its events and switches.
    pub fn run(&mut self, account: AccountId, notes: &Vec<NoteId>, script: bool)
        requires
            old(self).wf(),
            clock_fits(notes@.len()),
        ensures
            final(self).wf(),
            final(self)@ == traced(old(self)@, account, notes@, script),
    {
        let ghost before = self@;
        let n: u64 = notes.len() as u64;
        self.run_prologue();
        self.run_notes(notes);
        self.run_account(n, account);
        self.run_end(n, script);
        assert(self@.events =~= before.events + transaction_events(account, notes@, script));
    }
}

} // verus!
