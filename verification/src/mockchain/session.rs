//! A session: a chain is built, a transaction executed, a summary written.

use std::path::PathBuf;
use vstd::prelude::*;
use vstd::string::StringExecFns;

use crate::json::pretty_json;
use crate::json::to_pretty_text;
use crate::json::JsonObject;
use crate::json::JsonView;
use crate::list::copy_all;
use crate::mockchain::chain::built;
use crate::mockchain::chain::recorded;
use crate::mockchain::chain::ChainView;
use crate::mockchain::chain::MockChainBuilder;
use crate::mockchain::chain::MockChainState;
use crate::mockchain::context::consistent;
use crate::mockchain::context::ExecutionContextTracker;
use crate::mockchain::trace::clock_fits;
use crate::mockchain::trace::empty_trace;
use crate::mockchain::trace::event_list;
use crate::mockchain::trace::traced;
use crate::mockchain::trace::EventView;
use crate::mockchain::trace::TraceEvent;
use crate::mockchain::trace::TraceView;
use crate::mockchain::trace::TransactionTrace;
use crate::mockchain::types::MockChainConfig;
use crate::mockchain::types::NoteId;
use crate::mockchain::types::NoteView;
use crate::mockchain::types::RecordView;
use crate::mockchain::types::TransactionConfig;
use crate::mockchain::types::TransactionRecord;
use crate::text::texts;

verus! {

/// How far a session has come.
#[derive(Debug, Clone, PartialEq, Eq)]
pub enum SessionStatus {
    /// The chain is not built yet.
    Created,
    /// The chain is built; a transaction can be executed.
    ChainBuilt,
    /// A transaction was executed.
    Executed,
    /// The summary was written.
    Completed,
    /// The session failed.
    Failed(String),
}

/// The name of a status.
pub open spec fn status_name(status: SessionStatus) -> Seq<char> {
    match status {
        SessionStatus::Created => "Created"@,
        SessionStatus::ChainBuilt => "ChainBuilt"@,
        SessionStatus::Executed => "Executed"@,
        SessionStatus::Completed => "Completed"@,
        SessionStatus::Failed(_) => "Failed"@,
    }
}

/// What a [`ContractTraceSession`] holds.
pub struct SessionView {
    pub status: SessionStatus,
    /// The configuration, while the chain is not built.
    pub config: Option<MockChainConfig>,
    pub chain: Option<ChainView>,
    pub trace: TraceView,
    pub out_dir: PathBuf,
}

/// What every session keeps: it has a chain once it is built, no events before
/// a transaction, and never fails half-way.
pub open spec fn orderly(s: SessionView) -> bool {
    &&& !(s.status is Failed)
    &&& s.config is Some <==> s.status is Created
    &&& s.chain is None <==> s.status is Created
    &&& consistent(s.trace.tracker)
    &&& (s.status is Created || s.status is ChainBuilt) ==> s.trace == empty_trace()
}

/// The first of the notes that a chain does not have.
pub open spec fn missing_note(notes: Map<u64, NoteView>, wanted: Seq<NoteId>) -> Option<NoteId>
    decreases wanted.len(),
{
    if wanted.len() == 0 {
        None
    } else if !notes.contains_key(wanted[0].0) {
        Some(wanted[0])
    } else {
        missing_note(notes, wanted.drop_first())
    }
}

/// Why a transaction is refused, if it is: the state of the session, an
/// account that the chain does not have, or a note that it does not have.
pub open spec fn refusal(s: SessionView, tx: TransactionConfig) -> Option<Seq<char>> {
    if !(s.status is ChainBuilt) {
        Some("Cannot execute transaction in state "@ + status_name(s.status))
    } else if !s.chain->0.accounts.contains_key(tx.account_id.0) {
        Some("Account "@ + tx.account_id.shown() + " not found in chain"@)
    } else {
        match missing_note(s.chain->0.notes, tx.input_notes@) {
            Some(id) => Some("Note "@ + id.label() + " not found in chain"@),
            None => None,
        }
    }
}

/// The session after its chain is built.
pub open spec fn with_chain(s: SessionView) -> SessionView {
    SessionView {
        status: SessionStatus::ChainBuilt,
        config: None,
        chain: Some(built(s.config->0)),
        ..s
    }
}

/// The session after its summary is written.
pub open spec fn completed(s: SessionView) -> SessionView {
    SessionView { status: SessionStatus::Completed, ..s }
}

/// The record of a transaction that was executed.
pub open spec fn record_of(tx: TransactionConfig) -> RecordView {
    RecordView { account_id: tx.account_id, consumed_notes: tx.input_notes@, success: true }
}

/// The session after a transaction.
pub open spec fn executed(s: SessionView, tx: TransactionConfig) -> SessionView {
    SessionView {
        status: SessionStatus::Executed,
        chain: Some(recorded(s.chain->0, record_of(tx))),
        trace: traced(s.trace, tx.account_id, tx.input_notes@, tx.tx_script is Some),
        ..s
    }
}

/// The names of the kernel procedures that were called, in order.
pub open spec fn kernel_calls(events: Seq<EventView>) -> Seq<Seq<char>>
    decreases events.len(),
{
    if events.len() == 0 {
        seq![]
    } else {
        match events.last() {
            EventView::Call { function_name, is_kernel: true, .. } => kernel_calls(
                events.drop_last(),
            ).push(function_name),
            _ => kernel_calls(events.drop_last()),
        }
    }
}

/// How many of the events are context switches.
pub open spec fn switch_count(events: Seq<EventView>) -> nat
    decreases events.len(),
{
    if events.len() == 0 {
        0
    } else {
        switch_count(events.drop_last()) + if events.last() is ContextSwitch {
            1nat
        } else {
            0nat
        }
    }
}

/// The fields of the summary of a session.
pub open spec fn summary_fields(s: SessionView) -> JsonView {
    JsonView {
        texts: seq![("session_status"@, status_name(s.status))],
        numbers: seq![
            ("context_count"@, s.trace.tracker.contexts.len() as u64),
            ("event_count"@, s.trace.events.len() as u64),
            ("context_switches"@, switch_count(s.trace.events) as u64),
            ("accounts"@, (match s.chain {
                Some(c) => c.accounts.len(),
                None => 0,
            }) as u64),
            ("notes"@, (match s.chain {
                Some(c) => c.notes.len(),
                None => 0,
            }) as u64),
        ],
        flags: seq![],
        lists: seq![("kernel_calls"@, kernel_calls(s.trace.events))],
    }
}

/// A session on a simulated chain.
///
/// It is created with a configuration, builds the chain, executes one
/// transaction, and is completed when its summary is written.
pub struct ContractTraceSession {
    config: Option<MockChainConfig>,
    chain: Option<MockChainState>,
    trace: TransactionTrace,
    out_dir: PathBuf,
    status: SessionStatus,
}

impl View for ContractTraceSession {
    type V = SessionView;

    closed spec fn view(&self) -> SessionView {
        SessionView {
            status: self.status,
            config: self.config,
            chain: match self.chain {
                Some(c) => Some(c@),
                None => None,
            },
            trace: self.trace@,
            out_dir: self.out_dir,
        }
    }
}

fn find_missing_note(chain: &MockChainState, wanted: &Vec<NoteId>) -> (r: Option<NoteId>)
    ensures
        r == missing_note(chain@.notes, wanted@),
{
    let mut i: usize = 0;
    assert(wanted@.skip(0) =~= wanted@);
    while i < wanted.len()
        invariant
            i <= wanted.len(),
            missing_note(chain@.notes, wanted@) == missing_note(
                chain@.notes,
                wanted@.skip(i as int),
            ),
        decreases wanted.len() - i,
    {
        assert(wanted@.skip(i as int).drop_first() =~= wanted@.skip(i + 1));
        if chain.get_note(&wanted[i]).is_none() {
            return Some(wanted[i]);
        }
        i += 1;
    }
    None
}

fn list_kernel_calls(events: &Vec<TraceEvent>) -> (r: Vec<String>)
    ensures
        texts(r@) == kernel_calls(event_list(events@)),
{
    let ghost all = event_list(events@);
    let mut out: Vec<String> = Vec::new();
    let mut i: usize = 0;
    assert(all.take(0) =~= seq![]);
    assert(texts(out@) =~= seq![]);
    while i < events.len()
        invariant
            i <= events.len(),
            all == event_list(events@),
            texts(out@) == kernel_calls(all.take(i as int)),
        decreases events.len() - i,
    {
        assert(all.take(i + 1).drop_last() =~= all.take(i as int));
        assert(all.take(i + 1).last() == events@[i as int]@);
        if let TraceEvent::Call { function_name, is_kernel, .. } = &events[i] {
            if *is_kernel {
                let ghost earlier = out@;
                let name = function_name.clone();
                out.push(name);
                assert(texts(out@) =~= texts(earlier).push(function_name@));
            }
        }
        i += 1;
    }
    assert(all.take(i as int) =~= all);
    out
}

fn count_switches(events: &Vec<TraceEvent>) -> (r: usize)
    ensures
        r == switch_count(event_list(events@)),
{
    let ghost all = event_list(events@);
    let mut n: usize = 0;
    let mut i: usize = 0;
    assert(all.take(0) =~= seq![]);
    while i < events.len()
        invariant
            n <= i <= events.len(),
            all == event_list(events@),
            n == switch_count(all.take(i as int)),
        decreases events.len() - i,
    {
        assert(all.take(i + 1).drop_last() =~= all.take(i as int));
        assert(all.take(i + 1).last() == events@[i as int]@);
        if let TraceEvent::ContextSwitch { .. } = &events[i] {
            n += 1;
        }
        i += 1;
    }
    assert(all.take(i as int) =~= all);
    n
}

impl ContractTraceSession {
    /// The session keeps what every session keeps.
    pub open spec fn wf(&self) -> bool {
        orderly(self@)
    }

    /// A session that has not begun.
    pub fn new(config: MockChainConfig, out_dir: PathBuf) -> (r: Self)
        ensures
            r.wf(),
            r@ == (SessionView {
                status: SessionStatus::Created,
                config: Some(config),
                chain: None,
                trace: empty_trace(),
                out_dir,
            }),
    {
        ContractTraceSession {
            config: Some(config),
            chain: None,
            trace: TransactionTrace::new(),
            out_dir,
            status: SessionStatus::Created,
        }
    }

    fn status_text(&self) -> (r: &'static str)
        ensures
            r@ == status_name(self@.status),
    {
        match &self.status {
            SessionStatus::Created => "Created",
            SessionStatus::ChainBuilt => "ChainBuilt",
            SessionStatus::Executed => "Executed",
            SessionStatus::Completed => "Completed",
            SessionStatus::Failed(_) => "Failed",
        }
    }

    fn refuse(&self, words: &str) -> (r: String)
        ensures
            r@ == words@ + status_name(self@.status),
    {
        let mut message = words.to_owned();
        message.append(self.status_text());
        message
    }

    /// Builds the chain from the configuration. This succeeds exactly once, on
    /// a session that has not begun.
    pub fn build_chain(&mut self) -> (r: Result<(), String>)
        requires
            old(self).wf(),
        ensures
            final(self).wf(),
            r is Ok == (old(self)@.status is Created),
            match r {
                Ok(_) => final(self)@ == with_chain(old(self)@),
                Err(e) => final(self)@ == old(self)@ && e@ == "Cannot build chain in state "@
                    + status_name(old(self)@.status),
            },
    {
        match self.config.take() {
            Some(config) => {
                self.chain = Some(MockChainBuilder::from_config(config).build());
                self.status = SessionStatus::ChainBuilt;
                Ok(())
            },
            None => Err(self.refuse("Cannot build chain in state ")),
        }
    }

    /// Executes a transaction on the built chain. It is refused in any other
    /// state, and where the chain does not have the account or a note; then
    /// nothing changes.
    pub fn execute_transaction(&mut self, tx_config: &TransactionConfig) -> (r: Result<(), String>)
        requires
            old(self).wf(),
            clock_fits(tx_config.input_notes@.len()),
        ensures
            final(self).wf(),
            match (r, refusal(old(self)@, *tx_config)) {
                (Ok(_), None) => final(self)@ == executed(old(self)@, *tx_config),
                (Err(e), Some(message)) => final(self)@ == old(self)@ && e@ == message,
                _ => false,
            },
    {
        match &self.status {
            SessionStatus::ChainBuilt => {},
            _ => {
                return Err(self.refuse("Cannot execute transaction in state "));
            },
        }
        let ghost before = self@;
        match self.chain.take() {
            None => Err(self.refuse("Cannot execute transaction in state ")),
            Some(chain) => {
                let mut chain = chain;
                if !chain.has_account(&tx_config.account_id) {
                    let mut message = "Account ".to_owned();
                    message.append(tx_config.account_id.to_string().as_str());
                    message.append(" not found in chain");
                    self.chain = Some(chain);
                    return Err(message);
                }
                if let Some(id) = find_missing_note(&chain, &tx_config.input_notes) {
                    let mut message = "Note ".to_owned();
                    message.append(id.to_label().as_str());
                    message.append(" not found in chain");
                    self.chain = Some(chain);
                    return Err(message);
                }
                self.trace.run(
                    tx_config.account_id,
                    &tx_config.input_notes,
                    tx_config.tx_script.is_some(),
                );
                chain.record_transaction(
                    TransactionRecord {
                        account_id: tx_config.account_id,
                        consumed_notes: copy_all(&tx_config.input_notes),
                        success: true,
                    },
                );
                self.chain = Some(chain);
                self.status = SessionStatus::Executed;
                assert(self@ == executed(before, *tx_config));
                Ok(())
            },
        }
    }

    fn build_summary(&self) -> (r: JsonObject)
        requires
            self.wf(),
        ensures
            r@ == summary_fields(self@),
    {
        let (accounts, notes): (usize, usize) = match &self.chain {
            Some(c) => (c.account_count(), c.note_count()),
            None => (0, 0),
        };
        let mut texts: Vec<(String, String)> = Vec::new();
        texts.push(("session_status".to_owned(), self.status_text().to_owned()));
        let mut numbers: Vec<(String, u64)> = Vec::new();
        numbers.push(("context_count".to_owned(), self.trace.tracker.context_count() as u64));
        numbers.push(("event_count".to_owned(), self.trace.events.len() as u64));
        numbers.push(("context_switches".to_owned(), count_switches(&self.trace.events) as u64));
        numbers.push(("accounts".to_owned(), accounts as u64));
        numbers.push(("notes".to_owned(), notes as u64));
        let mut lists: Vec<(String, Vec<String>)> = Vec::new();
        lists.push(("kernel_calls".to_owned(), list_kernel_calls(&self.trace.events)));
        let r = JsonObject { texts, numbers, flags: Vec::new(), lists };
        let ghost wanted = summary_fields(self@);
        assert(event_list(self.trace.events@).len() == self.trace.events@.len());
        assert(r@.texts =~= wanted.texts);
        assert(r@.numbers =~= wanted.numbers);
        assert(r@.flags =~= wanted.flags);
        assert(r@.lists =~= wanted.lists);
        r
    }

    /// The summary of a session whose transaction was executed, as JSON text,
    /// to be written to [`ContractTraceSession::summary_file`]. It is refused
    /// in any other state.
    pub fn finalize(&self) -> (r: Result<String, String>)
        requires
            self.wf(),
        ensures
            r is Ok == (self@.status is Executed),
            match r {
                Ok(text) => text@ == pretty_json(summary_fields(self@)),
                Err(e) => e@ == "Cannot finalize in state "@ + status_name(self@.status),
            },
    {
        match &self.status {
            SessionStatus::Executed => {},
            _ => {
                return Err(self.refuse("Cannot finalize in state "));
            },
        }
        match to_pretty_text(&self.build_summary()) {
            Ok(text) => Ok(text),
            Err(e) => {
                let mut message = "JSON serialization failed: ".to_owned();
                message.append(e.as_str());
                Err(message)
            },
        }
    }

    /// The name of the file that takes the summary.
    pub fn summary_file() -> (r: &'static str)
        ensures
            r@ == "contract_trace_summary.json"@,
    {
        "contract_trace_summary.json"
    }

    /// Completes a session whose summary was written; nothing happens in any
    /// other state.
    pub fn complete(&mut self)
        requires
            old(self).wf(),
        ensures
            final(self).wf(),
            final(self)@ == if old(self)@.status is Executed {
                completed(old(self)@)
            } else {
                old(self)@
            },
    {
        if let SessionStatus::Executed = &self.status {
            self.status = SessionStatus::Completed;
        }
    }

    /// How far the session has come.
    pub fn status(&self) -> (r: &SessionStatus)
        ensures
            *r == self@.status,
    {
        &self.status
    }

    /// The chain, once it is built.
    pub fn chain(&self) -> (r: Option<&MockChainState>)
        ensures
            match r {
                Some(c) => self@.chain == Some(c@),
                None => self@.chain is None,
            },
    {
        self.chain.as_ref()
    }

    /// The switches between contexts.
    pub fn context_tracker(&self) -> (r: &ExecutionContextTracker)
        requires
            self.wf(),
        ensures
            r.wf(),
            r@ == self@.trace.tracker,
    {
        &self.trace.tracker
    }

    /// The events of the transaction.
    pub fn trace_events(&self) -> (r: &[TraceEvent])
        ensures
            event_list(r@) == self@.trace.events,
    {
        self.trace.events.as_slice()
    }

    /// The directory for the summary.
    pub fn out_dir(&self) -> (r: &PathBuf)
        ensures
            *r == self@.out_dir,
    {
        &self.out_dir
    }
}

} // verus!
