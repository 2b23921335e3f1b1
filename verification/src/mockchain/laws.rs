//! What holds of every transaction and of every session.

use vstd::prelude::*;

use crate::kernel_procs::is_kernel_name;
use crate::kernel_procs::kernel_prefixes;
use crate::mockchain::chain::built;
use crate::mockchain::chain::configured_accounts;
use crate::mockchain::chain::configured_notes;
use crate::mockchain::chain::lemma_built;
use crate::mockchain::chain::lemma_recorded;
use crate::mockchain::chain::next_block;
use crate::mockchain::chain::recorded;
use crate::mockchain::chain::with_notes;
use crate::mockchain::chain::ChainView;
use crate::mockchain::context::known;
use crate::mockchain::context::place;
use crate::mockchain::context::switched_to;
use crate::mockchain::context::untouched;
use crate::mockchain::context::ContextId;
use crate::mockchain::context::ContextKind;
use crate::mockchain::context::TrackerView;
use crate::mockchain::session::completed;
use crate::mockchain::session::executed;
use crate::mockchain::session::kernel_calls;
use crate::mockchain::session::missing_note;
use crate::mockchain::session::orderly;
use crate::mockchain::session::record_of;
use crate::mockchain::session::refusal;
use crate::mockchain::session::switch_count;
use crate::mockchain::session::with_chain;
use crate::mockchain::session::SessionStatus;
use crate::mockchain::session::SessionView;
use crate::mockchain::trace::account_events;
use crate::mockchain::trace::after_account;
use crate::mockchain::trace::after_notes;
use crate::mockchain::trace::after_transaction;
use crate::mockchain::trace::clock_after_notes;
use crate::mockchain::trace::epilogue_events;
use crate::mockchain::trace::kernel_context;
use crate::mockchain::trace::note_events;
use crate::mockchain::trace::notes_events;
use crate::mockchain::trace::numbered;
use crate::mockchain::trace::prologue_events;
use crate::mockchain::trace::script_events;
use crate::mockchain::trace::transaction_events;
use crate::mockchain::trace::EventView;
use crate::mockchain::types::AccountId;
use crate::mockchain::types::AccountView;
use crate::mockchain::types::MockChainConfig;
use crate::mockchain::types::NoteId;
use crate::mockchain::types::NoteView;
use crate::mockchain::types::RecordView;
use crate::mockchain::types::TransactionConfig;
use crate::number::decimal;

verus! {

proof fn lemma_no_note_missing(notes: Map<u64, NoteView>, wanted: Seq<NoteId>)
    requires
        missing_note(notes, wanted) is None,
    ensures
        forall|i: int| 0 <= i < wanted.len() ==> notes.contains_key((#[trigger] wanted[i]).0),
    decreases wanted.len(),
{
    if wanted.len() > 0 {
        lemma_no_note_missing(notes, wanted.drop_first());
        assert forall|i: int| 0 <= i < wanted.len() implies notes.contains_key(
            (#[trigger] wanted[i]).0,
        ) by {
            if i > 0 {
                assert(wanted.drop_first()[i - 1] == wanted[i]);
            }
        }
    }
}

/// A transaction that is executed consumes each of its notes, which the chain
/// had, and leaves every other note and all accounts as they were.
pub proof fn lemma_transaction_consumes(s: SessionView, tx: TransactionConfig)
    requires
        orderly(s),
        refusal(s, tx) is None,
    ensures
        executed(s, tx).chain->0.accounts == s.chain->0.accounts,
        executed(s, tx).chain->0.accounts.contains_key(tx.account_id.0),
        forall|i: int|
            0 <= i < tx.input_notes@.len() ==> executed(s, tx).chain->0.notes.contains_key(
                (#[trigger] tx.input_notes@[i]).0,
            ) && executed(s, tx).chain->0.notes[tx.input_notes@[i].0].consumed,
        forall|k: u64|
            s.chain->0.notes.contains_key(k) && !tx.input_notes@.contains(NoteId(k))
                ==> #[trigger] executed(s, tx).chain->0.notes[k] == s.chain->0.notes[k],
{
    lemma_no_note_missing(s.chain->0.notes, tx.input_notes@);
    lemma_recorded(s.chain->0, record_of(tx));
    assert forall|i: int| 0 <= i < tx.input_notes@.len() implies executed(
        s,
        tx,
    ).chain->0.notes.contains_key((#[trigger] tx.input_notes@[i]).0) && executed(
        s,
        tx,
    ).chain->0.notes[tx.input_notes@[i].0].consumed by {
        let id = tx.input_notes@[i];
        assert(tx.input_notes@.contains(NoteId(id.0)));
        assert(s.chain->0.notes.dom().contains(id.0));
    }
}

/// A session executes one transaction: after it, every other is refused.
pub proof fn lemma_one_transaction(s: SessionView, tx: TransactionConfig, next: TransactionConfig)
    requires
        orderly(s),
        refusal(s, tx) is None,
    ensures
        executed(s, tx).status == SessionStatus::Executed,
        refusal(executed(s, tx), next) == Some("Cannot execute transaction in state "@ + "Executed"@),
{
}

/// How many calls the events leave open.
pub open spec fn open_depth(events: Seq<EventView>) -> int
    decreases events.len(),
{
    if events.len() == 0 {
        0
    } else {
        open_depth(events.drop_last()) + match events.last() {
            EventView::Call { .. } => 1int,
            EventView::Return { .. } => -1int,
            _ => 0int,
        }
    }
}

/// Every call is closed, and none before it is opened.
pub open spec fn well_nested(events: Seq<EventView>) -> bool {
    &&& open_depth(events) == 0
    &&& forall|k: int| 0 <= k <= events.len() ==> #[trigger] open_depth(events.take(k)) >= 0
}

/// Every call is marked as one of the kernel exactly where its name says so.
pub open spec fn rightly_marked(events: Seq<EventView>) -> bool {
    forall|k: int|
        #![trigger events[k]]
        0 <= k < events.len() ==> match events[k] {
            EventView::Call { function_name, is_kernel, .. } => is_kernel == is_kernel_name(
                function_name,
            ),
            _ => true,
        }
}

proof fn lemma_joined(a: Seq<EventView>, b: Seq<EventView>)
    ensures
        open_depth(a + b) == open_depth(a) + open_depth(b),
        kernel_calls(a + b) == kernel_calls(a) + kernel_calls(b),
        switch_count(a + b) == switch_count(a) + switch_count(b),
    decreases b.len(),
{
    if b.len() == 0 {
        assert(a + b =~= a);
        assert(kernel_calls(a) + kernel_calls(b) =~= kernel_calls(a));
    } else {
        assert((a + b).drop_last() =~= a + b.drop_last());
        assert((a + b).last() == b.last());
        lemma_joined(a, b.drop_last());
        assert(kernel_calls(a + b) =~= kernel_calls(a) + kernel_calls(b));
    }
}

proof fn lemma_nested_joined(a: Seq<EventView>, b: Seq<EventView>)
    requires
        well_nested(a),
        well_nested(b),
    ensures
        well_nested(a + b),
{
    lemma_joined(a, b);
    assert forall|k: int| 0 <= k <= (a + b).len() implies #[trigger] open_depth((a + b).take(k))
        >= 0 by {
        if k <= a.len() {
            assert((a + b).take(k) =~= a.take(k));
        } else {
            assert((a + b).take(k) =~= a + b.take(k - a.len()));
            lemma_joined(a, b.take(k - a.len()));
        }
    }
}

/// One more event.
proof fn lemma_one_more(events: Seq<EventView>, e: EventView)
    ensures
        open_depth(events.push(e)) == open_depth(events) + match e {
            EventView::Call { .. } => 1int,
            EventView::Return { .. } => -1int,
            _ => 0int,
        },
        kernel_calls(events.push(e)) == match e {
            EventView::Call { function_name, is_kernel: true, .. } => kernel_calls(events).push(
                function_name,
            ),
            _ => kernel_calls(events),
        },
        switch_count(events.push(e)) == switch_count(events) + if e is ContextSwitch {
            1nat
        } else {
            0nat
        },
{
    assert(events.push(e).drop_last() =~= events);
}

/// What the first `k` of at most eight events come to.
proof fn lemma_short(events: Seq<EventView>, k: int)
    requires
        0 <= k <= events.len() <= 8,
    ensures
        k == 0 ==> events.take(k) == Seq::<EventView>::empty(),
        k > 0 ==> events.take(k) == events.take(k - 1).push(events[k - 1]),
        k == events.len() ==> events.take(k) == events,
{
    if k > 0 {
        assert(events.take(k) =~= events.take(k - 1).push(events[k - 1]));
        lemma_one_more(events.take(k - 1), events[k - 1]);
    } else {
        assert(events.take(k) =~= Seq::<EventView>::empty());
    }
    if k == events.len() {
        assert(events.take(k) =~= events);
    }
}

/// Adds up a short list of events, one by one.
proof fn lemma_added_up(events: Seq<EventView>, k: int)
    requires
        0 <= k <= events.len() <= 8,
    ensures
        forall|j: int|
            0 < j <= k ==> {
                &&& #[trigger] open_depth(events.take(j)) == open_depth(events.take(j - 1))
                    + match events[j - 1] {
                    EventView::Call { .. } => 1int,
                    EventView::Return { .. } => -1int,
                    _ => 0int,
                }
                &&& kernel_calls(events.take(j)) == match events[j - 1] {
                    EventView::Call { function_name, is_kernel: true, .. } => kernel_calls(
                        events.take(j - 1),
                    ).push(function_name),
                    _ => kernel_calls(events.take(j - 1)),
                }
                &&& switch_count(events.take(j)) == switch_count(events.take(j - 1))
                    + if events[j - 1] is ContextSwitch {
                    1nat
                } else {
                    0nat
                }
            },
        open_depth(events.take(0)) == 0,
        kernel_calls(events.take(0)) == Seq::<Seq<char>>::empty(),
        switch_count(events.take(0)) == 0,
    decreases k,
{
    if k > 0 {
        lemma_added_up(events, k - 1);
        lemma_short(events, k);
        lemma_one_more(events.take(k - 1), events[k - 1]);
    }
}

proof fn lemma_prologue()
    ensures
        well_nested(prologue_events()),
        kernel_calls(prologue_events()) == seq!["#sys::prologue"@],
        switch_count(prologue_events()) == 1,
{
    let e = prologue_events();
    lemma_added_up(e, 3);
    assert(e.take(3) =~= e);
    assert(open_depth(e.take(1)) == 0 && open_depth(e.take(2)) == 1 && open_depth(e.take(3)) == 0);
    assert(kernel_calls(e) =~= seq!["#sys::prologue"@]);
}

proof fn lemma_note(i: int, id: NoteId)
    ensures
        well_nested(note_events(i, id)),
        kernel_calls(note_events(i, id)) == seq!["miden::note::get_inputs"@],
        switch_count(note_events(i, id)) == 2,
{
    let e = note_events(i, id);
    lemma_added_up(e, 8);
    assert(e.take(8) =~= e);
    assert(open_depth(e.take(1)) == 0 && open_depth(e.take(2)) == 1 && open_depth(e.take(3)) == 1);
    assert(open_depth(e.take(4)) == 1 && open_depth(e.take(5)) == 1 && open_depth(e.take(6)) == 2);
    assert(open_depth(e.take(7)) == 1 && open_depth(e.take(8)) == 0);
    assert(kernel_calls(e.take(5)) == Seq::<Seq<char>>::empty());
    assert(kernel_calls(e) =~= seq!["miden::note::get_inputs"@]);
    assert(switch_count(e.take(4)) == 1 && switch_count(e.take(5)) == 2);
    assert forall|k: int| 0 <= k <= e.len() implies #[trigger] open_depth(e.take(k)) >= 0 by {
        assert(k == 0 || k == 1 || k == 2 || k == 3 || k == 4 || k == 5 || k == 6 || k == 7 || k
            == 8);
    }
}

proof fn lemma_account(n: int, id: AccountId)
    ensures
        well_nested(account_events(n, id)),
        kernel_calls(account_events(n, id)) == seq!["miden::kernel::account_vault_add_asset"@],
        switch_count(account_events(n, id)) == 1,
{
    let e = account_events(n, id);
    lemma_added_up(e, 6);
    assert(e.take(6) =~= e);
    assert(open_depth(e.take(1)) == 0 && open_depth(e.take(2)) == 1 && open_depth(e.take(3)) == 1);
    assert(open_depth(e.take(4)) == 2 && open_depth(e.take(5)) == 1 && open_depth(e.take(6)) == 0);
    assert(kernel_calls(e.take(3)) == Seq::<Seq<char>>::empty());
    assert(kernel_calls(e) =~= seq!["miden::kernel::account_vault_add_asset"@]);
    assert forall|k: int| 0 <= k <= e.len() implies #[trigger] open_depth(e.take(k)) >= 0 by {
        assert(k == 0 || k == 1 || k == 2 || k == 3 || k == 4 || k == 5 || k == 6);
    }
}

proof fn lemma_script(n: int)
    ensures
        well_nested(script_events(n)),
        kernel_calls(script_events(n)) == Seq::<Seq<char>>::empty(),
        switch_count(script_events(n)) == 1,
{
    let e = script_events(n);
    lemma_added_up(e, 4);
    assert(e.take(4) =~= e);
    assert(open_depth(e.take(1)) == 0 && open_depth(e.take(2)) == 1 && open_depth(e.take(3)) == 1);
    assert(open_depth(e.take(4)) == 0);
    assert(kernel_calls(e.take(2)) == Seq::<Seq<char>>::empty());
    assert forall|k: int| 0 <= k <= e.len() implies #[trigger] open_depth(e.take(k)) >= 0 by {
        assert(k == 0 || k == 1 || k == 2 || k == 3 || k == 4);
    }
}

proof fn lemma_epilogue()
    ensures
        well_nested(epilogue_events()),
        kernel_calls(epilogue_events()) == seq!["#sys::epilogue"@],
        switch_count(epilogue_events()) == 0,
{
    let e = epilogue_events();
    lemma_added_up(e, 2);
    assert(e.take(2) =~= e);
    assert(open_depth(e.take(1)) == 1 && open_depth(e.take(2)) == 0);
    assert(kernel_calls(e) =~= seq!["#sys::epilogue"@]);
}

/// `n` times the kernel call of a note script.
pub open spec fn note_calls(n: nat) -> Seq<Seq<char>> {
    Seq::new(n, |i: int| "miden::note::get_inputs"@)
}

proof fn lemma_notes(notes: Seq<NoteId>)
    ensures
        well_nested(notes_events(notes)),
        kernel_calls(notes_events(notes)) == note_calls(notes.len()),
        switch_count(notes_events(notes)) == 2 * notes.len(),
        notes_events(notes).len() == 8 * notes.len(),
    decreases notes.len(),
{
    if notes.len() == 0 {
        let none = Seq::<EventView>::empty();
        assert(forall|k: int| 0 <= k <= none.len() ==> #[trigger] none.take(k) =~= none);
        assert(kernel_calls(none) =~= note_calls(0));
    } else {
        let earlier = notes.drop_last();
        lemma_notes(earlier);
        lemma_note(notes.len() - 1, notes.last());
        lemma_nested_joined(notes_events(earlier), note_events(notes.len() - 1, notes.last()));
        lemma_joined(notes_events(earlier), note_events(notes.len() - 1, notes.last()));
        assert(kernel_calls(notes_events(notes)) =~= note_calls(notes.len()));
    }
}

/// The events of a transaction close every call that they open. The kernel is
/// called for the prologue, once for each note, once for the account, and for
/// the epilogue. There is one switch to the kernel, two for each note, one for
/// the account and one for the script, if there is one.
pub proof fn lemma_transaction_events(account: AccountId, notes: Seq<NoteId>, script: bool)
    ensures
        well_nested(transaction_events(account, notes, script)),
        kernel_calls(transaction_events(account, notes, script)) == seq!["#sys::prologue"@]
            + note_calls(notes.len()) + seq![
            "miden::kernel::account_vault_add_asset"@,
            "#sys::epilogue"@,
        ],
        switch_count(transaction_events(account, notes, script)) == 2 + 2 * notes.len() + (
        if script {
            1int
        } else {
            0int
        }),
        transaction_events(account, notes, script).len() == 11 + 8 * notes.len() + (if script {
            4int
        } else {
            0int
        }),
{
    let n = notes.len() as int;
    let a = prologue_events();
    let b = notes_events(notes);
    let c = account_events(n, account);
    let d = if script {
        script_events(n)
    } else {
        seq![]
    };
    let e = epilogue_events();
    lemma_prologue();
    lemma_notes(notes);
    lemma_account(n, account);
    if script {
        lemma_script(n);
    } else {
        lemma_notes(Seq::empty());
        assert(d =~= notes_events(Seq::empty()));
        assert(note_calls(0) =~= Seq::empty());
    }
    lemma_epilogue();
    lemma_nested_joined(a, b);
    lemma_nested_joined(a + b, c);
    lemma_nested_joined(a + b + c, d);
    lemma_nested_joined(a + b + c + d, e);
    lemma_joined(a, b);
    lemma_joined(a + b, c);
    lemma_joined(a + b + c, d);
    lemma_joined(a + b + c + d, e);
    assert(kernel_calls(a + b + c + d + e) =~= seq!["#sys::prologue"@] + note_calls(notes.len())
        + seq!["miden::kernel::account_vault_add_asset"@, "#sys::epilogue"@]);
}

/// No namespace of the kernel begins with another letter than these.
proof fn lemma_no_kernel_name(name: Seq<char>)
    requires
        name.len() > 0,
        name[0] != 'm' && name[0] != 'k' && name[0] != '#',
    ensures
        !is_kernel_name(name),
{
    reveal_strlit("miden::kernel::");
    reveal_strlit("kernel::");
    reveal_strlit("miden::account::");
    reveal_strlit("miden::note::");
    reveal_strlit("miden::tx::");
    reveal_strlit("miden::asset::");
    reveal_strlit("miden::faucet::");
    reveal_strlit("miden::sat::internal::");
    reveal_strlit("#sys::");
    reveal_strlit("#kernel::");
    assert forall|i: int| 0 <= i < kernel_prefixes().len() implies !(
    #[trigger] kernel_prefixes()[i]).is_prefix_of(name) by {
        let p = kernel_prefixes()[i];
        assert(p.len() > 0 && (p[0] == 'm' || p[0] == 'k' || p[0] == '#'));
        if p.is_prefix_of(name) {
            assert(name.subrange(0, p.len() as int)[0] == name[0]);
        }
    }
}

proof fn lemma_kernel_name(i: int, name: Seq<char>)
    requires
        0 <= i < kernel_prefixes().len(),
        kernel_prefixes()[i].is_prefix_of(name),
    ensures
        is_kernel_name(name),
{
}

proof fn lemma_names()
    ensures
        is_kernel_name("#sys::prologue"@),
        is_kernel_name("#sys::epilogue"@),
        is_kernel_name("miden::note::get_inputs"@),
        is_kernel_name("miden::kernel::account_vault_add_asset"@),
        !is_kernel_name("account::receive_asset"@),
        !is_kernel_name("tx_script::main"@),
        forall|n: int| !is_kernel_name(#[trigger] ("note_script_"@ + decimal(n))),
{
    reveal_strlit("#sys::");
    reveal_strlit("#sys::prologue");
    reveal_strlit("#sys::epilogue");
    reveal_strlit("miden::note::");
    reveal_strlit("miden::note::get_inputs");
    reveal_strlit("miden::kernel::");
    reveal_strlit("miden::kernel::account_vault_add_asset");
    reveal_strlit("account::receive_asset");
    reveal_strlit("tx_script::main");
    reveal_strlit("note_script_");
    assert("#sys::"@ =~= "#sys::prologue"@.subrange(0, "#sys::"@.len() as int));
    assert("#sys::"@ =~= "#sys::epilogue"@.subrange(0, "#sys::"@.len() as int));
    assert("miden::note::"@ =~= "miden::note::get_inputs"@.subrange(
        0,
        "miden::note::"@.len() as int,
    ));
    assert("miden::kernel::"@ =~= "miden::kernel::account_vault_add_asset"@.subrange(
        0,
        "miden::kernel::"@.len() as int,
    ));
    lemma_kernel_name(8, "#sys::prologue"@);
    lemma_kernel_name(8, "#sys::epilogue"@);
    lemma_kernel_name(3, "miden::note::get_inputs"@);
    lemma_kernel_name(0, "miden::kernel::account_vault_add_asset"@);
    lemma_no_kernel_name("account::receive_asset"@);
    lemma_no_kernel_name("tx_script::main"@);
    assert forall|n: int| !is_kernel_name(#[trigger] ("note_script_"@ + decimal(n))) by {
        lemma_no_kernel_name("note_script_"@ + decimal(n));
    }
}

proof fn lemma_marked_joined(a: Seq<EventView>, b: Seq<EventView>)
    requires
        rightly_marked(a),
        rightly_marked(b),
    ensures
        rightly_marked(a + b),
{
    let all = a + b;
    assert forall|k: int| 0 <= k < all.len() implies match #[trigger] all[k] {
        EventView::Call { function_name, is_kernel, .. } => is_kernel == is_kernel_name(
            function_name,
        ),
        _ => true,
    } by {
        if k < a.len() {
            assert(all[k] == a[k]);
        } else {
            assert(all[k] == b[k - a.len()]);
        }
    }
}

proof fn lemma_notes_marked(notes: Seq<NoteId>)
    ensures
        rightly_marked(notes_events(notes)),
    decreases notes.len(),
{
    if notes.len() > 0 {
        lemma_notes_marked(notes.drop_last());
        lemma_names();
        let last = note_events(notes.len() - 1, notes.last());
        assert(rightly_marked(last));
        lemma_marked_joined(notes_events(notes.drop_last()), last);
    }
}

/// In the events of a transaction a call is marked as one of the kernel exactly
/// where the name of the procedure lies in a namespace of the kernel.
pub proof fn lemma_kernel_marks(account: AccountId, notes: Seq<NoteId>, script: bool)
    ensures
        rightly_marked(transaction_events(account, notes, script)),
{
    let n = notes.len() as int;
    lemma_names();
    lemma_notes_marked(notes);
    let a = prologue_events();
    let b = notes_events(notes);
    let c = account_events(n, account);
    let d = if script {
        script_events(n)
    } else {
        seq![]
    };
    let e = epilogue_events();
    assert(rightly_marked(a));
    assert(rightly_marked(c));
    assert(rightly_marked(d));
    assert(rightly_marked(e));
    lemma_marked_joined(a, b);
    lemma_marked_joined(a + b, c);
    lemma_marked_joined(a + b + c, d);
    lemma_marked_joined(a + b + c + d, e);
}

/// The kind of the context with a number, in a transaction.
pub open spec fn phase_kind(account: AccountId, notes: Seq<NoteId>, i: int) -> ContextKind {
    if i == 0 {
        ContextKind::Kernel
    } else if i <= notes.len() {
        ContextKind::NoteScript { note_id: notes[i - 1] }
    } else if i == notes.len() + 1 {
        ContextKind::AccountCode { account_id: account }
    } else {
        ContextKind::TxScript
    }
}

/// The tracker knows the contexts below `k`, each with its kind.
spec fn knows(t: TrackerView, account: AccountId, notes: Seq<NoteId>, k: int) -> bool {
    &&& t.contexts.len() == k
    &&& k <= u32::MAX
    &&& forall|i: int|
        0 <= i < k ==> (#[trigger] t.contexts[i]).id == numbered(i) && t.contexts[i].kind
            == phase_kind(account, notes, i)
}

proof fn lemma_switch_known(
    t: TrackerView,
    account: AccountId,
    notes: Seq<NoteId>,
    k: int,
    i: int,
    kind: ContextKind,
    clock: u64,
)
    requires
        knows(t, account, notes, k),
        0 <= i < k,
    ensures
        knows(switched_to(t, numbered(i), kind, clock), account, notes, k),
{
    assert(t.contexts[i].id == numbered(i));
    assert(known(t.contexts, numbered(i)));
    let p = place(t.contexts, numbered(i));
    assert(t.contexts[p].id == numbered(i));
}

proof fn lemma_switch_new(
    t: TrackerView,
    account: AccountId,
    notes: Seq<NoteId>,
    k: int,
    clock: u64,
)
    requires
        knows(t, account, notes, k),
        0 <= k < u32::MAX,
        t.current != Some(numbered(k)),
    ensures
        knows(
            switched_to(t, numbered(k), phase_kind(account, notes, k), clock),
            account,
            notes,
            k + 1,
        ),
{
    assert forall|i: int| 0 <= i < k implies (#[trigger] t.contexts[i]).id != numbered(k) by {
        assert(t.contexts[i].id == numbered(i));
    }
    assert(!known(t.contexts, numbered(k)));
}

/// The current context is one of those that are known.
spec fn current_below(t: TrackerView, k: int) -> bool {
    exists|i: int| 0 <= i < k && t.current == Some(#[trigger] numbered(i))
}

proof fn lemma_current_below(t: TrackerView, k: int)
    requires
        current_below(t, k),
        0 <= k < u32::MAX,
    ensures
        t.current != Some(numbered(k)),
{
}

proof fn lemma_knows_notes(t: TrackerView, account: AccountId, notes: Seq<NoteId>, n: int)
    requires
        knows(t, account, notes, 1),
        current_below(t, 1),
        0 <= n <= notes.len(),
        notes.len() + 3 <= u32::MAX,
    ensures
        knows(after_notes(t, notes.take(n)), account, notes, n + 1),
        current_below(after_notes(t, notes.take(n)), n + 1),
    decreases n,
{
    if n > 0 {
        lemma_knows_notes(t, account, notes, n - 1);
        let before = after_notes(t, notes.take(n - 1));
        assert(notes.take(n).drop_last() =~= notes.take(n - 1));
        assert(notes.take(n).last() == notes[n - 1]);
        let kind = ContextKind::NoteScript { note_id: notes[n - 1] };
        assert(kind == phase_kind(account, notes, n));
        let clock = clock_after_notes(n - 1);
        lemma_current_below(before, n);
        lemma_switch_new(before, account, notes, n, clock as u64);
        let in_note = switched_to(before, numbered(n), kind, clock as u64);
        assert(numbered(0) == kernel_context());
        lemma_switch_known(
            in_note,
            account,
            notes,
            n + 1,
            0,
            ContextKind::Kernel,
            (clock + 50) as u64,
        );
        let in_kernel = switched_to(
            in_note,
            kernel_context(),
            ContextKind::Kernel,
            (clock + 50) as u64,
        );
        lemma_switch_known(in_kernel, account, notes, n + 1, n, kind, (clock + 70) as u64);
        assert(after_notes(t, notes.take(n)) == switched_to(
            in_kernel,
            numbered(n),
            kind,
            (clock + 70) as u64,
        ));
        assert(after_notes(t, notes.take(n)).current == Some(numbered(n)));
    } else {
        assert(notes.take(0) =~= seq![]);
    }
}

/// A transaction runs in one context for the kernel, one for each note in
/// order, one for the account and one for the script, if there is one. It ends
/// in the kernel.
pub proof fn lemma_transaction_contexts(account: AccountId, notes: Seq<NoteId>, script: bool)
    requires
        notes.len() + 3 <= u32::MAX,
    ensures
        after_transaction(untouched(), account, notes, script).contexts.len() == notes.len() + 2 + (
        if script {
            1int
        } else {
            0int
        }),
        forall|i: int|
            0 <= i < after_transaction(untouched(), account, notes, script).contexts.len() ==> (
            #[trigger] after_transaction(untouched(), account, notes, script).contexts[i]).id
                == numbered(i) && after_transaction(
                untouched(),
                account,
                notes,
                script,
            ).contexts[i].kind == phase_kind(account, notes, i),
        after_transaction(untouched(), account, notes, script).current == Some(kernel_context()),
{
    let n = notes.len() as int;
    let none = untouched();
    assert(numbered(0) == kernel_context());
    assert(knows(none, account, notes, 0));
    lemma_switch_new(none, account, notes, 0, 0);
    let begun = switched_to(none, kernel_context(), ContextKind::Kernel, 0);
    assert(begun.current == Some(numbered(0)));
    lemma_knows_notes(begun, account, notes, n);
    assert(notes.take(n) =~= notes);
    let noted = after_notes(begun, notes);
    let clock = clock_after_notes(n);
    let kind = ContextKind::AccountCode { account_id: account };
    assert(kind == phase_kind(account, notes, n + 1));
    lemma_current_below(noted, n + 1);
    lemma_switch_new(noted, account, notes, n + 1, clock as u64);
    let in_account = switched_to(noted, numbered(n + 1), kind, clock as u64);
    lemma_switch_known(
        in_account,
        account,
        notes,
        n + 2,
        0,
        ContextKind::Kernel,
        clock as u64,
    );
    let in_kernel = switched_to(in_account, kernel_context(), ContextKind::Kernel, clock as u64);
    lemma_switch_known(in_kernel, account, notes, n + 2, n + 1, kind, (clock + 30) as u64);
    let accounted = after_account(noted, n, account);
    assert(accounted.current == Some(numbered(n + 1)));
    let end = clock + 50;
    if script {
        assert(phase_kind(account, notes, n + 2) == ContextKind::TxScript);
        assert(current_below(accounted, n + 2));
        lemma_current_below(accounted, n + 2);
        lemma_switch_new(accounted, account, notes, n + 2, end as u64);
        let in_script = switched_to(accounted, numbered(n + 2), ContextKind::TxScript, end as u64);
        lemma_switch_known(
            in_script,
            account,
            notes,
            n + 3,
            0,
            ContextKind::Kernel,
            (end + 40) as u64,
        );
    } else {
        lemma_switch_known(
            accounted,
            account,
            notes,
            n + 2,
            0,
            ContextKind::Kernel,
            end as u64,
        );
    }
}

/// The contexts of the calls that the events leave open, the innermost last;
/// `None` where a return does not have the context of the call that it closes.
pub open spec fn open_contexts(events: Seq<EventView>) -> Option<Seq<ContextId>>
    decreases events.len(),
{
    if events.len() == 0 {
        Some(seq![])
    } else {
        match (open_contexts(events.drop_last()), events.last()) {
            (None, _) => None,
            (Some(open), EventView::Call { context_id, .. }) => Some(open.push(context_id)),
            (Some(open), EventView::Return { context_id }) => if open.len() > 0 && open.last()
                == context_id {
                Some(open.drop_last())
            } else {
                None
            },
            (Some(open), _) => Some(open),
        }
    }
}

/// The names of the procedures that are called, in order.
pub open spec fn called(events: Seq<EventView>) -> Seq<Seq<char>>
    decreases events.len(),
{
    if events.len() == 0 {
        seq![]
    } else {
        match events.last() {
            EventView::Call { function_name, .. } => called(events.drop_last()).push(
                function_name,
            ),
            _ => called(events.drop_last()),
        }
    }
}

/// A call is marked as one of the kernel exactly in the context of the kernel.
pub open spec fn marked_by_context(events: Seq<EventView>) -> bool {
    forall|k: int|
        #![trigger events[k]]
        0 <= k < events.len() ==> match events[k] {
            EventView::Call { is_kernel, context_id, .. } => is_kernel == (context_id
                == kernel_context()),
            _ => true,
        }
}

/// The events close every call that they open, in its context.
spec fn closed_up(events: Seq<EventView>) -> bool {
    open_contexts(events) == Some(Seq::<ContextId>::empty())
}

proof fn lemma_calls_joined(a: Seq<EventView>, b: Seq<EventView>)
    ensures
        called(a + b) == called(a) + called(b),
        closed_up(a) ==> open_contexts(a + b) == open_contexts(b),
    decreases b.len(),
{
    if b.len() == 0 {
        assert(a + b =~= a);
        assert(called(a) + called(b) =~= called(a));
    } else {
        assert((a + b).drop_last() =~= a + b.drop_last());
        assert((a + b).last() == b.last());
        lemma_calls_joined(a, b.drop_last());
        assert(called(a + b) =~= called(a) + called(b));
    }
}

/// Follows the calls of a short list of events, one by one.
proof fn lemma_calls_followed(events: Seq<EventView>, k: int)
    requires
        0 <= k <= events.len() <= 8,
    ensures
        forall|j: int|
            0 < j <= k ==> {
                &&& #[trigger] open_contexts(events.take(j)) == (match (
                    open_contexts(events.take(j - 1)),
                    events[j - 1],
                ) {
                    (None, _) => None,
                    (Some(open), EventView::Call { context_id, .. }) => Some(open.push(context_id)),
                    (Some(open), EventView::Return { context_id }) => if open.len() > 0
                        && open.last() == context_id {
                        Some(open.drop_last())
                    } else {
                        None
                    },
                    (Some(open), _) => Some(open),
                })
                &&& called(events.take(j)) == (match events[j - 1] {
                    EventView::Call { function_name, .. } => called(events.take(j - 1)).push(
                        function_name,
                    ),
                    _ => called(events.take(j - 1)),
                })
            },
        open_contexts(events.take(0)) == Some(Seq::<ContextId>::empty()),
        called(events.take(0)) == Seq::<Seq<char>>::empty(),
        events.take(events.len() as int) == events,
    decreases k,
{
    assert(events.take(events.len() as int) =~= events);
    if k > 0 {
        lemma_calls_followed(events, k - 1);
        assert(events.take(k).drop_last() =~= events.take(k - 1));
    }
}

proof fn lemma_note_calls(i: int, id: NoteId)
    ensures
        closed_up(note_events(i, id)),
        called(note_events(i, id)) == seq![
            "note_script_"@ + decimal(id.0 as int),
            "miden::note::get_inputs"@,
        ],
{
    let e = note_events(i, id);
    let c = numbered(i + 1);
    lemma_calls_followed(e, 8);
    let none = Seq::<ContextId>::empty();
    assert(open_contexts(e.take(1)) == Some(none));
    assert(open_contexts(e.take(2)) == Some(none.push(c)));
    assert(open_contexts(e.take(3)) == Some(none.push(c)));
    assert(open_contexts(e.take(4)) == Some(none.push(c)));
    assert(open_contexts(e.take(5)) == Some(none.push(c)));
    assert(open_contexts(e.take(6)) == Some(none.push(c).push(kernel_context())));
    assert(none.push(c).push(kernel_context()).drop_last() =~= none.push(c));
    assert(open_contexts(e.take(7)) == Some(none.push(c)));
    assert(none.push(c).drop_last() =~= none);
    assert(open_contexts(e.take(8)) == Some(none));
    assert(called(e.take(1)) == Seq::<Seq<char>>::empty());
    assert(called(e.take(3)) == called(e.take(2)));
    assert(called(e.take(5)) == called(e.take(4)));
    assert(called(e) =~= seq![
        "note_script_"@ + decimal(id.0 as int),
        "miden::note::get_inputs"@,
    ]);
}

proof fn lemma_notes_calls(notes: Seq<NoteId>)
    ensures
        closed_up(notes_events(notes)),
        !called(notes_events(notes)).contains("tx_script::main"@),
    decreases notes.len(),
{
    if notes.len() > 0 {
        let earlier = notes_events(notes.drop_last());
        let id = notes.last();
        let last = note_events(notes.len() - 1, id);
        lemma_notes_calls(notes.drop_last());
        lemma_note_calls(notes.len() - 1, id);
        lemma_calls_joined(earlier, last);
        reveal_strlit("tx_script::main");
        reveal_strlit("note_script_");
        reveal_strlit("miden::note::get_inputs");
        assert(("note_script_"@ + decimal(id.0 as int))[0] == 'n');
        let all = called(notes_events(notes));
        if all.contains("tx_script::main"@) {
            let k = all.index_of("tx_script::main"@);
            if k < called(earlier).len() {
                assert(called(earlier)[k] == all[k]);
            } else {
                assert(called(last)[k - called(earlier).len()] == all[k]);
            }
        }
    }
}

proof fn lemma_account_calls(n: int, id: AccountId)
    ensures
        closed_up(account_events(n, id)),
        called(account_events(n, id)) == seq![
            "account::receive_asset"@,
            "miden::kernel::account_vault_add_asset"@,
        ],
{
    let e = account_events(n, id);
    let c = numbered(n + 1);
    lemma_calls_followed(e, 6);
    let none = Seq::<ContextId>::empty();
    assert(open_contexts(e.take(1)) == Some(none));
    assert(open_contexts(e.take(2)) == Some(none.push(c)));
    assert(open_contexts(e.take(3)) == Some(none.push(c)));
    assert(open_contexts(e.take(4)) == Some(none.push(c).push(kernel_context())));
    assert(none.push(c).push(kernel_context()).drop_last() =~= none.push(c));
    assert(open_contexts(e.take(5)) == Some(none.push(c)));
    assert(none.push(c).drop_last() =~= none);
    assert(open_contexts(e.take(6)) == Some(none));
    assert(called(e.take(1)) == Seq::<Seq<char>>::empty());
    assert(called(e.take(3)) == called(e.take(2)));
    assert(called(e.take(5)) == called(e.take(4)));
    assert(called(e) =~= seq![
        "account::receive_asset"@,
        "miden::kernel::account_vault_add_asset"@,
    ]);
}

proof fn lemma_script_calls(n: int)
    ensures
        closed_up(script_events(n)),
        called(script_events(n)) == seq!["tx_script::main"@],
{
    let e = script_events(n);
    lemma_calls_followed(e, 4);
    let none = Seq::<ContextId>::empty();
    assert(open_contexts(e.take(1)) == Some(none));
    assert(open_contexts(e.take(2)) == Some(none.push(numbered(n + 2))));
    assert(open_contexts(e.take(3)) == Some(none.push(numbered(n + 2))));
    assert(none.push(numbered(n + 2)).drop_last() =~= none);
    assert(called(e.take(1)) == Seq::<Seq<char>>::empty());
    assert(called(e.take(3)) == called(e.take(2)));
    assert(called(e) =~= seq!["tx_script::main"@]);
}

proof fn lemma_frame_calls()
    ensures
        closed_up(prologue_events()),
        called(prologue_events()) == seq!["#sys::prologue"@],
        closed_up(epilogue_events()),
        called(epilogue_events()) == seq!["#sys::epilogue"@],
{
    let none = Seq::<ContextId>::empty();
    assert(none.push(kernel_context()).drop_last() =~= none);
    let a = prologue_events();
    lemma_calls_followed(a, 3);
    assert(open_contexts(a.take(1)) == Some(none));
    assert(open_contexts(a.take(2)) == Some(none.push(kernel_context())));
    assert(called(a.take(1)) == Seq::<Seq<char>>::empty());
    assert(called(a) =~= seq!["#sys::prologue"@]);
    let e = epilogue_events();
    lemma_calls_followed(e, 2);
    assert(open_contexts(e.take(1)) == Some(none.push(kernel_context())));
    assert(called(e) =~= seq!["#sys::epilogue"@]);
}

/// In the events of a transaction every return has the context of the call that
/// it closes, and no call stays open. The first call is the prologue, the last
/// one the epilogue. The script is called exactly where there is one.
pub proof fn lemma_transaction_calls(account: AccountId, notes: Seq<NoteId>, script: bool)
    ensures
        open_contexts(transaction_events(account, notes, script)) == Some(
            Seq::<ContextId>::empty(),
        ),
        called(transaction_events(account, notes, script)).len() > 0,
        called(transaction_events(account, notes, script)).first() == "#sys::prologue"@,
        called(transaction_events(account, notes, script)).last() == "#sys::epilogue"@,
        called(transaction_events(account, notes, script)).contains("tx_script::main"@) == script,
{
    let n = notes.len() as int;
    let a = prologue_events();
    let b = notes_events(notes);
    let c = account_events(n, account);
    let d = if script {
        script_events(n)
    } else {
        seq![]
    };
    let e = epilogue_events();
    lemma_frame_calls();
    lemma_notes_calls(notes);
    lemma_account_calls(n, account);
    if script {
        lemma_script_calls(n);
    }
    lemma_calls_joined(a, b);
    lemma_calls_joined(a + b, c);
    lemma_calls_joined(a + b + c, d);
    lemma_calls_joined(a + b + c + d, e);
    let main = "tx_script::main"@;
    reveal_strlit("tx_script::main");
    reveal_strlit("#sys::prologue");
    reveal_strlit("#sys::epilogue");
    reveal_strlit("account::receive_asset");
    reveal_strlit("miden::kernel::account_vault_add_asset");
    let all = called(a + b + c + d + e);
    assert(all == called(a) + called(b) + called(c) + called(d) + called(e));
    if script {
        assert(called(d)[0] == main);
        let k = called(a).len() + called(b).len() + called(c).len();
        assert(all[k as int] == called(d)[0]);
    } else if all.contains(main) {
        let k = all.index_of(main);
        let p = called(a).len();
        let q = p + called(b).len();
        if k < p {
            assert(all[k] == called(a)[k]);
        } else if k < q {
            assert(all[k] == called(b)[k - p]);
            assert(called(b).contains(main));
        } else if k < q + called(c).len() {
            assert(all[k] == called(c)[k - q]);
        } else {
            assert(all[k] == called(e)[k - q - called(c).len()]);
        }
    }
}

proof fn lemma_contexts_joined(a: Seq<EventView>, b: Seq<EventView>)
    requires
        marked_by_context(a),
        marked_by_context(b),
    ensures
        marked_by_context(a + b),
{
    let all = a + b;
    assert forall|k: int| 0 <= k < all.len() implies match #[trigger] all[k] {
        EventView::Call { is_kernel, context_id, .. } => is_kernel == (context_id
            == kernel_context()),
        _ => true,
    } by {
        if k < a.len() {
            assert(all[k] == a[k]);
        } else {
            assert(all[k] == b[k - a.len()]);
        }
    }
}

proof fn lemma_notes_contexts(notes: Seq<NoteId>)
    requires
        notes.len() <= u32::MAX,
    ensures
        marked_by_context(notes_events(notes)),
    decreases notes.len(),
{
    if notes.len() > 0 {
        lemma_notes_contexts(notes.drop_last());
        let last = note_events(notes.len() - 1, notes.last());
        assert(marked_by_context(last));
        lemma_contexts_joined(notes_events(notes.drop_last()), last);
    }
}

/// In the events of a transaction a call is marked as one of the kernel exactly
/// where it runs in the context of the kernel. The contexts have to be counted
/// without an overflow.
pub proof fn lemma_kernel_contexts(account: AccountId, notes: Seq<NoteId>, script: bool)
    requires
        notes.len() + 2 <= u32::MAX,
    ensures
        marked_by_context(transaction_events(account, notes, script)),
{
    let n = notes.len() as int;
    lemma_notes_contexts(notes);
    let a = prologue_events();
    let b = notes_events(notes);
    let c = account_events(n, account);
    let d = if script {
        script_events(n)
    } else {
        seq![]
    };
    let e = epilogue_events();
    assert(marked_by_context(a));
    assert(marked_by_context(c));
    assert(marked_by_context(d));
    assert(marked_by_context(e));
    lemma_contexts_joined(a, b);
    lemma_contexts_joined(a + b, c);
    lemma_contexts_joined(a + b + c, d);
    lemma_contexts_joined(a + b + c + d, e);
}

/// What happens to a chain: a transaction is recorded, or it moves on to the
/// next block number.
pub enum ChainStep {
    Record(RecordView),
    Block,
}

/// A chain after some steps.
pub open spec fn after_steps(chain: ChainView, steps: Seq<ChainStep>) -> ChainView
    decreases steps.len(),
{
    if steps.len() == 0 {
        chain
    } else {
        let earlier = after_steps(chain, steps.drop_last());
        match steps.last() {
            ChainStep::Record(record) => recorded(earlier, record),
            ChainStep::Block => next_block(earlier),
        }
    }
}

/// One of the steps consumes a note.
pub open spec fn consumes(steps: Seq<ChainStep>, key: u64) -> bool {
    exists|i: int|
        0 <= i < steps.len() && (#[trigger] steps[i] matches ChainStep::Record(record)
            && record.consumed_notes.contains(NoteId(key)))
}

/// The ids of the accounts that a configuration asks for.
pub open spec fn configured_ids(c: MockChainConfig) -> Set<u64> {
    configured_accounts(c).map_values(|a: AccountView| a.id.0).to_set()
}

proof fn lemma_after_steps(chain: ChainView, steps: Seq<ChainStep>, key: u64)
    ensures
        after_steps(chain, steps).config == chain.config,
        after_steps(chain, steps).accounts == chain.accounts,
        after_steps(chain, steps).notes.contains_key(key) == chain.notes.contains_key(key),
        chain.notes.contains_key(key) ==> after_steps(chain, steps).notes[key] == (NoteView {
            consumed: chain.notes[key].consumed || consumes(steps, key),
            ..chain.notes[key]
        }),
    decreases steps.len(),
{
    if steps.len() > 0 {
        let shorter = steps.drop_last();
        lemma_after_steps(chain, shorter, key);
        let last = steps.len() - 1;
        if consumes(shorter, key) {
            let i = choose|i: int|
                0 <= i < shorter.len() && (#[trigger] shorter[i] matches ChainStep::Record(record)
                    && record.consumed_notes.contains(NoteId(key)));
            assert(steps[i] == shorter[i]);
        }
        if consumes(steps, key) && !consumes(shorter, key) {
            let i = choose|i: int|
                0 <= i < steps.len() && (#[trigger] steps[i] matches ChainStep::Record(record)
                    && record.consumed_notes.contains(NoteId(key)));
            if i < last {
                assert(shorter[i] == steps[i]);
            }
        }
        assert(steps[last] == steps.last());
    }
}

proof fn lemma_notes_fresh(m: Map<u64, NoteView>, s: Seq<NoteView>, key: u64)
    requires
        m.contains_key(key) ==> !m[key].consumed,
        forall|i: int| 0 <= i < s.len() ==> !(#[trigger] s[i]).consumed,
        with_notes(m, s).contains_key(key),
    ensures
        !with_notes(m, s)[key].consumed,
    decreases s.len(),
{
    if s.len() > 0 {
        assert(!s[s.len() - 1].consumed);
        if s.last().id.0 != key {
            assert forall|i: int| 0 <= i < s.drop_last().len() implies !(
            #[trigger] s.drop_last()[i]).consumed by {
                assert(!s[i].consumed);
            }
            lemma_notes_fresh(m, s.drop_last(), key);
        }
    }
}

/// Whatever transactions a chain records and whatever blocks it produces, it
/// keeps its configuration and its accounts. These are counted by the distinct
/// ids of the configured ones.
pub proof fn lemma_accounts_stay(c: MockChainConfig, steps: Seq<ChainStep>)
    ensures
        after_steps(built(c), steps).config == c,
        after_steps(built(c), steps).accounts == built(c).accounts,
        built(c).accounts.dom() == configured_ids(c),
        configured_ids(c).finite(),
        after_steps(built(c), steps).accounts.len() == configured_ids(c).len(),
{
    lemma_after_steps(built(c), steps, 0);
    lemma_built(c);
    let ids = configured_accounts(c).map_values(|a: AccountView| a.id.0);
    assert forall|k: u64| built(c).accounts.dom().contains(k) == ids.to_set().contains(k) by {
        if built(c).accounts.contains_key(k) {
            let i = choose|i: int|
                0 <= i < configured_accounts(c).len() && #[trigger] configured_accounts(c)[i].id.0
                    == k;
            assert(ids[i] == k);
        }
        if ids.contains(k) {
            let i = ids.index_of(k);
            assert(configured_accounts(c)[i].id.0 == k);
        }
    }
    assert(built(c).accounts.dom() =~= configured_ids(c));
    ids.lemma_cardinality_of_set();
}

/// Whatever transactions a chain records and whatever blocks it produces, it
/// keeps its notes. A note is consumed exactly when one of the transactions
/// consumes it, and is otherwise as it was built.
pub proof fn lemma_notes_stay(c: MockChainConfig, steps: Seq<ChainStep>, key: u64)
    ensures
        after_steps(built(c), steps).notes.contains_key(key) == built(c).notes.contains_key(key),
        built(c).notes.contains_key(key) ==> after_steps(built(c), steps).notes[key] == (NoteView {
            consumed: consumes(steps, key),
            ..built(c).notes[key]
        }),
{
    lemma_after_steps(built(c), steps, key);
    if built(c).notes.contains_key(key) {
        lemma_notes_fresh(Map::empty(), configured_notes(c), key);
    }
}

/// What is asked of a session: to build its chain, to execute a transaction, or
/// to be completed.
pub enum SessionStep {
    Build,
    Execute(TransactionConfig),
    Complete,
}

/// The session does what is asked.
pub open spec fn granted(s: SessionView, step: SessionStep) -> bool {
    match step {
        SessionStep::Build => s.status is Created,
        SessionStep::Execute(tx) => refusal(s, tx) is None,
        SessionStep::Complete => s.status is Executed,
    }
}

/// The session after a step. Nothing changes where it is refused.
pub open spec fn stepped(s: SessionView, step: SessionStep) -> SessionView {
    if !granted(s, step) {
        s
    } else {
        match step {
            SessionStep::Build => with_chain(s),
            SessionStep::Execute(tx) => executed(s, tx),
            SessionStep::Complete => completed(s),
        }
    }
}

/// The session after some steps.
pub open spec fn session_after(s: SessionView, steps: Seq<SessionStep>) -> SessionView
    decreases steps.len(),
{
    if steps.len() == 0 {
        s
    } else {
        stepped(session_after(s, steps.drop_last()), steps.last())
    }
}

/// How far a status lies from the beginning.
pub open spec fn progress(status: SessionStatus) -> int {
    match status {
        SessionStatus::Created => 0,
        SessionStatus::ChainBuilt => 1,
        SessionStatus::Executed => 2,
        SessionStatus::Completed => 3,
        SessionStatus::Failed(_) => 4,
    }
}

/// The place of a step in the life of a session.
pub open spec fn turn(step: SessionStep) -> int {
    match step {
        SessionStep::Build => 0,
        SessionStep::Execute(_) => 1,
        SessionStep::Complete => 2,
    }
}

/// A step is granted only in its turn. It then moves the status on by one, and
/// changes nothing otherwise.
pub proof fn lemma_session_step(s: SessionView, step: SessionStep)
    ensures
        granted(s, step) ==> progress(s.status) == turn(step) && progress(stepped(s, step).status)
            == turn(step) + 1,
        !granted(s, step) ==> stepped(s, step) == s,
        step is Build || step is Complete ==> granted(s, step) == (progress(s.status) == turn(
            step,
        )),
{
}

proof fn lemma_session_forward(s: SessionView, steps: Seq<SessionStep>, i: int)
    requires
        0 <= i <= steps.len(),
    ensures
        progress(session_after(s, steps.take(i)).status) <= progress(
            session_after(s, steps).status,
        ),
    decreases steps.len(),
{
    if i == steps.len() {
        assert(steps.take(i) =~= steps);
    } else {
        assert(steps.drop_last().take(i) =~= steps.take(i));
        lemma_session_forward(s, steps.drop_last(), i);
        lemma_session_step(session_after(s, steps.drop_last()), steps.last());
    }
}

/// Whatever is asked of a session, its status only moves on, and no step is
/// granted twice.
pub proof fn lemma_session_life(s: SessionView, steps: Seq<SessionStep>, i: int, j: int)
    requires
        0 <= i < j < steps.len(),
    ensures
        progress(session_after(s, steps.take(i)).status) <= progress(
            session_after(s, steps.take(j)).status,
        ),
        granted(session_after(s, steps.take(i)), steps[i]) && granted(
            session_after(s, steps.take(j)),
            steps[j],
        ) ==> turn(steps[i]) < turn(steps[j]),
{
    let later = steps.take(j);
    assert(later.take(i) =~= steps.take(i));
    assert(later.take(i + 1) =~= steps.take(i + 1));
    assert(steps.take(i + 1).drop_last() =~= steps.take(i));
    lemma_session_forward(s, later, i);
    lemma_session_forward(s, later, i + 1);
    lemma_session_step(session_after(s, steps.take(i)), steps[i]);
    lemma_session_step(session_after(s, later), steps[j]);
}

} // verus!
