//! What a chain is built with, what it records, and what a transaction traces,
//! item by item.

use vstd::prelude::*;

use crate::mockchain::chain::built;
use crate::mockchain::chain::configured_accounts;
use crate::mockchain::chain::configured_notes;
use crate::mockchain::chain::faucet_account;
use crate::mockchain::chain::lemma_built;
use crate::mockchain::chain::next_block;
use crate::mockchain::chain::output_note;
use crate::mockchain::chain::p2id_note;
use crate::mockchain::chain::recorded;
use crate::mockchain::chain::swap_note;
use crate::mockchain::chain::wallet_account;
use crate::mockchain::chain::ChainView;
use crate::mockchain::context::known;
use crate::mockchain::context::place;
use crate::mockchain::context::switched_to;
use crate::mockchain::context::untouched;
use crate::mockchain::context::ContextId;
use crate::mockchain::context::ContextKind;
use crate::mockchain::context::TrackerView;
use crate::mockchain::laws::lemma_transaction_contexts;
use crate::mockchain::laws::lemma_transaction_events;
use crate::mockchain::laws::note_calls;
use crate::mockchain::session::completed;
use crate::mockchain::session::executed;
use crate::mockchain::session::missing_note;
use crate::mockchain::session::orderly;
use crate::mockchain::session::refusal;
use crate::mockchain::session::summary_fields;
use crate::mockchain::session::with_chain;
use crate::mockchain::session::SessionView;
use crate::mockchain::trace::account_events;
use crate::mockchain::trace::after_account;
use crate::mockchain::trace::after_notes;
use crate::mockchain::trace::after_transaction;
use crate::mockchain::trace::empty_trace;
use crate::mockchain::trace::kernel_context;
use crate::mockchain::trace::note_events;
use crate::mockchain::trace::notes_events;
use crate::mockchain::trace::numbered;
use crate::mockchain::trace::prologue_events;
use crate::mockchain::trace::script_events;
use crate::mockchain::trace::transaction_events;
use crate::mockchain::trace::EventView;
use crate::mockchain::types::AccountId;
use crate::mockchain::types::AccountKindView;
use crate::mockchain::types::MockChainConfig;
use crate::mockchain::types::NoteId;
use crate::mockchain::types::NoteView;
use crate::mockchain::types::RecordView;
use crate::mockchain::types::TransactionConfig;
use crate::number::decimal;
use crate::number::lemma_numeral_reads_back;
use crate::number::parsed;

verus! {

/// A wallet whose id no later wallet and no faucet has is an account of the
/// built chain, with all its assets.
pub proof fn lemma_wallet_built(c: MockChainConfig, i: int)
    requires
        0 <= i < c.wallets@.len(),
        forall|j: int| i < j < c.wallets@.len() ==> (#[trigger] c.wallets@[j]).id != c.wallets@[i].id,
        forall|j: int|
            0 <= j < c.faucets@.len() ==> (#[trigger] c.faucets@[j]).id != c.wallets@[i].id,
    ensures
        ({
            let w = c.wallets@[i];
            let account = built(c).accounts[w.id.0];
            &&& built(c).accounts.contains_key(w.id.0)
            &&& account.id == w.id
            &&& account.kind is Wallet
            &&& account.assets == w.initial_assets@
        }),
{
    lemma_built(c);
    let all = configured_accounts(c);
    let n = c.wallets@.len() as int;
    assert(all[i] == wallet_account(c.wallets@[i]));
    assert forall|j: int| i < j < all.len() implies all[j].id.0 != all[i].id.0 by {
        if j < n {
            assert(all[j] == wallet_account(c.wallets@[j]));
        } else {
            assert(all[j] == faucet_account(c.faucets@[j - n]));
        }
    }
    assert(all[i].id.0 == c.wallets@[i].id.0);
}

/// A faucet whose id no later faucet has is an account of the built chain, with
/// its symbol and its supplies, and it holds no assets.
pub proof fn lemma_faucet_built(c: MockChainConfig, i: int)
    requires
        0 <= i < c.faucets@.len(),
        forall|j: int| i < j < c.faucets@.len() ==> (#[trigger] c.faucets@[j]).id != c.faucets@[i].id,
    ensures
        ({
            let f = c.faucets@[i];
            let account = built(c).accounts[f.id.0];
            &&& built(c).accounts.contains_key(f.id.0)
            &&& account.id == f.id
            &&& account.kind == AccountKindView::Faucet {
                symbol: f.symbol@,
                max_supply: f.max_supply,
                current_supply: f.initial_supply,
            }
            &&& account.assets.len() == 0
        }),
{
    lemma_built(c);
    let all = configured_accounts(c);
    let n = c.wallets@.len() as int;
    assert(all[n + i] == faucet_account(c.faucets@[i]));
    let at = n + i;
    assert forall|j: int| at < j < all.len() implies all[j].id.0 != all[at].id.0 by {
        assert(all[j] == faucet_account(c.faucets@[j - n]));
    }
    assert(all[n + i].id.0 == c.faucets@[i].id.0);
}

/// The note of a built chain with an id: not consumed, with the given sender,
/// type and assets.
pub open spec fn fresh_note(
    chain: ChainView,
    note: NoteView,
) -> bool {
    &&& chain.notes.contains_key(note.id.0)
    &&& chain.notes[note.id.0] == note
    &&& !note.consumed
}

proof fn lemma_note_built(c: MockChainConfig, i: int)
    requires
        0 <= i < configured_notes(c).len(),
        forall|j: int|
            i < j < configured_notes(c).len() ==> (#[trigger] configured_notes(c)[j]).id
                != configured_notes(c)[i].id,
        !configured_notes(c)[i].consumed,
    ensures
        fresh_note(built(c), configured_notes(c)[i]),
{
    lemma_built(c);
    let all = configured_notes(c);
    assert forall|j: int| i < j < all.len() implies all[j].id.0 != all[i].id.0 by {
        assert(all[j].id != all[i].id);
    }
    assert(all[i].id.0 == configured_notes(c)[i].id.0);
}

/// A note whose id no later note has is a note of the built chain. A payment
/// and any other note hold their assets, a swap holds what it offers.
#[verifier::rlimit(50)]
pub proof fn lemma_notes_built(c: MockChainConfig, id: NoteId, i: int)
    ensures
        ({
            let paid = c.p2id_notes@;
            let swapped = c.swap_notes@;
            let others = c.output_notes@;
            let later_paid = forall|j: int| i < j < paid.len() ==> (#[trigger] paid[j]).id != id;
            let later_swapped = forall|j: int|
                i < j < swapped.len() ==> (#[trigger] swapped[j]).id != id;
            let later_others = forall|j: int|
                i < j < others.len() ==> (#[trigger] others[j]).id != id;
            let no_swapped = forall|j: int|
                0 <= j < swapped.len() ==> (#[trigger] swapped[j]).id != id;
            let no_others = forall|j: int| 0 <= j < others.len() ==> (#[trigger] others[j]).id != id;
            &&& 0 <= i < paid.len() && paid[i].id == id && later_paid && no_swapped && no_others
                ==> fresh_note(
                built(c),
                (NoteView {
                    id,
                    sender: paid[i].sender,
                    assets: paid[i].assets@,
                    note_type: paid[i].note_type,
                    consumed: false,
                }),
            )
            &&& 0 <= i < swapped.len() && swapped[i].id == id && later_swapped && no_others
                ==> fresh_note(
                built(c),
                (NoteView {
                    id,
                    sender: swapped[i].sender,
                    assets: swapped[i].offered@,
                    note_type: swapped[i].note_type,
                    consumed: false,
                }),
            )
            &&& 0 <= i < others.len() && others[i].id == id && later_others ==> fresh_note(
                built(c),
                (NoteView {
                    id,
                    sender: others[i].sender,
                    assets: others[i].assets@,
                    note_type: others[i].note_type,
                    consumed: false,
                }),
            )
        }),
{
    let paid = c.p2id_notes@;
    let swapped = c.swap_notes@;
    let others = c.output_notes@;
    let all = configured_notes(c);
    let a = paid.len() as int;
    let b = a + swapped.len();
    assert(all.len() == b + others.len());
    assert forall|j: int| 0 <= j < all.len() implies (#[trigger] all[j]) == if j < a {
        p2id_note(paid[j])
    } else if j < b {
        swap_note(swapped[j - a])
    } else {
        output_note(others[j - b])
    } by {}
    if 0 <= i < paid.len() && paid[i].id == id && (forall|j: int|
        i < j < paid.len() ==> (#[trigger] paid[j]).id != id) && (forall|j: int|
        0 <= j < swapped.len() ==> (#[trigger] swapped[j]).id != id) && (forall|j: int|
        0 <= j < others.len() ==> (#[trigger] others[j]).id != id) {
        assert forall|j: int| i < j < all.len() implies (#[trigger] all[j]).id != all[i].id by {
            if j < a {
                assert(paid[j].id != id);
            } else if j < b {
                assert(swapped[j - a].id != id);
            } else {
                assert(others[j - b].id != id);
            }
        }
        lemma_note_built(c, i);
    }
    if 0 <= i < swapped.len() && swapped[i].id == id && (forall|j: int|
        i < j < swapped.len() ==> (#[trigger] swapped[j]).id != id) && (forall|j: int|
        0 <= j < others.len() ==> (#[trigger] others[j]).id != id) {
        assert forall|j: int| a + i < j < all.len() implies (#[trigger] all[j]).id != all[a
            + i].id by {
            if j < b {
                assert(swapped[j - a].id != id);
            } else {
                assert(others[j - b].id != id);
            }
        }
        lemma_note_built(c, a + i);
    }
    if 0 <= i < others.len() && others[i].id == id && (forall|j: int|
        i < j < others.len() ==> (#[trigger] others[j]).id != id) {
        assert forall|j: int| b + i < j < all.len() implies (#[trigger] all[j]).id != all[b
            + i].id by {
            assert(others[j - b].id != id);
        }
        lemma_note_built(c, b + i);
    }
}

/// A transaction goes into the last block, or into a first one with the chain's
/// number. Other blocks stay, and so does the number. The next block has the
/// next number and changes nothing else.
pub proof fn lemma_blocks(chain: ChainView, record: RecordView)
    ensures
        recorded(chain, record).block_number == chain.block_number,
        chain.blocks.len() == 0 ==> recorded(chain, record).blocks.len() == 1 && recorded(
            chain,
            record,
        ).blocks[0].number == chain.block_number && recorded(chain, record).blocks[0].transactions
            == seq![record],
        chain.blocks.len() > 0 ==> recorded(chain, record).blocks.len() == chain.blocks.len()
            && recorded(chain, record).blocks.last().number == chain.blocks.last().number
            && recorded(chain, record).blocks.last().transactions
            == chain.blocks.last().transactions.push(record),
        forall|k: int|
            0 <= k < chain.blocks.len() - 1 ==> #[trigger] recorded(chain, record).blocks[k]
                == chain.blocks[k],
        chain.block_number < u64::MAX ==> next_block(chain).block_number == chain.block_number + 1,
        next_block(chain).accounts == chain.accounts,
        next_block(chain).notes == chain.notes,
        next_block(chain).blocks == chain.blocks,
        next_block(chain).config == chain.config,
{
}

/// A missing note is the first of the wanted ones that the chain does not have,
/// and none is missing exactly if it has them all.
pub proof fn lemma_missing_note(notes: Map<u64, NoteView>, wanted: Seq<NoteId>)
    ensures
        missing_note(notes, wanted) is None <==> forall|i: int|
            0 <= i < wanted.len() ==> notes.contains_key((#[trigger] wanted[i]).0),
        missing_note(notes, wanted) matches Some(id) ==> exists|i: int|
            0 <= i < wanted.len() && #[trigger] wanted[i] == id && !notes.contains_key(id.0)
                && forall|k: int| 0 <= k < i ==> notes.contains_key((#[trigger] wanted[k]).0),
    decreases wanted.len(),
{
    if wanted.len() > 0 {
        let rest = wanted.drop_first();
        lemma_missing_note(notes, rest);
        if !notes.contains_key(wanted[0].0) {
            assert(missing_note(notes, wanted) == Some(wanted[0]));
        } else {
            if missing_note(notes, rest) is None {
                assert forall|i: int| 0 <= i < wanted.len() implies notes.contains_key(
                    (#[trigger] wanted[i]).0,
                ) by {
                    if i > 0 {
                        assert(notes.contains_key(rest[i - 1].0));
                    }
                }
            }
            if let Some(id) = missing_note(notes, rest) {
                let i = choose|i: int|
                    0 <= i < rest.len() && #[trigger] rest[i] == id && !notes.contains_key(id.0)
                        && forall|k: int| 0 <= k < i ==> notes.contains_key((#[trigger] rest[k]).0);
                assert(wanted[i + 1] == id);
                assert forall|k: int| 0 <= k < i + 1 implies notes.contains_key(
                    (#[trigger] wanted[k]).0,
                ) by {
                    if k > 0 {
                        assert(notes.contains_key(rest[k - 1].0));
                    }
                }
            }
        }
    }
}

proof fn lemma_notes_len(notes: Seq<NoteId>)
    ensures
        notes_events(notes).len() == 8 * notes.len(),
    decreases notes.len(),
{
    if notes.len() > 0 {
        lemma_notes_len(notes.drop_last());
    }
}

proof fn lemma_note_place(notes: Seq<NoteId>, i: int, k: int)
    requires
        0 <= i < notes.len(),
        0 <= k < 8,
    ensures
        8 * i + k < notes_events(notes).len(),
        notes_events(notes)[8 * i + k] == note_events(i, notes[i])[k],
    decreases notes.len(),
{
    lemma_notes_len(notes);
    lemma_notes_len(notes.drop_last());
    if i < notes.len() - 1 {
        lemma_note_place(notes.drop_last(), i, k);
    }
}

/// Each note runs in a context of its own, numbered from one in the order of
/// the notes: a switch from the kernel, the note's script by the note's number,
/// a step and an input in it, and the kernel's procedure for the inputs.
#[verifier::rlimit(50)]
pub proof fn lemma_note_traced(account: AccountId, notes: Seq<NoteId>, script: bool, i: int)
    requires
        0 <= i < notes.len() < u32::MAX,
    ensures
        ({
            let e = transaction_events(account, notes, script);
            let at = 3 + 8 * i;
            let own = ContextId((i + 1) as u32);
            let kernel = ContextId(0);
            &&& e.len() >= at + 8
            &&& e[at] == EventView::ContextSwitch {
                from: Some(kernel),
                to: own,
                kind: ContextKind::NoteScript { note_id: notes[i] },
            }
            &&& e[at + 1] == EventView::Call {
                function_name: "note_script_"@ + decimal(notes[i].0 as int),
                is_kernel: false,
                context_id: own,
            }
            &&& e[at + 2] == EventView::Step {
                source: "note_script.masm"@,
                line: 1,
                context_id: own,
            }
            &&& e[at + 3] == EventView::Variable {
                name: "note_input_0"@,
                value: "42"@,
                context_id: own,
            }
            &&& e[at + 4] == EventView::ContextSwitch {
                from: Some(own),
                to: kernel,
                kind: ContextKind::Kernel,
            }
            &&& e[at + 5] == EventView::Call {
                function_name: "miden::note::get_inputs"@,
                is_kernel: true,
                context_id: kernel,
            }
            &&& e[at + 6] == EventView::Return { context_id: kernel }
            &&& e[at + 7] == EventView::Return { context_id: own }
        }),
{
    let e = transaction_events(account, notes, script);
    let a = prologue_events();
    let b = notes_events(notes);
    lemma_notes_len(notes);
    assert forall|k: int| 0 <= k < b.len() implies e[3 + k] == #[trigger] b[k] by {}
    assert forall|k: int| 0 <= k < 8 implies e[3 + 8 * i + k] == #[trigger] note_events(
        i,
        notes[i],
    )[k] by {
        lemma_note_place(notes, i, k);
        assert(e[3 + (8 * i + k)] == b[8 * i + k]);
    }
    let own = note_events(i, notes[i]);
    assert(e[3 + 8 * i + 0] == own[0]);
    assert(e[3 + 8 * i + 1] == own[1]);
    assert(e[3 + 8 * i + 2] == own[2]);
    assert(e[3 + 8 * i + 3] == own[3]);
    assert(e[3 + 8 * i + 4] == own[4]);
    assert(e[3 + 8 * i + 5] == own[5]);
    assert(e[3 + 8 * i + 6] == own[6]);
    assert(e[3 + 8 * i + 7] == own[7]);
}

/// The account's code runs behind the notes, in the next context, and the script
/// of the transaction, if there is one, in the one behind that.
pub proof fn lemma_account_traced(account: AccountId, notes: Seq<NoteId>, script: bool)
    requires
        notes.len() + 2 <= u32::MAX,
    ensures
        ({
            let e = transaction_events(account, notes, script);
            let at = 3 + 8 * notes.len() as int;
            let own = ContextId((notes.len() + 1) as u32);
            let last = ContextId((notes.len() + 2) as u32);
            let kernel = ContextId(0);
            &&& e[0] == EventView::ContextSwitch {
                from: None,
                to: kernel,
                kind: ContextKind::Kernel,
            }
            &&& e[at] == EventView::ContextSwitch {
                from: Some(kernel),
                to: own,
                kind: ContextKind::AccountCode { account_id: account },
            }
            &&& e[at + 1] == EventView::Call {
                function_name: "account::receive_asset"@,
                is_kernel: false,
                context_id: own,
            }
            &&& e[at + 2] == EventView::Step { source: "account.masm"@, line: 5, context_id: own }
            &&& e[at + 3] == EventView::Call {
                function_name: "miden::kernel::account_vault_add_asset"@,
                is_kernel: true,
                context_id: kernel,
            }
            &&& script ==> e[at + 6] == EventView::ContextSwitch {
                from: Some(own),
                to: last,
                kind: ContextKind::TxScript,
            }
            &&& script ==> e[at + 7] == EventView::Call {
                function_name: "tx_script::main"@,
                is_kernel: false,
                context_id: last,
            }
            &&& script ==> e[at + 8] == EventView::Step {
                source: "tx_script.masm"@,
                line: 1,
                context_id: last,
            }
        }),
{
    let e = transaction_events(account, notes, script);
    let n = notes.len() as int;
    let at = 3 + 8 * n;
    lemma_notes_len(notes);
    let c = account_events(n, account);
    assert(e[0] == prologue_events()[0]);
    assert forall|k: int| 0 <= k < 6 implies e[at + k] == #[trigger] c[k] by {}
    assert(e[at + 0] == c[0]);
    assert(e[at + 1] == c[1]);
    assert(e[at + 2] == c[2]);
    assert(e[at + 3] == c[3]);
    if script {
        let d = script_events(n);
        assert forall|k: int| 0 <= k < 4 implies e[at + 6 + k] == #[trigger] d[k] by {}
        assert(e[at + 6 + 0] == d[0]);
        assert(e[at + 6 + 1] == d[1]);
        assert(e[at + 6 + 2] == d[2]);
    }
}

/// A switch to another context is added to the history, a known context keeps
/// its kind and its source, and no other context changes.
pub proof fn lemma_switch(t: TrackerView, id: ContextId, kind: ContextKind, clock: u64, i: int)
    requires
        0 <= i < t.contexts.len(),
    ensures
        ({
            let now = switched_to(t, id, kind, clock);
            &&& now.current == Some(id)
            &&& now.contexts.len() >= t.contexts.len()
            &&& now.contexts[i].id == t.contexts[i].id
            &&& now.contexts[i].kind == t.contexts[i].kind
            &&& now.contexts[i].source_path == t.contexts[i].source_path
            &&& t.contexts[i].id != id ==> now.contexts[i] == t.contexts[i]
            &&& t.current == Some(id) ==> now == t
            &&& t.current != Some(id) ==> now.history == t.history.push((id, clock))
            &&& t.current != Some(id) && !known(t.contexts, id) ==> now.contexts.len()
                == t.contexts.len() + 1 && now.contexts.last().id == id && now.contexts.last().kind
                == kind && now.contexts.last().source_path is None
        }),
{
    if known(t.contexts, id) {
        let p = place(t.contexts, id);
        assert(0 <= p < t.contexts.len() && t.contexts[p].id == id);
    }
}

/// One entry of the history: the context and the clock of a switch.
pub open spec fn entry(context: int, clock: int) -> (ContextId, u64) {
    (ContextId(context as u32), clock as u64)
}

/// The switches of the `i`th note: to its context, to the kernel and back.
pub open spec fn note_switches(h: Seq<(ContextId, u64)>, i: int) -> bool {
    &&& h[1 + 3 * i] == entry(i + 1, 100 + 100 * i)
    &&& h[2 + 3 * i] == entry(0, 150 + 100 * i)
    &&& h[3 + 3 * i] == entry(i + 1, 170 + 100 * i)
}

#[verifier::rlimit(50)]
proof fn lemma_notes_history(t: TrackerView, notes: Seq<NoteId>)
    requires
        t.history == seq![entry(0, 0)],
        t.current == Some(ContextId(0)),
        notes.len() + 3 <= u32::MAX,
    ensures
        ({
            let now = after_notes(t, notes);
            let h = now.history;
            &&& h.len() == 1 + 3 * notes.len()
            &&& h[0] == entry(0, 0)
            &&& now.current == Some(ContextId(notes.len() as u32))
            &&& forall|i: int| 0 <= i < notes.len() ==> #[trigger] note_switches(h, i)
        }),
    decreases notes.len(),
{
    if notes.len() > 0 {
        let less = notes.drop_last();
        lemma_notes_history(t, less);
        let before = after_notes(t, less);
        let now = after_notes(t, notes);
        let h = now.history;
        let k = notes.len() - 1;
        assert(ContextId((k + 1) as u32) != ContextId(0));
        assert(ContextId(less.len() as u32) != ContextId((k + 1) as u32));
        assert(h =~= before.history.push(entry(k + 1, 100 + 100 * k)).push(
            entry(0, 150 + 100 * k),
        ).push(entry(k + 1, 170 + 100 * k)));
        assert forall|i: int| 0 <= i < notes.len() implies #[trigger] note_switches(h, i) by {
            if i < k {
                assert(note_switches(before.history, i));
                assert(h[1 + 3 * i] == before.history[1 + 3 * i]);
                assert(h[2 + 3 * i] == before.history[2 + 3 * i]);
                assert(h[3 + 3 * i] == before.history[3 + 3 * i]);
            }
        }
    }
}

/// The switches of a transaction and their clock: the kernel at zero, three for
/// each note, a hundred cycles a note, three for the account, then the script,
/// if there is one, and the kernel.
#[verifier::rlimit(50)]
pub proof fn lemma_history(account: AccountId, notes: Seq<NoteId>, script: bool)
    requires
        notes.len() + 3 <= u32::MAX,
    ensures
        ({
            let h = after_transaction(untouched(), account, notes, script).history;
            let n = notes.len() as int;
            let at = 1 + 3 * n;
            &&& h[0] == entry(0, 0)
            &&& forall|i: int| 0 <= i < n ==> #[trigger] note_switches(h, i)
            &&& h[at] == entry(n + 1, 100 + 100 * n)
            &&& h[at + 1] == entry(0, 100 + 100 * n)
            &&& h[at + 2] == entry(n + 1, 130 + 100 * n)
            &&& script ==> h.len() == at + 5 && h[at + 3] == entry(n + 2, 150 + 100 * n) && h[at + 4]
                == entry(0, 190 + 100 * n)
            &&& !script ==> h.len() == at + 4 && h[at + 3] == entry(0, 150 + 100 * n)
        }),
{
    let n = notes.len() as int;
    let at = 1 + 3 * n;
    let begun = switched_to(untouched(), kernel_context(), ContextKind::Kernel, 0);
    assert(begun.history =~= seq![entry(0, 0)]);
    lemma_notes_history(begun, notes);
    let noted = after_notes(begun, notes);
    let called = after_account(noted, n, account);
    assert(ContextId((n + 1) as u32) != ContextId(0));
    assert(ContextId((n + 1) as u32) != ContextId(n as u32));
    assert(ContextId((n + 2) as u32) != ContextId(0));
    assert(ContextId((n + 2) as u32) != ContextId((n + 1) as u32));
    assert(called.history =~= noted.history.push(entry(n + 1, 100 + 100 * n)).push(
        entry(0, 100 + 100 * n),
    ).push(entry(n + 1, 130 + 100 * n)));
    let now = after_transaction(untouched(), account, notes, script);
    let h = now.history;
    if script {
        assert(h =~= called.history.push(entry(n + 2, 150 + 100 * n)).push(
            entry(0, 190 + 100 * n),
        ));
    } else {
        assert(h =~= called.history.push(entry(0, 150 + 100 * n)));
    }
    assert forall|i: int| 0 <= i < n implies #[trigger] note_switches(h, i) by {
        assert(note_switches(noted.history, i));
        assert(h[1 + 3 * i] == noted.history[1 + 3 * i]);
        assert(h[2 + 3 * i] == noted.history[2 + 3 * i]);
        assert(h[3 + 3 * i] == noted.history[3 + 3 * i]);
    }
}

/// The summary of a session that has executed its transaction: how many events,
/// switches and contexts the transaction has by its notes and its script, how
/// many accounts and notes the chain has, and every call of the kernel.
pub proof fn lemma_summary(s: SessionView, tx: TransactionConfig)
    requires
        orderly(s),
        refusal(s, tx) is None,
        tx.input_notes@.len() + 3 <= u32::MAX,
    ensures
        ({
            let summary = summary_fields(executed(s, tx));
            let n = tx.input_notes@.len() as int;
            let one: int = if tx.tx_script is Some {
                1
            } else {
                0
            };
            &&& summary.texts == seq![("session_status"@, "Executed"@)]
            &&& summary.numbers.len() == 5
            &&& summary.numbers[0] == ("context_count"@, (n + 2 + one) as u64)
            &&& summary.numbers[1] == ("event_count"@, (11 + 8 * n + 4 * one) as u64)
            &&& summary.numbers[2] == ("context_switches"@, (2 + 2 * n + one) as u64)
            &&& summary.numbers[3] == ("accounts"@, s.chain->0.accounts.len() as u64)
            &&& summary.numbers[4] == ("notes"@, s.chain->0.notes.len() as u64)
            &&& summary.lists.len() == 1
            &&& summary.lists[0].0 == "kernel_calls"@
            &&& summary.lists[0].1 == seq!["#sys::prologue"@] + note_calls(n as nat) + seq![
                "miden::kernel::account_vault_add_asset"@,
                "#sys::epilogue"@,
            ]
        }),
{
    let notes = tx.input_notes@;
    let script = tx.tx_script is Some;
    lemma_transaction_events(tx.account_id, notes, script);
    lemma_transaction_contexts(tx.account_id, notes, script);
    let e = transaction_events(tx.account_id, notes, script);
    assert(s.trace == empty_trace());
    assert(Seq::<EventView>::empty() + e =~= e);
    let after = executed(s, tx);
    assert(after.trace.events == e);
    assert(after.chain->0.notes.dom() =~= s.chain->0.notes.dom());
}

/// Why a transaction is refused: the session is not at its turn, the chain has no
/// such account, or it lacks a note, the first of them being named. Else it is
/// not refused.
pub proof fn lemma_refusal(s: SessionView, tx: TransactionConfig, i: int)
    requires
        s.status is ChainBuilt,
        s.chain is Some,
    ensures
        !s.chain->0.accounts.contains_key(tx.account_id.0) ==> refusal(s, tx) == Some(
            "Account "@ + tx.account_id.shown() + " not found in chain"@,
        ),
        s.chain->0.accounts.contains_key(tx.account_id.0) && 0 <= i < tx.input_notes@.len()
            && !s.chain->0.notes.contains_key(tx.input_notes@[i].0) && (forall|k: int|
            0 <= k < i ==> s.chain->0.notes.contains_key((#[trigger] tx.input_notes@[k]).0))
            ==> refusal(s, tx) == Some(
            "Note "@ + ("NoteId("@ + decimal(tx.input_notes@[i].0 as int) + ")"@)
                + " not found in chain"@,
        ),
        refusal(s, tx) is None <==> s.chain->0.accounts.contains_key(tx.account_id.0) && forall|
            k: int,
        |
            0 <= k < tx.input_notes@.len() ==> s.chain->0.notes.contains_key(
                (#[trigger] tx.input_notes@[k]).0,
            ),
{
    let notes = s.chain->0.notes;
    let wanted = tx.input_notes@;
    lemma_missing_note(notes, wanted);
    if let Some(id) = missing_note(notes, wanted) {
        let at = choose|at: int|
            0 <= at < wanted.len() && #[trigger] wanted[at] == id && !notes.contains_key(id.0)
                && forall|k: int| 0 <= k < at ==> notes.contains_key((#[trigger] wanted[k]).0);
        if 0 <= i < wanted.len() && !notes.contains_key(wanted[i].0) && (forall|k: int|
            0 <= k < i ==> notes.contains_key((#[trigger] wanted[k]).0)) {
            if at < i {
                assert(notes.contains_key(wanted[at].0));
            }
            if i < at {
                assert(notes.contains_key(wanted[i].0));
            }
        }
    }
}

/// The session builds the chain of its configuration, and keeps its trace and
/// its directory. The transaction changes the chain by its record and adds its
/// events to the trace. The end changes the status alone.
pub proof fn lemma_session_keeps(s: SessionView, tx: TransactionConfig)
    ensures
        with_chain(s).chain == Some(built(s.config->0)),
        with_chain(s).config is None,
        with_chain(s).trace == s.trace,
        with_chain(s).out_dir == s.out_dir,
        executed(s, tx).chain == Some(
            recorded(
                s.chain->0,
                (RecordView {
                    account_id: tx.account_id,
                    consumed_notes: tx.input_notes@,
                    success: true,
                }),
            ),
        ),
        executed(s, tx).trace.events == s.trace.events + transaction_events(
            tx.account_id,
            tx.input_notes@,
            tx.tx_script is Some,
        ),
        executed(s, tx).out_dir == s.out_dir,
        executed(s, tx).config == s.config,
        completed(s).chain == s.chain,
        completed(s).trace == s.trace,
        completed(s).config == s.config,
        completed(s).out_dir == s.out_dir,
{
}

/// Different contexts are shown differently.
pub proof fn lemma_context_shown(a: ContextId, b: ContextId)
    ensures
        a.shown() == b.shown() ==> a == b,
        a.shown().take(4) == "ctx:"@,
        parsed(a.shown().skip(4), 10, u32::MAX as nat) == Some(a.0 as nat),
{
    reveal_strlit("ctx:");
    lemma_numeral_reads_back(a.0 as nat, 10, u32::MAX as nat);
    lemma_numeral_reads_back(b.0 as nat, 10, u32::MAX as nat);
    assert(a.shown().take(4) =~= "ctx:"@);
    assert(a.shown().skip(4) =~= decimal(a.0 as int));
    assert(b.shown().skip(4) =~= decimal(b.0 as int));
}

/// The label of a kind of context tells the kind, and the account or the note.
pub proof fn lemma_context_label(account: AccountId, note: NoteId)
    ensures
        ContextKind::Kernel.label() == "kernel"@,
        (ContextKind::AccountCode { account_id: account }).label() == "account:"@ + account.shown(),
        (ContextKind::NoteScript { note_id: note }).label() == "note:"@ + ("NoteId("@ + decimal(
            note.0 as int,
        ) + ")"@),
        ContextKind::TxScript.label() == "tx_script"@,
        ContextKind::Unknown.label() == "unknown"@,
{
}

} // verus!
