//! What holds of every store and of every replay.

use vstd::prelude::*;

use crate::client_replay::node::synced;
use crate::client_replay::node::with_all_accounts;
use crate::client_replay::node::with_all_headers;
use crate::client_replay::replay::captured_name;
use crate::client_replay::store::absent_note;
use crate::client_replay::store::captured_store;
use crate::client_replay::store::empty_store;
use crate::client_replay::store::gives_inputs;
use crate::client_replay::store::with_account;
use crate::client_replay::store::with_all_notes;
use crate::client_replay::store::with_foreign;
use crate::client_replay::store::with_header;
use crate::client_replay::store::with_note;
use crate::client_replay::store::CapturedView;
use crate::client_replay::store::StoreView;
use crate::client_replay::types::BlockHeader;
use crate::client_replay::types::ForeignView;
use crate::client_replay::types::InputNoteView;
use crate::client_replay::types::PartialAccount;
use crate::client_replay::types::TransactionInputs;
use crate::number::decimal;
use crate::number::digit;
use crate::number::hex;
use crate::number::lemma_numeral_digits;
use crate::number::lemma_numeral_reads_back;

verus! {

/// The ids of notes.
pub open spec fn note_ids(notes: Seq<InputNoteView>) -> Seq<u64> {
    notes.map_values(|n: InputNoteView| n.id)
}

proof fn lemma_with_all_notes(s: StoreView, notes: Seq<InputNoteView>)
    ensures
        with_all_notes(s, notes).accounts == s.accounts,
        with_all_notes(s, notes).headers == s.headers,
        with_all_notes(s, notes).foreign == s.foreign,
        with_all_notes(s, notes).chain == s.chain,
        with_all_notes(s, notes).latest == s.latest,
        with_all_notes(s, notes).captured == s.captured,
    decreases notes.len(),
{
    if notes.len() > 0 {
        lemma_with_all_notes(s, notes.drop_last());
    }
}

proof fn lemma_note_held(s: StoreView, notes: Seq<InputNoteView>, i: int)
    requires
        0 <= i < notes.len(),
        forall|j: int| i < j < notes.len() ==> notes[j].id != notes[i].id,
    ensures
        with_all_notes(s, notes).notes.contains_key(notes[i].id),
        with_all_notes(s, notes).notes[notes[i].id] == notes[i],
    decreases notes.len(),
{
    let last = notes.len() - 1;
    if i < last {
        let shorter = notes.drop_last();
        assert(notes[last].id != notes[i].id);
        assert forall|j: int| i < j < shorter.len() implies shorter[j].id != shorter[i].id by {
            assert(notes[j].id != notes[i].id);
        }
        lemma_note_held(s, shorter, i);
    }
}

proof fn lemma_none_absent(s: StoreView, wanted: Seq<u64>)
    requires
        forall|i: int| 0 <= i < wanted.len() ==> s.notes.contains_key(#[trigger] wanted[i]),
    ensures
        absent_note(s, wanted) is None,
    decreases wanted.len(),
{
    if wanted.len() > 0 {
        assert(s.notes.contains_key(wanted[0]));
        assert forall|i: int| 0 <= i < wanted.drop_first().len() implies s.notes.contains_key(
            #[trigger] wanted.drop_first()[i],
        ) by {
            assert(s.notes.contains_key(wanted[i + 1]));
        }
        lemma_none_absent(s, wanted.drop_first());
    }
}

/// What was captured is what is replayed: a store that is filled from captured
/// inputs gives inputs for their account and notes, at their block or at the
/// latest one, and these are the captured ones: account, header, chain data,
/// notes, arguments and advice. No two of the notes may have the same id.
pub proof fn lemma_capture_then_replay(captured: TransactionInputs, block_ref: u32)
    requires
        note_ids(captured.input_notes@).no_duplicates(),
        block_ref == 0 || block_ref == captured.block_header.block_num,
    ensures
        captured_store(captured).accounts.contains_key(captured.account.id),
        absent_note(captured_store(captured), note_ids(captured.input_notes@)) is None,
        forall|given: TransactionInputs| #[trigger]
            gives_inputs(
                captured_store(captured),
                captured.account.id,
                block_ref,
                note_ids(captured.input_notes@),
                given,
            ) ==> given.account == captured.account && given.block_header == captured.block_header
                && given.block_chain@ == captured.block_chain@ && given.input_notes@
                == captured.input_notes@ && given.tx_args@ == captured.tx_args@
                && given.advice_inputs@ == captured.advice_inputs@,
{
    let notes = captured.input_notes@;
    let start = StoreView {
        chain: captured.block_chain@,
        captured: Some(
            CapturedView {
                account_id: captured.account.id,
                args: captured.tx_args@,
                advice: captured.advice_inputs@,
            },
        ),
        ..with_header(with_account(empty_store(), captured.account), captured.block_header)
    };
    let store = captured_store(captured);
    lemma_with_all_notes(start, notes);
    assert forall|i: int| 0 <= i < notes.len() implies store.notes.contains_key(
        (#[trigger] notes[i]).id,
    ) && store.notes[notes[i].id] == notes[i] by {
        assert forall|j: int| i < j < notes.len() implies notes[j].id != notes[i].id by {
            assert(note_ids(notes)[j] != note_ids(notes)[i]);
        }
        lemma_note_held(start, notes, i);
    }
    assert forall|i: int| 0 <= i < note_ids(notes).len() implies store.notes.contains_key(
        #[trigger] note_ids(notes)[i],
    ) by {
        assert(store.notes.contains_key(notes[i].id));
    }
    lemma_none_absent(store, note_ids(notes));
    assert forall|given: TransactionInputs| #[trigger]
        gives_inputs(store, captured.account.id, block_ref, note_ids(notes), given) implies
        given.account == captured.account && given.block_header == captured.block_header
        && given.block_chain@ == captured.block_chain@ && given.input_notes@ == notes
        && given.tx_args@ == captured.tx_args@ && given.advice_inputs@
        == captured.advice_inputs@ by {
        assert forall|i: int| 0 <= i < notes.len() implies given.input_notes@[i] == notes[i] by {
            assert(note_ids(notes)[i] == notes[i].id);
        }
        assert(given.input_notes@ =~= notes);
    }
}

proof fn lemma_with_all_accounts(s: StoreView, accounts: Seq<PartialAccount>)
    ensures
        with_all_accounts(s, accounts).headers == s.headers,
        with_all_accounts(s, accounts).notes == s.notes,
        with_all_accounts(s, accounts).foreign == s.foreign,
        with_all_accounts(s, accounts).chain == s.chain,
        with_all_accounts(s, accounts).latest == s.latest,
    decreases accounts.len(),
{
    if accounts.len() > 0 {
        lemma_with_all_accounts(s, accounts.drop_last());
    }
}

proof fn lemma_account_held(s: StoreView, accounts: Seq<PartialAccount>, i: int)
    requires
        0 <= i < accounts.len(),
        forall|j: int| i < j < accounts.len() ==> accounts[j].id != accounts[i].id,
    ensures
        with_all_accounts(s, accounts).accounts.contains_key(accounts[i].id),
        with_all_accounts(s, accounts).accounts[accounts[i].id] == accounts[i],
    decreases accounts.len(),
{
    let last = accounts.len() - 1;
    if i < last {
        let shorter = accounts.drop_last();
        assert(accounts[last].id != accounts[i].id);
        assert forall|j: int| i < j < shorter.len() implies shorter[j].id != shorter[i].id by {
            assert(accounts[j].id != accounts[i].id);
        }
        lemma_account_held(s, shorter, i);
    }
}

/// No header has a higher number than the latest block, which is that of a
/// header, or zero in a store that has never had one.
pub open spec fn latest_is_highest(s: StoreView) -> bool {
    &&& forall|n: u32| #[trigger] s.headers.contains_key(n) ==> n <= s.latest
    &&& s.latest > 0 ==> s.headers.contains_key(s.latest)
}

/// The latest block is the one with the highest number: of the empty store, and
/// of a store after each header that is added.
pub proof fn lemma_latest_block(s: StoreView, header: BlockHeader)
    requires
        latest_is_highest(s),
    ensures
        latest_is_highest(empty_store()),
        latest_is_highest(with_header(s, header)),
{
}

proof fn lemma_with_all_headers(s: StoreView, headers: Seq<BlockHeader>)
    requires
        latest_is_highest(s),
    ensures
        latest_is_highest(with_all_headers(s, headers)),
        with_all_headers(s, headers).accounts == s.accounts,
        with_all_headers(s, headers).notes == s.notes,
        forall|i: int|
            0 <= i < headers.len() ==> with_all_headers(s, headers).headers.contains_key(
                (#[trigger] headers[i]).block_num,
            ),
    decreases headers.len(),
{
    if headers.len() > 0 {
        let shorter = headers.drop_last();
        lemma_with_all_headers(s, shorter);
        lemma_latest_block(with_all_headers(s, shorter), headers.last());
        assert forall|i: int| 0 <= i < headers.len() implies with_all_headers(
            s,
            headers,
        ).headers.contains_key((#[trigger] headers[i]).block_num) by {
            if i < headers.len() - 1 {
                assert(shorter[i] == headers[i]);
            }
        }
    }
}

/// A sync leaves the store with everything that it brought, the last of what
/// has the same id, and with the highest block as the latest.
pub proof fn lemma_synced(
    s: StoreView,
    accounts: Seq<PartialAccount>,
    notes: Seq<InputNoteView>,
    headers: Seq<BlockHeader>,
)
    requires
        latest_is_highest(s),
    ensures
        latest_is_highest(synced(s, accounts, notes, headers)),
        forall|i: int|
            0 <= i < accounts.len() && (forall|j: int|
                i < j < accounts.len() ==> accounts[j].id != accounts[i].id) ==> synced(
                s,
                accounts,
                notes,
                headers,
            ).accounts[(#[trigger] accounts[i]).id] == accounts[i],
        forall|i: int|
            0 <= i < notes.len() && (forall|j: int|
                i < j < notes.len() ==> notes[j].id != notes[i].id) ==> synced(
                s,
                accounts,
                notes,
                headers,
            ).notes[(#[trigger] notes[i]).id] == notes[i],
        forall|i: int|
            0 <= i < headers.len() ==> synced(s, accounts, notes, headers).headers.contains_key(
                (#[trigger] headers[i]).block_num,
            ),
{
    let a = with_all_accounts(s, accounts);
    let b = with_all_notes(a, notes);
    lemma_with_all_accounts(s, accounts);
    lemma_with_all_notes(a, notes);
    lemma_with_all_headers(b, headers);
    assert forall|i: int|
        0 <= i < accounts.len() && (forall|j: int|
            i < j < accounts.len() ==> accounts[j].id != accounts[i].id) implies synced(
        s,
        accounts,
        notes,
        headers,
    ).accounts[(#[trigger] accounts[i]).id] == accounts[i] by {
        lemma_account_held(s, accounts, i);
    }
    assert forall|i: int|
        0 <= i < notes.len() && (forall|j: int|
            i < j < notes.len() ==> notes[j].id != notes[i].id) implies synced(
        s,
        accounts,
        notes,
        headers,
    ).notes[(#[trigger] notes[i]).id] == notes[i] by {
        lemma_note_held(a, notes, i);
    }
}

proof fn lemma_noted_ids(s: StoreView, notes: Seq<InputNoteView>)
    ensures
        with_all_notes(s, notes).notes.dom() == s.notes.dom().union(note_ids(notes).to_set()),
    decreases notes.len(),
{
    let ids = note_ids(notes);
    if notes.len() == 0 {
        assert(s.notes.dom().union(ids.to_set()) =~= s.notes.dom());
    } else {
        let shorter = notes.drop_last();
        lemma_noted_ids(s, shorter);
        let fewer = note_ids(shorter);
        assert(ids =~= fewer.push(notes.last().id));
        assert forall|k: u64| ids.contains(k) == (fewer.contains(k) || k == notes.last().id) by {
            if fewer.contains(k) {
                assert(ids[fewer.index_of(k)] == k);
            }
            assert(ids[ids.len() - 1] == notes.last().id);
            if ids.contains(k) {
                let i = ids.index_of(k);
                if i < fewer.len() {
                    assert(fewer[i] == k);
                }
            }
        }
        assert(with_all_notes(s, notes).notes.dom() =~= s.notes.dom().union(ids.to_set()));
    }
}

/// A store counts each note once, by its id: none at first, in a store that is
/// filled from captured inputs the ids of their notes, and after any notes that
/// are added the ids that were there and those of the added ones.
pub proof fn lemma_notes_counted(
    s: StoreView,
    captured: TransactionInputs,
    added: Seq<InputNoteView>,
)
    requires
        s.notes.dom().finite(),
    ensures
        empty_store().notes.dom().finite(),
        empty_store().notes.len() == 0,
        captured_store(captured).notes.dom() == note_ids(captured.input_notes@).to_set(),
        captured_store(captured).notes.dom().finite(),
        with_all_notes(s, added).notes.dom() == s.notes.dom().union(note_ids(added).to_set()),
        with_all_notes(s, added).notes.dom().finite(),
{
    let notes = captured.input_notes@;
    let start = StoreView {
        chain: captured.block_chain@,
        captured: Some(
            CapturedView {
                account_id: captured.account.id,
                args: captured.tx_args@,
                advice: captured.advice_inputs@,
            },
        ),
        ..with_header(with_account(empty_store(), captured.account), captured.block_header)
    };
    lemma_noted_ids(start, notes);
    lemma_noted_ids(s, added);
    assert(start.notes.dom().union(note_ids(notes).to_set()) =~= note_ids(notes).to_set());
    note_ids(notes).lemma_cardinality_of_set();
    note_ids(added).lemma_cardinality_of_set();
}

/// A note with a new id adds one to the count. A note whose id is there takes
/// the place of the earlier one and adds nothing. Accounts, headers and foreign
/// accounts add nothing either.
pub proof fn lemma_note_count(
    s: StoreView,
    note: InputNoteView,
    account: PartialAccount,
    header: BlockHeader,
    foreign: ForeignView,
)
    requires
        s.notes.dom().finite(),
    ensures
        with_note(s, note).notes.dom().finite(),
        with_note(s, note).notes.len() == s.notes.len() + if s.notes.contains_key(note.id) {
            0nat
        } else {
            1nat
        },
        with_note(s, note).notes[note.id] == note,
        with_account(s, account).notes == s.notes,
        with_header(s, header).notes == s.notes,
        with_foreign(s, foreign).notes == s.notes,
{
}

/// Captured inputs of different accounts or blocks go to files with different
/// names.
pub proof fn lemma_captured_names_differ(a: u64, b: u32, c: u64, d: u32)
    requires
        a != c || b != d,
    ensures
        captured_name(a, b) != captured_name(c, d),
{
    if captured_name(a, b) == captured_name(c, d) {
        let name = captured_name(a, b);
        let head = "tx_inputs_0x"@;
        let middle = "_block_"@;
        reveal_strlit("_block_");
        lemma_numeral_reads_back(a as nat, 16, u64::MAX as nat);
        lemma_numeral_reads_back(c as nat, 16, u64::MAX as nat);
        lemma_numeral_reads_back(b as nat, 10, u32::MAX as nat);
        lemma_numeral_reads_back(d as nat, 10, u32::MAX as nat);
        let n = head.len() as int;
        let first = hex(a as nat);
        let second = hex(c as nat);
        if first.len() < second.len() {
            lemma_numeral_digits(c as nat, 16, first.len() as int);
            assert(name[n + first.len()] == middle[0]);
            assert(name[n + first.len()] == second[first.len() as int]);
            assert(digit('_', 16) is None);
        } else if second.len() < first.len() {
            lemma_numeral_digits(a as nat, 16, second.len() as int);
            assert(name[n + second.len()] == middle[0]);
            assert(name[n + second.len()] == first[second.len() as int]);
            assert(digit('_', 16) is None);
        } else {
            assert(first =~= name.subrange(n, n + first.len()));
            assert(second =~= name.subrange(n, n + first.len()));
            assert(a == c);
            let start = n + first.len() + middle.len();
            let x = decimal(b as int);
            let y = decimal(d as int);
            assert(x =~= name.subrange(start, start + x.len()));
            assert(y =~= name.subrange(start, start + y.len()));
            let tail = ".json"@;
            assert(name.len() == n + first.len() + middle.len() + x.len() + tail.len());
            assert(captured_name(c, d).len() == n + second.len() + middle.len() + y.len()
                + tail.len());
            assert(x.len() == y.len());
            assert(b == d);
        }
    }
}

} // verus!
