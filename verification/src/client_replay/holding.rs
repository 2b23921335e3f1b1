//! What a store gives back of what was put into it, and how data is written as
//! text.

use vstd::prelude::*;

use crate::client_replay::node::synced;
use crate::client_replay::node::with_all_accounts;
use crate::client_replay::node::with_all_headers;
use crate::client_replay::replay::captured_name;
use crate::client_replay::replay::config_fault;
use crate::client_replay::replay::replay_fields;
use crate::client_replay::replay::ReplayConfig;
use crate::client_replay::store::absent_note;
use crate::client_replay::store::gives_inputs;
use crate::client_replay::store::with_account;
use crate::client_replay::store::with_all_notes;
use crate::client_replay::store::with_foreign;
use crate::client_replay::store::with_header;
use crate::client_replay::store::with_note;
use crate::client_replay::store::StoreView;
use crate::client_replay::types::byte_text;
use crate::client_replay::types::error_text;
use crate::client_replay::types::is_stand_in;
use crate::client_replay::types::no_advice;
use crate::client_replay::types::no_args;
use crate::client_replay::types::BlockHeader;
use crate::client_replay::types::ForeignView;
use crate::client_replay::types::InputNoteView;
use crate::client_replay::types::PartialAccount;
use crate::client_replay::types::ReplayError;
use crate::client_replay::types::TransactionInputs;
use crate::number::hex;
use crate::number::lemma_numeral_len;
use crate::number::lemma_numeral_reads_back;
use crate::number::lemma_padded_reads_back;
use crate::number::numeral;
use crate::number::parsed;
use crate::number::zero_padded;

verus! {

/// What is put into a store is found under its id or its number, what was there
/// under another one stays, and each kind of data is apart from the others. The
/// latest block is the highest that was ever put in.
pub proof fn lemma_put(
    s: StoreView,
    a: PartialAccount,
    h: BlockHeader,
    n: InputNoteView,
    f: ForeignView,
)
    ensures
        with_account(s, a).accounts.contains_key(a.id),
        with_account(s, a).accounts[a.id] == a,
        forall|k: u64| #![trigger with_account(s, a).accounts[k]]
            k != a.id ==> with_account(s, a).accounts.contains_key(k) == s.accounts.contains_key(k)
                && with_account(s, a).accounts[k] == s.accounts[k],
        with_account(s, a).headers == s.headers && with_account(s, a).notes == s.notes
            && with_account(s, a).foreign == s.foreign && with_account(s, a).latest == s.latest
            && with_account(s, a).chain == s.chain && with_account(s, a).captured == s.captured,
        with_header(s, h).headers.contains_key(h.block_num),
        with_header(s, h).headers[h.block_num] == h,
        forall|k: u32| #![trigger with_header(s, h).headers[k]]
            k != h.block_num ==> with_header(s, h).headers.contains_key(k)
                == s.headers.contains_key(k) && with_header(s, h).headers[k] == s.headers[k],
        with_header(s, h).latest >= s.latest && with_header(s, h).latest >= h.block_num,
        with_header(s, h).latest == s.latest || with_header(s, h).latest == h.block_num,
        with_header(s, h).accounts == s.accounts && with_header(s, h).notes == s.notes
            && with_header(s, h).foreign == s.foreign && with_header(s, h).chain == s.chain
            && with_header(s, h).captured == s.captured,
        with_note(s, n).notes.contains_key(n.id),
        with_note(s, n).notes[n.id] == n,
        forall|k: u64| #![trigger with_note(s, n).notes[k]]
            k != n.id ==> with_note(s, n).notes.contains_key(k) == s.notes.contains_key(k)
                && with_note(s, n).notes[k] == s.notes[k],
        with_note(s, n).accounts == s.accounts && with_note(s, n).headers == s.headers && with_note(
            s,
            n,
        ).foreign == s.foreign && with_note(s, n).latest == s.latest && with_note(s, n).chain
            == s.chain && with_note(s, n).captured == s.captured,
        with_foreign(s, f).foreign.contains_key(f.id),
        with_foreign(s, f).foreign[f.id] == f,
        forall|k: u64| #![trigger with_foreign(s, f).foreign[k]]
            k != f.id ==> with_foreign(s, f).foreign.contains_key(k) == s.foreign.contains_key(k)
                && with_foreign(s, f).foreign[k] == s.foreign[k],
        with_foreign(s, f).accounts == s.accounts && with_foreign(s, f).headers == s.headers
            && with_foreign(s, f).notes == s.notes && with_foreign(s, f).latest == s.latest
            && with_foreign(s, f).chain == s.chain && with_foreign(s, f).captured == s.captured,
{
}

/// An absent note is the first of the wanted ones that the store does not have,
/// and none is absent exactly if it has them all.
pub proof fn lemma_absent_note(s: StoreView, wanted: Seq<u64>)
    ensures
        absent_note(s, wanted) is None <==> forall|i: int|
            0 <= i < wanted.len() ==> s.notes.contains_key(#[trigger] wanted[i]),
        absent_note(s, wanted) matches Some(id) ==> exists|i: int|
            0 <= i < wanted.len() && #[trigger] wanted[i] == id && !s.notes.contains_key(id)
                && forall|k: int| 0 <= k < i ==> s.notes.contains_key(#[trigger] wanted[k]),
    decreases wanted.len(),
{
    if wanted.len() > 0 {
        let rest = wanted.drop_first();
        lemma_absent_note(s, rest);
        if !s.notes.contains_key(wanted[0]) {
            assert(absent_note(s, wanted) == Some(wanted[0]));
        } else {
            if absent_note(s, rest) is None {
                assert forall|i: int| 0 <= i < wanted.len() implies s.notes.contains_key(
                    #[trigger] wanted[i],
                ) by {
                    if i > 0 {
                        assert(s.notes.contains_key(rest[i - 1]));
                    }
                }
            }
            if let Some(id) = absent_note(s, rest) {
                let i = choose|i: int|
                    0 <= i < rest.len() && #[trigger] rest[i] == id && !s.notes.contains_key(id)
                        && forall|k: int| 0 <= k < i ==> s.notes.contains_key(#[trigger] rest[k]);
                assert(wanted[i + 1] == id);
                assert forall|k: int| 0 <= k < i + 1 implies s.notes.contains_key(
                    #[trigger] wanted[k],
                ) by {
                    if k > 0 {
                        assert(s.notes.contains_key(rest[k - 1]));
                    }
                }
            }
        }
    }
}

/// The inputs that a store gives: the account that was asked for, the header of
/// the block that was asked for, or of the latest one for the reference zero,
/// every note that was asked for, in that order, and the arguments and the
/// advice that were captured for the account, or none for any other account.
pub proof fn lemma_given(
    s: StoreView,
    account_id: u64,
    block_ref: u32,
    note_ids: Seq<u64>,
    inputs: TransactionInputs,
)
    requires
        gives_inputs(s, account_id, block_ref, note_ids, inputs),
    ensures
        inputs.account == s.accounts[account_id],
        block_ref > 0 ==> inputs.block_header.block_num == block_ref || (s.headers.contains_key(
            block_ref,
        ) && inputs.block_header == s.headers[block_ref]),
        block_ref > 0 && s.headers.contains_key(block_ref) ==> inputs.block_header
            == s.headers[block_ref],
        block_ref == 0 && s.headers.contains_key(s.latest) ==> inputs.block_header
            == s.headers[s.latest],
        block_ref == 0 && !s.headers.contains_key(s.latest) ==> inputs.block_header.block_num
            == s.latest,
        inputs.input_notes@.len() == note_ids.len(),
        forall|i: int|
            0 <= i < note_ids.len() ==> #[trigger] inputs.input_notes@[i] == s.notes[note_ids[i]],
        inputs.block_chain@ == s.chain,
        s.captured is Some && s.captured->0.account_id == account_id ==> inputs.tx_args@
            == s.captured->0.args && inputs.advice_inputs@ == s.captured->0.advice,
        s.captured is None || s.captured->0.account_id != account_id ==> inputs.tx_args@ == no_args()
            && inputs.advice_inputs@ == no_advice(),
{
}

proof fn lemma_other_accounts(s: StoreView, accounts: Seq<PartialAccount>, k: u64)
    requires
        forall|i: int| 0 <= i < accounts.len() ==> (#[trigger] accounts[i]).id != k,
    ensures
        with_all_accounts(s, accounts).accounts.contains_key(k) == s.accounts.contains_key(k),
        with_all_accounts(s, accounts).accounts[k] == s.accounts[k],
    decreases accounts.len(),
{
    if accounts.len() > 0 {
        let less = accounts.drop_last();
        assert(accounts[accounts.len() - 1].id != k);
        assert forall|i: int| 0 <= i < less.len() implies (#[trigger] less[i]).id != k by {
            assert(accounts[i].id != k);
        }
        lemma_other_accounts(s, less, k);
    }
}

proof fn lemma_other_notes(s: StoreView, notes: Seq<InputNoteView>, k: u64)
    requires
        forall|i: int| 0 <= i < notes.len() ==> (#[trigger] notes[i]).id != k,
    ensures
        with_all_notes(s, notes).notes.contains_key(k) == s.notes.contains_key(k),
        with_all_notes(s, notes).notes[k] == s.notes[k],
    decreases notes.len(),
{
    if notes.len() > 0 {
        let less = notes.drop_last();
        assert(notes[notes.len() - 1].id != k);
        assert forall|i: int| 0 <= i < less.len() implies (#[trigger] less[i]).id != k by {
            assert(notes[i].id != k);
        }
        lemma_other_notes(s, less, k);
    }
}

proof fn lemma_notes_apart(s: StoreView, notes: Seq<InputNoteView>)
    ensures
        with_all_notes(s, notes).accounts == s.accounts,
        with_all_notes(s, notes).headers == s.headers,
        with_all_notes(s, notes).latest == s.latest,
        with_all_notes(s, notes).foreign == s.foreign,
        with_all_notes(s, notes).chain == s.chain,
        with_all_notes(s, notes).captured == s.captured,
    decreases notes.len(),
{
    if notes.len() > 0 {
        lemma_notes_apart(s, notes.drop_last());
    }
}

proof fn lemma_accounts_apart(s: StoreView, accounts: Seq<PartialAccount>)
    ensures
        with_all_accounts(s, accounts).notes == s.notes,
        with_all_accounts(s, accounts).headers == s.headers,
        with_all_accounts(s, accounts).latest == s.latest,
        with_all_accounts(s, accounts).foreign == s.foreign,
        with_all_accounts(s, accounts).chain == s.chain,
        with_all_accounts(s, accounts).captured == s.captured,
    decreases accounts.len(),
{
    if accounts.len() > 0 {
        lemma_accounts_apart(s, accounts.drop_last());
    }
}

#[verifier::rlimit(50)]
proof fn lemma_headers_held(s: StoreView, headers: Seq<BlockHeader>, k: u32)
    ensures
        ({
            let now = with_all_headers(s, headers);
            &&& now.accounts == s.accounts
            &&& now.notes == s.notes
            &&& now.foreign == s.foreign
            &&& now.chain == s.chain
            &&& now.captured == s.captured
            &&& now.latest >= s.latest
            &&& forall|i: int| 0 <= i < headers.len() ==> now.latest >= (#[trigger] headers[i]).block_num
            &&& now.latest == s.latest || exists|i: int|
                0 <= i < headers.len() && now.latest == (#[trigger] headers[i]).block_num
            &&& (forall|i: int| 0 <= i < headers.len() ==> (#[trigger] headers[i]).block_num != k)
                ==> now.headers.contains_key(k) == s.headers.contains_key(k) && now.headers[k]
                == s.headers[k]
            &&& forall|i: int|
                0 <= i < headers.len() && (#[trigger] headers[i]).block_num == k && (forall|j: int|
                    i < j < headers.len() ==> (#[trigger] headers[j]).block_num != k)
                    ==> now.headers.contains_key(k) && now.headers[k] == headers[i]
        }),
    decreases headers.len(),
{
    if headers.len() > 0 {
        let less = headers.drop_last();
        let last = headers.len() - 1;
        lemma_headers_held(s, less, k);
        let before = with_all_headers(s, less);
        let now = with_all_headers(s, headers);
        assert forall|i: int| 0 <= i < headers.len() implies now.latest >= (
        #[trigger] headers[i]).block_num by {
            if i < last {
                assert(before.latest >= less[i].block_num);
            }
        }
        if now.latest != s.latest {
            if now.latest == headers[last].block_num {
            } else {
                let i = choose|i: int|
                    0 <= i < less.len() && before.latest == (#[trigger] less[i]).block_num;
                assert(headers[i].block_num == now.latest);
            }
        }
        if forall|i: int| 0 <= i < headers.len() ==> (#[trigger] headers[i]).block_num != k {
            assert forall|i: int| 0 <= i < less.len() implies (#[trigger] less[i]).block_num != k by {
                assert(headers[i].block_num != k);
            }
            assert(headers[last].block_num != k);
        }
        assert forall|i: int|
            0 <= i < headers.len() && (#[trigger] headers[i]).block_num == k && (forall|j: int|
                i < j < headers.len() ==> (#[trigger] headers[j]).block_num
                    != k) implies now.headers.contains_key(k) && now.headers[k] == headers[i] by {
            if i < last {
                assert(headers[last].block_num != k);
                assert(less[i].block_num == k);
                assert forall|j: int| i < j < less.len() implies (#[trigger] less[j]).block_num
                    != k by {
                    assert(headers[j].block_num != k);
                }
            }
        }
    }
}

/// After a sync the store has each header as the last one with its number says,
/// the latest block is the highest of all, and what the sync does not speak of
/// stays.
pub proof fn lemma_sync(
    s: StoreView,
    accounts: Seq<PartialAccount>,
    notes: Seq<InputNoteView>,
    headers: Seq<BlockHeader>,
    id: u64,
    number: u32,
)
    ensures
        ({
            let now = synced(s, accounts, notes, headers);
            &&& forall|i: int|
                0 <= i < headers.len() && (#[trigger] headers[i]).block_num == number && (forall|
                    j: int,
                | i < j < headers.len() ==> (#[trigger] headers[j]).block_num != number)
                    ==> now.headers.contains_key(number) && now.headers[number] == headers[i]
            &&& (forall|i: int|
                0 <= i < headers.len() ==> (#[trigger] headers[i]).block_num != number)
                ==> now.headers.contains_key(number) == s.headers.contains_key(number)
                && now.headers[number] == s.headers[number]
            &&& now.latest >= s.latest
            &&& forall|i: int| 0 <= i < headers.len() ==> now.latest >= (#[trigger] headers[i]).block_num
            &&& now.latest == s.latest || exists|i: int|
                0 <= i < headers.len() && now.latest == (#[trigger] headers[i]).block_num
            &&& (forall|i: int| 0 <= i < accounts.len() ==> (#[trigger] accounts[i]).id != id)
                ==> now.accounts.contains_key(id) == s.accounts.contains_key(id)
                && now.accounts[id] == s.accounts[id]
            &&& (forall|i: int| 0 <= i < notes.len() ==> (#[trigger] notes[i]).id != id)
                ==> now.notes.contains_key(id) == s.notes.contains_key(id) && now.notes[id]
                == s.notes[id]
            &&& now.foreign == s.foreign
            &&& now.chain == s.chain
            &&& now.captured == s.captured
        }),
{
    let first = with_all_accounts(s, accounts);
    let second = with_all_notes(first, notes);
    lemma_accounts_apart(s, accounts);
    lemma_notes_apart(first, notes);
    lemma_headers_held(second, headers, number);
    if forall|i: int| 0 <= i < accounts.len() ==> (#[trigger] accounts[i]).id != id {
        lemma_other_accounts(s, accounts, id);
    }
    if forall|i: int| 0 <= i < notes.len() ==> (#[trigger] notes[i]).id != id {
        lemma_other_notes(first, notes, id);
    }
}

/// The text of bytes has two digits for each, from which the byte can be read.
pub proof fn lemma_byte_text(bytes: Seq<u8>)
    ensures
        byte_text(bytes).len() == 2 * bytes.len(),
        forall|i: int|
            0 <= i < bytes.len() ==> parsed(
                #[trigger] byte_text(bytes).subrange(2 * i, 2 * i + 2),
                16,
                u8::MAX as nat,
            ) == Some(bytes[i] as nat),
    decreases bytes.len(),
{
    if bytes.len() > 0 {
        let less = bytes.drop_last();
        lemma_byte_text(less);
        let last = bytes.len() - 1;
        let b = bytes[last] as nat;
        let text = byte_text(bytes);
        let pair = zero_padded(hex(b), 2);
        assert(vstd::arithmetic::power::pow(16, 2) == 256) by {
            reveal_with_fuel(vstd::arithmetic::power::pow, 3);
        }
        lemma_numeral_len(b, 16, 2);
        lemma_padded_reads_back(b, 16, 2, u8::MAX as nat);
        assert forall|i: int| 0 <= i < bytes.len() implies parsed(
            #[trigger] text.subrange(2 * i, 2 * i + 2),
            16,
            u8::MAX as nat,
        ) == Some(bytes[i] as nat) by {
            if i < last {
                assert(text.subrange(2 * i, 2 * i + 2) =~= byte_text(less).subrange(
                    2 * i,
                    2 * i + 2,
                ));
            } else {
                assert(text.subrange(2 * i, 2 * i + 2) =~= pair);
            }
        }
    }
}

/// A configuration is without fault exactly if it names the node, the account
/// and the transaction, and the fault is the first of them that is missing.
pub proof fn lemma_fault(c: ReplayConfig)
    ensures
        config_fault(c) is None <==> c.node_url@.len() > 0 && c.account_id@.len() > 0
            && c.transaction_id@.len() > 0,
        c.node_url@.len() == 0 ==> config_fault(c) == Some("node_url cannot be empty"@),
        c.node_url@.len() > 0 && c.account_id@.len() == 0 ==> config_fault(c) == Some(
            "account_id cannot be empty"@,
        ),
        c.node_url@.len() > 0 && c.account_id@.len() > 0 && c.transaction_id@.len() == 0
            ==> config_fault(c) == Some("transaction_id cannot be empty"@),
{
}

/// The summary of a replay names the transaction and the account of the
/// configuration, the block and the number of notes of the inputs, and tells
/// whether there is a script.
pub proof fn lemma_replay_fields(c: ReplayConfig, inputs: TransactionInputs)
    ensures
        replay_fields(c, inputs).texts.contains(("transaction_id"@, c.transaction_id@)),
        replay_fields(c, inputs).texts.contains(("account_id"@, c.account_id@)),
        replay_fields(c, inputs).numbers.contains(
            ("block_num"@, inputs.block_header.block_num as u64),
        ),
        replay_fields(c, inputs).numbers.contains(
            ("input_notes"@, inputs.input_notes@.len() as u64),
        ),
        replay_fields(c, inputs).flags.contains(
            ("has_tx_script"@, inputs.tx_args.tx_script is Some),
        ),
{
    let f = replay_fields(c, inputs);
    assert(f.texts[1] == ("transaction_id"@, c.transaction_id@));
    assert(f.texts[2] == ("account_id"@, c.account_id@));
    assert(f.numbers[0] == ("block_num"@, inputs.block_header.block_num as u64));
    assert(f.numbers[1] == ("input_notes"@, inputs.input_notes@.len() as u64));
    assert(f.flags[0] == ("has_tx_script"@, inputs.tx_args.tx_script is Some));
}

/// A header that stands in for another has the number that was asked for and a
/// time that tells it from any other block: ten seconds a block.
pub proof fn lemma_stand_in(a: BlockHeader, b: BlockHeader, m: u32, n: u32)
    requires
        is_stand_in(a, m),
        is_stand_in(b, n),
    ensures
        a.block_num == m,
        a.version == 1,
        b.timestamp - a.timestamp == 10 * (n - m),
        m == 0 ==> a.timestamp == 1700000000,
        forall|i: int| 0 <= i < 32 ==> #[trigger] a.prev_hash.0@[i] == 0,
{
}

/// The text of an error is its explanation behind the words for its kind.
pub proof fn lemma_error_text(m: String)
    ensures
        error_text(ReplayError::InvalidConfig(m)) == "invalid config: "@ + m@,
        error_text(ReplayError::NodeConnectionFailed(m)) == "node connection failed: "@ + m@,
        error_text(ReplayError::SyncFailed(m)) == "state sync failed: "@ + m@,
        error_text(ReplayError::AccountNotFound(m)) == "account not found: "@ + m@,
        error_text(ReplayError::InputsNotAvailable(m)) == "inputs not available: "@ + m@,
        error_text(ReplayError::ExecutionFailed(m)) == "execution failed: "@ + m@,
        error_text(ReplayError::TraceOutputFailed(m)) == "trace output failed: "@ + m@,
        error_text(ReplayError::HistoricalReplayNotSupported(m))
            == "historical replay not supported: "@ + m@,
        error_text(ReplayError::ForeignAccountNotFound(m)) == "foreign account not found: "@ + m@,
        error_text(ReplayError::CapturedInputsLoadFailed(m)) == "captured inputs load failed: "@
            + m@,
        error_text(ReplayError::IoError(m)) == "I/O error: "@ + m@,
{
}

/// The name of the file of captured inputs holds the account's id in
/// hexadecimal digits and the block's number in decimal ones.
pub proof fn lemma_captured_name(account_id: u64, block_num: u32)
    ensures
        ({
            let name = captured_name(account_id, block_num);
            let digits = numeral(account_id as nat, 16);
            let number = numeral(block_num as nat, 10);
            &&& name == "tx_inputs_0x"@ + digits + "_block_"@ + number + ".json"@
            &&& parsed(digits, 16, u64::MAX as nat) == Some(account_id as nat)
            &&& parsed(number, 10, u32::MAX as nat) == Some(block_num as nat)
        }),
{
    lemma_numeral_reads_back(account_id as nat, 16, u64::MAX as nat);
    lemma_numeral_reads_back(block_num as nat, 10, u32::MAX as nat);
}

} // verus!
