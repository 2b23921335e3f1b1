//! The store that hands out the inputs of a transaction.

use std::collections::BTreeMap;
use vstd::prelude::*;
use vstd::string::StringExecFns;

use crate::client_replay::types::is_stand_in;
use crate::client_replay::types::no_advice;
use crate::client_replay::types::no_args;
use crate::client_replay::types::no_blockchain;
use crate::client_replay::types::note_views;
use crate::client_replay::types::AdviceView;
use crate::client_replay::types::ArgsView;
use crate::client_replay::types::BlockHeader;
use crate::client_replay::types::BlockchainView;
use crate::client_replay::types::ForeignAccountData;
use crate::client_replay::types::ForeignView;
use crate::client_replay::types::InputNote;
use crate::client_replay::types::InputNoteView;
use crate::client_replay::types::InputNotes;
use crate::client_replay::types::PartialAccount;
use crate::client_replay::types::PartialBlockchain;
use crate::client_replay::types::ReplayAdviceInputs;
use crate::client_replay::types::ReplayError;
use crate::client_replay::types::TransactionArgs;
use crate::client_replay::types::TransactionInputs;
use crate::number::decimal;
use crate::number::decimal_text;
use crate::number::hex;
use crate::number::hex_text;

verus! {

broadcast use vstd::std_specs::btree::group_btree_axioms;

/// Where the inputs of a transaction come from.
pub trait DataStore {
    /// The inputs of a transaction of an account, at a block, on some notes.
    fn get_transaction_inputs(&self, account_id: u64, block_ref: u32, note_ids: &[u64]) -> Result<
        TransactionInputs,
        ReplayError,
    >;

    /// What is known of an account other than the executing one.
    fn get_foreign_account_inputs(&self, account_id: u64) -> Result<
        ForeignAccountData,
        ReplayError,
    >;
}

/// What a [`ReplayDataStore`] holds.
pub struct StoreView {
    pub accounts: Map<u64, PartialAccount>,
    pub headers: Map<u32, BlockHeader>,
    pub notes: Map<u64, InputNoteView>,
    pub foreign: Map<u64, ForeignView>,
    pub chain: BlockchainView,
    pub latest: u32,
    /// The arguments and the advice that were captured, if any were.
    pub captured: Option<CapturedView>,
}

/// The arguments and the advice of a captured transaction, and its account.
pub struct CapturedView {
    pub account_id: u64,
    pub args: ArgsView,
    pub advice: AdviceView,
}

/// The store without data.
pub open spec fn empty_store() -> StoreView {
    StoreView {
        accounts: Map::empty(),
        headers: Map::empty(),
        notes: Map::empty(),
        foreign: Map::empty(),
        chain: no_blockchain(),
        latest: 0,
        captured: None,
    }
}

/// The store with an account, in place of an earlier one with its id.
pub open spec fn with_account(s: StoreView, a: PartialAccount) -> StoreView {
    StoreView { accounts: s.accounts.insert(a.id, a), ..s }
}

/// The store with a header, in place of an earlier one with its number.
pub open spec fn with_header(s: StoreView, h: BlockHeader) -> StoreView {
    StoreView {
        headers: s.headers.insert(h.block_num, h),
        latest: if h.block_num > s.latest {
            h.block_num
        } else {
            s.latest
        },
        ..s
    }
}

/// The store with a note, in place of an earlier one with its id.
pub open spec fn with_note(s: StoreView, n: InputNoteView) -> StoreView {
    StoreView { notes: s.notes.insert(n.id, n), ..s }
}

/// The store with a foreign account, in place of an earlier one with its id.
pub open spec fn with_foreign(s: StoreView, f: ForeignView) -> StoreView {
    StoreView { foreign: s.foreign.insert(f.id, f), ..s }
}

/// The store with several notes, added in order.
pub open spec fn with_all_notes(s: StoreView, notes: Seq<InputNoteView>) -> StoreView
    decreases notes.len(),
{
    if notes.len() == 0 {
        s
    } else {
        with_note(with_all_notes(s, notes.drop_last()), notes.last())
    }
}

/// The store that captured inputs fill.
pub open spec fn captured_store(inputs: TransactionInputs) -> StoreView {
    with_all_notes(
        StoreView {
            chain: inputs.block_chain@,
            captured: Some(
                CapturedView {
                    account_id: inputs.account.id,
                    args: inputs.tx_args@,
                    advice: inputs.advice_inputs@,
                },
            ),
            ..with_header(with_account(empty_store(), inputs.account), inputs.block_header)
        },
        inputs.input_notes@,
    )
}

/// The number of the block that a reference means: zero means the latest.
pub open spec fn meant_block(s: StoreView, block_ref: u32) -> u32 {
    if block_ref > 0 {
        block_ref
    } else {
        s.latest
    }
}

/// The header that the store gives for a reference: the one it holds, or one
/// that stands in for it.
pub open spec fn gives_header(s: StoreView, block_ref: u32, h: BlockHeader) -> bool {
    let n = meant_block(s, block_ref);
    if s.headers.contains_key(n) {
        h == s.headers[n]
    } else {
        is_stand_in(h, n)
    }
}

/// The first of the notes that the store does not have.
pub open spec fn absent_note(s: StoreView, wanted: Seq<u64>) -> Option<u64>
    decreases wanted.len(),
{
    if wanted.len() == 0 {
        None
    } else if !s.notes.contains_key(wanted[0]) {
        Some(wanted[0])
    } else {
        absent_note(s, wanted.drop_first())
    }
}

/// The arguments that the store gives for an account: those that were captured
/// for it, else none.
pub open spec fn given_args(s: StoreView, account_id: u64) -> ArgsView {
    match s.captured {
        Some(c) if c.account_id == account_id => c.args,
        _ => no_args(),
    }
}

/// The advice that the store gives for an account: what was captured for it,
/// else none.
pub open spec fn given_advice(s: StoreView, account_id: u64) -> AdviceView {
    match s.captured {
        Some(c) if c.account_id == account_id => c.advice,
        _ => no_advice(),
    }
}

/// The inputs that the store gives.
pub open spec fn gives_inputs(
    s: StoreView,
    account_id: u64,
    block_ref: u32,
    note_ids: Seq<u64>,
    inputs: TransactionInputs,
) -> bool {
    &&& inputs.account == s.accounts[account_id]
    &&& gives_header(s, block_ref, inputs.block_header)
    &&& inputs.block_chain@ == s.chain
    &&& inputs.input_notes@ == note_ids.map_values(|id: u64| s.notes[id])
    &&& inputs.tx_args@ == given_args(s, account_id)
    &&& inputs.advice_inputs@ == given_advice(s, account_id)
}

struct Captured {
    account_id: u64,
    args: TransactionArgs,
    advice: ReplayAdviceInputs,
}

/// A store that is filled by a sync or from captured inputs.
pub struct ReplayDataStore {
    accounts: BTreeMap<u64, PartialAccount>,
    block_headers: BTreeMap<u32, BlockHeader>,
    notes: BTreeMap<u64, InputNote>,
    foreign_accounts: BTreeMap<u64, ForeignAccountData>,
    chain: PartialBlockchain,
    latest_block: u32,
    captured: Option<Captured>,
}

impl View for ReplayDataStore {
    type V = StoreView;

    closed spec fn view(&self) -> StoreView {
        StoreView {
            accounts: self.accounts@,
            headers: self.block_headers@,
            notes: self.notes@.map_values(|n: InputNote| n@),
            foreign: self.foreign_accounts@.map_values(|f: ForeignAccountData| f@),
            chain: self.chain@,
            latest: self.latest_block,
            captured: match self.captured {
                Some(c) => Some(
                    CapturedView { account_id: c.account_id, args: c.args@, advice: c.advice@ },
                ),
                None => None,
            },
        }
    }
}

impl ReplayDataStore {
    /// A store without data.
    pub fn new() -> (r: Self)
        ensures
            r@ == empty_store(),
    {
        let r = ReplayDataStore {
            accounts: BTreeMap::new(),
            block_headers: BTreeMap::new(),
            notes: BTreeMap::new(),
            foreign_accounts: BTreeMap::new(),
            chain: PartialBlockchain::default(),
            latest_block: 0,
            captured: None,
        };
        assert(r@.notes =~= Map::empty());
        assert(r@.foreign =~= Map::empty());
        r
    }

    /// A store with all that was captured: the account, the header, the chain
    /// data, the notes, the arguments and the advice.
    pub fn from_captured_inputs(inputs: &TransactionInputs) -> (r: Self)
        ensures
            r@ == captured_store(*inputs),
    {
        let mut store = ReplayDataStore::new();
        store.insert_account(inputs.account);
        store.insert_block_header(inputs.block_header);
        store.set_chain(inputs.block_chain.clone());
        store.captured = Some(
            Captured {
                account_id: inputs.account.id,
                args: inputs.tx_args.clone(),
                advice: inputs.advice_inputs.clone(),
            },
        );
        store.insert_notes(&inputs.input_notes.notes);
        store
    }

    /// Adds an account, in place of an earlier one with its id.
    pub fn insert_account(&mut self, account: PartialAccount)
        ensures
            final(self)@ == with_account(old(self)@, account),
    {
        let _ = self.accounts.insert(account.id, account);
    }

    /// Adds a header, in place of an earlier one with its number. The latest
    /// block is the one with the highest number.
    pub fn insert_block_header(&mut self, header: BlockHeader)
        ensures
            final(self)@ == with_header(old(self)@, header),
    {
        if header.block_num > self.latest_block {
            self.latest_block = header.block_num;
        }
        let _ = self.block_headers.insert(header.block_num, header);
    }

    /// Adds a note, in place of an earlier one with its id.
    pub fn insert_note(&mut self, note: InputNote)
        ensures
            final(self)@ == with_note(old(self)@, note@),
    {
        let ghost before = self@;
        let ghost added = note@;
        let _ = self.notes.insert(note.id, note);
        assert(self@.notes =~= before.notes.insert(added.id, added));
    }

    /// Adds copies of several notes, in order.
    pub fn insert_notes(&mut self, notes: &Vec<InputNote>)
        ensures
            final(self)@ == with_all_notes(old(self)@, note_views(notes@)),
    {
        let ghost before = self@;
        let ghost all = note_views(notes@);
        let mut i: usize = 0;
        assert(all.take(0) =~= seq![]);
        while i < notes.len()
            invariant
                i <= notes.len(),
                all == note_views(notes@),
                self@ == with_all_notes(before, all.take(i as int)),
            decreases notes.len() - i,
        {
            assert(all.take(i + 1).drop_last() =~= all.take(i as int));
            self.insert_note(notes[i].clone());
            i += 1;
        }
        assert(all.take(i as int) =~= all);
    }

    /// Adds a foreign account, in place of an earlier one with its id.
    pub fn insert_foreign_account(&mut self, data: ForeignAccountData)
        ensures
            final(self)@ == with_foreign(old(self)@, data@),
    {
        let ghost before = self@;
        let ghost added = data@;
        let _ = self.foreign_accounts.insert(data.id, data);
        assert(self@.foreign =~= before.foreign.insert(added.id, added));
    }

    /// Sets the chain data.
    pub fn set_chain(&mut self, chain: PartialBlockchain)
        ensures
            final(self)@ == (StoreView { chain: chain@, ..old(self)@ }),
    {
        self.chain = chain;
    }

    /// The latest block.
    pub fn latest_block(&self) -> (r: u32)
        ensures
            r == self@.latest,
    {
        self.latest_block
    }

    /// How many accounts there are.
    pub fn account_count(&self) -> (r: usize)
        ensures
            self@.accounts.dom().finite(),
            r == self@.accounts.len(),
    {
        self.accounts.len()
    }

    /// How many notes there are.
    pub fn note_count(&self) -> (r: usize)
        ensures
            self@.notes.dom().finite(),
            r == self@.notes.len(),
    {
        assert(self@.notes.dom() =~= self.notes@.dom());
        self.notes.len()
    }

    /// How many headers there are.
    pub fn block_header_count(&self) -> (r: usize)
        ensures
            self@.headers.dom().finite(),
            r == self@.headers.len(),
    {
        self.block_headers.len()
    }

    /// Tells whether there is an account with an id.
    pub fn has_account(&self, account_id: u64) -> (r: bool)
        ensures
            r == self@.accounts.contains_key(account_id),
    {
        self.accounts.contains_key(&account_id)
    }

    /// Tells whether there is a note with an id.
    pub fn has_note(&self, note_id: u64) -> (r: bool)
        ensures
            r == self@.notes.contains_key(note_id),
    {
        self.notes.contains_key(&note_id)
    }

    /// The account with an id.
    pub fn get_account(&self, account_id: u64) -> (r: Option<&PartialAccount>)
        ensures
            match r {
                Some(a) => self@.accounts.contains_key(account_id) && *a
                    == self@.accounts[account_id],
                None => !self@.accounts.contains_key(account_id),
            },
    {
        self.accounts.get(&account_id)
    }

    fn header_for(&self, block_ref: u32) -> (r: BlockHeader)
        ensures
            gives_header(self@, block_ref, r),
    {
        let block_num: u32 = if block_ref > 0 {
            block_ref
        } else {
            self.latest_block
        };
        match self.block_headers.get(&block_num) {
            Some(header) => *header,
            None => BlockHeader::synthetic(block_num),
        }
    }

    fn args_for(&self, account_id: u64) -> (r: TransactionArgs)
        ensures
            r@ == given_args(self@, account_id),
    {
        match &self.captured {
            Some(c) => if c.account_id == account_id {
                c.args.clone()
            } else {
                TransactionArgs::default()
            },
            None => TransactionArgs::default(),
        }
    }

    fn advice_for(&self, account_id: u64) -> (r: ReplayAdviceInputs)
        ensures
            r@ == given_advice(self@, account_id),
    {
        match &self.captured {
            Some(c) => if c.account_id == account_id {
                c.advice.clone()
            } else {
                ReplayAdviceInputs::default()
            },
            None => ReplayAdviceInputs::default(),
        }
    }

    fn collect_notes(&self, note_ids: &[u64]) -> (r: Result<Vec<InputNote>, u64>)
        ensures
            match r {
                Ok(notes) => absent_note(self@, note_ids@) is None && note_views(notes@)
                    == note_ids@.map_values(|id: u64| self@.notes[id]),
                Err(id) => absent_note(self@, note_ids@) == Some(id),
            },
    {
        let mut out: Vec<InputNote> = Vec::new();
        let mut i: usize = 0;
        assert(note_ids@.skip(0) =~= note_ids@);
        while i < note_ids.len()
            invariant
                i <= note_ids.len(),
                out@.len() == i,
                forall|k: int| 0 <= k < i ==> (#[trigger] out@[k])@ == self@.notes[note_ids@[k]],
                absent_note(self@, note_ids@) == absent_note(self@, note_ids@.skip(i as int)),
            decreases note_ids.len() - i,
        {
            assert(note_ids@.skip(i as int).drop_first() =~= note_ids@.skip(i + 1));
            match self.notes.get(&note_ids[i]) {
                Some(note) => {
                    out.push(note.clone());
                },
                None => {
                    return Err(note_ids[i]);
                },
            }
            i += 1;
        }
        assert(note_views(out@) =~= note_ids@.map_values(|id: u64| self@.notes[id]));
        Ok(out)
    }
}

impl Default for ReplayDataStore {
    /// A store without data.
    fn default() -> (r: Self)
        ensures
            r@ == empty_store(),
    {
        ReplayDataStore::new()
    }
}

fn hex_id(id: u64) -> (r: String)
    ensures
        r@ == "0x"@ + hex(id as nat),
{
    let mut out = "0x".to_owned();
    out.append(hex_text(id).as_str());
    out
}

impl DataStore for ReplayDataStore {
    /// The inputs of a transaction, from what the store holds. The arguments
    /// and the advice are those that were captured for the account. An account
    /// or a note that the store does not hold is an error.
    fn get_transaction_inputs(&self, account_id: u64, block_ref: u32, note_ids: &[u64]) -> (r:
        Result<TransactionInputs, ReplayError>)
        ensures
            match r {
                Ok(inputs) => self@.accounts.contains_key(account_id) && absent_note(
                    self@,
                    note_ids@,
                ) is None && gives_inputs(self@, account_id, block_ref, note_ids@, inputs),
                Err(ReplayError::AccountNotFound(m)) => !self@.accounts.contains_key(account_id)
                    && m@ == "0x"@ + hex(account_id as nat),
                Err(ReplayError::InputsNotAvailable(m)) => self@.accounts.contains_key(account_id)
                    && absent_note(self@, note_ids@) is Some && m@ == "note "@ + decimal(
                    absent_note(self@, note_ids@)->0 as int,
                ) + " not found in store"@,
                Err(_) => false,
            },
    {
        let account = match self.accounts.get(&account_id) {
            Some(account) => *account,
            None => {
                return Err(ReplayError::AccountNotFound(hex_id(account_id)));
            },
        };
        let block_header = self.header_for(block_ref);
        match self.collect_notes(note_ids) {
            Ok(notes) => Ok(
                TransactionInputs {
                    account,
                    block_header,
                    block_chain: self.chain.clone(),
                    input_notes: InputNotes { notes },
                    tx_args: self.args_for(account_id),
                    advice_inputs: self.advice_for(account_id),
                },
            ),
            Err(id) => {
                let mut message = "note ".to_owned();
                message.append(decimal_text(id).as_str());
                message.append(" not found in store");
                Err(ReplayError::InputsNotAvailable(message))
            },
        }
    }

    /// A foreign account that the store holds; any other is an error.
    fn get_foreign_account_inputs(&self, account_id: u64) -> (r: Result<
        ForeignAccountData,
        ReplayError,
    >)
        ensures
            match r {
                Ok(data) => self@.foreign.contains_key(account_id) && data@
                    == self@.foreign[account_id],
                Err(ReplayError::ForeignAccountNotFound(m)) => !self@.foreign.contains_key(
                    account_id,
                ) && m@ == "0x"@ + hex(account_id as nat),
                Err(_) => false,
            },
    {
        match self.foreign_accounts.get(&account_id) {
            Some(data) => Ok(data.clone()),
            None => Err(ReplayError::ForeignAccountNotFound(hex_id(account_id))),
        }
    }
}

} // verus!
