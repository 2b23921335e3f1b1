//! The inputs of a transaction, and what can go wrong with them.

use std::collections::BTreeMap;
use vstd::prelude::*;
use vstd::string::StringExecFns;

use crate::list::copy_all;
use crate::number::hex;
use crate::number::short_hex_text;
use crate::number::zero_padded;
use crate::text::option_text;

verus! {

/// What can go wrong in a replay, with an explanation.
#[derive(Debug, Clone)]
pub enum ReplayError {
    /// The configuration is not valid.
    InvalidConfig(String),
    /// The node cannot be reached.
    NodeConnectionFailed(String),
    /// The state of the chain could not be fetched.
    SyncFailed(String),
    /// The store does not have the account.
    AccountNotFound(String),
    /// The inputs of the transaction are not all there.
    InputsNotAvailable(String),
    /// The transaction failed.
    ExecutionFailed(String),
    /// The trace could not be written.
    TraceOutputFailed(String),
    /// A past transaction cannot be replayed without captured inputs.
    HistoricalReplayNotSupported(String),
    /// The store does not have the foreign account.
    ForeignAccountNotFound(String),
    /// The captured inputs could not be loaded.
    CapturedInputsLoadFailed(String),
    /// A file could not be read or written.
    IoError(String),
}

/// The text of an error.
pub open spec fn error_text(e: ReplayError) -> Seq<char> {
    match e {
        ReplayError::InvalidConfig(m) => "invalid config: "@ + m@,
        ReplayError::NodeConnectionFailed(m) => "node connection failed: "@ + m@,
        ReplayError::SyncFailed(m) => "state sync failed: "@ + m@,
        ReplayError::AccountNotFound(m) => "account not found: "@ + m@,
        ReplayError::InputsNotAvailable(m) => "inputs not available: "@ + m@,
        ReplayError::ExecutionFailed(m) => "execution failed: "@ + m@,
        ReplayError::TraceOutputFailed(m) => "trace output failed: "@ + m@,
        ReplayError::HistoricalReplayNotSupported(m) => "historical replay not supported: "@ + m@,
        ReplayError::ForeignAccountNotFound(m) => "foreign account not found: "@ + m@,
        ReplayError::CapturedInputsLoadFailed(m) => "captured inputs load failed: "@ + m@,
        ReplayError::IoError(m) => "I/O error: "@ + m@,
    }
}

fn behind(words: &str, message: &String) -> (r: String)
    ensures
        r@ == words@ + message@,
{
    let mut out = words.to_owned();
    out.append(message.as_str());
    out
}

impl ReplayError {
    /// Writes the error: what went wrong, and the explanation.
    pub fn to_string(&self) -> (r: String)
        ensures
            r@ == error_text(*self),
    {
        match self {
            ReplayError::InvalidConfig(m) => behind("invalid config: ", m),
            ReplayError::NodeConnectionFailed(m) => behind("node connection failed: ", m),
            ReplayError::SyncFailed(m) => behind("state sync failed: ", m),
            ReplayError::AccountNotFound(m) => behind("account not found: ", m),
            ReplayError::InputsNotAvailable(m) => behind("inputs not available: ", m),
            ReplayError::ExecutionFailed(m) => behind("execution failed: ", m),
            ReplayError::TraceOutputFailed(m) => behind("trace output failed: ", m),
            ReplayError::HistoricalReplayNotSupported(m) => behind(
                "historical replay not supported: ",
                m,
            ),
            ReplayError::ForeignAccountNotFound(m) => behind("foreign account not found: ", m),
            ReplayError::CapturedInputsLoadFailed(m) => behind("captured inputs load failed: ", m),
            ReplayError::IoError(m) => behind("I/O error: ", m),
        }
    }
}

/// A field element.
pub type FeltValue = u64;

/// Four field elements.
pub type Word = [FeltValue; 4];

/// A hash of thirty-two bytes.
#[derive(Debug, Clone, Copy, PartialEq, Eq, Hash)]
pub struct Digest(pub [u8; 32]);

/// Two hexadecimal digits for each byte.
pub open spec fn byte_text(bytes: Seq<u8>) -> Seq<char>
    decreases bytes.len(),
{
    if bytes.len() == 0 {
        seq![]
    } else {
        byte_text(bytes.drop_last()) + zero_padded(hex(bytes.last() as nat), 2)
    }
}

/// All bytes of the digest are zero.
pub open spec fn is_zero(d: Digest) -> bool {
    forall|i: int| 0 <= i < 32 ==> #[trigger] d.0@[i] == 0
}

impl Digest {
    /// The digest of zeros.
    pub fn zero() -> (r: Self)
        ensures
            is_zero(r),
    {
        Digest([0u8;32])
    }

    /// Writes the digest as hexadecimal digits.
    pub fn to_string(&self) -> (r: String)
        ensures
            r@ == byte_text(self.0@),
    {
        let mut out = String::new();
        let mut i: usize = 0;
        assert(self.0@.take(0) =~= seq![]);
        assert(out@ =~= seq![]);
        while i < 32
            invariant
                i <= 32,
                out@ == byte_text(self.0@.take(i as int)),
            decreases 32 - i,
        {
            assert(self.0@.take(i + 1).drop_last() =~= self.0@.take(i as int));
            out.append(short_hex_text(self.0[i]).as_str());
            i += 1;
        }
        assert(self.0@.take(32) =~= self.0@);
        out
    }
}

/// The part of an account's state that a transaction needs.
#[derive(Debug, Clone, Copy)]
pub struct PartialAccount {
    pub id: u64,
    pub nonce: FeltValue,
    pub code_commitment: Digest,
    pub storage_commitment: Digest,
    pub vault_commitment: Digest,
    /// Whether the state is stored on the chain.
    pub is_public: bool,
}

/// The header of the block that a transaction refers to.
#[derive(Debug, Clone, Copy)]
pub struct BlockHeader {
    pub block_num: u32,
    pub version: u32,
    pub prev_hash: Digest,
    pub chain_root: Digest,
    pub account_root: Digest,
    pub nullifier_root: Digest,
    pub note_root: Digest,
    pub tx_hash: Digest,
    pub timestamp: u64,
}

/// The header is one that stands in for that of a block.
pub open spec fn is_stand_in(h: BlockHeader, block_num: u32) -> bool {
    &&& h.block_num == block_num
    &&& h.version == 1
    &&& is_zero(h.prev_hash)
    &&& is_zero(h.chain_root)
    &&& is_zero(h.account_root)
    &&& is_zero(h.nullifier_root)
    &&& is_zero(h.note_root)
    &&& is_zero(h.tx_hash)
    &&& h.timestamp == 1700000000 + block_num * 10
}

impl BlockHeader {
    /// A header that stands in for that of a block: its hashes are zero, and a
    /// block comes every ten seconds.
    pub fn synthetic(block_num: u32) -> (r: Self)
        ensures
            is_stand_in(r, block_num),
    {
        BlockHeader {
            block_num,
            version: 1,
            prev_hash: Digest::zero(),
            chain_root: Digest::zero(),
            account_root: Digest::zero(),
            nullifier_root: Digest::zero(),
            note_root: Digest::zero(),
            tx_hash: Digest::zero(),
            timestamp: 1700000000 + block_num as u64 * 10,
        }
    }
}

/// What shows that blocks belong to the chain.
#[derive(Debug)]
pub struct PartialBlockchain {
    pub peaks: Vec<Digest>,
    pub auth_nodes: Vec<(u64, Digest)>,
}

/// What a [`PartialBlockchain`] holds.
pub struct BlockchainView {
    pub peaks: Seq<Digest>,
    pub auth_nodes: Seq<(u64, Digest)>,
}

impl View for PartialBlockchain {
    type V = BlockchainView;

    open spec fn view(&self) -> BlockchainView {
        BlockchainView { peaks: self.peaks@, auth_nodes: self.auth_nodes@ }
    }
}

/// The chain data of which nothing is known.
pub open spec fn no_blockchain() -> BlockchainView {
    BlockchainView { peaks: seq![], auth_nodes: seq![] }
}

impl Default for PartialBlockchain {
    /// The chain data of which nothing is known.
    fn default() -> (r: Self)
        ensures
            r@ == no_blockchain(),
    {
        PartialBlockchain { peaks: Vec::new(), auth_nodes: Vec::new() }
    }
}

impl Clone for PartialBlockchain {
    /// The same chain data.
    fn clone(&self) -> (r: Self)
        ensures
            r@ == self@,
    {
        PartialBlockchain { peaks: copy_all(&self.peaks), auth_nodes: copy_all(&self.auth_nodes) }
    }
}

/// The labels of a note.
#[derive(Debug, Clone, Copy)]
pub struct NoteMetadata {
    pub tag: u32,
    /// Auxiliary data.
    pub aux: u64,
    /// Zero for public, one for private, two for encrypted.
    pub note_type: u8,
}

impl Default for NoteMetadata {
    /// All labels zero.
    fn default() -> (r: Self)
        ensures
            r == (NoteMetadata { tag: 0, aux: 0, note_type: 0 }),
    {
        NoteMetadata { tag: 0, aux: 0, note_type: 0 }
    }
}

/// A note that a transaction consumes.
#[derive(Debug)]
pub struct InputNote {
    pub id: u64,
    pub script_hash: Digest,
    pub inputs: Vec<FeltValue>,
    /// The faucet and the amount of each asset.
    pub assets: Vec<(u64, u64)>,
    pub sender: u64,
    pub metadata: NoteMetadata,
}

/// What an [`InputNote`] holds.
pub struct InputNoteView {
    pub id: u64,
    pub script_hash: Digest,
    pub inputs: Seq<u64>,
    pub assets: Seq<(u64, u64)>,
    pub sender: u64,
    pub metadata: NoteMetadata,
}

impl View for InputNote {
    type V = InputNoteView;

    open spec fn view(&self) -> InputNoteView {
        InputNoteView {
            id: self.id,
            script_hash: self.script_hash,
            inputs: self.inputs@,
            assets: self.assets@,
            sender: self.sender,
            metadata: self.metadata,
        }
    }
}

impl Clone for InputNote {
    /// The same note.
    fn clone(&self) -> (r: Self)
        ensures
            r@ == self@,
    {
        InputNote {
            id: self.id,
            script_hash: self.script_hash,
            inputs: copy_all(&self.inputs),
            assets: copy_all(&self.assets),
            sender: self.sender,
            metadata: self.metadata,
        }
    }
}

/// The notes that a transaction consumes.
#[derive(Debug, Clone)]
pub struct InputNotes {
    pub notes: Vec<InputNote>,
}

/// What the notes of a list hold.
pub open spec fn note_views(v: Seq<InputNote>) -> Seq<InputNoteView> {
    v.map_values(|n: InputNote| n@)
}

impl View for InputNotes {
    type V = Seq<InputNoteView>;

    open spec fn view(&self) -> Seq<InputNoteView> {
        note_views(self.notes@)
    }
}

impl Default for InputNotes {
    /// No notes.
    fn default() -> (r: Self)
        ensures
            r@ == Seq::<InputNoteView>::empty(),
    {
        let r = InputNotes { notes: Vec::new() };
        assert(r@ =~= Seq::<InputNoteView>::empty());
        r
    }
}

/// The arguments of a transaction.
#[derive(Debug)]
pub struct TransactionArgs {
    /// The source of the transaction script, where there is one.
    pub tx_script: Option<String>,
    /// The arguments of each note.
    pub note_args: BTreeMap<u64, Vec<FeltValue>>,
}

/// What a [`TransactionArgs`] holds.
pub struct ArgsView {
    pub tx_script: Option<Seq<char>>,
    pub note_args: Map<u64, Vec<FeltValue>>,
}

impl View for TransactionArgs {
    type V = ArgsView;

    open spec fn view(&self) -> ArgsView {
        ArgsView { tx_script: option_text(self.tx_script), note_args: self.note_args@ }
    }
}

/// No arguments.
pub open spec fn no_args() -> ArgsView {
    ArgsView { tx_script: None, note_args: Map::empty() }
}

impl Default for TransactionArgs {
    /// No arguments.
    fn default() -> (r: Self)
        ensures
            r@ == no_args(),
    {
        TransactionArgs { tx_script: None, note_args: BTreeMap::new() }
    }
}

impl Clone for TransactionArgs {
    /// The same arguments.
    fn clone(&self) -> (r: Self)
        ensures
            r@ == self@,
    {
        TransactionArgs {
            tx_script: match &self.tx_script {
                Some(s) => Some(s.clone()),
                None => None,
            },
            note_args: self.note_args.clone(),
        }
    }
}

/// The advice of a transaction.
#[derive(Debug)]
pub struct ReplayAdviceInputs {
    pub map_entries: BTreeMap<String, Vec<FeltValue>>,
    pub merkle_nodes: Vec<(Digest, Vec<(u64, Digest)>)>,
}

/// What a [`ReplayAdviceInputs`] holds.
pub struct AdviceView {
    pub map_entries: Map<String, Vec<FeltValue>>,
    pub merkle_nodes: Seq<(Digest, Seq<(u64, Digest)>)>,
}

impl View for ReplayAdviceInputs {
    type V = AdviceView;

    open spec fn view(&self) -> AdviceView {
        AdviceView {
            map_entries: self.map_entries@,
            merkle_nodes: self.merkle_nodes@.map_values(
                |n: (Digest, Vec<(u64, Digest)>)| (n.0, n.1@),
            ),
        }
    }
}

/// No advice.
pub open spec fn no_advice() -> AdviceView {
    AdviceView { map_entries: Map::empty(), merkle_nodes: seq![] }
}

impl Default for ReplayAdviceInputs {
    /// No advice.
    fn default() -> (r: Self)
        ensures
            r@ == no_advice(),
    {
        let r = ReplayAdviceInputs { map_entries: BTreeMap::new(), merkle_nodes: Vec::new() };
        assert(r@.merkle_nodes =~= seq![]);
        r
    }
}

impl Clone for ReplayAdviceInputs {
    /// The same advice.
    fn clone(&self) -> (r: Self)
        ensures
            r@ == self@,
    {
        let mut merkle_nodes: Vec<(Digest, Vec<(u64, Digest)>)> = Vec::new();
        let mut i: usize = 0;
        while i < self.merkle_nodes.len()
            invariant
                i <= self.merkle_nodes.len(),
                merkle_nodes@.len() == i,
                forall|k: int|
                    0 <= k < i ==> (#[trigger] merkle_nodes@[k]).0 == self.merkle_nodes@[k].0
                        && merkle_nodes@[k].1@ == self.merkle_nodes@[k].1@,
            decreases self.merkle_nodes.len() - i,
        {
            merkle_nodes.push((self.merkle_nodes[i].0, copy_all(&self.merkle_nodes[i].1)));
            i += 1;
        }
        let r = ReplayAdviceInputs { map_entries: self.map_entries.clone(), merkle_nodes };
        assert(r@.merkle_nodes =~= self@.merkle_nodes);
        r
    }
}

/// All that is needed to execute a transaction.
#[derive(Debug, Clone)]
pub struct TransactionInputs {
    pub account: PartialAccount,
    pub block_header: BlockHeader,
    pub block_chain: PartialBlockchain,
    pub input_notes: InputNotes,
    pub tx_args: TransactionArgs,
    pub advice_inputs: ReplayAdviceInputs,
}

impl TransactionInputs {
    /// Inputs that stand in for those of a transaction: a public account with
    /// nonce one, without notes, arguments and advice.
    pub fn synthetic(account_id: u64, block_num: u32) -> (r: Self)
        ensures
            r.account.id == account_id,
            r.account.nonce == 1,
            is_zero(r.account.code_commitment),
            is_zero(r.account.storage_commitment),
            is_zero(r.account.vault_commitment),
            r.account.is_public,
            is_stand_in(r.block_header, block_num),
            r.block_chain@ == no_blockchain(),
            r.input_notes@ == Seq::<InputNoteView>::empty(),
            r.tx_args@ == no_args(),
            r.advice_inputs@ == no_advice(),
    {
        TransactionInputs {
            account: PartialAccount {
                id: account_id,
                nonce: 1,
                code_commitment: Digest::zero(),
                storage_commitment: Digest::zero(),
                vault_commitment: Digest::zero(),
                is_public: true,
            },
            block_header: BlockHeader::synthetic(block_num),
            block_chain: PartialBlockchain::default(),
            input_notes: InputNotes::default(),
            tx_args: TransactionArgs::default(),
            advice_inputs: ReplayAdviceInputs::default(),
        }
    }

    /// Adds a note.
    pub fn with_input_note(self, note: InputNote) -> (r: Self)
        ensures
            r.account == self.account,
            r.block_header == self.block_header,
            r.block_chain == self.block_chain,
            r.input_notes@ == self.input_notes@.push(note@),
            r.tx_args == self.tx_args,
            r.advice_inputs == self.advice_inputs,
    {
        let mut inputs = self;
        let ghost added = note@;
        inputs.input_notes.notes.push(note);
        assert(inputs.input_notes@ =~= self.input_notes@.push(added));
        inputs
    }

    /// Sets the transaction script.
    pub fn with_tx_script(self, script: &str) -> (r: Self)
        ensures
            r.account == self.account,
            r.block_header == self.block_header,
            r.block_chain == self.block_chain,
            r.input_notes == self.input_notes,
            r.tx_args.tx_script matches Some(s) && s@ == script@,
            r.tx_args.note_args == self.tx_args.note_args,
            r.advice_inputs == self.advice_inputs,
    {
        let mut inputs = self;
        inputs.tx_args.tx_script = Some(script.to_owned());
        inputs
    }
}

/// What is known of an account other than the executing one.
#[derive(Debug)]
pub struct ForeignAccountData {
    pub id: u64,
    pub account_hash: Digest,
    pub code_commitment: Digest,
    pub storage_commitment: Digest,
    /// What shows that the account belongs to the account tree.
    pub witness: Vec<Digest>,
}

/// What a [`ForeignAccountData`] holds.
pub struct ForeignView {
    pub id: u64,
    pub account_hash: Digest,
    pub code_commitment: Digest,
    pub storage_commitment: Digest,
    pub witness: Seq<Digest>,
}

impl View for ForeignAccountData {
    type V = ForeignView;

    open spec fn view(&self) -> ForeignView {
        ForeignView {
            id: self.id,
            account_hash: self.account_hash,
            code_commitment: self.code_commitment,
            storage_commitment: self.storage_commitment,
            witness: self.witness@,
        }
    }
}

impl Clone for ForeignAccountData {
    /// The same data.
    fn clone(&self) -> (r: Self)
        ensures
            r@ == self@,
    {
        ForeignAccountData {
            id: self.id,
            account_hash: self.account_hash,
            code_commitment: self.code_commitment,
            storage_commitment: self.storage_commitment,
            witness: copy_all(&self.witness),
        }
    }
}

} // verus!
