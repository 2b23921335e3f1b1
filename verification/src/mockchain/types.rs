//! Accounts, assets, notes, and how a chain is configured with them.

use vstd::prelude::*;
use vstd::string::StringExecFns;

use crate::list::copy_all;
use crate::number::decimal;
use crate::number::decimal_text;
use crate::number::hex;
use crate::number::lemma_numeral_len;
use crate::number::lemma_padded_reads_back;
use crate::number::parsed;
use crate::number::wide_hex_text;
use crate::number::zero_padded;

verus! {

/// Identifies an account.
#[derive(Debug, Clone, Copy, PartialEq, Eq, PartialOrd, Ord, Hash, Structural)]
pub struct AccountId(pub u64);

impl AccountId {
    /// The id as it is shown: sixteen hexadecimal digits.
    pub open spec fn shown(self) -> Seq<char> {
        "0x"@ + zero_padded(hex(self.0 as nat), 16)
    }

    /// Writes the id as `0x` and sixteen hexadecimal digits.
    pub fn to_string(&self) -> (r: String)
        ensures
            r@ == self.shown(),
    {
        let mut out = "0x".to_owned();
        out.append(wide_hex_text(self.0).as_str());
        out
    }
}

/// Identifies a note.
#[derive(Debug, Clone, Copy, PartialEq, Eq, PartialOrd, Ord, Hash, Structural)]
pub struct NoteId(pub u64);

impl NoteId {
    /// The id as messages name it.
    pub open spec fn label(self) -> Seq<char> {
        "NoteId("@ + decimal(self.0 as int) + ")"@
    }

    /// Writes the id as messages name it.
    pub fn to_label(&self) -> (r: String)
        ensures
            r@ == self.label(),
    {
        let mut out = "NoteId(".to_owned();
        out.append(decimal_text(self.0).as_str());
        out.append(")");
        out
    }
}

/// An amount of an asset, in the smallest unit of the faucet that issued it.
#[derive(Debug, Clone, Copy, PartialEq, Eq, Structural)]
pub struct FungibleAsset {
    pub faucet_id: AccountId,
    pub amount: u64,
}

/// The assets of an account or a note.
#[derive(Debug)]
pub struct AssetVault {
    pub fungible: Vec<FungibleAsset>,
}

impl View for AssetVault {
    type V = Seq<FungibleAsset>;

    open spec fn view(&self) -> Seq<FungibleAsset> {
        self.fungible@
    }
}

impl Default for AssetVault {
    /// The vault without assets.
    fn default() -> (r: Self)
        ensures
            r@ == Seq::<FungibleAsset>::empty(),
    {
        AssetVault { fungible: Vec::new() }
    }
}

impl Clone for AssetVault {
    /// A vault with the same assets.
    fn clone(&self) -> (r: Self)
        ensures
            r@ == self@,
    {
        AssetVault { fungible: copy_all(&self.fungible) }
    }
}

/// A wallet to create.
#[derive(Debug, Clone)]
pub struct WalletConfig {
    pub id: AccountId,
    pub initial_assets: AssetVault,
}

/// A faucet to create.
#[derive(Debug, Clone)]
pub struct FaucetConfig {
    pub id: AccountId,
    /// The symbol of the token, such as `TEST`.
    pub symbol: String,
    /// The most that the faucet can ever mint.
    pub max_supply: u64,
    /// What it has minted already.
    pub initial_supply: u64,
}

/// Who can read a note.
#[derive(Debug, Clone, Copy, PartialEq, Eq, Structural)]
pub enum NoteType {
    Public,
    Private,
    Encrypted,
}

/// A note that pays an account.
#[derive(Debug, Clone)]
pub struct P2IdNoteConfig {
    pub id: NoteId,
    pub sender: AccountId,
    pub receiver: AccountId,
    pub assets: AssetVault,
    pub note_type: NoteType,
    /// Auxiliary data.
    pub aux: u64,
}

/// A note that offers assets for others.
#[derive(Debug, Clone)]
pub struct SwapNoteConfig {
    pub id: NoteId,
    pub sender: AccountId,
    pub offered: AssetVault,
    pub requested: AssetVault,
    pub note_type: NoteType,
    /// Auxiliary data.
    pub aux: u64,
}

/// A note of any other kind.
#[derive(Debug, Clone)]
pub struct OutputNote {
    pub id: NoteId,
    pub sender: AccountId,
    pub assets: AssetVault,
    pub note_type: NoteType,
}

/// What a chain is built with.
#[derive(Debug, Clone)]
pub struct MockChainConfig {
    pub wallets: Vec<WalletConfig>,
    pub faucets: Vec<FaucetConfig>,
    pub p2id_notes: Vec<P2IdNoteConfig>,
    pub swap_notes: Vec<SwapNoteConfig>,
    pub output_notes: Vec<OutputNote>,
}

impl Default for MockChainConfig {
    /// The configuration without accounts and notes.
    fn default() -> (r: Self)
        ensures
            r.wallets@ == Seq::<WalletConfig>::empty(),
            r.faucets@ == Seq::<FaucetConfig>::empty(),
            r.p2id_notes@ == Seq::<P2IdNoteConfig>::empty(),
            r.swap_notes@ == Seq::<SwapNoteConfig>::empty(),
            r.output_notes@ == Seq::<OutputNote>::empty(),
    {
        MockChainConfig {
            wallets: Vec::new(),
            faucets: Vec::new(),
            p2id_notes: Vec::new(),
            swap_notes: Vec::new(),
            output_notes: Vec::new(),
        }
    }
}

/// What an account is for.
#[derive(Debug, Clone)]
pub enum AccountKind {
    Wallet,
    Faucet { symbol: String, max_supply: u64, current_supply: u64 },
}

/// What an [`AccountKind`] holds.
pub enum AccountKindView {
    Wallet,
    Faucet { symbol: Seq<char>, max_supply: u64, current_supply: u64 },
}

impl View for AccountKind {
    type V = AccountKindView;

    open spec fn view(&self) -> AccountKindView {
        match self {
            AccountKind::Wallet => AccountKindView::Wallet,
            AccountKind::Faucet { symbol, max_supply, current_supply } => AccountKindView::Faucet {
                symbol: symbol@,
                max_supply: *max_supply,
                current_supply: *current_supply,
            },
        }
    }
}

/// An account of a chain.
#[derive(Debug, Clone)]
pub struct AccountState {
    pub id: AccountId,
    pub kind: AccountKind,
    pub assets: AssetVault,
}

/// What an [`AccountState`] holds.
pub struct AccountView {
    pub id: AccountId,
    pub kind: AccountKindView,
    pub assets: Seq<FungibleAsset>,
}

impl View for AccountState {
    type V = AccountView;

    open spec fn view(&self) -> AccountView {
        AccountView { id: self.id, kind: self.kind@, assets: self.assets@ }
    }
}

/// A note of a chain.
#[derive(Debug, Clone)]
pub struct NoteState {
    pub id: NoteId,
    pub sender: AccountId,
    pub assets: AssetVault,
    pub note_type: NoteType,
    pub consumed: bool,
}

/// What a [`NoteState`] holds.
pub struct NoteView {
    pub id: NoteId,
    pub sender: AccountId,
    pub assets: Seq<FungibleAsset>,
    pub note_type: NoteType,
    pub consumed: bool,
}

impl View for NoteState {
    type V = NoteView;

    open spec fn view(&self) -> NoteView {
        NoteView {
            id: self.id,
            sender: self.sender,
            assets: self.assets@,
            note_type: self.note_type,
            consumed: self.consumed,
        }
    }
}

/// A transaction that was executed.
#[derive(Debug, Clone)]
pub struct TransactionRecord {
    /// The account that executed it.
    pub account_id: AccountId,
    /// The notes that it consumed.
    pub consumed_notes: Vec<NoteId>,
    /// Whether it succeeded.
    pub success: bool,
}

/// What a [`TransactionRecord`] holds.
pub struct RecordView {
    pub account_id: AccountId,
    pub consumed_notes: Seq<NoteId>,
    pub success: bool,
}

impl View for TransactionRecord {
    type V = RecordView;

    open spec fn view(&self) -> RecordView {
        RecordView {
            account_id: self.account_id,
            consumed_notes: self.consumed_notes@,
            success: self.success,
        }
    }
}

/// A block of a chain.
#[derive(Debug, Clone)]
pub struct Block {
    pub number: u64,
    pub transactions: Vec<TransactionRecord>,
}

/// What a [`Block`] holds.
pub struct BlockView {
    pub number: u64,
    pub transactions: Seq<RecordView>,
}

impl View for Block {
    type V = BlockView;

    open spec fn view(&self) -> BlockView {
        BlockView {
            number: self.number,
            transactions: self.transactions@.map_values(|t: TransactionRecord| t@),
        }
    }
}

/// A transaction to execute.
#[derive(Debug, Clone)]
pub struct TransactionConfig {
    /// The account that executes it.
    pub account_id: AccountId,
    /// The notes that it consumes.
    pub input_notes: Vec<NoteId>,
    /// The source of the transaction script, where there is one.
    pub tx_script: Option<String>,
    pub debug_mode: bool,
}

/// The shown id of an account is `0x` and sixteen digits, from which the id can
/// be read. So different accounts are shown differently.
pub proof fn lemma_shown_id(a: AccountId)
    ensures
        a.shown().len() == 18,
        a.shown()[0] == '0' && a.shown()[1] == 'x',
        parsed(a.shown().skip(2), 16, u64::MAX as nat) == Some(a.0 as nat),
{
    reveal_strlit("0x");
    let n = a.0 as nat;
    vstd::arithmetic::power::lemma_pow_adds(16, 8, 8);
    assert(vstd::arithmetic::power::pow(16, 8) == 0x1_0000_0000) by {
        reveal_with_fuel(vstd::arithmetic::power::pow, 9);
    }
    assert(0x1_0000_0000int * 0x1_0000_0000int == 0x1_0000_0000_0000_0000int) by (nonlinear_arith);
    lemma_numeral_len(n, 16, 16);
    lemma_padded_reads_back(n, 16, 16, u64::MAX as nat);
    assert(a.shown().skip(2) =~= zero_padded(hex(n), 16));
}

} // verus!
