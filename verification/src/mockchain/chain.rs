//! Building a chain and recording transactions on it.

use std::collections::BTreeMap;
use vstd::prelude::*;

use crate::mockchain::types::AccountId;
use crate::mockchain::types::AccountKind;
use crate::mockchain::types::AccountKindView;
use crate::mockchain::types::AccountState;
use crate::mockchain::types::AccountView;
use crate::mockchain::types::AssetVault;
use crate::mockchain::types::Block;
use crate::mockchain::types::BlockView;
use crate::mockchain::types::FaucetConfig;
use crate::mockchain::types::MockChainConfig;
use crate::mockchain::types::NoteId;
use crate::mockchain::types::NoteState;
use crate::mockchain::types::NoteView;
use crate::mockchain::types::OutputNote;
use crate::mockchain::types::P2IdNoteConfig;
use crate::mockchain::types::RecordView;
use crate::mockchain::types::SwapNoteConfig;
use crate::mockchain::types::TransactionRecord;
use crate::mockchain::types::WalletConfig;

verus! {

broadcast use vstd::std_specs::btree::group_btree_axioms;

/// The account of a wallet.
pub open spec fn wallet_account(w: WalletConfig) -> AccountView {
    AccountView { id: w.id, kind: AccountKindView::Wallet, assets: w.initial_assets@ }
}

/// The account of a faucet.
pub open spec fn faucet_account(f: FaucetConfig) -> AccountView {
    AccountView {
        id: f.id,
        kind: AccountKindView::Faucet {
            symbol: f.symbol@,
            max_supply: f.max_supply,
            current_supply: f.initial_supply,
        },
        assets: seq![],
    }
}

/// The note of a payment.
pub open spec fn p2id_note(n: P2IdNoteConfig) -> NoteView {
    NoteView {
        id: n.id,
        sender: n.sender,
        assets: n.assets@,
        note_type: n.note_type,
        consumed: false,
    }
}

/// The note of a swap, which holds what is offered.
pub open spec fn swap_note(n: SwapNoteConfig) -> NoteView {
    NoteView {
        id: n.id,
        sender: n.sender,
        assets: n.offered@,
        note_type: n.note_type,
        consumed: false,
    }
}

/// The note of any other kind.
pub open spec fn output_note(n: OutputNote) -> NoteView {
    NoteView {
        id: n.id,
        sender: n.sender,
        assets: n.assets@,
        note_type: n.note_type,
        consumed: false,
    }
}

/// Accounts, with more of them; the last one with an id counts.
pub open spec fn with_accounts(m: Map<u64, AccountView>, s: Seq<AccountView>) -> Map<u64, AccountView>
    decreases s.len(),
{
    if s.len() == 0 {
        m
    } else {
        with_accounts(m, s.drop_last()).insert(s.last().id.0, s.last())
    }
}

/// Notes, with more of them; the last one with an id counts.
pub open spec fn with_notes(m: Map<u64, NoteView>, s: Seq<NoteView>) -> Map<u64, NoteView>
    decreases s.len(),
{
    if s.len() == 0 {
        m
    } else {
        with_notes(m, s.drop_last()).insert(s.last().id.0, s.last())
    }
}

/// The accounts that a configuration asks for: wallets, then faucets.
pub open spec fn configured_accounts(c: MockChainConfig) -> Seq<AccountView> {
    c.wallets@.map_values(|w: WalletConfig| wallet_account(w)) + c.faucets@.map_values(
        |f: FaucetConfig| faucet_account(f),
    )
}

/// The notes that a configuration asks for: payments, swaps, then the others.
pub open spec fn configured_notes(c: MockChainConfig) -> Seq<NoteView> {
    c.p2id_notes@.map_values(|n: P2IdNoteConfig| p2id_note(n)) + c.swap_notes@.map_values(
        |n: SwapNoteConfig| swap_note(n),
    ) + c.output_notes@.map_values(|n: OutputNote| output_note(n))
}

/// What a [`MockChainState`] holds.
pub struct ChainView {
    pub config: MockChainConfig,
    pub accounts: Map<u64, AccountView>,
    pub notes: Map<u64, NoteView>,
    pub blocks: Seq<BlockView>,
    pub block_number: u64,
}

/// The chain that a configuration builds.
pub open spec fn built(c: MockChainConfig) -> ChainView {
    ChainView {
        config: c,
        accounts: with_accounts(Map::empty(), configured_accounts(c)),
        notes: with_notes(Map::empty(), configured_notes(c)),
        blocks: seq![],
        block_number: 0,
    }
}

/// A chain: its accounts and notes by their ids, and its blocks.
pub struct MockChainState {
    /// The configuration that the chain was built with.
    pub config: MockChainConfig,
    pub accounts: BTreeMap<u64, AccountState>,
    pub notes: BTreeMap<u64, NoteState>,
    pub blocks: Vec<Block>,
    pub block_number: u64,
}

impl View for MockChainState {
    type V = ChainView;

    open spec fn view(&self) -> ChainView {
        ChainView {
            config: self.config,
            accounts: self.accounts@.map_values(|a: AccountState| a@),
            notes: self.notes@.map_values(|n: NoteState| n@),
            blocks: self.blocks@.map_values(|b: Block| b@),
            block_number: self.block_number,
        }
    }
}

/// Collects the configuration of a chain.
pub struct MockChainBuilder {
    config: MockChainConfig,
}

proof fn lemma_with_accounts_joined(m: Map<u64, AccountView>, s: Seq<AccountView>, t: Seq<AccountView>)
    ensures
        with_accounts(m, s + t) == with_accounts(with_accounts(m, s), t),
    decreases t.len(),
{
    if t.len() == 0 {
        assert(s + t =~= s);
    } else {
        assert((s + t).drop_last() =~= s + t.drop_last());
        lemma_with_accounts_joined(m, s, t.drop_last());
    }
}

proof fn lemma_with_notes_joined(m: Map<u64, NoteView>, s: Seq<NoteView>, t: Seq<NoteView>)
    ensures
        with_notes(m, s + t) == with_notes(with_notes(m, s), t),
    decreases t.len(),
{
    if t.len() == 0 {
        assert(s + t =~= s);
    } else {
        assert((s + t).drop_last() =~= s + t.drop_last());
        lemma_with_notes_joined(m, s, t.drop_last());
    }
}

spec fn account_views(m: BTreeMap<u64, AccountState>) -> Map<u64, AccountView> {
    m@.map_values(|a: AccountState| a@)
}

spec fn note_views(m: BTreeMap<u64, NoteState>) -> Map<u64, NoteView> {
    m@.map_values(|n: NoteState| n@)
}

fn add_account(accounts: &mut BTreeMap<u64, AccountState>, account: AccountState)
    ensures
        account_views(*final(accounts)) == account_views(*old(accounts)).insert(
            account.id.0,
            account@,
        ),
{
    let ghost before = *accounts;
    let key: u64 = account.id.0;
    let ghost added = account@;
    let _ = accounts.insert(key, account);
    assert(account_views(*accounts) =~= account_views(before).insert(key, added));
}

fn add_note(notes: &mut BTreeMap<u64, NoteState>, note: NoteState)
    ensures
        note_views(*final(notes)) == note_views(*old(notes)).insert(note.id.0, note@),
{
    let ghost before = *notes;
    let key: u64 = note.id.0;
    let ghost added = note@;
    let _ = notes.insert(key, note);
    assert(note_views(*notes) =~= note_views(before).insert(key, added));
}

fn build_accounts(config: &MockChainConfig) -> (r: BTreeMap<u64, AccountState>)
    ensures
        account_views(r) == with_accounts(Map::empty(), configured_accounts(*config)),
{
    let ghost wallets = config.wallets@.map_values(|w: WalletConfig| wallet_account(w));
    let ghost faucets = config.faucets@.map_values(|f: FaucetConfig| faucet_account(f));
    let mut accounts: BTreeMap<u64, AccountState> = BTreeMap::new();
    let ghost none = Map::<u64, AccountView>::empty();
    assert(account_views(accounts) =~= none);
    assert(wallets.take(0) =~= seq![]);
    let mut i: usize = 0;
    while i < config.wallets.len()
        invariant
            i <= config.wallets.len(),
            wallets == config.wallets@.map_values(|w: WalletConfig| wallet_account(w)),
            account_views(accounts) == with_accounts(none, wallets.take(i as int)),
        decreases config.wallets.len() - i,
    {
        let w = &config.wallets[i];
        assert(wallets.take(i + 1).drop_last() =~= wallets.take(i as int));
        add_account(
            &mut accounts,
            AccountState { id: w.id, kind: AccountKind::Wallet, assets: w.initial_assets.clone() },
        );
        i += 1;
    }
    assert(wallets.take(i as int) =~= wallets);
    let ghost with_wallets = with_accounts(none, wallets);
    assert(faucets.take(0) =~= seq![]);
    let mut j: usize = 0;
    while j < config.faucets.len()
        invariant
            j <= config.faucets.len(),
            faucets == config.faucets@.map_values(|f: FaucetConfig| faucet_account(f)),
            account_views(accounts) == with_accounts(with_wallets, faucets.take(j as int)),
        decreases config.faucets.len() - j,
    {
        let f = &config.faucets[j];
        assert(faucets.take(j + 1).drop_last() =~= faucets.take(j as int));
        add_account(
            &mut accounts,
            AccountState {
                id: f.id,
                kind: AccountKind::Faucet {
                    symbol: f.symbol.clone(),
                    max_supply: f.max_supply,
                    current_supply: f.initial_supply,
                },
                assets: AssetVault::default(),
            },
        );
        j += 1;
    }
    assert(faucets.take(j as int) =~= faucets);
    proof {
        lemma_with_accounts_joined(none, wallets, faucets);
    }
    accounts
}

fn build_notes(config: &MockChainConfig) -> (r: BTreeMap<u64, NoteState>)
    ensures
        note_views(r) == with_notes(Map::empty(), configured_notes(*config)),
{
    let ghost payments = config.p2id_notes@.map_values(|n: P2IdNoteConfig| p2id_note(n));
    let ghost swaps = config.swap_notes@.map_values(|n: SwapNoteConfig| swap_note(n));
    let ghost others = config.output_notes@.map_values(|n: OutputNote| output_note(n));
    let mut notes: BTreeMap<u64, NoteState> = BTreeMap::new();
    let ghost none = Map::<u64, NoteView>::empty();
    assert(note_views(notes) =~= none);
    assert(payments.take(0) =~= seq![]);
    let mut i: usize = 0;
    while i < config.p2id_notes.len()
        invariant
            i <= config.p2id_notes.len(),
            payments == config.p2id_notes@.map_values(|n: P2IdNoteConfig| p2id_note(n)),
            note_views(notes) == with_notes(none, payments.take(i as int)),
        decreases config.p2id_notes.len() - i,
    {
        let n = &config.p2id_notes[i];
        assert(payments.take(i + 1).drop_last() =~= payments.take(i as int));
        add_note(
            &mut notes,
            NoteState {
                id: n.id,
                sender: n.sender,
                assets: n.assets.clone(),
                note_type: n.note_type,
                consumed: false,
            },
        );
        i += 1;
    }
    assert(payments.take(i as int) =~= payments);
    let ghost with_payments = with_notes(none, payments);
    assert(swaps.take(0) =~= seq![]);
    let mut j: usize = 0;
    while j < config.swap_notes.len()
        invariant
            j <= config.swap_notes.len(),
            swaps == config.swap_notes@.map_values(|n: SwapNoteConfig| swap_note(n)),
            note_views(notes) == with_notes(with_payments, swaps.take(j as int)),
        decreases config.swap_notes.len() - j,
    {
        let n = &config.swap_notes[j];
        assert(swaps.take(j + 1).drop_last() =~= swaps.take(j as int));
        add_note(
            &mut notes,
            NoteState {
                id: n.id,
                sender: n.sender,
                assets: n.offered.clone(),
                note_type: n.note_type,
                consumed: false,
            },
        );
        j += 1;
    }
    assert(swaps.take(j as int) =~= swaps);
    let ghost with_swaps = with_notes(with_payments, swaps);
    assert(others.take(0) =~= seq![]);
    let mut k: usize = 0;
    while k < config.output_notes.len()
        invariant
            k <= config.output_notes.len(),
            others == config.output_notes@.map_values(|n: OutputNote| output_note(n)),
            note_views(notes) == with_notes(with_swaps, others.take(k as int)),
        decreases config.output_notes.len() - k,
    {
        let n = &config.output_notes[k];
        assert(others.take(k + 1).drop_last() =~= others.take(k as int));
        add_note(
            &mut notes,
            NoteState {
                id: n.id,
                sender: n.sender,
                assets: n.assets.clone(),
                note_type: n.note_type,
                consumed: false,
            },
        );
        k += 1;
    }
    assert(others.take(k as int) =~= others);
    proof {
        lemma_with_notes_joined(none, payments, swaps);
        lemma_with_notes_joined(none, payments + swaps, others);
    }
    notes
}

impl MockChainBuilder {
    /// The configuration so far.
    pub closed spec fn configured(&self) -> MockChainConfig {
        self.config
    }

    /// A builder with nothing configured.
    pub fn new() -> (r: Self)
        ensures
            r.configured().wallets@ == Seq::<WalletConfig>::empty(),
            r.configured().faucets@ == Seq::<FaucetConfig>::empty(),
            r.configured().p2id_notes@ == Seq::<P2IdNoteConfig>::empty(),
            r.configured().swap_notes@ == Seq::<SwapNoteConfig>::empty(),
            r.configured().output_notes@ == Seq::<OutputNote>::empty(),
    {
        MockChainBuilder { config: MockChainConfig::default() }
    }

    /// A builder with the given configuration.
    pub fn from_config(config: MockChainConfig) -> (r: Self)
        ensures
            r.configured() == config,
    {
        MockChainBuilder { config }
    }

    /// Adds a wallet.
    pub fn add_existing_wallet(self, wallet: WalletConfig) -> (r: Self)
        ensures
            r.configured().wallets@ == self.configured().wallets@.push(wallet),
            r.configured().faucets == self.configured().faucets,
            r.configured().p2id_notes == self.configured().p2id_notes,
            r.configured().swap_notes == self.configured().swap_notes,
            r.configured().output_notes == self.configured().output_notes,
    {
        let mut builder = self;
        builder.config.wallets.push(wallet);
        builder
    }

    /// Adds a faucet.
    pub fn add_existing_basic_faucet(self, faucet: FaucetConfig) -> (r: Self)
        ensures
            r.configured().wallets == self.configured().wallets,
            r.configured().faucets@ == self.configured().faucets@.push(faucet),
            r.configured().p2id_notes == self.configured().p2id_notes,
            r.configured().swap_notes == self.configured().swap_notes,
            r.configured().output_notes == self.configured().output_notes,
    {
        let mut builder = self;
        builder.config.faucets.push(faucet);
        builder
    }

    /// Adds a payment.
    pub fn add_p2id_note(self, note: P2IdNoteConfig) -> (r: Self)
        ensures
            r.configured().wallets == self.configured().wallets,
            r.configured().faucets == self.configured().faucets,
            r.configured().p2id_notes@ == self.configured().p2id_notes@.push(note),
            r.configured().swap_notes == self.configured().swap_notes,
            r.configured().output_notes == self.configured().output_notes,
    {
        let mut builder = self;
        builder.config.p2id_notes.push(note);
        builder
    }

    /// Adds a swap.
    pub fn add_swap_note(self, note: SwapNoteConfig) -> (r: Self)
        ensures
            r.configured().wallets == self.configured().wallets,
            r.configured().faucets == self.configured().faucets,
            r.configured().p2id_notes == self.configured().p2id_notes,
            r.configured().swap_notes@ == self.configured().swap_notes@.push(note),
            r.configured().output_notes == self.configured().output_notes,
    {
        let mut builder = self;
        builder.config.swap_notes.push(note);
        builder
    }

    /// Adds a note of any other kind.
    pub fn add_output_note(self, note: OutputNote) -> (r: Self)
        ensures
            r.configured().wallets == self.configured().wallets,
            r.configured().faucets == self.configured().faucets,
            r.configured().p2id_notes == self.configured().p2id_notes,
            r.configured().swap_notes == self.configured().swap_notes,
            r.configured().output_notes@ == self.configured().output_notes@.push(note),
    {
        let mut builder = self;
        builder.config.output_notes.push(note);
        builder
    }

    /// Builds the chain.
    pub fn build(self) -> (r: MockChainState)
        ensures
            r@ == built(self.configured()),
    {
        let accounts = build_accounts(&self.config);
        let notes = build_notes(&self.config);
        let r = MockChainState {
            config: self.config,
            accounts,
            notes,
            blocks: Vec::new(),
            block_number: 0,
        };
        assert(r@.blocks =~= seq![]);
        r
    }
}

impl Default for MockChainBuilder {
    /// A builder with nothing configured.
    fn default() -> (r: Self)
        ensures
            r.configured().wallets@ == Seq::<WalletConfig>::empty(),
            r.configured().faucets@ == Seq::<FaucetConfig>::empty(),
            r.configured().p2id_notes@ == Seq::<P2IdNoteConfig>::empty(),
            r.configured().swap_notes@ == Seq::<SwapNoteConfig>::empty(),
            r.configured().output_notes@ == Seq::<OutputNote>::empty(),
    {
        MockChainBuilder::new()
    }
}

/// A note that is consumed if it is among `ids`.
pub open spec fn note_after(note: NoteView, key: u64, ids: Seq<NoteId>) -> NoteView {
    if ids.contains(NoteId(key)) {
        NoteView { consumed: true, ..note }
    } else {
        note
    }
}

/// Notes, those of them consumed that are among `ids`.
pub open spec fn consumed(notes: Map<u64, NoteView>, ids: Seq<NoteId>) -> Map<u64, NoteView> {
    Map::new(|k: u64| notes.contains_key(k), |k: u64| note_after(notes[k], k, ids))
}

/// Blocks with one more transaction in the last one, or in a first one.
pub open spec fn with_transaction(blocks: Seq<BlockView>, number: u64, record: RecordView) -> Seq<
    BlockView,
> {
    if blocks.len() == 0 {
        seq![BlockView { number, transactions: seq![record] }]
    } else {
        blocks.update(
            blocks.len() - 1,
            BlockView {
                number: blocks.last().number,
                transactions: blocks.last().transactions.push(record),
            },
        )
    }
}

/// A chain after a transaction.
pub open spec fn recorded(chain: ChainView, record: RecordView) -> ChainView {
    ChainView {
        notes: consumed(chain.notes, record.consumed_notes),
        blocks: with_transaction(chain.blocks, chain.block_number, record),
        ..chain
    }
}

/// A chain at its next block number.
pub open spec fn next_block(chain: ChainView) -> ChainView {
    ChainView { block_number: (chain.block_number + 1) as u64, ..chain }
}

impl MockChainState {
    /// The account with an id.
    pub fn get_account(&self, id: &AccountId) -> (r: Option<&AccountState>)
        ensures
            match r {
                Some(a) => self@.accounts.contains_key(id.0) && a@ == self@.accounts[id.0],
                None => !self@.accounts.contains_key(id.0),
            },
    {
        self.accounts.get(&id.0)
    }

    /// The note with an id.
    pub fn get_note(&self, id: &NoteId) -> (r: Option<&NoteState>)
        ensures
            match r {
                Some(n) => self@.notes.contains_key(id.0) && n@ == self@.notes[id.0],
                None => !self@.notes.contains_key(id.0),
            },
    {
        self.notes.get(&id.0)
    }

    /// Tells whether there is an account with an id.
    pub fn has_account(&self, id: &AccountId) -> (r: bool)
        ensures
            r == self@.accounts.contains_key(id.0),
    {
        self.accounts.contains_key(&id.0)
    }

    /// How many accounts there are.
    pub fn account_count(&self) -> (r: usize)
        ensures
            self@.accounts.dom().finite(),
            r == self@.accounts.len(),
    {
        assert(self@.accounts.dom() =~= self.accounts@.dom());
        self.accounts.len()
    }

    /// How many notes there are.
    pub fn note_count(&self) -> (r: usize)
        ensures
            self@.notes.dom().finite(),
            r == self@.notes.len(),
    {
        assert(self@.notes.dom() =~= self.notes@.dom());
        self.notes.len()
    }

    fn consume(&mut self, ids: &Vec<NoteId>)
        ensures
            final(self)@ == (ChainView { notes: consumed(old(self)@.notes, ids@), ..old(self)@ }),
    {
        let ghost before = *self;
        let mut i: usize = 0;
        assert(self@.notes =~= consumed(before@.notes, ids@.take(0)));
        while i < ids.len()
            invariant
                i <= ids.len(),
                self@ == (ChainView {
                    notes: consumed(before@.notes, ids@.take(i as int)),
                    ..before@
                }),
            decreases ids.len() - i,
        {
            let key: u64 = ids[i].0;
            let ghost so_far = ids@.take(i as int);
            let ghost next = ids@.take(i + 1);
            let ghost earlier = self@.notes;
            assert(next =~= so_far.push(NoteId(key)));
            assert forall|k: u64|
                next.contains(NoteId(k)) == (so_far.contains(NoteId(k)) || k == key) by {
                if so_far.contains(NoteId(k)) {
                    let j = so_far.index_of(NoteId(k));
                    assert(next[j] == NoteId(k));
                }
                assert(next[i as int] == NoteId(key));
                if next.contains(NoteId(k)) {
                    let j = next.index_of(NoteId(k));
                    if j < i {
                        assert(so_far[j] == NoteId(k));
                    }
                }
            }
            if let Some(note) = self.notes.remove(&key) {
                let ghost found = note@;
                assert(found == earlier[key]);
                let mut note = note;
                note.consumed = true;
                let _ = self.notes.insert(key, note);
                assert(self@.notes =~= earlier.insert(key, NoteView { consumed: true, ..found }));
            } else {
                assert(self@.notes =~= earlier);
            }
            assert(self@.notes =~= consumed(before@.notes, next));
            i += 1;
        }
        assert(ids@.take(i as int) =~= ids@);
    }

    /// Records a transaction: its notes are consumed, and it joins the last
    /// block, or a new one where there is none.
    pub fn record_transaction(&mut self, record: TransactionRecord)
        ensures
            final(self)@ == recorded(old(self)@, record@),
    {
        let ghost before = self@;
        let ghost added = record@;
        self.consume(&record.consumed_notes);
        let n: usize = self.blocks.len();
        if n == 0 {
            let mut transactions: Vec<TransactionRecord> = Vec::new();
            transactions.push(record);
            let block = Block { number: self.block_number, transactions };
            assert(block@.transactions =~= seq![added]);
            self.blocks.push(block);
        } else {
            let ghost last = self.blocks@[n - 1];
            assert(before.blocks.last() == last@);
            self.blocks[n - 1].transactions.push(record);
            assert(self.blocks@[n - 1]@.transactions =~= last@.transactions.push(added));
        }
        assert(self@.blocks =~= with_transaction(before.blocks, before.block_number, added));
    }

    /// Moves on to the next block number.
    pub fn produce_block(&mut self)
        requires
            old(self).block_number < u64::MAX,
        ensures
            final(self)@ == next_block(old(self)@),
    {
        self.block_number += 1;
    }
}

proof fn lemma_account_ids(m: Map<u64, AccountView>, s: Seq<AccountView>, k: u64)
    ensures
        with_accounts(m, s).contains_key(k) <==> m.contains_key(k) || exists|i: int|
            0 <= i < s.len() && #[trigger] s[i].id.0 == k,
    decreases s.len(),
{
    if s.len() > 0 {
        let shorter = s.drop_last();
        let last = s.len() - 1;
        lemma_account_ids(m, shorter, k);
        if exists|i: int| 0 <= i < s.len() && #[trigger] s[i].id.0 == k {
            let i = choose|i: int| 0 <= i < s.len() && #[trigger] s[i].id.0 == k;
            if i < last {
                assert(shorter[i].id.0 == k);
            }
        }
        if exists|i: int| 0 <= i < shorter.len() && #[trigger] shorter[i].id.0 == k {
            let i = choose|i: int| 0 <= i < shorter.len() && #[trigger] shorter[i].id.0 == k;
            assert(s[i].id.0 == k);
        }
        assert(s[last].id.0 == s.last().id.0);
    }
}

proof fn lemma_account_stands(m: Map<u64, AccountView>, s: Seq<AccountView>, i: int)
    requires
        0 <= i < s.len(),
        forall|j: int| i < j < s.len() ==> s[j].id.0 != s[i].id.0,
    ensures
        with_accounts(m, s)[s[i].id.0] == s[i],
    decreases s.len(),
{
    let last = s.len() - 1;
    if i < last {
        let shorter = s.drop_last();
        assert(s[last].id.0 != s[i].id.0);
        assert forall|j: int| i < j < shorter.len() implies shorter[j].id.0 != shorter[i].id.0 by {
            assert(s[j].id.0 != s[i].id.0);
        }
        lemma_account_stands(m, shorter, i);
    }
}

proof fn lemma_note_ids(m: Map<u64, NoteView>, s: Seq<NoteView>, k: u64)
    ensures
        with_notes(m, s).contains_key(k) <==> m.contains_key(k) || exists|i: int|
            0 <= i < s.len() && #[trigger] s[i].id.0 == k,
    decreases s.len(),
{
    if s.len() > 0 {
        let shorter = s.drop_last();
        let last = s.len() - 1;
        lemma_note_ids(m, shorter, k);
        if exists|i: int| 0 <= i < s.len() && #[trigger] s[i].id.0 == k {
            let i = choose|i: int| 0 <= i < s.len() && #[trigger] s[i].id.0 == k;
            if i < last {
                assert(shorter[i].id.0 == k);
            }
        }
        if exists|i: int| 0 <= i < shorter.len() && #[trigger] shorter[i].id.0 == k {
            let i = choose|i: int| 0 <= i < shorter.len() && #[trigger] shorter[i].id.0 == k;
            assert(s[i].id.0 == k);
        }
        assert(s[last].id.0 == s.last().id.0);
    }
}

proof fn lemma_note_stands(m: Map<u64, NoteView>, s: Seq<NoteView>, i: int)
    requires
        0 <= i < s.len(),
        forall|j: int| i < j < s.len() ==> s[j].id.0 != s[i].id.0,
    ensures
        with_notes(m, s)[s[i].id.0] == s[i],
    decreases s.len(),
{
    let last = s.len() - 1;
    if i < last {
        let shorter = s.drop_last();
        assert(s[last].id.0 != s[i].id.0);
        assert forall|j: int| i < j < shorter.len() implies shorter[j].id.0 != shorter[i].id.0 by {
            assert(s[j].id.0 != s[i].id.0);
        }
        lemma_note_stands(m, shorter, i);
    }
}

/// A built chain has exactly the accounts and notes that were configured. Each
/// stands as the last configuration with its id says.
pub proof fn lemma_built(c: MockChainConfig)
    ensures
        forall|k: u64| #[trigger]
            built(c).accounts.contains_key(k) <==> exists|i: int|
                0 <= i < configured_accounts(c).len() && #[trigger] configured_accounts(c)[i].id.0
                    == k,
        forall|i: int|
            0 <= i < configured_accounts(c).len() && (forall|j: int|
                i < j < configured_accounts(c).len() ==> configured_accounts(c)[j].id.0
                    != configured_accounts(c)[i].id.0)
                ==> built(c).accounts[(#[trigger] configured_accounts(c)[i]).id.0]
                == configured_accounts(c)[i],
        forall|k: u64| #[trigger]
            built(c).notes.contains_key(k) <==> exists|i: int|
                0 <= i < configured_notes(c).len() && #[trigger] configured_notes(c)[i].id.0 == k,
        forall|i: int|
            0 <= i < configured_notes(c).len() && (forall|j: int|
                i < j < configured_notes(c).len() ==> configured_notes(c)[j].id.0
                    != configured_notes(c)[i].id.0)
                ==> built(c).notes[(#[trigger] configured_notes(c)[i]).id.0]
                == configured_notes(c)[i],
{
    let accounts = configured_accounts(c);
    let notes = configured_notes(c);
    assert forall|k: u64| #[trigger]
        built(c).accounts.contains_key(k) <==> exists|i: int|
            0 <= i < accounts.len() && #[trigger] accounts[i].id.0 == k by {
        lemma_account_ids(Map::empty(), accounts, k);
    }
    assert forall|i: int|
        0 <= i < accounts.len() && (forall|j: int|
            i < j < accounts.len() ==> accounts[j].id.0 != accounts[i].id.0) implies built(
        c,
    ).accounts[(#[trigger] accounts[i]).id.0] == accounts[i] by {
        lemma_account_stands(Map::empty(), accounts, i);
    }
    assert forall|k: u64| #[trigger]
        built(c).notes.contains_key(k) <==> exists|i: int|
            0 <= i < notes.len() && #[trigger] notes[i].id.0 == k by {
        lemma_note_ids(Map::empty(), notes, k);
    }
    assert forall|i: int|
        0 <= i < notes.len() && (forall|j: int|
            i < j < notes.len() ==> notes[j].id.0 != notes[i].id.0) implies built(
        c,
    ).notes[(#[trigger] notes[i]).id.0] == notes[i] by {
        lemma_note_stands(Map::empty(), notes, i);
    }
}

/// A transaction consumes its notes for good and changes no other note, no
/// account and no earlier transaction.
pub proof fn lemma_recorded(chain: ChainView, record: RecordView)
    ensures
        recorded(chain, record).config == chain.config,
        recorded(chain, record).accounts == chain.accounts,
        recorded(chain, record).notes.dom() == chain.notes.dom(),
        forall|k: u64|
            chain.notes.contains_key(k) && record.consumed_notes.contains(NoteId(k))
                ==> #[trigger] recorded(chain, record).notes[k].consumed,
        forall|k: u64|
            chain.notes.contains_key(k) && chain.notes[k].consumed ==> #[trigger] recorded(
                chain,
                record,
            ).notes[k].consumed,
        forall|k: u64|
            chain.notes.contains_key(k) && !record.consumed_notes.contains(NoteId(k))
                ==> #[trigger] recorded(chain, record).notes[k] == chain.notes[k],
        recorded(chain, record).blocks.len() >= 1,
        recorded(chain, record).blocks.last().transactions.last() == record,
        chain.blocks.len() > 0 ==> recorded(
            chain,
            record,
        ).blocks.last().transactions.drop_last() == chain.blocks.last().transactions,
{
    assert(recorded(chain, record).notes.dom() =~= chain.notes.dom());
    if chain.blocks.len() > 0 {
        assert(chain.blocks.last().transactions.push(record).drop_last()
            =~= chain.blocks.last().transactions);
    }
}

} // verus!
