//! The client of a node, with the store that it fills.

use vstd::prelude::*;
use vstd::string::StringExecFns;

use crate::client_replay::store::empty_store;
use crate::client_replay::store::with_account;
use crate::client_replay::store::with_all_notes;
use crate::client_replay::store::with_header;
use crate::client_replay::store::DataStore;
use crate::client_replay::store::ReplayDataStore;
use crate::client_replay::store::StoreView;
use crate::client_replay::types::note_views;
use crate::client_replay::types::BlockHeader;
use crate::client_replay::types::ForeignAccountData;
use crate::client_replay::types::InputNote;
use crate::client_replay::types::InputNoteView;
use crate::client_replay::types::PartialAccount;
use crate::client_replay::types::ReplayError;
use crate::number::hex;

verus! {

/// What a sync has brought.
#[derive(Debug, Clone)]
pub struct SyncStateResult {
    /// The latest block.
    pub block_num: u32,
    pub account_updates: usize,
    pub new_notes: usize,
    /// How many notes were consumed.
    pub nullifier_updates: usize,
    pub success: bool,
}

/// The store with several accounts, added in order.
pub open spec fn with_all_accounts(s: StoreView, accounts: Seq<PartialAccount>) -> StoreView
    decreases accounts.len(),
{
    if accounts.len() == 0 {
        s
    } else {
        with_account(with_all_accounts(s, accounts.drop_last()), accounts.last())
    }
}

/// The store with several headers, added in order.
pub open spec fn with_all_headers(s: StoreView, headers: Seq<BlockHeader>) -> StoreView
    decreases headers.len(),
{
    if headers.len() == 0 {
        s
    } else {
        with_header(with_all_headers(s, headers.drop_last()), headers.last())
    }
}

/// The store after a sync.
pub open spec fn synced(
    s: StoreView,
    accounts: Seq<PartialAccount>,
    notes: Seq<InputNoteView>,
    headers: Seq<BlockHeader>,
) -> StoreView {
    with_all_headers(with_all_notes(with_all_accounts(s, accounts), notes), headers)
}

/// What a [`MidenNodeClient`] holds.
pub struct ClientView {
    pub node_url: Seq<char>,
    pub store: StoreView,
    pub connected: bool,
}

/// A client of a Miden node.
pub struct MidenNodeClient {
    node_url: String,
    store: ReplayDataStore,
    connected: bool,
}

impl View for MidenNodeClient {
    type V = ClientView;

    closed spec fn view(&self) -> ClientView {
        ClientView { node_url: self.node_url@, store: self.store@, connected: self.connected }
    }
}

/// Why no node can be reached.
pub open spec fn unreachable_node(url: Seq<char>) -> Seq<char> {
    "miden-client is not available at a compatible version. Cannot connect to node at "@ + url
        + ". Use captured TransactionInputs for replay instead."@
}

impl MidenNodeClient {
    /// A client that is not connected.
    pub fn new(node_url: &str) -> (r: Self)
        ensures
            r@ == (ClientView { node_url: node_url@, store: empty_store(), connected: false }),
    {
        MidenNodeClient {
            node_url: node_url.to_owned(),
            store: ReplayDataStore::new(),
            connected: false,
        }
    }

    /// The address of the node.
    pub fn node_url(&self) -> (r: &str)
        ensures
            r@ == self@.node_url,
    {
        self.node_url.as_str()
    }

    /// Tells whether a sync has taken place.
    pub fn is_connected(&self) -> (r: bool)
        ensures
            r == self@.connected,
    {
        self.connected
    }

    /// Fetches the state of the chain from the node. No node can be reached by
    /// this client: the error names the node, and nothing changes.
    pub fn sync_state(&mut self) -> (r: Result<SyncStateResult, ReplayError>)
        ensures
            final(self)@ == old(self)@,
            r matches Err(ReplayError::NodeConnectionFailed(m)) && m@ == unreachable_node(
                old(self)@.node_url,
            ),
    {
        let mut message =
            "miden-client is not available at a compatible version. Cannot connect to node at ".to_owned();
        message.append(self.node_url.as_str());
        message.append(". Use captured TransactionInputs for replay instead.");
        Err(ReplayError::NodeConnectionFailed(message))
    }

    /// Takes given accounts, notes and headers as the outcome of a sync.
    pub fn sync_state_synthetic(
        &mut self,
        accounts: Vec<PartialAccount>,
        notes: Vec<InputNote>,
        block_headers: Vec<BlockHeader>,
    ) -> (r: SyncStateResult)
        ensures
            final(self)@ == (ClientView {
                node_url: old(self)@.node_url,
                store: synced(
                    old(self)@.store,
                    accounts@,
                    note_views(notes@),
                    block_headers@,
                ),
                connected: true,
            }),
            r == (SyncStateResult {
                block_num: final(self)@.store.latest,
                account_updates: accounts@.len() as usize,
                new_notes: notes@.len() as usize,
                nullifier_updates: 0,
                success: true,
            }),
    {
        let ghost before = self@;
        let mut i: usize = 0;
        assert(accounts@.take(0) =~= seq![]);
        while i < accounts.len()
            invariant
                i <= accounts.len(),
                self@ == (ClientView {
                    store: with_all_accounts(before.store, accounts@.take(i as int)),
                    ..before
                }),
            decreases accounts.len() - i,
        {
            assert(accounts@.take(i + 1).drop_last() =~= accounts@.take(i as int));
            self.store.insert_account(accounts[i]);
            i += 1;
        }
        assert(accounts@.take(i as int) =~= accounts@);
        self.store.insert_notes(&notes);
        let ghost noted = self@;
        let mut j: usize = 0;
        assert(block_headers@.take(0) =~= seq![]);
        while j < block_headers.len()
            invariant
                j <= block_headers.len(),
                self@ == (ClientView {
                    store: with_all_headers(noted.store, block_headers@.take(j as int)),
                    ..noted
                }),
            decreases block_headers.len() - j,
        {
            assert(block_headers@.take(j + 1).drop_last() =~= block_headers@.take(j as int));
            self.store.insert_block_header(block_headers[j]);
            j += 1;
        }
        assert(block_headers@.take(j as int) =~= block_headers@);
        self.connected = true;
        SyncStateResult {
            block_num: self.store.latest_block(),
            account_updates: accounts.len(),
            new_notes: notes.len(),
            nullifier_updates: 0,
            success: true,
        }
    }

    /// The store.
    pub fn store(&self) -> (r: &ReplayDataStore)
        ensures
            r@ == self@.store,
    {
        &self.store
    }

    /// The store, to be changed.
    pub fn store_mut(&mut self) -> (r: &mut ReplayDataStore)
        ensures
            r@ == old(self)@.store,
            final(self)@ == (ClientView { store: final(r)@, ..old(self)@ }),
    {
        &mut self.store
    }

    /// A foreign account that the store holds; any other is an error.
    pub fn get_foreign_account_inputs(&self, account_id: u64) -> (r: Result<
        ForeignAccountData,
        ReplayError,
    >)
        ensures
            match r {
                Ok(data) => self@.store.foreign.contains_key(account_id) && data@
                    == self@.store.foreign[account_id],
                Err(ReplayError::ForeignAccountNotFound(m)) => !self@.store.foreign.contains_key(
                    account_id,
                ) && m@ == "0x"@ + hex(account_id as nat),
                Err(_) => false,
            },
    {
        self.store.get_foreign_account_inputs(account_id)
    }
}

} // verus!
