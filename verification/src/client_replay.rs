//! Replay of transactions that were executed on a network.
//!
//! A transaction is replayed from its inputs, which are captured when it is
//! first executed. A data store holds the inputs and hands them out again.

pub mod holding;
pub mod laws;
pub mod node;
pub mod replay;
pub mod store;
pub mod types;

pub use node::MidenNodeClient;
pub use node::SyncStateResult;
pub use replay::capture_file_name;
pub use replay::replay_plan;
pub use replay::replay_summary;
pub use replay::replay_transaction;
pub use replay::ReplayConfig;
pub use replay::ReplayResult;
pub use replay::ReplayStatus;
pub use store::DataStore;
pub use store::ReplayDataStore;
pub use types::ReplayAdviceInputs;
pub use types::BlockHeader;
pub use types::Digest;
pub use types::FeltValue;
pub use types::ForeignAccountData;
pub use types::InputNote;
pub use types::InputNotes;
pub use types::NoteMetadata;
pub use types::PartialAccount;
pub use types::PartialBlockchain;
pub use types::ReplayError;
pub use types::TransactionArgs;
pub use types::TransactionInputs;
pub use types::Word;
