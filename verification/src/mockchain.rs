//! Contract-level tracing on a simulated chain.
//!
//! A chain is configured with accounts and notes, built, and runs a
//! transaction. A session leads through these steps and collects the events of
//! the transaction and its switches between execution contexts.

pub mod chain;
pub mod context;
pub mod laws;
pub mod records;
pub mod session;
pub mod trace;
pub mod types;

pub use chain::MockChainBuilder;
pub use chain::MockChainState;
pub use context::ContextId;
pub use context::ContextKind;
pub use context::ExecutionContextInfo;
pub use context::ExecutionContextTracker;
pub use session::ContractTraceSession;
pub use session::SessionStatus;
pub use trace::TraceEvent;
pub use types::AccountId;
pub use types::AccountKind;
pub use types::AccountState;
pub use types::AssetVault;
pub use types::Block;
pub use types::FaucetConfig;
pub use types::FungibleAsset;
pub use types::MockChainConfig;
pub use types::NoteId;
pub use types::NoteState;
pub use types::NoteType;
pub use types::OutputNote;
pub use types::P2IdNoteConfig;
pub use types::SwapNoteConfig;
pub use types::TransactionConfig;
pub use types::TransactionRecord;
pub use types::WalletConfig;
