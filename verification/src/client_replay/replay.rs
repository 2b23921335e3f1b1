//! The replay of a transaction from its captured inputs.

use std::path::PathBuf;
use vstd::prelude::*;
use vstd::string::StringExecFns;

use crate::client_replay::types::ReplayError;
use crate::client_replay::types::TransactionInputs;
use crate::json::pretty_json;
use crate::json::to_pretty_text;
use crate::json::JsonObject;
use crate::json::JsonView;
use crate::number::decimal;
use crate::number::decimal_text;
use crate::number::hex;
use crate::number::hex_text;

verus! {

/// What to replay, and where to write the trace.
#[derive(Debug, Clone)]
pub struct ReplayConfig {
    /// The address of the node.
    pub node_url: String,
    /// The account of the transaction, in hexadecimal.
    pub account_id: String,
    /// The transaction, in hexadecimal.
    pub transaction_id: String,
    pub output_dir: PathBuf,
    /// The file of the captured inputs, where there is one.
    pub captured_inputs_path: Option<PathBuf>,
}

/// What a configuration lacks, if anything.
pub open spec fn config_fault(c: ReplayConfig) -> Option<Seq<char>> {
    if c.node_url@.len() == 0 {
        Some("node_url cannot be empty"@)
    } else if c.account_id@.len() == 0 {
        Some("account_id cannot be empty"@)
    } else if c.transaction_id@.len() == 0 {
        Some("transaction_id cannot be empty"@)
    } else {
        None
    }
}

impl ReplayConfig {
    /// A configuration without captured inputs.
    pub fn new(node_url: &str, account_id: &str, transaction_id: &str, output_dir: PathBuf) -> (r:
        Self)
        ensures
            r.node_url@ == node_url@,
            r.account_id@ == account_id@,
            r.transaction_id@ == transaction_id@,
            r.output_dir == output_dir,
            r.captured_inputs_path is None,
    {
        ReplayConfig {
            node_url: node_url.to_owned(),
            account_id: account_id.to_owned(),
            transaction_id: transaction_id.to_owned(),
            output_dir,
            captured_inputs_path: None,
        }
    }

    /// Names the file of the captured inputs.
    pub fn with_captured_inputs(self, path: PathBuf) -> (r: Self)
        ensures
            r == (ReplayConfig { captured_inputs_path: Some(path), ..self }),
    {
        let mut config = self;
        config.captured_inputs_path = Some(path);
        config
    }

    /// Checks that the node, the account and the transaction are named. The
    /// first one that is not gives the error.
    pub fn validate(&self) -> (r: Result<(), ReplayError>)
        ensures
            match (r, config_fault(*self)) {
                (Ok(_), None) => true,
                (Err(ReplayError::InvalidConfig(m)), Some(fault)) => m@ == fault,
                _ => false,
            },
    {
        if self.node_url.as_str().is_empty() {
            return Err(ReplayError::InvalidConfig("node_url cannot be empty".to_owned()));
        }
        if self.account_id.as_str().is_empty() {
            return Err(ReplayError::InvalidConfig("account_id cannot be empty".to_owned()));
        }
        if self.transaction_id.as_str().is_empty() {
            return Err(ReplayError::InvalidConfig("transaction_id cannot be empty".to_owned()));
        }
        Ok(())
    }
}

/// How far a replay has come.
#[derive(Debug, Clone, PartialEq, Eq)]
pub enum ReplayStatus {
    NotStarted,
    /// The state of the chain is being fetched.
    Syncing,
    /// The inputs are being prepared.
    PreparingInputs,
    /// The transaction is being executed.
    Executing,
    /// The trace is being written.
    WritingTrace,
    Completed,
    Failed(String),
}

/// What a replay has come to.
#[derive(Debug, Clone)]
pub struct ReplayResult {
    pub output_dir: PathBuf,
    pub transaction_id: String,
    /// The block that the transaction refers to.
    pub block_num: u32,
    pub account_id: String,
    /// How many notes the transaction consumes.
    pub input_note_count: usize,
    pub status: ReplayStatus,
}

/// Why a transaction cannot be replayed without captured inputs.
pub open spec fn no_history() -> Seq<char> {
    "Historical transaction replay requires either:\n1. Captured TransactionInputs (use --captured-inputs <path>)\n2. A compatible miden-client version to sync state from a node\n\nThe miden-client is not currently available at a version compatible with miden-processor 0.13.x. Use the capture_transaction_inputs() function during original execution to save inputs for later replay."@
}

/// The file from which a transaction is replayed: that of its captured inputs.
/// A configuration that lacks something, or names no such file, is an error.
pub fn replay_plan(config: &ReplayConfig) -> (r: Result<PathBuf, ReplayError>)
    ensures
        match (r, config_fault(*config), config.captured_inputs_path) {
            (Ok(path), None, Some(captured)) => path == captured,
            (Err(ReplayError::InvalidConfig(m)), Some(fault), _) => m@ == fault,
            (Err(ReplayError::HistoricalReplayNotSupported(m)), None, None) => m@ == no_history(),
            _ => false,
        },
{
    match config.validate() {
        Err(e) => Err(e),
        Ok(_) => match &config.captured_inputs_path {
            Some(path) => Ok(path.clone()),
            None => Err(
                ReplayError::HistoricalReplayNotSupported(
                    "Historical transaction replay requires either:\n1. Captured TransactionInputs (use --captured-inputs <path>)\n2. A compatible miden-client version to sync state from a node\n\nThe miden-client is not currently available at a version compatible with miden-processor 0.13.x. Use the capture_transaction_inputs() function during original execution to save inputs for later replay.".to_owned(),
                ),
            ),
        },
    }
}

/// Replays a transaction. `captured` holds the inputs that the file of
/// [`replay_plan`] holds; it is needed only where there is such a file.
pub fn replay_transaction(config: &ReplayConfig, captured: Option<&TransactionInputs>) -> (r: Result<
    ReplayResult,
    ReplayError,
>)
    requires
        config_fault(*config) is None && config.captured_inputs_path is Some ==> captured is Some,
    ensures
        match (r, config_fault(*config), config.captured_inputs_path) {
            (Ok(result), None, Some(_)) => {
                &&& result.output_dir == config.output_dir
                &&& result.transaction_id@ == config.transaction_id@
                &&& result.block_num == captured->0.block_header.block_num
                &&& result.account_id@ == config.account_id@
                &&& result.input_note_count == captured->0.input_notes@.len()
                &&& result.status == ReplayStatus::Completed
            },
            (Err(ReplayError::InvalidConfig(m)), Some(fault), _) => m@ == fault,
            (Err(ReplayError::HistoricalReplayNotSupported(m)), None, None) => m@ == no_history(),
            _ => false,
        },
{
    match replay_plan(config) {
        Err(e) => Err(e),
        Ok(_) => {
            let inputs = captured.unwrap();
            Ok(
                ReplayResult {
                    output_dir: config.output_dir.clone(),
                    transaction_id: config.transaction_id.clone(),
                    block_num: inputs.block_header.block_num,
                    account_id: config.account_id.clone(),
                    input_note_count: inputs.input_notes.notes.len(),
                    status: ReplayStatus::Completed,
                },
            )
        },
    }
}

/// The fields of the summary of a replay.
pub open spec fn replay_fields(config: ReplayConfig, inputs: TransactionInputs) -> JsonView {
    JsonView {
        texts: seq![
            ("status"@, "replay_completed_synthetic"@),
            ("transaction_id"@, config.transaction_id@),
            ("account_id"@, config.account_id@),
            (
                "limitation"@,
                "Full replay requires TransactionExecutor from miden-client. Currently using synthetic execution path."@,
            ),
        ],
        numbers: seq![
            ("block_num"@, inputs.block_header.block_num as u64),
            ("input_notes"@, inputs.input_notes@.len() as u64),
        ],
        flags: seq![("has_tx_script"@, inputs.tx_args.tx_script is Some)],
        lists: seq![],
    }
}

/// The summary of a replay, as JSON text, to be written to [`summary_file`].
pub fn replay_summary(config: &ReplayConfig, inputs: &TransactionInputs) -> (r: Result<
    String,
    ReplayError,
>)
    ensures
        r matches Ok(text) && text@ == pretty_json(replay_fields(*config, *inputs)),
{
    let mut texts: Vec<(String, String)> = Vec::new();
    texts.push(("status".to_owned(), "replay_completed_synthetic".to_owned()));
    texts.push(("transaction_id".to_owned(), config.transaction_id.clone()));
    texts.push(("account_id".to_owned(), config.account_id.clone()));
    texts.push(
        (
            "limitation".to_owned(),
            "Full replay requires TransactionExecutor from miden-client. Currently using synthetic execution path.".to_owned(),
        ),
    );
    let mut numbers: Vec<(String, u64)> = Vec::new();
    numbers.push(("block_num".to_owned(), inputs.block_header.block_num as u64));
    numbers.push(("input_notes".to_owned(), inputs.input_notes.notes.len() as u64));
    let mut flags: Vec<(String, bool)> = Vec::new();
    flags.push(("has_tx_script".to_owned(), inputs.tx_args.tx_script.is_some()));
    let object = JsonObject { texts, numbers, flags, lists: Vec::new() };
    let ghost wanted = replay_fields(*config, *inputs);
    assert(object@.texts =~= wanted.texts);
    assert(object@.numbers =~= wanted.numbers);
    assert(object@.flags =~= wanted.flags);
    assert(object@.lists =~= wanted.lists);
    match to_pretty_text(&object) {
        Ok(text) => Ok(text),
        Err(e) => {
            let mut message = "JSON serialization failed: ".to_owned();
            message.append(e.as_str());
            Err(ReplayError::IoError(message))
        },
    }
}

/// The name of the file that takes the summary of a replay.
pub fn summary_file() -> (r: &'static str)
    ensures
        r@ == "replay_summary.json"@,
{
    "replay_summary.json"
}

/// The name of the file that takes captured inputs: it tells the account and
/// the block.
pub open spec fn captured_name(account_id: u64, block_num: u32) -> Seq<char> {
    "tx_inputs_0x"@ + hex(account_id as nat) + "_block_"@ + decimal(block_num as int) + ".json"@
}

/// The name of the file that takes captured inputs.
pub fn capture_file_name(inputs: &TransactionInputs) -> (r: String)
    ensures
        r@ == captured_name(inputs.account.id, inputs.block_header.block_num),
{
    let mut name = "tx_inputs_0x".to_owned();
    name.append(hex_text(inputs.account.id).as_str());
    name.append("_block_");
    name.append(decimal_text(inputs.block_header.block_num as u64).as_str());
    name.append(".json");
    name
}

} // verus!
