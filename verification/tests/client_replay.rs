//! Configurations, inputs, stores and replays.

use std::path::PathBuf;

use codetracer_miden_recorder::client_replay::capture_file_name;
use codetracer_miden_recorder::client_replay::replay_plan;
use codetracer_miden_recorder::client_replay::replay_summary;
use codetracer_miden_recorder::client_replay::replay_transaction;
use codetracer_miden_recorder::client_replay::BlockHeader;
use codetracer_miden_recorder::client_replay::DataStore;
use codetracer_miden_recorder::client_replay::Digest;
use codetracer_miden_recorder::client_replay::ForeignAccountData;
use codetracer_miden_recorder::client_replay::InputNote;
use codetracer_miden_recorder::client_replay::MidenNodeClient;
use codetracer_miden_recorder::client_replay::NoteMetadata;
use codetracer_miden_recorder::client_replay::PartialAccount;
use codetracer_miden_recorder::client_replay::PartialBlockchain;
use codetracer_miden_recorder::client_replay::ReplayConfig;
use codetracer_miden_recorder::client_replay::ReplayDataStore;
use codetracer_miden_recorder::client_replay::ReplayError;
use codetracer_miden_recorder::client_replay::ReplayStatus;
use codetracer_miden_recorder::client_replay::TransactionInputs;

#[test]
fn test_replay_config_construction() {
    let config = ReplayConfig::new(
        "https://rpc.testnet.miden.io",
        "0xabc123",
        "0xdef456",
        PathBuf::from("/tmp/ct-replay-output"),
    );

    assert_eq!(config.node_url, "https://rpc.testnet.miden.io");
    assert_eq!(config.account_id, "0xabc123");
    assert_eq!(config.transaction_id, "0xdef456");
    assert_eq!(config.output_dir, PathBuf::from("/tmp/ct-replay-output"));
    assert!(config.captured_inputs_path.is_none());
    assert!(config.validate().is_ok());
}

#[test]
fn test_replay_config_with_captured_inputs() {
    let config = ReplayConfig::new(
        "https://rpc.testnet.miden.io",
        "0xabc123",
        "0xdef456",
        PathBuf::from("/tmp/ct-replay-output"),
    )
    .with_captured_inputs(PathBuf::from("/path/to/captured_inputs.json"));

    assert_eq!(
        config.captured_inputs_path,
        Some(PathBuf::from("/path/to/captured_inputs.json"))
    );
}

#[test]
fn test_replay_config_validation_empty_node_url() {
    let config = ReplayConfig::new("", "0xabc123", "0xdef456", PathBuf::from("/tmp/out"));
    let err = config.validate().unwrap_err();
    assert!(matches!(err, ReplayError::InvalidConfig(_)));
    assert!(err.to_string().contains("node_url"));
}

#[test]
fn test_replay_config_validation_empty_account_id() {
    let config = ReplayConfig::new("http://node", "", "0xdef456", PathBuf::from("/tmp/out"));
    let err = config.validate().unwrap_err();
    assert!(matches!(err, ReplayError::InvalidConfig(_)));
    assert!(err.to_string().contains("account_id"));
}

#[test]
fn test_replay_config_validation_empty_transaction_id() {
    let config = ReplayConfig::new("http://node", "0xabc", "", PathBuf::from("/tmp/out"));
    let err = config.validate().unwrap_err();
    assert!(matches!(err, ReplayError::InvalidConfig(_)));
    assert!(err.to_string().contains("transaction_id"));
}

#[test]
fn test_transaction_inputs_construction() {
    let inputs = TransactionInputs::synthetic(0x1000, 42);

    assert_eq!(inputs.account.id, 0x1000);
    assert_eq!(inputs.account.nonce, 1);
    assert!(inputs.account.is_public);
    assert_eq!(inputs.block_header.block_num, 42);
    assert_eq!(inputs.block_header.version, 1);
    assert!(inputs.input_notes.notes.is_empty());
    assert!(inputs.tx_args.tx_script.is_none());
}

#[test]
fn test_transaction_inputs_with_note() {
    let note = InputNote {
        id: 1,
        script_hash: Digest::zero(),
        inputs: vec![10, 20, 30],
        assets: vec![(0x2000, 100)],
        sender: 0x2000,
        metadata: NoteMetadata::default(),
    };

    let inputs = TransactionInputs::synthetic(0x1000, 42).with_input_note(note);

    assert_eq!(inputs.input_notes.notes.len(), 1);
    assert_eq!(inputs.input_notes.notes[0].id, 1);
    assert_eq!(inputs.input_notes.notes[0].inputs, vec![10, 20, 30]);
    assert_eq!(inputs.input_notes.notes[0].assets, vec![(0x2000, 100)]);
}

#[test]
fn test_transaction_inputs_with_tx_script() {
    let inputs =
        TransactionInputs::synthetic(0x1000, 42).with_tx_script("begin push.1 push.2 add end");

    assert_eq!(
        inputs.tx_args.tx_script.as_deref(),
        Some("begin push.1 push.2 add end")
    );
}

#[test]
fn test_replay_data_store_empty() {
    let store = ReplayDataStore::new();
    assert_eq!(store.account_count(), 0);
    assert_eq!(store.note_count(), 0);
    assert_eq!(store.block_header_count(), 0);
    assert_eq!(store.latest_block(), 0);
}

#[test]
fn test_replay_data_store_insert_and_query() {
    let mut store = ReplayDataStore::new();

    let account = PartialAccount {
        id: 0x1000,
        nonce: 5,
        code_commitment: Digest::zero(),
        storage_commitment: Digest::zero(),
        vault_commitment: Digest::zero(),
        is_public: true,
    };
    store.insert_account(account);

    let header = BlockHeader::synthetic(42);
    store.insert_block_header(header);

    let note = InputNote {
        id: 1,
        script_hash: Digest::zero(),
        inputs: vec![10],
        assets: vec![],
        sender: 0x2000,
        metadata: NoteMetadata::default(),
    };
    store.insert_note(note);

    assert_eq!(store.account_count(), 1);
    assert_eq!(store.note_count(), 1);
    assert_eq!(store.block_header_count(), 1);
    assert_eq!(store.latest_block(), 42);
    assert!(store.has_account(0x1000));
    assert!(!store.has_account(0x9999));
    assert!(store.has_note(1));
    assert!(!store.has_note(999));
}

#[test]
fn test_replay_data_store_get_transaction_inputs() {
    let mut store = ReplayDataStore::new();

    store.insert_account(PartialAccount {
        id: 0x1000,
        nonce: 3,
        code_commitment: Digest::zero(),
        storage_commitment: Digest::zero(),
        vault_commitment: Digest::zero(),
        is_public: true,
    });
    store.insert_block_header(BlockHeader::synthetic(50));
    store.insert_note(InputNote {
        id: 1,
        script_hash: Digest::zero(),
        inputs: vec![42],
        assets: vec![(0x2000, 100)],
        sender: 0x2000,
        metadata: NoteMetadata::default(),
    });
    store.insert_note(InputNote {
        id: 2,
        script_hash: Digest::zero(),
        inputs: vec![99],
        assets: vec![],
        sender: 0x3000,
        metadata: NoteMetadata::default(),
    });

    let inputs = store.get_transaction_inputs(0x1000, 50, &[1, 2]).unwrap();

    assert_eq!(inputs.account.id, 0x1000);
    assert_eq!(inputs.account.nonce, 3);
    assert_eq!(inputs.block_header.block_num, 50);
    assert_eq!(inputs.input_notes.notes.len(), 2);
    assert_eq!(inputs.input_notes.notes[0].id, 1);
    assert_eq!(inputs.input_notes.notes[1].id, 2);
}

#[test]
fn test_replay_data_store_account_not_found() {
    let store = ReplayDataStore::new();
    let err = store.get_transaction_inputs(0x9999, 0, &[]).unwrap_err();
    assert!(matches!(err, ReplayError::AccountNotFound(_)));
}

#[test]
fn test_replay_data_store_note_not_found() {
    let mut store = ReplayDataStore::new();
    store.insert_account(PartialAccount {
        id: 0x1000,
        nonce: 1,
        code_commitment: Digest::zero(),
        storage_commitment: Digest::zero(),
        vault_commitment: Digest::zero(),
        is_public: true,
    });

    let err = store.get_transaction_inputs(0x1000, 0, &[999]).unwrap_err();
    assert!(matches!(err, ReplayError::InputsNotAvailable(_)));
}

#[test]
fn test_replay_data_store_from_captured_inputs() {
    let note = InputNote {
        id: 7,
        script_hash: Digest::zero(),
        inputs: vec![1, 2, 3],
        assets: vec![(0x2000, 50)],
        sender: 0x2000,
        metadata: NoteMetadata::default(),
    };
    let inputs = TransactionInputs::synthetic(0xABC, 100).with_input_note(note);

    let store = ReplayDataStore::from_captured_inputs(&inputs);

    assert_eq!(store.account_count(), 1);
    assert!(store.has_account(0xABC));
    assert_eq!(store.latest_block(), 100);
    assert!(store.has_note(7));
    assert_eq!(store.block_header_count(), 1);
}

#[test]
fn test_sync_state_updates_store() {
    let mut client = MidenNodeClient::new("https://rpc.testnet.miden.io");
    assert!(!client.is_connected());
    assert_eq!(client.node_url(), "https://rpc.testnet.miden.io");

    // Sync with synthetic data.
    let accounts = vec![
        PartialAccount {
            id: 0x1000,
            nonce: 1,
            code_commitment: Digest::zero(),
            storage_commitment: Digest::zero(),
            vault_commitment: Digest::zero(),
            is_public: true,
        },
        PartialAccount {
            id: 0x2000,
            nonce: 0,
            code_commitment: Digest::zero(),
            storage_commitment: Digest::zero(),
            vault_commitment: Digest::zero(),
            is_public: false,
        },
    ];

    let notes = vec![InputNote {
        id: 1,
        script_hash: Digest::zero(),
        inputs: vec![42],
        assets: vec![(0x2000, 100)],
        sender: 0x2000,
        metadata: NoteMetadata::default(),
    }];

    let headers = vec![
        BlockHeader::synthetic(10),
        BlockHeader::synthetic(11),
        BlockHeader::synthetic(12),
    ];

    let result = client.sync_state_synthetic(accounts, notes, headers);

    assert!(result.success);
    assert_eq!(result.block_num, 12);
    assert_eq!(result.account_updates, 2);
    assert_eq!(result.new_notes, 1);
    assert!(client.is_connected());

    // Verify the store was populated.
    let store = client.store();
    assert_eq!(store.account_count(), 2);
    assert_eq!(store.note_count(), 1);
    assert_eq!(store.block_header_count(), 3);
    assert!(store.has_account(0x1000));
    assert!(store.has_account(0x2000));
    assert!(store.has_note(1));
}

#[test]
fn test_sync_state_real_node_not_available() {
    let mut client = MidenNodeClient::new("https://rpc.testnet.miden.io");
    let err = client.sync_state().unwrap_err();
    assert!(matches!(err, ReplayError::NodeConnectionFailed(_)));
    assert!(err.to_string().contains("miden-client is not available"));
}

#[test]
fn test_replay_limitations_documented() {
    // Without captured inputs, replay should explain the limitation.
    let config = ReplayConfig::new(
        "https://rpc.testnet.miden.io",
        "0x1000",
        "0xdeadbeef",
        PathBuf::from("/tmp/output"),
    );

    let err = replay_transaction(&config, None).unwrap_err();
    assert!(matches!(err, ReplayError::HistoricalReplayNotSupported(_)));

    let msg = err.to_string();
    assert!(
        msg.contains("Historical transaction replay"),
        "Error should mention historical replay limitation"
    );
    assert!(
        msg.contains("capture_transaction_inputs"),
        "Error should suggest the capture workflow"
    );
    assert!(
        msg.contains("miden-client"),
        "Error should mention miden-client dependency"
    );
}

#[test]
fn test_replay_node_sync_limitation() {
    let mut client = MidenNodeClient::new("http://localhost:57291");
    let err = client.sync_state().unwrap_err();

    let msg = err.to_string();
    assert!(msg.contains("miden-client is not available"));
    assert!(msg.contains("captured TransactionInputs"));
}

#[test]
fn test_replay_error_variants() {
    // Verify all error variants produce meaningful messages.
    let errors = vec![
        ReplayError::InvalidConfig("test".into()),
        ReplayError::NodeConnectionFailed("test".into()),
        ReplayError::SyncFailed("test".into()),
        ReplayError::AccountNotFound("test".into()),
        ReplayError::InputsNotAvailable("test".into()),
        ReplayError::ExecutionFailed("test".into()),
        ReplayError::TraceOutputFailed("test".into()),
        ReplayError::HistoricalReplayNotSupported("test".into()),
        ReplayError::ForeignAccountNotFound("test".into()),
        ReplayError::CapturedInputsLoadFailed("test".into()),
        ReplayError::IoError("test".into()),
    ];

    for err in &errors {
        let msg = err.to_string();
        assert!(!msg.is_empty(), "Error message should not be empty");
        assert!(
            msg.contains("test"),
            "Error message should contain inner msg"
        );
    }
}

#[test]
fn test_foreign_account_lookup() {
    let mut store = ReplayDataStore::new();

    // Insert a foreign account.
    let foreign = ForeignAccountData {
        id: 0x5000,
        account_hash: Digest::zero(),
        code_commitment: Digest::zero(),
        storage_commitment: Digest::zero(),
        witness: vec![Digest::zero(), Digest::zero()],
    };
    store.insert_foreign_account(foreign);

    // Look it up.
    let result = store.get_foreign_account_inputs(0x5000).unwrap();
    assert_eq!(result.id, 0x5000);
    assert_eq!(result.witness.len(), 2);
}

#[test]
fn test_foreign_account_not_found() {
    let store = ReplayDataStore::new();
    let err = store.get_foreign_account_inputs(0x9999).unwrap_err();
    assert!(matches!(err, ReplayError::ForeignAccountNotFound(_)));
}

#[test]
fn test_foreign_account_via_client() {
    let mut client = MidenNodeClient::new("http://node");

    // Insert foreign account data into the client's store.
    client
        .store_mut()
        .insert_foreign_account(ForeignAccountData {
            id: 0x7777,
            account_hash: Digest::zero(),
            code_commitment: Digest::zero(),
            storage_commitment: Digest::zero(),
            witness: vec![Digest::zero()],
        });

    let result = client.get_foreign_account_inputs(0x7777).unwrap();
    assert_eq!(result.id, 0x7777);

    let err = client.get_foreign_account_inputs(0x8888).unwrap_err();
    assert!(matches!(err, ReplayError::ForeignAccountNotFound(_)));
}

#[test]
fn test_block_header_synthetic() {
    let header = BlockHeader::synthetic(100);
    assert_eq!(header.block_num, 100);
    assert_eq!(header.version, 1);
    assert_eq!(header.prev_hash, Digest::zero());
    // Timestamp should be deterministic based on block_num.
    assert_eq!(header.timestamp, 1700000000 + 100 * 10);
}

#[test]
fn test_data_store_trait_object() {
    let mut store = ReplayDataStore::new();
    store.insert_account(PartialAccount {
        id: 0x1000,
        nonce: 1,
        code_commitment: Digest::zero(),
        storage_commitment: Digest::zero(),
        vault_commitment: Digest::zero(),
        is_public: true,
    });
    store.insert_block_header(BlockHeader::synthetic(50));

    // Use as trait object to verify the trait is object-safe.
    let ds: &dyn DataStore = &store;
    let inputs = ds.get_transaction_inputs(0x1000, 50, &[]).unwrap();
    assert_eq!(inputs.account.id, 0x1000);
    assert_eq!(inputs.block_header.block_num, 50);
}

#[test]
fn test_replay_error_display() {
    let err = ReplayError::InvalidConfig("bad".to_string());
    assert_eq!(err.to_string(), "invalid config: bad");

    let err = ReplayError::HistoricalReplayNotSupported("reason".to_string());
    assert!(err
        .to_string()
        .contains("historical replay not supported"));
}

#[test]
fn test_digest_display() {
    let d = Digest::zero();
    let s = d.to_string();
    assert_eq!(s.len(), 64); // 32 bytes * 2 hex chars
    assert!(s.chars().all(|c| c == '0'));
}

fn note(id: u64) -> InputNote {
    InputNote {
        id,
        script_hash: Digest([id as u8; 32]),
        inputs: vec![10, id],
        assets: vec![(0x2000, 100 + id)],
        sender: 0x2000,
        metadata: NoteMetadata { tag: 1, aux: 99, note_type: 2 },
    }
}

fn account(id: u64, nonce: u64) -> PartialAccount {
    PartialAccount {
        id,
        nonce,
        code_commitment: Digest::zero(),
        storage_commitment: Digest([7; 32]),
        vault_commitment: Digest::zero(),
        is_public: true,
    }
}

#[test]
fn error_texts_are_exact() {
    let m = || "why".to_string();
    let cases = vec![
        (ReplayError::InvalidConfig(m()), "invalid config: why"),
        (ReplayError::NodeConnectionFailed(m()), "node connection failed: why"),
        (ReplayError::SyncFailed(m()), "state sync failed: why"),
        (ReplayError::AccountNotFound(m()), "account not found: why"),
        (ReplayError::InputsNotAvailable(m()), "inputs not available: why"),
        (ReplayError::ExecutionFailed(m()), "execution failed: why"),
        (ReplayError::TraceOutputFailed(m()), "trace output failed: why"),
        (ReplayError::HistoricalReplayNotSupported(m()), "historical replay not supported: why"),
        (ReplayError::ForeignAccountNotFound(m()), "foreign account not found: why"),
        (ReplayError::CapturedInputsLoadFailed(m()), "captured inputs load failed: why"),
        (ReplayError::IoError(m()), "I/O error: why"),
    ];
    for (error, text) in cases {
        assert_eq!(error.to_string(), text);
    }
}

#[test]
fn validation_names_the_first_fault() {
    let config = ReplayConfig::new("", "", "", PathBuf::from("out"));
    assert_eq!(config.validate().unwrap_err().to_string(), "invalid config: node_url cannot be empty");
    let config = ReplayConfig::new("n", "", "", PathBuf::from("out"));
    assert_eq!(config.validate().unwrap_err().to_string(), "invalid config: account_id cannot be empty");
    let config = ReplayConfig::new("n", "a", "", PathBuf::from("out"));
    assert_eq!(
        config.validate().unwrap_err().to_string(),
        "invalid config: transaction_id cannot be empty"
    );
}

#[test]
fn digest_shows_two_digits_for_each_byte() {
    let mut bytes = [0u8; 32];
    bytes[0] = 0x0a;
    bytes[1] = 0xff;
    bytes[31] = 0x10;
    let text = Digest(bytes).to_string();
    assert_eq!(&text[..6], "0aff00");
    assert_eq!(&text[62..], "10");
    assert_eq!(text.len(), 64);
}

#[test]
fn store_explains_what_is_missing() {
    let mut store = ReplayDataStore::new();
    let error = store.get_transaction_inputs(0x9999, 0, &[]).unwrap_err();
    assert_eq!(error.to_string(), "account not found: 0x9999");
    store.insert_account(account(0x1000, 1));
    store.insert_note(note(1));
    let error = store.get_transaction_inputs(0x1000, 0, &[1, 999, 5]).unwrap_err();
    assert_eq!(error.to_string(), "inputs not available: note 999 not found in store");
    let error = store.get_foreign_account_inputs(0xabc).unwrap_err();
    assert_eq!(error.to_string(), "foreign account not found: 0xabc");
}

#[test]
fn store_falls_back_to_the_latest_block_and_to_a_stand_in() {
    let mut store = ReplayDataStore::new();
    store.insert_account(account(1, 1));
    let mut header = BlockHeader::synthetic(12);
    header.version = 5;
    store.insert_block_header(header);
    store.insert_block_header(BlockHeader::synthetic(3));
    assert_eq!(store.latest_block(), 12);
    let inputs = store.get_transaction_inputs(1, 0, &[]).unwrap();
    assert_eq!(inputs.block_header.block_num, 12);
    assert_eq!(inputs.block_header.version, 5);
    let inputs = store.get_transaction_inputs(1, 40, &[]).unwrap();
    assert_eq!(inputs.block_header.block_num, 40);
    assert_eq!(inputs.block_header.version, 1);
    assert_eq!(inputs.block_header.timestamp, 1700000400);
}

#[test]
fn later_entries_replace_earlier_ones() {
    let mut store = ReplayDataStore::default();
    store.insert_account(account(1, 1));
    store.insert_account(account(1, 9));
    assert_eq!(store.account_count(), 1);
    assert_eq!(store.get_account(1).unwrap().nonce, 9);
    assert!(store.get_account(2).is_none());
}

#[test]
fn what_was_captured_is_what_is_replayed() {
    let mut inputs = TransactionInputs::synthetic(0xABC, 100)
        .with_input_note(note(7))
        .with_input_note(note(3))
        .with_tx_script("begin push.1 end");
    inputs.tx_args.note_args.insert(7, vec![1, 2]);
    inputs.tx_args.note_args.insert(3, vec![]);
    inputs.advice_inputs.map_entries.insert("0xkey".to_string(), vec![5, 6, 7]);
    inputs.advice_inputs.merkle_nodes = vec![
        (Digest([3; 32]), vec![(1, Digest([4; 32])), (2, Digest([5; 32]))]),
        (Digest([6; 32]), vec![]),
    ];
    inputs.block_chain = PartialBlockchain {
        peaks: vec![Digest([1; 32])],
        auth_nodes: vec![(4, Digest([2; 32]))],
    };
    let store = ReplayDataStore::from_captured_inputs(&inputs);
    for block_ref in [0, 100] {
        let given = store.get_transaction_inputs(0xABC, block_ref, &[7, 3]).unwrap();
        assert_eq!(given.account.id, inputs.account.id);
        assert_eq!(given.account.nonce, inputs.account.nonce);
        assert_eq!(given.block_header.block_num, 100);
        assert_eq!(given.block_header.timestamp, inputs.block_header.timestamp);
        assert_eq!(given.block_chain.peaks, inputs.block_chain.peaks);
        assert_eq!(given.block_chain.auth_nodes, inputs.block_chain.auth_nodes);
        assert_eq!(given.input_notes.notes.len(), 2);
        for (a, b) in given.input_notes.notes.iter().zip(&inputs.input_notes.notes) {
            assert_eq!(a.id, b.id);
            assert_eq!(a.script_hash, b.script_hash);
            assert_eq!(a.inputs, b.inputs);
            assert_eq!(a.assets, b.assets);
            assert_eq!(a.metadata.aux, 99);
        }
        assert_eq!(given.tx_args.tx_script.as_deref(), Some("begin push.1 end"));
        assert_eq!(given.tx_args.note_args, inputs.tx_args.note_args);
        assert_eq!(given.advice_inputs.map_entries, inputs.advice_inputs.map_entries);
        assert_eq!(given.advice_inputs.merkle_nodes, inputs.advice_inputs.merkle_nodes);
    }
}

#[test]
fn captured_arguments_belong_to_their_account() {
    let mut inputs = TransactionInputs::synthetic(0xABC, 100).with_tx_script("begin end");
    inputs.advice_inputs.map_entries.insert("k".to_string(), vec![1]);
    let mut store = ReplayDataStore::from_captured_inputs(&inputs);
    store.insert_account(account(1, 1));
    store.insert_note(note(2));
    let other = store.get_transaction_inputs(1, 0, &[2]).unwrap();
    assert!(other.tx_args.tx_script.is_none());
    assert!(other.tx_args.note_args.is_empty());
    assert!(other.advice_inputs.map_entries.is_empty());
    assert!(other.advice_inputs.merkle_nodes.is_empty());
    let own = store.get_transaction_inputs(0xABC, 0, &[2]).unwrap();
    assert_eq!(own.tx_args.tx_script.as_deref(), Some("begin end"));
    assert_eq!(own.advice_inputs.map_entries, inputs.advice_inputs.map_entries);
}

#[test]
fn notes_are_counted_by_their_ids() {
    let inputs = TransactionInputs::synthetic(1, 1)
        .with_input_note(note(7))
        .with_input_note(note(7))
        .with_input_note(note(8));
    let mut store = ReplayDataStore::from_captured_inputs(&inputs);
    assert_eq!(store.note_count(), 2);
    let mut again = note(8);
    again.inputs = vec![1];
    store.insert_note(again);
    assert_eq!(store.note_count(), 2);
    store.insert_note(note(9));
    assert_eq!(store.note_count(), 3);
    store.insert_account(account(9, 9));
    store.insert_block_header(BlockHeader::synthetic(9));
    assert_eq!(store.note_count(), 3);
    let given = store.get_transaction_inputs(1, 0, &[8]).unwrap();
    assert_eq!(given.input_notes.notes[0].inputs, vec![1]);
    assert_eq!(ReplayDataStore::new().note_count(), 0);
}

#[test]
fn sync_takes_the_highest_block() {
    let mut client = MidenNodeClient::new("http://node");
    let result = client.sync_state_synthetic(
        vec![account(1, 1), account(1, 2)],
        vec![note(4)],
        vec![BlockHeader::synthetic(20), BlockHeader::synthetic(11)],
    );
    assert_eq!(result.block_num, 20);
    assert_eq!(result.account_updates, 2);
    assert_eq!(result.new_notes, 1);
    assert_eq!(result.nullifier_updates, 0);
    assert_eq!(client.store().account_count(), 1);
    assert_eq!(client.store().get_account(1).unwrap().nonce, 2);
}

#[test]
fn failed_sync_changes_nothing() {
    let mut client = MidenNodeClient::new("http://node");
    let error = client.sync_state().unwrap_err();
    assert_eq!(
        error.to_string(),
        "node connection failed: miden-client is not available at a compatible version. \
         Cannot connect to node at http://node. \
         Use captured TransactionInputs for replay instead."
    );
    assert!(!client.is_connected());
    assert_eq!(client.store().account_count(), 0);
}

#[test]
fn replay_from_captured_inputs() {
    let inputs = TransactionInputs::synthetic(0x1000, 42)
        .with_input_note(note(1))
        .with_tx_script("begin push.1 end");
    let captured = PathBuf::from("captures/tx_inputs_0x1000_block_42.json");
    let config = ReplayConfig::new(
        "https://rpc.testnet.miden.io",
        "0x1000",
        "0xdeadbeef",
        PathBuf::from("output"),
    )
    .with_captured_inputs(captured.clone());

    assert_eq!(replay_plan(&config).unwrap(), captured);
    let result = replay_transaction(&config, Some(&inputs)).unwrap();
    assert_eq!(result.status, ReplayStatus::Completed);
    assert_eq!(result.block_num, 42);
    assert_eq!(result.input_note_count, 1);
    assert_eq!(result.transaction_id, "0xdeadbeef");
    assert_eq!(result.account_id, "0x1000");
    assert_eq!(result.output_dir, PathBuf::from("output"));

    let text = replay_summary(&config, &inputs).unwrap();
    let summary: serde_json::Value = serde_json::from_str(&text).unwrap();
    assert_eq!(summary["status"], "replay_completed_synthetic");
    assert_eq!(summary["transaction_id"], "0xdeadbeef");
    assert_eq!(summary["account_id"], "0x1000");
    assert_eq!(summary["block_num"], 42);
    assert_eq!(summary["input_notes"], 1);
    assert_eq!(summary["has_tx_script"], true);
    assert_eq!(
        summary["limitation"],
        "Full replay requires TransactionExecutor from miden-client. \
         Currently using synthetic execution path."
    );
    assert_eq!(summary.as_object().unwrap().len(), 7);
}

#[test]
fn invalid_configuration_is_not_replayed() {
    let config = ReplayConfig::new("node", "", "tx", PathBuf::from("output"))
        .with_captured_inputs(PathBuf::from("inputs.json"));
    assert!(matches!(replay_plan(&config), Err(ReplayError::InvalidConfig(_))));
    assert!(matches!(replay_transaction(&config, None), Err(ReplayError::InvalidConfig(_))));
}

#[test]
fn capture_files_tell_account_and_block() {
    let name = |id: u64, block: u32| capture_file_name(&TransactionInputs::synthetic(id, block));
    assert_eq!(name(0xABCD, 77), "tx_inputs_0xabcd_block_77.json");
    assert_eq!(name(0x1000, 42), "tx_inputs_0x1000_block_42.json");
    assert_eq!(name(0, 0), "tx_inputs_0x0_block_0.json");
    assert_ne!(name(0x1000, 10), name(0x2000, 20));
    assert_ne!(name(0x1000, 10), name(0x1000, 30));
    assert_ne!(name(0x1, 11), name(0x11, 1));
}
