//! Chains, execution contexts and sessions.

use std::path::PathBuf;

use codetracer_miden_recorder::kernel_procs::is_kernel_procedure;
use codetracer_miden_recorder::kernel_procs::kernel_proc_info;
use codetracer_miden_recorder::kernel_procs::procedure_display_name;
use codetracer_miden_recorder::mockchain::AccountId;
use codetracer_miden_recorder::mockchain::AccountKind;
use codetracer_miden_recorder::mockchain::AssetVault;
use codetracer_miden_recorder::mockchain::ContextId;
use codetracer_miden_recorder::mockchain::ContextKind;
use codetracer_miden_recorder::mockchain::ContractTraceSession;
use codetracer_miden_recorder::mockchain::ExecutionContextTracker;
use codetracer_miden_recorder::mockchain::FaucetConfig;
use codetracer_miden_recorder::mockchain::FungibleAsset;
use codetracer_miden_recorder::mockchain::MockChainBuilder;
use codetracer_miden_recorder::mockchain::MockChainConfig;
use codetracer_miden_recorder::mockchain::NoteId;
use codetracer_miden_recorder::mockchain::NoteType;
use codetracer_miden_recorder::mockchain::OutputNote;
use codetracer_miden_recorder::mockchain::P2IdNoteConfig;
use codetracer_miden_recorder::mockchain::SessionStatus;
use codetracer_miden_recorder::mockchain::SwapNoteConfig;
use codetracer_miden_recorder::mockchain::TraceEvent;
use codetracer_miden_recorder::mockchain::TransactionConfig;
use codetracer_miden_recorder::mockchain::TransactionRecord;
use codetracer_miden_recorder::mockchain::WalletConfig;

#[test]
fn test_mockchain_builder_creates_chain() {
    let wallet_id = AccountId(0x1000);
    let faucet_id = AccountId(0x2000);

    let chain = MockChainBuilder::new()
        .add_existing_wallet(WalletConfig {
            id: wallet_id,
            initial_assets: AssetVault::default(),
        })
        .add_existing_basic_faucet(FaucetConfig {
            id: faucet_id,
            symbol: "TEST".to_string(),
            max_supply: 1_000_000,
            initial_supply: 0,
        })
        .add_p2id_note(P2IdNoteConfig {
            id: NoteId(1),
            sender: faucet_id,
            receiver: wallet_id,
            assets: AssetVault {
                fungible: vec![FungibleAsset {
                    faucet_id,
                    amount: 100,
                }],
            },
            note_type: NoteType::Public,
            aux: 0,
        })
        .build();

    // Verify accounts were created.
    assert_eq!(chain.account_count(), 2, "should have wallet + faucet");
    assert!(chain.has_account(&wallet_id), "wallet should exist");
    assert!(chain.has_account(&faucet_id), "faucet should exist");

    // Verify the note was created.
    assert_eq!(chain.note_count(), 1, "should have one note");
    let note = chain.get_note(&NoteId(1)).expect("note should exist");
    assert_eq!(note.sender, faucet_id);
    assert!(!note.consumed, "note should not be consumed yet");
    assert_eq!(note.note_type, NoteType::Public);

    // Verify asset in the note.
    assert_eq!(note.assets.fungible.len(), 1);
    assert_eq!(note.assets.fungible[0].amount, 100);
    assert_eq!(note.assets.fungible[0].faucet_id, faucet_id);
}

#[test]
fn test_wallet_and_faucet_setup() {
    let wallet_id = AccountId(0x1000);
    let faucet_id = AccountId(0x2000);

    let wallet_with_assets = WalletConfig {
        id: wallet_id,
        initial_assets: AssetVault {
            fungible: vec![FungibleAsset {
                faucet_id,
                amount: 500,
            }],
        },
    };

    let faucet = FaucetConfig {
        id: faucet_id,
        symbol: "GOLD".to_string(),
        max_supply: 10_000_000,
        initial_supply: 1_000,
    };

    let chain = MockChainBuilder::new()
        .add_existing_wallet(wallet_with_assets)
        .add_existing_basic_faucet(faucet)
        .build();

    // Check wallet.
    let wallet = chain.get_account(&wallet_id).expect("wallet should exist");
    assert!(
        matches!(wallet.kind, AccountKind::Wallet),
        "should be a wallet"
    );
    assert_eq!(wallet.assets.fungible.len(), 1);
    assert_eq!(wallet.assets.fungible[0].amount, 500);

    // Check faucet.
    let faucet_account = chain.get_account(&faucet_id).expect("faucet should exist");
    match &faucet_account.kind {
        AccountKind::Faucet {
            symbol,
            max_supply,
            current_supply,
        } => {
            assert_eq!(symbol, "GOLD");
            assert_eq!(*max_supply, 10_000_000);
            assert_eq!(*current_supply, 1_000);
        }
        _ => panic!("expected faucet account kind"),
    }
}

#[test]
fn test_transaction_context_construction() {
    let wallet_id = AccountId(0x1000);
    let faucet_id = AccountId(0x2000);
    let note_id = NoteId(42);

    let config = MockChainConfig {
        wallets: vec![WalletConfig {
            id: wallet_id,
            initial_assets: AssetVault::default(),
        }],
        faucets: vec![FaucetConfig {
            id: faucet_id,
            symbol: "TEST".to_string(),
            max_supply: 1_000_000,
            initial_supply: 0,
        }],
        p2id_notes: vec![P2IdNoteConfig {
            id: note_id,
            sender: faucet_id,
            receiver: wallet_id,
            assets: AssetVault {
                fungible: vec![FungibleAsset {
                    faucet_id,
                    amount: 200,
                }],
            },
            note_type: NoteType::Public,
            aux: 0,
        }],
        ..Default::default()
    };

    let mut session = ContractTraceSession::new(config, PathBuf::from("test_tx_ctx"));
    assert_eq!(*session.status(), SessionStatus::Created);

    // Build the chain.
    session.build_chain().expect("build_chain should succeed");
    assert_eq!(*session.status(), SessionStatus::ChainBuilt);

    // Verify chain state.
    let chain = session.chain().expect("chain should be built");
    assert!(chain.has_account(&wallet_id));
    assert!(chain.has_account(&faucet_id));
    assert!(chain.get_note(&note_id).is_some());

    // Construct transaction config.
    let tx_config = TransactionConfig {
        account_id: wallet_id,
        input_notes: vec![note_id],
        tx_script: None,
        debug_mode: true,
    };

    // Verify the tx config is valid against the chain.
    assert!(chain.has_account(&tx_config.account_id));
    for nid in &tx_config.input_notes {
        assert!(chain.get_note(nid).is_some());
    }
}

#[test]
fn test_execution_context_tracking() {
    let mut tracker = ExecutionContextTracker::new();

    // Initially no context.
    assert!(tracker.current().is_none());
    assert_eq!(tracker.context_count(), 0);

    // Switch to kernel context (context 0).
    tracker.switch_context(ContextId(0), ContextKind::Kernel, 0);
    assert_eq!(tracker.current(), Some(ContextId(0)));
    assert_eq!(tracker.context_count(), 1);
    assert!(tracker.is_in_kernel());

    // Switch to note script context (context 1).
    let note_kind = ContextKind::NoteScript {
        note_id: NoteId(1),
    };
    tracker.switch_context(ContextId(1), note_kind.clone(), 100);
    assert_eq!(tracker.current(), Some(ContextId(1)));
    assert_eq!(tracker.context_count(), 2);
    assert!(!tracker.is_in_kernel());

    // Switch back to kernel (syscall from note script).
    tracker.switch_context(ContextId(0), ContextKind::Kernel, 150);
    assert_eq!(tracker.current(), Some(ContextId(0)));
    assert!(tracker.is_in_kernel());
    // Context count should still be 2 (same context ID).
    assert_eq!(tracker.context_count(), 2);

    // Switch to account code context (context 2).
    let account_kind = ContextKind::AccountCode {
        account_id: AccountId(0x1000),
    };
    tracker.switch_context(ContextId(2), account_kind, 200);
    assert_eq!(tracker.context_count(), 3);

    // Verify switch history.
    let history = tracker.switch_history();
    assert_eq!(history.len(), 4);
    assert_eq!(history[0], (ContextId(0), 0));
    assert_eq!(history[1], (ContextId(1), 100));
    assert_eq!(history[2], (ContextId(0), 150));
    assert_eq!(history[3], (ContextId(2), 200));

    // Verify individual context info.
    let kernel_info = tracker.get_context(&ContextId(0)).unwrap();
    assert_eq!(kernel_info.kind, ContextKind::Kernel);
    assert!(kernel_info.entered);

    let note_info = tracker.get_context(&ContextId(1)).unwrap();
    assert!(matches!(note_info.kind, ContextKind::NoteScript { .. }));

    // All contexts.
    let all = tracker.all_contexts();
    assert_eq!(all.len(), 3);
}

#[test]
fn test_kernel_procedure_detection() {
    // Known kernel procedures.
    assert!(is_kernel_procedure("miden::kernel::account_vault_add_asset"));
    assert!(is_kernel_procedure("miden::kernel::get_account_id"));
    assert!(is_kernel_procedure("miden::note::get_inputs"));
    assert!(is_kernel_procedure("miden::tx::get_block_number"));
    assert!(is_kernel_procedure("miden::asset::build_fungible_asset"));
    assert!(is_kernel_procedure("miden::faucet::mint"));
    assert!(is_kernel_procedure("#sys::prologue"));
    assert!(is_kernel_procedure("#sys::epilogue"));

    // User procedures should not be detected as kernel.
    assert!(!is_kernel_procedure("my_contract::transfer"));
    assert!(!is_kernel_procedure("compute"));
    assert!(!is_kernel_procedure("#exec::compute"));
    assert!(!is_kernel_procedure(""));

    // Verify kernel proc info extraction.
    let info = kernel_proc_info("miden::kernel::account_vault_add_asset").unwrap();
    assert_eq!(info.short_name, "account_vault_add_asset");
    assert!(!info.is_prologue);

    let prologue_info = kernel_proc_info("#sys::prologue").unwrap();
    assert!(prologue_info.is_prologue);

    let epilogue_info = kernel_proc_info("#sys::epilogue").unwrap();
    assert!(epilogue_info.is_prologue); // epilogue is also a setup procedure

    assert!(kernel_proc_info("my_contract::foo").is_none());

    // Verify display names.
    assert_eq!(
        procedure_display_name("miden::kernel::get_account_id"),
        "[kernel] get_account_id"
    );
    assert_eq!(
        procedure_display_name("#sys::prologue"),
        "[kernel:setup] prologue"
    );
    assert_eq!(
        procedure_display_name("my_contract::transfer"),
        "my_contract::transfer"
    );

    // Context classification from procedure name.
    let kind = ExecutionContextTracker::classify_from_procedure("miden::kernel::get_account_id");
    assert_eq!(kind, ContextKind::Kernel);

    let kind = ExecutionContextTracker::classify_from_procedure("my_contract::transfer");
    assert_eq!(kind, ContextKind::Unknown);
}

#[test]
fn test_contract_trace_session_lifecycle() {
    let out_dir = PathBuf::from("contract_trace");

    let wallet_id = AccountId(0x1000);
    let faucet_id = AccountId(0x2000);
    let note_id = NoteId(1);

    let config = MockChainConfig {
        wallets: vec![WalletConfig {
            id: wallet_id,
            initial_assets: AssetVault::default(),
        }],
        faucets: vec![FaucetConfig {
            id: faucet_id,
            symbol: "TEST".to_string(),
            max_supply: 1_000_000,
            initial_supply: 0,
        }],
        p2id_notes: vec![P2IdNoteConfig {
            id: note_id,
            sender: faucet_id,
            receiver: wallet_id,
            assets: AssetVault {
                fungible: vec![FungibleAsset {
                    faucet_id,
                    amount: 100,
                }],
            },
            note_type: NoteType::Public,
            aux: 0,
        }],
        ..Default::default()
    };

    let mut session = ContractTraceSession::new(config, out_dir.clone());

    // Step 1: Created state.
    assert_eq!(*session.status(), SessionStatus::Created);

    // Cannot execute before building chain.
    let tx = TransactionConfig {
        account_id: wallet_id,
        input_notes: vec![note_id],
        tx_script: None,
        debug_mode: true,
    };
    assert!(
        session.execute_transaction(&tx).is_err(),
        "should not execute before building chain"
    );

    // Step 2: Build chain.
    session.build_chain().expect("build_chain should succeed");
    assert_eq!(*session.status(), SessionStatus::ChainBuilt);

    // Cannot build chain twice.
    assert!(
        session.build_chain().is_err(),
        "should not build chain twice"
    );

    // Step 3: Execute transaction.
    session
        .execute_transaction(&tx)
        .expect("execute should succeed");
    assert_eq!(*session.status(), SessionStatus::Executed);

    // Verify trace events were generated.
    let events = session.trace_events();
    assert!(!events.is_empty(), "should have trace events");

    // Verify we have context switches.
    let context_switches: Vec<_> = events
        .iter()
        .filter(|e| matches!(e, TraceEvent::ContextSwitch { .. }))
        .collect();
    assert!(
        !context_switches.is_empty(),
        "should have context switches"
    );

    // Verify we have kernel calls.
    let kernel_calls: Vec<_> = events
        .iter()
        .filter(|e| matches!(e, TraceEvent::Call { is_kernel: true, .. }))
        .collect();
    assert!(!kernel_calls.is_empty(), "should have kernel calls");

    // Verify we have user calls.
    let user_calls: Vec<_> = events
        .iter()
        .filter(|e| matches!(e, TraceEvent::Call { is_kernel: false, .. }))
        .collect();
    assert!(!user_calls.is_empty(), "should have user calls");

    // Verify context tracker.
    let tracker = session.context_tracker();
    assert!(tracker.context_count() >= 2, "should have at least kernel + note contexts");

    // Step 4: Finalize.
    let summary = session.finalize().expect("finalize should succeed");
    assert!(!summary.is_empty(), "summary should be there to be written");
    session.complete();
    assert_eq!(*session.status(), SessionStatus::Completed);
    assert_eq!(session.out_dir(), &out_dir);
    assert_eq!(ContractTraceSession::summary_file(), "contract_trace_summary.json");

    // Cannot finalize twice.
    assert!(
        session.finalize().is_err(),
        "should not finalize twice"
    );
}

#[test]
fn test_mockchain_trace_output() {
    let out_dir = PathBuf::from("trace_output");

    let wallet_id = AccountId(0x1000);
    let faucet_id = AccountId(0x2000);
    let note_id = NoteId(1);

    let config = MockChainConfig {
        wallets: vec![WalletConfig {
            id: wallet_id,
            initial_assets: AssetVault::default(),
        }],
        faucets: vec![FaucetConfig {
            id: faucet_id,
            symbol: "TOKEN".to_string(),
            max_supply: 500_000,
            initial_supply: 100,
        }],
        p2id_notes: vec![P2IdNoteConfig {
            id: note_id,
            sender: faucet_id,
            receiver: wallet_id,
            assets: AssetVault {
                fungible: vec![FungibleAsset {
                    faucet_id,
                    amount: 50,
                }],
            },
            note_type: NoteType::Public,
            aux: 0,
        }],
        ..Default::default()
    };

    let mut session = ContractTraceSession::new(config, out_dir.clone());
    session.build_chain().unwrap();

    // Execute with a transaction script.
    let tx_config = TransactionConfig {
        account_id: wallet_id,
        input_notes: vec![note_id],
        tx_script: Some("begin\n    push.1\n    drop\nend".to_string()),
        debug_mode: true,
    };
    session.execute_transaction(&tx_config).unwrap();

    let summary_content = session.finalize().unwrap();
    let summary: serde_json::Value =
        serde_json::from_str(&summary_content).expect("summary should be valid JSON");

    // Verify summary fields.
    assert!(
        summary["context_count"].as_u64().unwrap() >= 2,
        "should have multiple contexts"
    );
    assert!(
        summary["event_count"].as_u64().unwrap() > 0,
        "should have events"
    );
    assert!(
        summary["context_switches"].as_u64().unwrap() > 0,
        "should have context switches"
    );
    assert_eq!(
        summary["accounts"].as_u64().unwrap(),
        2,
        "should have 2 accounts"
    );
    assert_eq!(
        summary["notes"].as_u64().unwrap(),
        1,
        "should have 1 note"
    );

    // Verify kernel calls are listed.
    let kernel_calls = summary["kernel_calls"].as_array().unwrap();
    assert!(!kernel_calls.is_empty(), "should list kernel calls");

    // Should include prologue and epilogue.
    let call_names: Vec<&str> = kernel_calls.iter().map(|v| v.as_str().unwrap()).collect();
    assert!(
        call_names.contains(&"#sys::prologue"),
        "should have prologue"
    );
    assert!(
        call_names.contains(&"#sys::epilogue"),
        "should have epilogue"
    );

    // Should include note-related kernel calls.
    assert!(
        call_names
            .iter()
            .any(|n| n.contains("miden::note::") || n.contains("miden::kernel::")),
        "should have note/kernel system calls"
    );

    // Verify the trace events contain the expected phases.
    let events = session.trace_events();

    // Should have steps in note script and account code.
    let steps: Vec<_> = events
        .iter()
        .filter(|e| matches!(e, TraceEvent::Step { .. }))
        .collect();
    assert!(!steps.is_empty(), "should have step events");

    // Should have variables captured.
    let vars: Vec<_> = events
        .iter()
        .filter(|e| matches!(e, TraceEvent::Variable { .. }))
        .collect();
    assert!(!vars.is_empty(), "should have variable events");

    // With tx_script set, should have a TxScript context switch.
    let tx_script_switches: Vec<_> = events
        .iter()
        .filter(|e| matches!(e, TraceEvent::ContextSwitch { kind: ContextKind::TxScript, .. }))
        .collect();
    assert!(
        !tx_script_switches.is_empty(),
        "should have tx_script context switch when tx_script is provided"
    );

    // Verify the chain recorded the transaction.
    let chain = session.chain().unwrap();
    let consumed_note = chain.get_note(&note_id).unwrap();
    assert!(consumed_note.consumed, "note should be consumed after transaction");
}

#[test]
fn test_transaction_missing_account_fails() {
    let config = MockChainConfig {
        wallets: vec![WalletConfig {
            id: AccountId(0x1000),
            initial_assets: AssetVault::default(),
        }],
        ..Default::default()
    };

    let mut session = ContractTraceSession::new(config, PathBuf::from("out"));
    session.build_chain().unwrap();

    let tx = TransactionConfig {
        account_id: AccountId(0x9999), // Does not exist
        input_notes: vec![],
        tx_script: None,
        debug_mode: true,
    };

    let result = session.execute_transaction(&tx);
    assert!(result.is_err());
    assert!(result.unwrap_err().contains("not found"));
}

#[test]
fn test_transaction_missing_note_fails() {
    let config = MockChainConfig {
        wallets: vec![WalletConfig {
            id: AccountId(0x1000),
            initial_assets: AssetVault::default(),
        }],
        ..Default::default()
    };

    let mut session = ContractTraceSession::new(config, PathBuf::from("out"));
    session.build_chain().unwrap();

    let tx = TransactionConfig {
        account_id: AccountId(0x1000),
        input_notes: vec![NoteId(999)], // Does not exist
        tx_script: None,
        debug_mode: true,
    };

    let result = session.execute_transaction(&tx);
    assert!(result.is_err());
    assert!(result.unwrap_err().contains("not found"));
}

#[test]
fn test_mockchain_builder_multiple_notes() {
    let wallet_a = AccountId(0x1000);
    let wallet_b = AccountId(0x2000);
    let faucet = AccountId(0x3000);

    let chain = MockChainBuilder::new()
        .add_existing_wallet(WalletConfig {
            id: wallet_a,
            initial_assets: AssetVault::default(),
        })
        .add_existing_wallet(WalletConfig {
            id: wallet_b,
            initial_assets: AssetVault::default(),
        })
        .add_existing_basic_faucet(FaucetConfig {
            id: faucet,
            symbol: "SWAP".to_string(),
            max_supply: 1_000_000,
            initial_supply: 0,
        })
        .add_p2id_note(P2IdNoteConfig {
            id: NoteId(1),
            sender: faucet,
            receiver: wallet_a,
            assets: AssetVault {
                fungible: vec![FungibleAsset {
                    faucet_id: faucet,
                    amount: 100,
                }],
            },
            note_type: NoteType::Public,
            aux: 0,
        })
        .add_output_note(OutputNote {
            id: NoteId(2),
            sender: wallet_a,
            assets: AssetVault {
                fungible: vec![FungibleAsset {
                    faucet_id: faucet,
                    amount: 50,
                }],
            },
            note_type: NoteType::Private,
        })
        .build();

    assert_eq!(chain.account_count(), 3);
    assert_eq!(chain.note_count(), 2);

    let note_1 = chain.get_note(&NoteId(1)).unwrap();
    assert_eq!(note_1.note_type, NoteType::Public);

    let note_2 = chain.get_note(&NoteId(2)).unwrap();
    assert_eq!(note_2.note_type, NoteType::Private);
    assert_eq!(note_2.sender, wallet_a);
}

#[test]
fn test_mockchain_block_production() {
    let wallet_id = AccountId(0x1000);
    let faucet_id = AccountId(0x2000);

    let mut chain = MockChainBuilder::new()
        .add_existing_wallet(WalletConfig {
            id: wallet_id,
            initial_assets: AssetVault::default(),
        })
        .add_existing_basic_faucet(FaucetConfig {
            id: faucet_id,
            symbol: "BLK".to_string(),
            max_supply: 1_000_000,
            initial_supply: 0,
        })
        .build();

    assert_eq!(chain.block_number, 0);
    assert!(chain.blocks.is_empty());

    // Record a transaction and produce a block.
    chain.record_transaction(TransactionRecord {
        account_id: wallet_id,
        consumed_notes: vec![],
        success: true,
    });
    chain.produce_block();

    assert_eq!(chain.block_number, 1);
    assert_eq!(chain.blocks.len(), 1);
    assert_eq!(chain.blocks[0].transactions.len(), 1);
    assert!(chain.blocks[0].transactions[0].success);
}

#[test]
fn test_execution_context_source_path() {
    let mut tracker = ExecutionContextTracker::new();

    tracker.switch_context(ContextId(0), ContextKind::Kernel, 0);
    tracker.set_source_path(ContextId(0), std::path::PathBuf::from("kernel.masm"));

    tracker.switch_context(
        ContextId(1),
        ContextKind::AccountCode {
            account_id: AccountId(0x1000),
        },
        100,
    );
    tracker.set_source_path(ContextId(1), std::path::PathBuf::from("account.masm"));

    let kernel_ctx = tracker.get_context(&ContextId(0)).unwrap();
    assert_eq!(
        kernel_ctx.source_path.as_deref(),
        Some(std::path::Path::new("kernel.masm"))
    );

    let account_ctx = tracker.get_context(&ContextId(1)).unwrap();
    assert_eq!(
        account_ctx.source_path.as_deref(),
        Some(std::path::Path::new("account.masm"))
    );
}

#[test]
fn test_mockchain_builder_swap_notes() {
    let wallet_a = AccountId(0x1000);
    let wallet_b = AccountId(0x2000);
    let faucet = AccountId(0x3000);

    let chain = MockChainBuilder::new()
        .add_existing_wallet(WalletConfig {
            id: wallet_a,
            initial_assets: AssetVault::default(),
        })
        .add_existing_wallet(WalletConfig {
            id: wallet_b,
            initial_assets: AssetVault::default(),
        })
        .add_existing_basic_faucet(FaucetConfig {
            id: faucet,
            symbol: "SWAP".to_string(),
            max_supply: 1_000_000,
            initial_supply: 0,
        })
        .add_swap_note(SwapNoteConfig {
            id: NoteId(10),
            sender: wallet_a,
            offered: AssetVault {
                fungible: vec![FungibleAsset {
                    faucet_id: faucet,
                    amount: 100,
                }],
            },
            requested: AssetVault {
                fungible: vec![FungibleAsset {
                    faucet_id: faucet,
                    amount: 200,
                }],
            },
            note_type: NoteType::Public,
            aux: 0,
        })
        .build();

    assert_eq!(chain.note_count(), 1, "swap note should be in the chain");
    let note = chain.get_note(&NoteId(10)).expect("swap note should exist");
    assert_eq!(note.sender, wallet_a);
    assert_eq!(note.assets.fungible.len(), 1);
    assert_eq!(note.assets.fungible[0].amount, 100, "should use offered assets");
}

#[test]
fn test_mockchain_multiple_transactions_same_block() {
    let wallet_id = AccountId(0x1000);
    let faucet_id = AccountId(0x2000);

    let mut chain = MockChainBuilder::new()
        .add_existing_wallet(WalletConfig {
            id: wallet_id,
            initial_assets: AssetVault::default(),
        })
        .add_existing_basic_faucet(FaucetConfig {
            id: faucet_id,
            symbol: "BLK".to_string(),
            max_supply: 1_000_000,
            initial_supply: 0,
        })
        .build();

    // Record two transactions before producing a block.
    chain.record_transaction(TransactionRecord {
        account_id: wallet_id,
        consumed_notes: vec![],
        success: true,
    });
    chain.record_transaction(TransactionRecord {
        account_id: faucet_id,
        consumed_notes: vec![],
        success: true,
    });

    assert_eq!(chain.blocks.len(), 1, "both txns should be in one pending block");
    assert_eq!(chain.blocks[0].transactions.len(), 2, "block should have 2 transactions");

    chain.produce_block();
    assert_eq!(chain.block_number, 1);
}

#[test]
fn test_kernel_proc_detection_with_real_patterns() {
    // These procedure names appear in real Miden transaction execution.
    // Verify the recorder's kernel procedure detection recognizes them.

    // Prologue/epilogue - always present in transactions.
    assert!(
        is_kernel_procedure("#sys::prologue"),
        "should detect prologue"
    );
    assert!(
        is_kernel_procedure("#sys::epilogue"),
        "should detect epilogue"
    );

    // Account-related kernel procedures.
    assert!(is_kernel_procedure("miden::kernel::get_account_id"));
    assert!(is_kernel_procedure("miden::kernel::account_vault_add_asset"));

    // Note-related kernel procedures.
    assert!(is_kernel_procedure("miden::note::get_inputs"));

    // Transaction-related kernel procedures.
    assert!(is_kernel_procedure("miden::tx::get_block_number"));

    // Asset-related kernel procedures.
    assert!(is_kernel_procedure("miden::asset::build_fungible_asset"));

    // Faucet-related kernel procedures.
    assert!(is_kernel_procedure("miden::faucet::mint"));

    // Display names should work correctly.
    assert_eq!(
        procedure_display_name("#sys::prologue"),
        "[kernel:setup] prologue"
    );
    assert_eq!(
        procedure_display_name("miden::kernel::get_account_id"),
        "[kernel] get_account_id"
    );
}

#[test]
fn test_context_tracking_mirrors_real_tx_phases() {
    // A real Miden transaction goes through these phases:
    // 1. Kernel prologue (context 0)
    // 2. Note script execution (context 1+)
    // 3. Account code execution
    // 4. Transaction script (if present)
    // 5. Kernel epilogue (context 0)
    //
    // Verify the recorder's ExecutionContextTracker can model this.

    let mut tracker = ExecutionContextTracker::new();

    // Phase 1: Kernel prologue.
    tracker.switch_context(ContextId(0), ContextKind::Kernel, 0);
    assert!(tracker.is_in_kernel());

    // Phase 2: Note script (context switches from kernel to note).
    tracker.switch_context(
        ContextId(1),
        ContextKind::NoteScript {
            note_id: codetracer_miden_recorder::mockchain::NoteId(1),
        },
        100,
    );
    assert!(!tracker.is_in_kernel());

    // Note calls back to kernel (syscall).
    tracker.switch_context(ContextId(0), ContextKind::Kernel, 150);
    assert!(tracker.is_in_kernel());

    // Return to note.
    tracker.switch_context(
        ContextId(1),
        ContextKind::NoteScript {
            note_id: codetracer_miden_recorder::mockchain::NoteId(1),
        },
        170,
    );

    // Phase 3: Account code.
    tracker.switch_context(
        ContextId(2),
        ContextKind::AccountCode {
            account_id: codetracer_miden_recorder::mockchain::AccountId(0x1000),
        },
        200,
    );

    // Phase 4: Tx script.
    tracker.switch_context(ContextId(3), ContextKind::TxScript, 300);

    // Phase 5: Kernel epilogue.
    tracker.switch_context(ContextId(0), ContextKind::Kernel, 400);
    assert!(tracker.is_in_kernel());

    // Verify we tracked all context IDs.
    assert_eq!(tracker.context_count(), 4, "should have 4 distinct contexts");

    // Verify the switch history is complete.
    let history = tracker.switch_history();
    assert_eq!(history.len(), 7, "should have 7 context switches");

    // Verify context kinds.
    let kernel_ctx = tracker.get_context(&ContextId(0)).unwrap();
    assert_eq!(kernel_ctx.kind, ContextKind::Kernel);

    let note_ctx = tracker.get_context(&ContextId(1)).unwrap();
    assert!(matches!(note_ctx.kind, ContextKind::NoteScript { .. }));

    let account_ctx = tracker.get_context(&ContextId(2)).unwrap();
    assert!(matches!(account_ctx.kind, ContextKind::AccountCode { .. }));

    let tx_script_ctx = tracker.get_context(&ContextId(3)).unwrap();
    assert_eq!(tx_script_ctx.kind, ContextKind::TxScript);
}

#[test]
fn test_session_status_model_with_real_chain() {
    // Verify the recorder's SessionStatus enum can model a real chain workflow.
    // This test ensures the status transitions make sense for real usage.

    let status = SessionStatus::Created;
    assert_eq!(status, SessionStatus::Created);

    let status = SessionStatus::ChainBuilt;
    assert_eq!(status, SessionStatus::ChainBuilt);

    let status = SessionStatus::Executed;
    assert_eq!(status, SessionStatus::Executed);

    let status = SessionStatus::Completed;
    assert_eq!(status, SessionStatus::Completed);

    let status = SessionStatus::Failed("test error".to_string());
    assert!(matches!(status, SessionStatus::Failed(_)));
}

fn wallet(id: u64) -> WalletConfig {
    WalletConfig { id: AccountId(id), initial_assets: AssetVault::default() }
}

fn output(id: u64) -> OutputNote {
    OutputNote {
        id: NoteId(id),
        sender: AccountId(1),
        assets: AssetVault::default(),
        note_type: NoteType::Encrypted,
    }
}

fn transaction(account: u64, notes: &[u64], script: bool) -> TransactionConfig {
    TransactionConfig {
        account_id: AccountId(account),
        input_notes: notes.iter().map(|n| NoteId(*n)).collect(),
        tx_script: if script { Some("begin end".to_string()) } else { None },
        debug_mode: false,
    }
}

fn built_session() -> ContractTraceSession {
    let config = MockChainConfig {
        wallets: vec![wallet(0x10)],
        output_notes: vec![output(5), output(6), output(7)],
        ..Default::default()
    };
    let mut session = ContractTraceSession::new(config, PathBuf::from("out"));
    session.build_chain().unwrap();
    session
}

#[test]
fn ids_are_shown() {
    assert_eq!(AccountId(0x1000).to_string(), "0x0000000000001000");
    assert_eq!(AccountId(u64::MAX).to_string(), "0xffffffffffffffff");
    assert_eq!(ContextId(17).to_string(), "ctx:17");
    assert_eq!(NoteId(3).to_label(), "NoteId(3)");
}

#[test]
fn kinds_have_labels() {
    assert_eq!(ContextKind::Kernel.to_label(), "kernel");
    assert_eq!(
        ContextKind::AccountCode { account_id: AccountId(0x1000) }.to_label(),
        "account:0x0000000000001000"
    );
    assert_eq!(ContextKind::NoteScript { note_id: NoteId(3) }.to_label(), "note:NoteId(3)");
    assert_eq!(ContextKind::TxScript.to_label(), "tx_script");
    assert_eq!(ContextKind::Unknown.to_label(), "unknown");
}

#[test]
fn last_configuration_of_an_id_counts() {
    let chain = MockChainBuilder::default()
        .add_existing_basic_faucet(FaucetConfig {
            id: AccountId(1),
            symbol: "A".to_string(),
            max_supply: 10,
            initial_supply: 2,
        })
        .add_existing_wallet(wallet(1))
        .add_output_note(output(3))
        .add_p2id_note(P2IdNoteConfig {
            id: NoteId(3),
            sender: AccountId(9),
            receiver: AccountId(1),
            assets: AssetVault::default(),
            note_type: NoteType::Public,
            aux: 0,
        })
        .build();
    assert_eq!(chain.account_count(), 1);
    assert!(matches!(chain.get_account(&AccountId(1)).unwrap().kind, AccountKind::Faucet { .. }));
    assert_eq!(chain.note_count(), 1);
    assert_eq!(chain.get_note(&NoteId(3)).unwrap().note_type, NoteType::Encrypted);
    assert!(chain.get_account(&AccountId(2)).is_none());
    assert!(chain.get_note(&NoteId(4)).is_none());
}

#[test]
fn session_builds_swap_notes_too() {
    let config = MockChainConfig {
        swap_notes: vec![SwapNoteConfig {
            id: NoteId(10),
            sender: AccountId(1),
            offered: AssetVault {
                fungible: vec![FungibleAsset { faucet_id: AccountId(2), amount: 100 }],
            },
            requested: AssetVault::default(),
            note_type: NoteType::Public,
            aux: 0,
        }],
        ..Default::default()
    };
    let mut session = ContractTraceSession::new(config, PathBuf::from("out"));
    session.build_chain().unwrap();
    let chain = session.chain().unwrap();
    assert_eq!(chain.get_note(&NoteId(10)).unwrap().assets.fungible[0].amount, 100);
    assert_eq!(chain.config.swap_notes.len(), 1);
}

#[test]
fn transactions_join_the_last_block_and_consume_their_notes() {
    let mut chain = MockChainBuilder::new()
        .add_output_note(output(5))
        .add_output_note(output(6))
        .build();
    chain.produce_block();
    chain.produce_block();
    chain.record_transaction(TransactionRecord {
        account_id: AccountId(1),
        consumed_notes: vec![NoteId(5), NoteId(99)],
        success: false,
    });
    chain.produce_block();
    chain.record_transaction(TransactionRecord {
        account_id: AccountId(2),
        consumed_notes: vec![],
        success: true,
    });
    assert_eq!(chain.blocks.len(), 1);
    assert_eq!(chain.blocks[0].number, 2);
    assert_eq!(chain.blocks[0].transactions.len(), 2);
    assert_eq!(chain.blocks[0].transactions[0].account_id, AccountId(1));
    assert!(!chain.blocks[0].transactions[0].success);
    assert!(chain.get_note(&NoteId(5)).unwrap().consumed);
    assert!(!chain.get_note(&NoteId(6)).unwrap().consumed);
    assert_eq!(chain.note_count(), 2);
    assert_eq!(chain.block_number, 3);
}

#[test]
fn switch_to_the_current_context_changes_nothing() {
    let mut tracker = ExecutionContextTracker::default();
    tracker.switch_context(ContextId(4), ContextKind::TxScript, 1);
    tracker.switch_context(ContextId(4), ContextKind::Kernel, 2);
    assert_eq!(tracker.switch_history(), &[(ContextId(4), 1)]);
    let info = tracker.get_context(&ContextId(4)).unwrap();
    assert_eq!(info.cycle_count, 1);
    assert_eq!(info.kind, ContextKind::TxScript);
    assert!(!tracker.is_in_kernel());
}

#[test]
fn contexts_come_in_order_of_appearance() {
    let mut tracker = ExecutionContextTracker::new();
    for (id, clock) in [(9, 0), (2, 1), (9, 2), (5, 3), (2, 4), (9, 5)] {
        tracker.switch_context(ContextId(id), ContextKind::Unknown, clock);
    }
    let seen: Vec<(ContextId, u64)> =
        tracker.all_contexts().iter().map(|c| (c.id, c.cycle_count)).collect();
    assert_eq!(seen, vec![(ContextId(9), 3), (ContextId(2), 2), (ContextId(5), 1)]);
    assert_eq!(tracker.current(), Some(ContextId(9)));
    tracker.set_source_path(ContextId(77), PathBuf::from("none.masm"));
    assert!(tracker.all_contexts().iter().all(|c| c.source_path.is_none()));
    assert!(tracker.get_context(&ContextId(77)).is_none());
}

#[test]
fn refusals_are_explained_and_change_nothing() {
    let mut session = ContractTraceSession::new(MockChainConfig::default(), PathBuf::from("out"));
    assert_eq!(
        session.execute_transaction(&transaction(1, &[], false)).unwrap_err(),
        "Cannot execute transaction in state Created"
    );
    assert_eq!(session.finalize().unwrap_err(), "Cannot finalize in state Created");
    assert!(session.chain().is_none());
    session.complete();
    assert_eq!(*session.status(), SessionStatus::Created);

    let mut session = built_session();
    assert_eq!(session.build_chain().unwrap_err(), "Cannot build chain in state ChainBuilt");
    assert_eq!(
        session.execute_transaction(&transaction(0x9999, &[], false)).unwrap_err(),
        "Account 0x0000000000009999 not found in chain"
    );
    assert_eq!(
        session.execute_transaction(&transaction(0x10, &[5, 8, 9], false)).unwrap_err(),
        "Note NoteId(8) not found in chain"
    );
    assert_eq!(session.finalize().unwrap_err(), "Cannot finalize in state ChainBuilt");
    assert!(session.trace_events().is_empty());
    assert_eq!(session.context_tracker().context_count(), 0);
    assert!(!session.chain().unwrap().get_note(&NoteId(5)).unwrap().consumed);

    session.execute_transaction(&transaction(0x10, &[5], false)).unwrap();
    assert_eq!(
        session.execute_transaction(&transaction(0x10, &[6], false)).unwrap_err(),
        "Cannot execute transaction in state Executed"
    );
    assert_eq!(session.build_chain().unwrap_err(), "Cannot build chain in state Executed");
    session.complete();
    assert_eq!(session.finalize().unwrap_err(), "Cannot finalize in state Completed");
}

#[test]
fn transaction_runs_through_its_contexts() {
    let mut session = built_session();
    session.execute_transaction(&transaction(0x10, &[7, 5], true)).unwrap();
    let tracker = session.context_tracker();
    let kinds: Vec<(u32, ContextKind)> =
        tracker.all_contexts().iter().map(|c| (c.id.0, c.kind)).collect();
    assert_eq!(
        kinds,
        vec![
            (0, ContextKind::Kernel),
            (1, ContextKind::NoteScript { note_id: NoteId(7) }),
            (2, ContextKind::NoteScript { note_id: NoteId(5) }),
            (3, ContextKind::AccountCode { account_id: AccountId(0x10) }),
            (4, ContextKind::TxScript),
        ]
    );
    let history: Vec<(u32, u64)> =
        tracker.switch_history().iter().map(|(c, clock)| (c.0, *clock)).collect();
    assert_eq!(
        history,
        vec![
            (0, 0),
            (1, 100),
            (0, 150),
            (1, 170),
            (2, 200),
            (0, 250),
            (2, 270),
            (3, 300),
            (0, 300),
            (3, 330),
            (4, 350),
            (0, 390),
        ]
    );
    assert!(tracker.is_in_kernel());
    let chain = session.chain().unwrap();
    assert!(chain.get_note(&NoteId(5)).unwrap().consumed);
    assert!(!chain.get_note(&NoteId(6)).unwrap().consumed);
    assert!(chain.get_note(&NoteId(7)).unwrap().consumed);
    assert_eq!(chain.blocks[0].transactions[0].consumed_notes, vec![NoteId(7), NoteId(5)]);
}

#[test]
fn transaction_events_are_nested_and_rightly_marked() {
    let mut session = built_session();
    session.execute_transaction(&transaction(0x10, &[7, 5], true)).unwrap();
    let events = session.trace_events();
    assert_eq!(events.len(), 11 + 8 * 2 + 4);
    let mut open: Vec<ContextId> = Vec::new();
    let mut kernel_calls: Vec<String> = Vec::new();
    let mut switches = 0;
    for event in events {
        match event {
            TraceEvent::Call { function_name, is_kernel, context_id } => {
                assert_eq!(*is_kernel, is_kernel_procedure(function_name));
                assert_eq!(*is_kernel, *context_id == ContextId(0));
                if *is_kernel {
                    kernel_calls.push(function_name.clone());
                }
                open.push(*context_id);
            }
            TraceEvent::Return { context_id } => {
                assert_eq!(open.pop(), Some(*context_id));
            }
            TraceEvent::ContextSwitch { .. } => switches += 1,
            _ => {}
        }
    }
    assert!(open.is_empty());
    assert_eq!(switches, 2 + 2 * 2 + 1);
    assert_eq!(
        kernel_calls,
        vec![
            "#sys::prologue",
            "miden::note::get_inputs",
            "miden::note::get_inputs",
            "miden::kernel::account_vault_add_asset",
            "#sys::epilogue",
        ]
    );
    assert!(matches!(
        &events[4],
        TraceEvent::Call { function_name, is_kernel: false, context_id: ContextId(1) }
            if function_name == "note_script_7"
    ));
    assert!(matches!(
        &events[5],
        TraceEvent::Step { source_path, line: 1, .. }
            if *source_path == PathBuf::from("note_script.masm")
    ));
    assert!(matches!(
        &events[6],
        TraceEvent::Variable { name, value, .. } if name == "note_input_0" && value == "42"
    ));
}

#[test]
fn summary_counts_the_transaction() {
    let mut session = built_session();
    session.execute_transaction(&transaction(0x10, &[7], false)).unwrap();
    let summary: serde_json::Value = serde_json::from_str(&session.finalize().unwrap()).unwrap();
    assert_eq!(summary["session_status"], "Executed");
    assert_eq!(summary["context_count"], 3);
    assert_eq!(summary["event_count"], 19);
    assert_eq!(summary["context_switches"], 4);
    assert_eq!(summary["accounts"], 1);
    assert_eq!(summary["notes"], 3);
    assert_eq!(summary["kernel_calls"].as_array().unwrap().len(), 4);
    assert_eq!(summary["kernel_calls"][0], "#sys::prologue");
    assert_eq!(summary.as_object().unwrap().len(), 7);
}

#[test]
fn script_is_called_where_there_is_one() {
    for script in [false, true] {
        let mut session = built_session();
        session.execute_transaction(&transaction(0x10, &[6, 7, 5], script)).unwrap();
        let mut names: Vec<String> = Vec::new();
        for event in session.trace_events() {
            if let TraceEvent::Call { function_name, .. } = event {
                names.push(function_name.clone());
            }
        }
        assert_eq!(names.first().map(String::as_str), Some("#sys::prologue"));
        assert_eq!(names.last().map(String::as_str), Some("#sys::epilogue"));
        assert_eq!(names.iter().any(|name| name == "tx_script::main"), script);
        assert_eq!(names.len(), if script { 11 } else { 10 });
    }
}

#[test]
fn accounts_and_notes_stay_through_the_life_of_a_chain() {
    let mut chain = MockChainBuilder::new()
        .add_existing_wallet(wallet(1))
        .add_existing_wallet(wallet(2))
        .add_existing_wallet(wallet(1))
        .add_output_note(output(5))
        .add_output_note(output(6))
        .build();
    assert_eq!(chain.account_count(), 2);
    let consume = |notes: &[u64]| TransactionRecord {
        account_id: AccountId(3),
        consumed_notes: notes.iter().map(|n| NoteId(*n)).collect(),
        success: true,
    };
    chain.record_transaction(consume(&[6]));
    chain.produce_block();
    chain.record_transaction(consume(&[]));
    chain.record_transaction(consume(&[99]));
    assert_eq!(chain.account_count(), 2);
    assert!(chain.has_account(&AccountId(1)) && chain.has_account(&AccountId(2)));
    assert!(!chain.has_account(&AccountId(3)));
    assert!(!chain.get_note(&NoteId(5)).unwrap().consumed);
    let note = chain.get_note(&NoteId(6)).unwrap();
    assert!(note.consumed);
    assert_eq!(note.sender, AccountId(1));
    assert_eq!(note.note_type, NoteType::Encrypted);
    assert!(chain.get_note(&NoteId(99)).is_none());
    assert_eq!(chain.config.wallets.len(), 3);
    assert_eq!(chain.config.output_notes.len(), 2);
}

#[test]
fn session_keeps_the_configuration_of_its_chain() {
    let mut session = built_session();
    assert_eq!(session.chain().unwrap().config.wallets[0].id, AccountId(0x10));
    session.execute_transaction(&transaction(0x10, &[5], true)).unwrap();
    let config = &session.chain().unwrap().config;
    assert_eq!(config.wallets.len(), 1);
    assert_eq!(config.output_notes.len(), 3);
    assert_eq!(config.output_notes[2].id, NoteId(7));
}

#[test]
fn session_moves_on_step_by_step() {
    let mut session = ContractTraceSession::new(
        MockChainConfig { wallets: vec![wallet(0x10)], ..Default::default() },
        PathBuf::from("out"),
    );
    let mut seen = vec![session.status().clone()];
    for _ in 0..3 {
        session.complete();
        seen.push(session.status().clone());
        let _ = session.execute_transaction(&transaction(0x10, &[], false));
        seen.push(session.status().clone());
        let _ = session.build_chain();
        seen.push(session.status().clone());
    }
    assert_eq!(
        seen,
        vec![
            SessionStatus::Created,
            SessionStatus::Created,
            SessionStatus::Created,
            SessionStatus::ChainBuilt,
            SessionStatus::ChainBuilt,
            SessionStatus::Executed,
            SessionStatus::Executed,
            SessionStatus::Completed,
            SessionStatus::Completed,
            SessionStatus::Completed,
        ]
    );
}
