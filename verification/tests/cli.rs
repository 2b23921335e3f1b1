//! What the command line decides, and the sample computation.

use std::path::PathBuf;

use codetracer_miden_recorder::cli::contract_config;
use codetracer_miden_recorder::cli::contract_transaction;
use codetracer_miden_recorder::cli::parse_hex_id;
use codetracer_miden_recorder::cli::recording_disabled;
use codetracer_miden_recorder::cli::resolve_out_dir;
use codetracer_miden_recorder::mockchain::AccountId;
use codetracer_miden_recorder::mockchain::ContractTraceSession;
use codetracer_miden_recorder::mockchain::NoteId;
use codetracer_miden_recorder::mockchain::NoteType;
use codetracer_miden_recorder::sample_program::compute;
use codetracer_miden_recorder::sample_program::double;

#[test]
fn ids_are_hexadecimal() {
    assert_eq!(parse_hex_id("0x1000"), Ok(0x1000));
    assert_eq!(parse_hex_id("1000"), Ok(0x1000));
    assert_eq!(parse_hex_id("0xFfFf"), Ok(0xffff));
    assert_eq!(parse_hex_id("ffffffffffffffff"), Ok(u64::MAX));
    assert_eq!(parse_hex_id("10000000000000000").unwrap_err(), "invalid hex: 10000000000000000");
    assert_eq!(parse_hex_id("0xzz").unwrap_err(), "invalid hex: zz");
    assert_eq!(parse_hex_id("0x0x1").unwrap_err(), "invalid hex: 0x1");
    assert_eq!(parse_hex_id("0X1").unwrap_err(), "invalid hex: 0X1");
    assert_eq!(parse_hex_id("").unwrap_err(), "invalid hex: ");
}

#[test]
fn recording_is_disabled_by_one_or_true() {
    for value in ["1", "true", "TRUE", " TrUe\n", "\t1 "] {
        assert!(recording_disabled(Some(value)));
    }
    for value in ["", "0", "yes", "11", "true1", "t rue"] {
        assert!(!recording_disabled(Some(value)));
    }
    assert!(!recording_disabled(None));
}

#[test]
fn given_directory_wins() {
    let a = || Some(PathBuf::from("a"));
    let b = || Some(PathBuf::from("b"));
    let empty = || Some(PathBuf::from(""));
    assert_eq!(resolve_out_dir(a(), b()), PathBuf::from("a"));
    assert_eq!(resolve_out_dir(empty(), b()), PathBuf::from(""));
    assert_eq!(resolve_out_dir(None, b()), PathBuf::from("b"));
    assert_eq!(resolve_out_dir(None, empty()), PathBuf::from("./ct-traces/"));
    assert_eq!(resolve_out_dir(None, None), PathBuf::from("./ct-traces/"));
}

#[test]
fn sample_contract_runs() {
    for (wallet, faucet) in [(0x1000, 0x2000), (7, 7)] {
        let config = contract_config(wallet, faucet, "TEST");
        assert_eq!(config.faucets[0].symbol, "TEST");
        assert_eq!(config.faucets[0].max_supply, 1_000_000);
        assert_eq!(config.p2id_notes[0].assets.fungible[0].amount, 100);
        assert_eq!(config.p2id_notes[0].receiver, AccountId(wallet));
        assert_eq!(config.p2id_notes[0].note_type, NoteType::Public);
        let mut session = ContractTraceSession::new(config, PathBuf::from("out"));
        session.build_chain().unwrap();
        let tx = contract_transaction(wallet, true);
        assert!(tx.debug_mode && tx.tx_script.is_none());
        session.execute_transaction(&tx).unwrap();
        assert!(session.chain().unwrap().get_note(&NoteId(1)).unwrap().consumed);
        session.finalize().unwrap();
    }
}

#[test]
fn sample_computation() {
    assert_eq!(double(42), 84);
    assert_eq!(compute(), 94);
}

#[test]
fn shown_ids_read_back() {
    for id in [0, 1, 0x1000, 0xdead_beef, u64::MAX] {
        assert_eq!(parse_hex_id(&AccountId(id).to_string()), Ok(id));
    }
}
