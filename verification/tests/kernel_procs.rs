//! Kernel procedures.

use codetracer_miden_recorder::kernel_procs::is_kernel_procedure;
use codetracer_miden_recorder::kernel_procs::kernel_proc_info;
use codetracer_miden_recorder::kernel_procs::procedure_display_name;
use codetracer_miden_recorder::kernel_procs::KERNEL_PREFIXES;

#[test]
fn test_is_kernel_procedure_known_prefixes() {
    assert!(is_kernel_procedure("miden::kernel::account_vault_add_asset"));
    assert!(is_kernel_procedure("miden::kernel::get_account_id"));
    assert!(is_kernel_procedure("kernel::some_proc"));
    assert!(is_kernel_procedure("miden::account::get_id"));
    assert!(is_kernel_procedure("miden::note::get_inputs"));
    assert!(is_kernel_procedure("miden::tx::get_block_number"));
    assert!(is_kernel_procedure("miden::asset::build_fungible_asset"));
    assert!(is_kernel_procedure("miden::faucet::mint"));
    assert!(is_kernel_procedure("miden::sat::internal::something"));
    assert!(is_kernel_procedure("#sys::prologue"));
    assert!(is_kernel_procedure("#kernel::some_proc"));
}

#[test]
fn test_is_kernel_procedure_user_procs() {
    assert!(!is_kernel_procedure("my_contract::transfer"));
    assert!(!is_kernel_procedure("compute"));
    assert!(!is_kernel_procedure("#exec::compute"));
    assert!(!is_kernel_procedure("std::math::u64::add"));
    assert!(!is_kernel_procedure(""));
}

#[test]
fn test_kernel_proc_info_extraction() {
    let info = kernel_proc_info("miden::kernel::account_vault_add_asset").unwrap();
    assert_eq!(info.name, "miden::kernel::account_vault_add_asset");
    assert_eq!(info.short_name, "account_vault_add_asset");
    assert!(!info.is_prologue);

    let info = kernel_proc_info("#sys::prologue").unwrap();
    assert_eq!(info.short_name, "prologue");
    assert!(info.is_prologue);

    assert!(kernel_proc_info("my_contract::transfer").is_none());
}

#[test]
fn test_procedure_display_name() {
    assert_eq!(
        procedure_display_name("miden::kernel::get_account_id"),
        "[kernel] get_account_id"
    );
    assert_eq!(
        procedure_display_name("#sys::prologue"),
        "[kernel:setup] prologue"
    );
    assert_eq!(
        procedure_display_name("my_contract::transfer"),
        "my_contract::transfer"
    );
}

#[test]
fn setup_is_told_by_the_short_name_or_the_namespace() {
    assert!(kernel_proc_info("miden::kernel::run_epilogue_x").unwrap().is_prologue);
    assert!(kernel_proc_info("#sys::other").unwrap().is_prologue);
    assert!(!kernel_proc_info("kernel::prologue::inner").unwrap().is_prologue);
    assert_eq!(procedure_display_name("#sys::other"), "[kernel:setup] other");
    assert_eq!(procedure_display_name("kernel::"), "[kernel] ");
    assert_eq!(procedure_display_name("kernel::a::::b"), "[kernel] b");
    assert_eq!(procedure_display_name("miden::kernel"), "miden::kernel");
}

#[test]
fn every_namespace_of_the_kernel_is_told() {
    assert_eq!(KERNEL_PREFIXES.len(), 10);
    assert_eq!(KERNEL_PREFIXES[0], "miden::kernel::");
    assert_eq!(KERNEL_PREFIXES[9], "#kernel::");
    for prefix in KERNEL_PREFIXES {
        assert!(is_kernel_procedure(prefix));
        assert!(is_kernel_procedure(&format!("{prefix}anything")));
        assert!(!is_kernel_procedure(&format!("x{prefix}")));
        assert!(!is_kernel_procedure(&prefix[..prefix.len() - 1]));
    }
}
