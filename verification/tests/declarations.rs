//! What a program's source declares: inputs, kernel, procedures and calls.

use codetracer_miden_recorder::tracer::bare_proc_name;
use codetracer_miden_recorder::tracer::build_parent_map;
use codetracer_miden_recorder::tracer::chain_from_main;
use codetracer_miden_recorder::tracer::is_adv_loadw;
use codetracer_miden_recorder::tracer::is_word_load;
use codetracer_miden_recorder::tracer::merkle_tree_root_felts;
use codetracer_miden_recorder::tracer::parse_adv_push_count;
use codetracer_miden_recorder::tracer::parse_advice_map;
use codetracer_miden_recorder::tracer::parse_advice_stack;
use codetracer_miden_recorder::tracer::parse_call_graph;
use codetracer_miden_recorder::tracer::parse_call_kinds;
use codetracer_miden_recorder::tracer::parse_kernel_module;
use codetracer_miden_recorder::tracer::parse_loc_store;
use codetracer_miden_recorder::tracer::parse_merkle_trees;
use codetracer_miden_recorder::tracer::parse_operand_stack;
use codetracer_miden_recorder::tracer::parse_proc_locals;
use codetracer_miden_recorder::tracer::CallKind;

const MODULUS: u64 = 0xffff_ffff_0000_0001;

#[test]
fn test_parse_loc_store() {
    assert_eq!(parse_loc_store("loc_store.0"), Some(0));
    assert_eq!(parse_loc_store("loc_store.3"), Some(3));
    assert_eq!(parse_loc_store("loc_store.42"), Some(42));
    assert_eq!(parse_loc_store("loc_load.0"), None);
    assert_eq!(parse_loc_store("push.10"), None);
    assert_eq!(parse_loc_store("add"), None);
}

#[test]
fn instruction_parameters() {
    assert_eq!(parse_loc_store("loc_store."), None);
    assert_eq!(parse_loc_store("loc_store.x"), None);
    assert_eq!(parse_loc_store("loc_store.4294967295"), Some(u32::MAX));
    assert_eq!(parse_loc_store("loc_store.4294967296"), None);
    assert_eq!(parse_loc_store("loc_store.+7"), Some(7));
    assert_eq!(parse_loc_store("loc_store.-7"), None);
    assert_eq!(parse_adv_push_count("adv_push.4"), Some(4));
    assert_eq!(parse_adv_push_count("adv_loadw"), None);
    assert!(is_adv_loadw("adv_loadw"));
    assert!(!is_adv_loadw("adv_loadw.1"));
    for op in ["mem_loadw", "mem_loadw.8", "loc_loadw", "loc_loadw.0"] {
        assert!(is_word_load(op));
    }
    for op in ["mem_load", "mem_loadwx", "loc_load.0", "", "adv_loadw"] {
        assert!(!is_word_load(op));
    }
}

#[test]
fn operand_stack_and_advice_map() {
    let source = "# operand_stack: 1, 2, 3\n# advice_map: 10 20 30 40 ; 100 200 300\n";
    assert_eq!(parse_operand_stack(source), vec![1u64, 2, 3]);
    assert_eq!(parse_advice_map(source), vec![([10u64, 20, 30, 40], vec![100u64, 200, 300])]);
    assert!(parse_advice_stack(source).is_empty());
}

#[test]
fn stack_values_are_literals_in_source_order() {
    let source = "  #advice_stack: 10, 0x14 ,, junk, 0X1E\r\nbegin\n\
                  # advice_stack:\n#  advice_stack:40,-1,0x,18446744073709551615,18446744073709551616\n\
                  # not advice_stack: 7\nadvice_stack: 8\n";
    assert_eq!(parse_advice_stack(source), vec![10, 20, 30, 40, u64::MAX]);
}

#[test]
fn values_may_be_spread_over_lines() {
    let first = "# operand_stack: 1, 2\n";
    let second = "push.1\n# operand_stack: 3";
    let mut all = parse_operand_stack(first);
    all.extend(parse_operand_stack(second));
    assert_eq!(parse_operand_stack(&format!("{first}{second}")), all);
    assert_eq!(all, vec![1, 2, 3]);
}

#[test]
fn stacks_are_read_line_by_line_and_alike() {
    for (first, second) in [
        ("# operand_stack: 1, 2", "# operand_stack: 3"),
        ("# operand_stack: 1,\n", "\n# operand_stack: 0x3,"),
        ("begin end # operand_stack: 9", "end"),
        ("", "# operand_stack: 4"),
    ] {
        let mut all = parse_operand_stack(first);
        all.extend(parse_operand_stack(second));
        assert_eq!(parse_operand_stack(&format!("{first}\n{second}")), all);
    }
    for values in ["1, 2, 0x10", "", " 7 ,, x, 8 ", "18446744073709551616"] {
        let operand = format!("# operand_stack: {values}");
        let advice = format!("# advice_stack: {values}");
        assert_eq!(parse_operand_stack(&operand), parse_advice_stack(&advice));
        assert!(parse_operand_stack(&advice).is_empty());
        assert!(parse_advice_stack(&operand).is_empty());
    }
    assert_eq!(parse_operand_stack("# operand_stack: 1, 2, 0x10"), vec![1, 2, 16]);
}

#[test]
fn advice_map_needs_four_key_elements() {
    let source = "# advice_map: 1 2 3 ; 4\n# advice_map: 1 2 3 4\n# advice_map: 1 2 3 4 5; 6\n\
                  # advice_map: 1 x 2 3 0x4 ; 5 y ; 6\n# advice_map: 9 9 9 9;\n";
    assert_eq!(
        parse_advice_map(source),
        vec![([1, 2, 3, 4], vec![5, 6]), ([9, 9, 9, 9], vec![])]
    );
}

#[test]
fn numbers_become_field_elements() {
    let source = format!("# advice_map: {MODULUS} 1 {} 3 ; {}\n", u64::MAX, MODULUS + 5);
    assert_eq!(parse_advice_map(&source), vec![([0, 1, 0xffff_fffe, 3], vec![5])]);
    let source = format!("# merkle_tree: {MODULUS} 0 0 0 ; 1 2 3 {}", MODULUS + 1);
    assert_eq!(parse_merkle_trees(&source), vec![vec![[0, 0, 0, 0], [1, 2, 3, 1]]]);
}

#[test]
fn merkle_trees_have_a_power_of_two_of_leaves() {
    let four = "# merkle_tree: 1 0 0 0 ; 2 0 0 0 ; 3 0 0 0 ; 4 0 0 0\n";
    let source = format!(
        "{four}# merkle_tree: 1 0 0 0\n# merkle_tree: 1 0 0 0 ; 2 0 0 0 ; 3 0 0 0\n\
         # merkle_tree: 5 5 5 5 ; 1 2 3 ; 6 6 6 6 ;\n# merkle_tree:\n"
    );
    assert_eq!(
        parse_merkle_trees(&source),
        vec![
            vec![[1, 0, 0, 0], [2, 0, 0, 0], [3, 0, 0, 0], [4, 0, 0, 0]],
            vec![[5, 5, 5, 5], [6, 6, 6, 6]],
        ]
    );
}

#[test]
fn merkle_roots_depend_on_the_leaves() {
    let a = vec![[1, 0, 0, 0], [2, 0, 0, 0], [3, 0, 0, 0], [4, 0, 0, 0]];
    let b = vec![[1, 0, 0, 0], [2, 0, 0, 0], [3, 0, 0, 0], [9, 0, 0, 0]];
    let root = merkle_tree_root_felts(&a).unwrap();
    assert_eq!(root, merkle_tree_root_felts(&a).unwrap());
    assert_ne!(root, merkle_tree_root_felts(&b).unwrap());
    assert_ne!(root, a[0]);
    assert!(root.iter().all(|e| *e < MODULUS));
    for n in [0usize, 1, 3, 6] {
        let error = merkle_tree_root_felts(&vec![[1, 2, 3, 4]; n]).unwrap_err();
        assert!(error.starts_with("merkle_tree_root_felts: invalid leaves: "), "{error}");
    }
}

#[test]
fn kernel_module_is_the_text_behind_the_marks() {
    let source = "# kernel_module:\n# > export.kernel_proc\n# >     push.42\n# > end\nbegin\nend\n";
    assert_eq!(
        parse_kernel_module(source).as_deref(),
        Some("export.kernel_proc\n    push.42\nend")
    );
    let source = "#  kernel_module: \n#>export.a\n#   > end\n# >\n# > export.b\n#> end\n# no\n# > x";
    assert_eq!(parse_kernel_module(source).as_deref(), Some("export.a\nend\n\nexport.b\nend"));
}

#[test]
fn kernel_module_may_be_absent_or_empty() {
    assert_eq!(parse_kernel_module(""), None);
    assert_eq!(parse_kernel_module("begin end\n# > export.a"), None);
    assert_eq!(parse_kernel_module("# kernel_module:"), None);
    assert_eq!(parse_kernel_module("# kernel_module:\nbegin\n# > a"), None);
    let second = "# kernel_module:\nbegin\n# kernel_module:\n# > a";
    assert_eq!(parse_kernel_module(second).as_deref(), Some("a"));
    let repeated = "# kernel_module:\n# kernel_module:\n# > a";
    assert_eq!(parse_kernel_module(repeated).as_deref(), Some("a"));
}

#[test]
fn kernel_module_keeps_its_blank_lines() {
    let blank = "# kernel_module:\n# >\n# > end";
    assert_eq!(parse_kernel_module(blank).as_deref(), Some("\nend"));
    assert_eq!(parse_kernel_module("# kernel_module:\n# >").as_deref(), Some(""));
    assert_eq!(parse_kernel_module("# kernel_module:\n# >\n# >\n# >").as_deref(), Some("\n\n"));
    let ended = "# kernel_module:\n# > a\n# >\nbegin\n# > b";
    assert_eq!(parse_kernel_module(ended).as_deref(), Some("a\n"));
}

#[test]
fn call_kinds_are_told_apart() {
    let source = "proc.kernel_stub.0\nsyscall.foo\nend\nbegin\nexec.kernel_stub\nend\n";
    let kinds = parse_call_kinds(source);
    assert_eq!(kinds.kind("kernel_stub", "foo"), Some(CallKind::SysCall));
    assert_eq!(kinds.kind("#main", "kernel_stub"), Some(CallKind::Exec));
    assert_eq!(kinds.kind("#main", "foo"), None);
    assert_eq!(kinds.kind("foo", "bar"), None);
    assert!(kinds.has_caller("kernel_stub") && kinds.has_caller("#main"));
    assert!(!kinds.has_caller("foo"));
    assert_eq!(CallKind::Exec.as_tag(), "Exec");
    assert_eq!(CallKind::Call.as_tag(), "Call");
    assert_eq!(CallKind::SysCall.as_tag(), "SysCall");
}

const CALLS: &str = "use.std::sys\n\
    export.leaf.2 # exec.not_this\n    add\nend\n\
    proc.mid\n    push.1 call.lib::path::leaf exec.leaf # exec.nor_this\nend\n\
    exec.outside\n\
    begin\n    exec.mid\n    if.true\n        exec.leaf2\n    end\n    exec.after\nend\n";

#[test]
fn graph_and_kinds_agree() {
    let kinds = parse_call_kinds(CALLS);
    let graph = parse_call_graph(CALLS);
    let names = ["leaf", "mid", "#main", "leaf2", "after", "outside", "not_this", "nor_this"];
    for caller in names {
        for callee in names {
            assert_eq!(graph.invokes(caller, callee), kinds.kind(caller, callee).is_some());
        }
    }
    assert_eq!(kinds.kind("mid", "leaf"), Some(CallKind::Exec));
    assert!(graph.invokes("#main", "mid") && graph.invokes("#main", "leaf2"));
    assert!(graph.invokes("#main", "after"));
    assert!(!graph.invokes("mid", "outside") && !graph.invokes("#main", "outside"));
}

#[test]
fn blocks_do_not_end_the_body() {
    let source = "proc.f.0\nif.true\nexec.a\nend\nexec.b\nend\n";
    let graph = parse_call_graph(source);
    assert!(graph.invokes("f", "a") && graph.invokes("f", "b"));
    assert!(!graph.invokes("f", "f") && !graph.invokes("#main", "b"));
    let source = "export.g.1 while.true repeat.3 exec.a end\n if.true exec.b else call.c end\n\
                  end exec.d end exec.e\nbegin syscall.h end exec.i\n";
    let kinds = parse_call_kinds(source);
    for callee in ["a", "b", "d"] {
        assert_eq!(kinds.kind("g", callee), Some(CallKind::Exec), "{callee}");
    }
    assert_eq!(kinds.kind("g", "c"), Some(CallKind::Call));
    assert_eq!(kinds.kind("g", "e"), None);
    assert_eq!(kinds.kind("#main", "h"), Some(CallKind::SysCall));
    assert_eq!(kinds.kind("#main", "i"), None);
    let parents = build_parent_map(&parse_call_graph(
        "proc.leaf.0\nadd\nend\nproc.mid.0\nif.true\nadd\nend\nexec.leaf\nend\nbegin\nexec.mid\nend\n",
    ));
    assert_eq!(chain_from_main(&parents, "leaf").unwrap(), vec!["#main", "mid", "leaf"]);
}

#[test]
fn locals_are_declared_with_the_procedure() {
    let source = "proc.a.5\nexport.b.0\nproc.c\nproc.a.7\n  proc.d.2.x\nproc.e.65536\nprocs.f.1\n\
                  proc.g.1 # note\n";
    let locals = parse_proc_locals(source);
    let rows: Vec<(String, u16)> = (0..locals.len())
        .map(|i| (locals.name_at(i).clone(), *locals.value_at(i)))
        .collect();
    assert_eq!(rows, vec![("a".to_string(), 7), ("b".to_string(), 0), ("d".to_string(), 2)]);
    assert_eq!(locals.get("a"), Some(&7));
    assert_eq!(locals.get("c"), None);
}

#[test]
fn bare_names_are_last_segments() {
    assert_eq!(bare_proc_name("#exec::compute"), "compute");
    assert_eq!(bare_proc_name("#exec::#main"), "#main");
    assert_eq!(bare_proc_name("std::math::u64::add"), "add");
    assert_eq!(bare_proc_name("plain"), "plain");
    assert_eq!(bare_proc_name("a:::b"), "b");
    assert_eq!(bare_proc_name("a::"), "");
}

#[test]
fn chains_lead_from_main_to_the_leaf() {
    let source = "proc.inner.0\nadd\nend\nproc.middle.0\nexec.inner\nend\nproc.outer.0\nexec.middle\nend\n\
                  proc.compute.0\nexec.outer\nend\nbegin\nexec.compute\nend\n";
    let parents = build_parent_map(&parse_call_graph(source));
    assert_eq!(
        chain_from_main(&parents, "inner").unwrap(),
        vec!["#main", "compute", "outer", "middle", "inner"]
    );
    assert_eq!(chain_from_main(&parents, "compute").unwrap(), vec!["#main", "compute"]);
    assert_eq!(chain_from_main(&parents, "#main"), None);
    assert_eq!(parents.parent("middle").as_deref(), Some("outer"));
}

#[test]
fn chains_stop_where_they_are_ambiguous() {
    let source = "proc.a\nexec.x\nexec.y\nend\nproc.b\nexec.x\nend\nproc.loop\nexec.loop\nend\n\
                  begin\nexec.a\nexec.b\nend\n";
    let parents = build_parent_map(&parse_call_graph(source));
    assert_eq!(chain_from_main(&parents, "x"), None);
    assert_eq!(chain_from_main(&parents, "y").unwrap(), vec!["#main", "a", "y"]);
    assert_eq!(chain_from_main(&parents, "loop"), None);
    assert_eq!(chain_from_main(&parents, "unknown"), None);
    assert_eq!(parents.parent("x"), None);
}

#[test]
fn chains_have_a_longest_length() {
    let mut source = String::from("begin\nexec.p0\nend\n");
    for i in 0..300 {
        source.push_str(&format!("proc.p{i}\nexec.p{}\nend\n", i + 1));
    }
    let parents = build_parent_map(&parse_call_graph(&source));
    assert_eq!(chain_from_main(&parents, "p255").unwrap().len(), 257);
    assert_eq!(chain_from_main(&parents, "p256"), None);
}
