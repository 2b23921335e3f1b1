//! Byte offsets and line numbers.

use std::path::PathBuf;

use codetracer_miden_recorder::source_map::SourceMap;

#[test]
fn test_byte_to_line_simple() {
    let source = "line1\nline2\nline3\n";
    let sm = SourceMap::from_source(&PathBuf::from("test.masm"), source);
    // "line1\n" occupies bytes 0..6
    assert_eq!(sm.byte_to_line(0), 1); // start of line 1
    assert_eq!(sm.byte_to_line(3), 1); // middle of line 1
    assert_eq!(sm.byte_to_line(6), 2); // start of line 2
    assert_eq!(sm.byte_to_line(12), 3); // start of line 3
}

#[test]
fn test_byte_to_line_compute_masm() {
    let source = "proc.compute.5\n    push.10 loc_store.0\n    push.32 loc_store.1\n    loc_load.0 loc_load.1 add loc_store.2\n    loc_load.2 dup add loc_store.3\n    loc_load.3 loc_load.0 add loc_store.4\nend\n\nbegin\n    exec.compute\nend\n";
    let sm = SourceMap::from_source(&PathBuf::from("compute.masm"), source);
    assert_eq!(sm.byte_to_line(0), 1); // "proc.compute.5"
    assert_eq!(sm.byte_to_line(15), 2); // "    push.10 ..."
}

#[test]
fn lines_begin_behind_line_feeds() {
    let sm = SourceMap::from_source(&PathBuf::from("dir/a.masm"), "\nab\n\n\u{e9}\nx");
    let lines: Vec<u32> = (0..12).map(|offset| sm.byte_to_line(offset)).collect();
    assert_eq!(lines, vec![1, 2, 2, 2, 3, 4, 4, 4, 5, 5, 5, 5]);
    assert_eq!(sm.byte_to_line(u32::MAX), 5);
    assert_eq!(sm.path(), &PathBuf::from("dir/a.masm"));
    assert_eq!(sm.source_code(), "\nab\n\n\u{e9}\nx");
}

#[test]
fn empty_source_has_one_line() {
    let sm = SourceMap::from_source(&PathBuf::from("a"), "");
    assert_eq!(sm.byte_to_line(0), 1);
    assert_eq!(sm.byte_to_line(100), 1);
}
