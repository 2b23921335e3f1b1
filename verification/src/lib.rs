//! Recording of Miden VM executions as traces.

pub mod cli;
pub mod client_replay;
pub mod json;
pub mod kernel_procs;
pub mod list;
pub mod mockchain;
pub mod number;
pub mod path;
pub mod sample_program;
pub mod source_map;
pub mod table;
pub mod text;
pub mod text_laws;
pub mod tracer;
