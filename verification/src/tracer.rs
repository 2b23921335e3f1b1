//! Tracing of a Miden program: what its source declares, how its VM states
//! become trace operations.

pub mod acceptance;
pub mod bodies;
pub mod call_graph;
pub mod constants;
pub mod declarations;
pub mod inputs;
pub mod laws;
pub mod machine;
pub mod model;
pub mod nesting;
pub mod operands;
pub mod ops;
pub mod program;
pub mod showing;
pub mod staging;
pub mod stepping;
pub mod syntax;
pub mod tokens;
pub mod tree;
pub mod vm;

pub use call_graph::bare_proc_name;
pub use call_graph::build_parent_map;
pub use call_graph::chain_from_main;
pub use call_graph::parse_call_graph;
pub use call_graph::parse_call_kinds;
pub use call_graph::parse_proc_locals;
pub use call_graph::CallGraph;
pub use call_graph::CallKind;
pub use call_graph::CallKinds;
pub use call_graph::ParentMap;
pub use declarations::merkle_tree_root_felts;
pub use declarations::parse_advice_map;
pub use declarations::parse_advice_stack;
pub use declarations::parse_kernel_module;
pub use declarations::parse_merkle_trees;
pub use declarations::parse_operand_stack;
pub use machine::MidenTracer;
pub use model::EventKind;
pub use model::TraceOp;
pub use ops::is_adv_loadw;
pub use ops::is_word_load;
pub use ops::parse_adv_push_count;
pub use ops::parse_loc_store;
