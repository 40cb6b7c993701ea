//! Process trees built from snapshots of a process table.
//!
//! A snapshot is a sequence of records `(pid, parent_pid, name)`. From a root
//! pid and a snapshot the library builds the tree of the root's descendants:
//! in one go from one snapshot (`get_process_tree`), or node by node from a
//! fresh snapshot for each node (`TreeWalk`). It never reads the operating
//! system itself: a caller takes the snapshots and hands them in as plain
//! values.

pub mod descent;
pub mod laws;
pub mod name;
pub mod node;
pub mod record;
pub mod tree;
pub mod walk;
pub mod walk_laws;

pub use descent::descends_finitely;
pub use name::widestring_to_string;
pub use node::{JsProcessNode, ProcessNode, Tree};
pub use record::{children_of, ProcessRecord, Record};
pub use tree::{build_process_tree, get_process_name, get_process_tree};
pub use walk::TreeWalk;
