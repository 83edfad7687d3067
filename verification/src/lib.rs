//! Filtered directory traversal: walk a root path with either an
//! ignore-rule-aware or a plain strategy, filter the entries by type, name
//! and depth, and return the survivors as plain records.

pub mod engine;
pub mod filter;
pub mod fsio;
pub mod options;
pub mod text;

pub use engine::find_files;
pub use options::FindOptions;
pub use options::FindResult;
