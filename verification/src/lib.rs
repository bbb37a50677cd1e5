//! Dependee analysis for Python import graphs: which modules are affected
//! when some modules, or some of their top-level symbols, change.
pub mod text;
pub mod strs;
pub mod reach;
pub mod symbols;
pub mod pyast;
pub mod imports;
pub mod paths;
pub mod graph;
pub mod targets;
pub mod cache;
pub mod refs;
pub mod usage;
pub mod buildfiles;
pub mod roots;
pub mod git;
pub mod explain;
pub mod reasons;
pub mod hashes;
pub mod report;
