//! Verified core of a read-only cgroup v2 inspector: parsers for the
//! cgroup stat and pressure files, counter deltas between snapshots, the
//! cgroup tree model, and the ranking and filtering behind the tools.

pub mod text;
pub mod collector;
pub mod sort;
pub mod mcp;
