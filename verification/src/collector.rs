//! Readers of the cgroup v2 interface files, as pure functions of the text.

pub mod error;
pub mod stats;
pub mod pressure;
pub mod rate;
pub mod tree;
pub mod resource_stats;
