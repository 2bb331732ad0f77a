//! The logic behind the tools: path checks, the cgroups a tool looks at,
//! and how their readings are filtered and ranked.

pub mod util;
pub mod tools;
