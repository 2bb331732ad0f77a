//! One module per tool.

pub mod top_memory;
pub mod recent_oom_events;
pub mod top_cpu;
pub mod top_io;
pub mod get_pressure;
pub mod get_unit_stats;
