//! `get_unit_stats`: every stat file of one cgroup, grouped by controller.

use crate::collector::pressure::Pressure;
use crate::collector::resource_stats::ResourceStats;
use crate::collector::stats::{CpuStat, IoDeviceStat, MemoryEvents, MemoryStat};
use vstd::prelude::*;

verus! {

/// What the caller asks for.
#[derive(Clone, Debug)]
pub struct GetUnitStatsParams {
    /// The cgroup, relative to the cgroup root; empty for the root.
    pub path: String,
}

/// CPU accounting and pressure.
#[derive(Clone, Debug)]
pub struct CpuSection {
    pub stat: Option<CpuStat>,
    pub pressure: Option<Pressure>,
}

/// Memory accounting, events and pressure.
#[derive(Clone, Debug)]
pub struct MemorySection {
    pub current_bytes: Option<u64>,
    pub stat: Option<MemoryStat>,
    pub events: Option<MemoryEvents>,
    pub pressure: Option<Pressure>,
}

/// IO accounting, per device, and pressure.
#[derive(Clone, Debug)]
pub struct IoSection {
    pub stat: Option<Vec<IoDeviceStat>>,
    pub pressure: Option<Pressure>,
}

/// The answer.
#[derive(Clone, Debug)]
pub struct GetUnitStatsResponse {
    /// The cgroup, as asked.
    pub path: String,
    pub cpu: CpuSection,
    pub memory: MemorySection,
    pub io: IoSection,
}

/// Groups the stat files `raw` of the cgroup asked for by controller.
pub fn run(params: GetUnitStatsParams, raw: ResourceStats) -> (r: GetUnitStatsResponse)
    ensures
        r.path == params.path,
        r.cpu.stat == raw.cpu_stat,
        r.cpu.pressure == raw.cpu_pressure,
        r.memory.current_bytes == raw.memory_current,
        r.memory.stat == raw.memory_stat,
        r.memory.events == raw.memory_events,
        r.memory.pressure == raw.memory_pressure,
        r.io.stat == raw.io_stat,
        r.io.pressure == raw.io_pressure,
{
    GetUnitStatsResponse {
        path: params.path,
        cpu: CpuSection { stat: raw.cpu_stat, pressure: raw.cpu_pressure },
        memory: MemorySection {
            current_bytes: raw.memory_current,
            stat: raw.memory_stat,
            events: raw.memory_events,
            pressure: raw.memory_pressure,
        },
        io: IoSection { stat: raw.io_stat, pressure: raw.io_pressure },
    }
}

} // verus!
