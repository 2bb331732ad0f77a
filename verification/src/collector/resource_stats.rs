//! The bundle of every stat and pressure file of one cgroup.

use crate::collector::error::{optional_read, FileRead, KvFile, ReadError, ReadErrorView};
use crate::collector::pressure::{parse_pressure, pressure_text, Pressure, PressureView};
use crate::collector::stats::{
    cpu_stat_text, io_stat_text, kv_text,
    memory_current_text, memory_events_text, parse_cpu_stat, parse_io_stat, parse_memory_current,
    parse_memory_events, parse_memory_stat, CpuStat, IoDeviceStat, MemoryEvents, MemoryStat,
};
use vstd::prelude::*;

verus! {

/// The stat files of one cgroup. A file that does not exist is `None`:
/// controllers may be disabled, and the root lacks some files.
#[derive(Clone, Debug, PartialEq)]
pub struct ResourceStats {
    pub cpu_stat: Option<CpuStat>,
    pub cpu_pressure: Option<Pressure>,
    pub memory_current: Option<u64>,
    pub memory_stat: Option<MemoryStat>,
    pub memory_events: Option<MemoryEvents>,
    pub memory_pressure: Option<Pressure>,
    pub io_stat: Option<Vec<IoDeviceStat>>,
    pub io_pressure: Option<Pressure>,
}

pub struct ResourceStatsView {
    pub cpu_stat: Option<CpuStat>,
    pub cpu_pressure: Option<PressureView>,
    pub memory_current: Option<u64>,
    pub memory_stat: Option<Map<Seq<char>, u64>>,
    pub memory_events: Option<MemoryEvents>,
    pub memory_pressure: Option<PressureView>,
    pub io_stat: Option<Seq<IoDeviceStat>>,
    pub io_pressure: Option<PressureView>,
}

pub open spec fn pressure_opt_view(o: Option<Pressure>) -> Option<PressureView> {
    match o {
        Some(p) => Some(p@),
        None => None,
    }
}

impl View for ResourceStats {
    type V = ResourceStatsView;

    open spec fn view(&self) -> ResourceStatsView {
        ResourceStatsView {
            cpu_stat: self.cpu_stat,
            cpu_pressure: pressure_opt_view(self.cpu_pressure),
            memory_current: self.memory_current,
            memory_stat: match self.memory_stat {
                Some(m) => Some(m@),
                None => None,
            },
            memory_events: self.memory_events,
            memory_pressure: pressure_opt_view(self.memory_pressure),
            io_stat: match self.io_stat {
                Some(v) => Some(v@),
                None => None,
            },
            io_pressure: pressure_opt_view(self.io_pressure),
        }
    }
}

/// What reading each stat file of one cgroup gave.
#[derive(Clone, Debug)]
pub struct ResourceFiles {
    pub cpu_stat: FileRead,
    pub cpu_pressure: FileRead,
    pub memory_current: FileRead,
    pub memory_stat: FileRead,
    pub memory_events: FileRead,
    pub memory_pressure: FileRead,
    pub io_stat: FileRead,
    pub io_pressure: FileRead,
}

/// The bundle that the reads `f` give, or the first error among them in
/// the order of the fields: a missing file is `None`; a file that could
/// not be read or does not parse is an error.
pub open spec fn resource_stats_of(f: ResourceFiles) -> Result<ResourceStatsView, ReadErrorView> {
    match optional_read(f.cpu_stat@, |s: Seq<char>| cpu_stat_text(s)) {
        Err(e) => Err(e),
        Ok(cpu_stat) => match optional_read(f.cpu_pressure@, |s: Seq<char>| pressure_text(s)) {
            Err(e) => Err(e),
            Ok(cpu_pressure) => match optional_read(
                f.memory_current@,
                |s: Seq<char>| memory_current_text(s),
            ) {
                Err(e) => Err(e),
                Ok(memory_current) => match optional_read(
                    f.memory_stat@,
                    |s: Seq<char>| kv_text(KvFile::MemoryStat, s),
                ) {
                    Err(e) => Err(e),
                    Ok(memory_stat) => match optional_read(
                        f.memory_events@,
                        |s: Seq<char>| memory_events_text(s),
                    ) {
                        Err(e) => Err(e),
                        Ok(memory_events) => match optional_read(
                            f.memory_pressure@,
                            |s: Seq<char>| pressure_text(s),
                        ) {
                            Err(e) => Err(e),
                            Ok(memory_pressure) => match optional_read(
                                f.io_stat@,
                                |s: Seq<char>| io_stat_text(s),
                            ) {
                                Err(e) => Err(e),
                                Ok(io_stat) => match optional_read(
                                    f.io_pressure@,
                                    |s: Seq<char>| pressure_text(s),
                                ) {
                                    Err(e) => Err(e),
                                    Ok(io_pressure) => Ok(
                                        ResourceStatsView {
                                            cpu_stat,
                                            cpu_pressure,
                                            memory_current,
                                            memory_stat,
                                            memory_events,
                                            memory_pressure,
                                            io_stat,
                                            io_pressure,
                                        },
                                    ),
                                },
                            },
                        },
                    },
                },
            },
        },
    }
}

fn opt_cpu_stat(f: &FileRead) -> (r: Result<Option<CpuStat>, ReadError>)
    ensures
        match r {
            Ok(v) => optional_read(f@, |s: Seq<char>| cpu_stat_text(s)) == Ok::<
                Option<CpuStat>,
                ReadErrorView,
            >(v),
            Err(e) => optional_read(f@, |s: Seq<char>| cpu_stat_text(s)) == Err::<
                Option<CpuStat>,
                ReadErrorView,
            >(e@),
        },
{
    match f {
        FileRead::Missing => Ok(None),
        FileRead::Failed(m) => Err(ReadError::Io(m.clone())),
        FileRead::Contents(s) => match parse_cpu_stat(s.as_str()) {
            Ok(v) => Ok(Some(v)),
            Err(e) => Err(ReadError::Parse(e)),
        },
    }
}

/// A pressure file that may not exist.
pub fn optional_pressure(f: &FileRead) -> (r: Result<Option<Pressure>, ReadError>)
    ensures
        match r {
            Ok(v) => optional_read(f@, |s: Seq<char>| pressure_text(s)) == Ok::<
                Option<PressureView>,
                ReadErrorView,
            >(pressure_opt_view(v)),
            Err(e) => optional_read(f@, |s: Seq<char>| pressure_text(s)) == Err::<
                Option<PressureView>,
                ReadErrorView,
            >(e@),
        },
{
    match f {
        FileRead::Missing => Ok(None),
        FileRead::Failed(m) => Err(ReadError::Io(m.clone())),
        FileRead::Contents(s) => match parse_pressure(s.as_str()) {
            Ok(v) => Ok(Some(v)),
            Err(e) => Err(ReadError::Parse(e)),
        },
    }
}

fn opt_memory_current(f: &FileRead) -> (r: Result<Option<u64>, ReadError>)
    ensures
        match r {
            Ok(v) => optional_read(f@, |s: Seq<char>| memory_current_text(s)) == Ok::<
                Option<u64>,
                ReadErrorView,
            >(v),
            Err(e) => optional_read(f@, |s: Seq<char>| memory_current_text(s)) == Err::<
                Option<u64>,
                ReadErrorView,
            >(e@),
        },
{
    match f {
        FileRead::Missing => Ok(None),
        FileRead::Failed(m) => Err(ReadError::Io(m.clone())),
        FileRead::Contents(s) => match parse_memory_current(s.as_str()) {
            Ok(v) => Ok(Some(v)),
            Err(e) => Err(ReadError::Parse(e)),
        },
    }
}

fn opt_memory_stat(f: &FileRead) -> (r: Result<Option<MemoryStat>, ReadError>)
    ensures
        match r {
            Ok(v) => optional_read(f@, |s: Seq<char>| kv_text(KvFile::MemoryStat, s)) == Ok::<
                Option<Map<Seq<char>, u64>>,
                ReadErrorView,
            >(
                match v {
                    Some(m) => Some(m@),
                    None => None,
                },
            ) && (v matches Some(m) ==> m.wf()),
            Err(e) => optional_read(f@, |s: Seq<char>| kv_text(KvFile::MemoryStat, s)) == Err::<
                Option<Map<Seq<char>, u64>>,
                ReadErrorView,
            >(e@),
        },
{
    match f {
        FileRead::Missing => Ok(None),
        FileRead::Failed(m) => Err(ReadError::Io(m.clone())),
        FileRead::Contents(s) => match parse_memory_stat(s.as_str()) {
            Ok(v) => Ok(Some(v)),
            Err(e) => Err(ReadError::Parse(e)),
        },
    }
}

fn opt_memory_events(f: &FileRead) -> (r: Result<Option<MemoryEvents>, ReadError>)
    ensures
        match r {
            Ok(v) => optional_read(f@, |s: Seq<char>| memory_events_text(s)) == Ok::<
                Option<MemoryEvents>,
                ReadErrorView,
            >(v),
            Err(e) => optional_read(f@, |s: Seq<char>| memory_events_text(s)) == Err::<
                Option<MemoryEvents>,
                ReadErrorView,
            >(e@),
        },
{
    match f {
        FileRead::Missing => Ok(None),
        FileRead::Failed(m) => Err(ReadError::Io(m.clone())),
        FileRead::Contents(s) => match parse_memory_events(s.as_str()) {
            Ok(v) => Ok(Some(v)),
            Err(e) => Err(ReadError::Parse(e)),
        },
    }
}

fn opt_io_stat(f: &FileRead) -> (r: Result<Option<Vec<IoDeviceStat>>, ReadError>)
    ensures
        match r {
            Ok(v) => optional_read(f@, |s: Seq<char>| io_stat_text(s)) == Ok::<
                Option<Seq<IoDeviceStat>>,
                ReadErrorView,
            >(
                match v {
                    Some(x) => Some(x@),
                    None => None,
                },
            ),
            Err(e) => optional_read(f@, |s: Seq<char>| io_stat_text(s)) == Err::<
                Option<Seq<IoDeviceStat>>,
                ReadErrorView,
            >(e@),
        },
{
    match f {
        FileRead::Missing => Ok(None),
        FileRead::Failed(m) => Err(ReadError::Io(m.clone())),
        FileRead::Contents(s) => match parse_io_stat(s.as_str()) {
            Ok(v) => Ok(Some(v)),
            Err(e) => Err(ReadError::Parse(e)),
        },
    }
}

/// Parses the stat files of one cgroup from what reading them gave, in the
/// order of the fields; the first that fails decides the error.
pub fn read_resource_stats(files: &ResourceFiles) -> (r: Result<ResourceStats, ReadError>)
    ensures
        match r {
            Ok(s) => resource_stats_of(*files) == Ok::<ResourceStatsView, ReadErrorView>(s@) && (
            s.memory_stat matches Some(m) ==> m.wf()),
            Err(e) => resource_stats_of(*files) == Err::<ResourceStatsView, ReadErrorView>(e@),
        },
{
    let cpu_stat = opt_cpu_stat(&files.cpu_stat)?;
    let cpu_pressure = optional_pressure(&files.cpu_pressure)?;
    let memory_current = opt_memory_current(&files.memory_current)?;
    let memory_stat = opt_memory_stat(&files.memory_stat)?;
    let memory_events = opt_memory_events(&files.memory_events)?;
    let memory_pressure = optional_pressure(&files.memory_pressure)?;
    let io_stat = opt_io_stat(&files.io_stat)?;
    let io_pressure = optional_pressure(&files.io_pressure)?;
    Ok(
        ResourceStats {
            cpu_stat,
            cpu_pressure,
            memory_current,
            memory_stat,
            memory_events,
            memory_pressure,
            io_stat,
            io_pressure,
        },
    )
}

/// Each field of the bundle comes from its own file, and the bundle exists
/// exactly when every file is missing or reads and parses: `cpu_stat` from
/// `cpu.stat`, `cpu_pressure` from `cpu.pressure`, and so on.
pub proof fn lemma_resource_stats_fields(f: ResourceFiles)
    ensures
        resource_stats_of(f) is Ok <==> {
            &&& optional_read(f.cpu_stat@, |s: Seq<char>| cpu_stat_text(s)) is Ok
            &&& optional_read(f.cpu_pressure@, |s: Seq<char>| pressure_text(s)) is Ok
            &&& optional_read(f.memory_current@, |s: Seq<char>| memory_current_text(s)) is Ok
            &&& optional_read(f.memory_stat@, |s: Seq<char>| kv_text(KvFile::MemoryStat, s)) is Ok
            &&& optional_read(f.memory_events@, |s: Seq<char>| memory_events_text(s)) is Ok
            &&& optional_read(f.memory_pressure@, |s: Seq<char>| pressure_text(s)) is Ok
            &&& optional_read(f.io_stat@, |s: Seq<char>| io_stat_text(s)) is Ok
            &&& optional_read(f.io_pressure@, |s: Seq<char>| pressure_text(s)) is Ok
        },
        resource_stats_of(f) matches Ok(r) ==> {
            &&& optional_read(f.cpu_stat@, |s: Seq<char>| cpu_stat_text(s)) == Ok::<_, ReadErrorView>(r.cpu_stat)
            &&& optional_read(f.cpu_pressure@, |s: Seq<char>| pressure_text(s)) == Ok::<_, ReadErrorView>(r.cpu_pressure)
            &&& optional_read(
                f.memory_current@,
                |s: Seq<char>| memory_current_text(s),
            ) == Ok::<_, ReadErrorView>(r.memory_current)
            &&& optional_read(
                f.memory_stat@,
                |s: Seq<char>| kv_text(KvFile::MemoryStat, s),
            ) == Ok::<_, ReadErrorView>(r.memory_stat)
            &&& optional_read(
                f.memory_events@,
                |s: Seq<char>| memory_events_text(s),
            ) == Ok::<_, ReadErrorView>(r.memory_events)
            &&& optional_read(
                f.memory_pressure@,
                |s: Seq<char>| pressure_text(s),
            ) == Ok::<_, ReadErrorView>(r.memory_pressure)
            &&& optional_read(f.io_stat@, |s: Seq<char>| io_stat_text(s)) == Ok::<_, ReadErrorView>(r.io_stat)
            &&& optional_read(f.io_pressure@, |s: Seq<char>| pressure_text(s)) == Ok::<_, ReadErrorView>(r.io_pressure)
        },
{
}

} // verus!
