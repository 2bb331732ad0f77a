use cgroup_mcp::collector::error::{FileRead, ReadError};
use cgroup_mcp::collector::resource_stats::{read_resource_stats, ResourceFiles};

const CPU_STAT_SAMPLE: &str = "usage_usec 100\nuser_usec 60\nsystem_usec 40\n";
const MEM_CURRENT_SAMPLE: &str = "1048576\n";
const MEM_STAT_SAMPLE: &str = "anon 1024\nfile 2048\n";
const MEM_EVENTS_SAMPLE: &str = "low 0\nhigh 0\nmax 0\noom 0\noom_kill 0\noom_group_kill 0\n";
const PSI_SAMPLE: &str =
    "some avg10=0.00 avg60=0.00 avg300=0.00 total=0\nfull avg10=0.00 avg60=0.00 avg300=0.00 total=0\n";
const IO_STAT_SAMPLE: &str = "8:0 rbytes=100 wbytes=200 rios=10 wios=20 dbytes=0 dios=0\n";

fn present(s: &str) -> FileRead {
    FileRead::Contents(s.to_string())
}

fn none_present() -> ResourceFiles {
    ResourceFiles {
        cpu_stat: FileRead::Missing,
        cpu_pressure: FileRead::Missing,
        memory_current: FileRead::Missing,
        memory_stat: FileRead::Missing,
        memory_events: FileRead::Missing,
        memory_pressure: FileRead::Missing,
        io_stat: FileRead::Missing,
        io_pressure: FileRead::Missing,
    }
}

fn all_files() -> ResourceFiles {
    ResourceFiles {
        cpu_stat: present(CPU_STAT_SAMPLE),
        cpu_pressure: present(PSI_SAMPLE),
        memory_current: present(MEM_CURRENT_SAMPLE),
        memory_stat: present(MEM_STAT_SAMPLE),
        memory_events: present(MEM_EVENTS_SAMPLE),
        memory_pressure: present(PSI_SAMPLE),
        io_stat: present(IO_STAT_SAMPLE),
        io_pressure: present(PSI_SAMPLE),
    }
}

#[test]
fn reads_complete_bundle_when_all_files_present() {
    let r = read_resource_stats(&all_files()).unwrap();
    assert!(r.cpu_stat.is_some());
    assert!(r.cpu_pressure.is_some());
    assert!(r.memory_current.is_some());
    assert!(r.memory_stat.is_some());
    assert!(r.memory_events.is_some());
    assert!(r.memory_pressure.is_some());
    assert!(r.io_stat.is_some());
    assert!(r.io_pressure.is_some());

    assert_eq!(r.memory_current, Some(1_048_576));
    assert_eq!(r.cpu_stat.unwrap().usage_usec, 100);
    assert_eq!(r.io_stat.unwrap().len(), 1);
}

#[test]
fn missing_files_yield_none_per_field() {
    let mut files = none_present();
    files.cpu_stat = present(CPU_STAT_SAMPLE);
    files.memory_pressure = present(PSI_SAMPLE);
    let r = read_resource_stats(&files).unwrap();
    assert!(r.cpu_stat.is_some());
    assert!(r.memory_pressure.is_some());
    assert!(r.cpu_pressure.is_none());
    assert!(r.memory_current.is_none());
    assert!(r.memory_stat.is_none());
    assert!(r.memory_events.is_none());
    assert!(r.io_stat.is_none());
    assert!(r.io_pressure.is_none());
}

#[test]
fn empty_directory_yields_all_none_without_error() {
    let r = read_resource_stats(&none_present()).unwrap();
    assert!(r.cpu_stat.is_none());
    assert!(r.cpu_pressure.is_none());
    assert!(r.memory_current.is_none());
    assert!(r.memory_stat.is_none());
    assert!(r.memory_events.is_none());
    assert!(r.memory_pressure.is_none());
    assert!(r.io_stat.is_none());
    assert!(r.io_pressure.is_none());
}

#[test]
fn parse_errors_propagate_rather_than_being_swallowed_as_none() {
    let mut files = none_present();
    files.memory_current = present("not_a_number\n");
    let err = read_resource_stats(&files).unwrap_err();
    let msg = err.message();
    assert!(msg.contains("memory.current"), "error was: {msg}");
}

// ---- further cases ----

#[test]
fn read_failures_propagate_in_field_order() {
    let mut files = all_files();
    files.memory_stat = FileRead::Failed("permission denied".to_string());
    files.io_stat = present("garbage\n");
    match read_resource_stats(&files).unwrap_err() {
        ReadError::Io(m) => assert_eq!(m, "permission denied"),
        other => panic!("unexpected {other:?}"),
    }
}

#[test]
fn bundles_compare_by_value() {
    let a = read_resource_stats(&all_files()).unwrap();
    let b = read_resource_stats(&all_files()).unwrap();
    assert_eq!(a, b);
    let c = read_resource_stats(&none_present()).unwrap();
    assert_ne!(a, c);
}
