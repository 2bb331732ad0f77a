use cgroup_mcp::collector::error::FileRead;
use cgroup_mcp::collector::stats::CpuStat;
use cgroup_mcp::collector::tree::{read_cgroup_tree, CgroupDir, CgroupKind, CgroupNode};
use cgroup_mcp::mcp::tools::get_pressure::{self, GetPressureParams};
use cgroup_mcp::mcp::tools::get_unit_stats::{self, GetUnitStatsParams};
use cgroup_mcp::collector::resource_stats::{read_resource_stats, ResourceFiles};
use cgroup_mcp::mcp::tools::recent_oom_events::{self, RecentOomEventsParams};
use cgroup_mcp::mcp::tools::top_cpu::{self, TopCpuParams};
use cgroup_mcp::mcp::tools::top_io;
use cgroup_mcp::mcp::tools::top_memory::{self, TopMemoryParams};
use cgroup_mcp::mcp::util::{effective_count, resolve_cgroup_dir, sample_window};

fn synthetic_tree(paths: &[&str]) -> CgroupNode {
    let mut root = CgroupDir { is_cgroup: true, subdirs: Vec::new() };
    for rel in paths {
        let mut cur = &mut root;
        for component in rel.split('/') {
            let pos = cur.subdirs.iter().position(|(n, _)| n == component);
            let idx = match pos {
                Some(i) => i,
                None => {
                    cur.subdirs.push((
                        component.to_string(),
                        CgroupDir { is_cgroup: true, subdirs: Vec::new() },
                    ));
                    cur.subdirs.len() - 1
                }
            };
            cur = &mut cur.subdirs[idx].1;
        }
    }
    read_cgroup_tree(&root, None).unwrap()
}

/// One reading per target, by the target's path from the cgroup root.
fn readings(targets: &[cgroup_mcp::mcp::util::Target], files: &[(&str, &str)]) -> Vec<FileRead> {
    targets
        .iter()
        .map(|t| match files.iter().find(|(p, _)| *p == t.path) {
            Some((_, body)) => FileRead::Contents(body.to_string()),
            None => FileRead::Missing,
        })
        .collect()
}

// ---- path checks ----

#[test]
fn get_pressure_rejects_absolute_paths() {
    let err = resolve_cgroup_dir("/sys/fs/cgroup", "/etc/passwd").unwrap_err();
    assert!(err.message().contains("absolute"), "error was: {}", err.message());
}

#[test]
fn get_pressure_rejects_dotdot_traversal() {
    let err = resolve_cgroup_dir("/sys/fs/cgroup", "system.slice/../../etc").unwrap_err();
    assert!(err.message().contains(".."), "error was: {}", err.message());
}

fn rejects_absolute_and_dotdot(absolute: &str, dotdot: &str) {
    let err = resolve_cgroup_dir("/sys/fs/cgroup", absolute).unwrap_err();
    assert!(err.message().contains("absolute"), "error was: {}", err.message());
    let err = resolve_cgroup_dir("/sys/fs/cgroup", dotdot).unwrap_err();
    assert!(err.message().contains(".."), "error was: {}", err.message());
}

#[test]
fn top_memory_validates_path_like_get_pressure() {
    rejects_absolute_and_dotdot("/etc", "system.slice/..");
}

#[test]
fn get_unit_stats_validates_path_like_other_tools() {
    rejects_absolute_and_dotdot("/etc/passwd", "system.slice/../../etc");
}

#[test]
fn recent_oom_events_validates_path_like_other_tools() {
    rejects_absolute_and_dotdot("/etc", "system.slice/..");
}

#[test]
fn top_cpu_validates_path_like_other_tools() {
    rejects_absolute_and_dotdot("/etc", "system.slice/..");
}

#[test]
fn path_errors_quote_the_path() {
    assert_eq!(
        resolve_cgroup_dir("/r", "/etc").unwrap_err().message(),
        "path must be relative to the cgroup root, got absolute: \"/etc\""
    );
    assert_eq!(
        resolve_cgroup_dir("/r", "a/../b").unwrap_err().message(),
        "path must not contain `..` segments: \"a/../b\""
    );
}

#[test]
fn path_errors_escape_the_path_like_debug() {
    let rel = "/a\"b\\c\td";
    assert_eq!(
        resolve_cgroup_dir("/r", rel).unwrap_err().message(),
        format!("path must be relative to the cgroup root, got absolute: {rel:?}")
    );
}

#[test]
fn path_errors_escape_non_ascii_controls_like_debug() {
    let rel = "/a\u{85}b";
    assert_eq!(
        resolve_cgroup_dir("/r", rel).unwrap_err().message(),
        format!("path must be relative to the cgroup root, got absolute: {rel:?}")
    );
}

#[test]
fn resolved_directories_stay_under_the_root() {
    for rel in ["", "a", "a/b.service", "a..b", "./x", "a//b"] {
        let d = resolve_cgroup_dir("/sys/fs/cgroup", rel).unwrap();
        assert!(d.starts_with("/sys/fs/cgroup"), "{rel} -> {d}");
    }
    assert_eq!(resolve_cgroup_dir("/r/", "x").unwrap(), "/r/x");
}

#[test]
fn resolves_relative_paths_under_the_root() {
    assert_eq!(resolve_cgroup_dir("/sys/fs/cgroup", "").unwrap(), "/sys/fs/cgroup");
    assert_eq!(
        resolve_cgroup_dir("/sys/fs/cgroup", "system.slice/nginx.service").unwrap(),
        "/sys/fs/cgroup/system.slice/nginx.service"
    );
    assert_eq!(resolve_cgroup_dir("/", "a").unwrap(), "/a");
    assert_eq!(resolve_cgroup_dir("/r", "a..b/..c").unwrap(), "/r/a..b/..c");
    assert!(resolve_cgroup_dir("/r", "..").is_err());
    assert!(resolve_cgroup_dir("/r", "a/../").is_err());
}

// ---- top_memory ----

#[test]
fn top_memory_returns_services_descending_excluding_slices() {
    let tree = synthetic_tree(&[
        "system.slice/dbus-broker.service",
        "system.slice/systemd-journald.service",
        "system.slice/NetworkManager.service",
        "system.slice/system-getty.slice",
    ]);
    let targets = top_memory::collect(&tree, "");
    let files = [
        ("system.slice", "82000000\n"),
        ("system.slice/dbus-broker.service", "6144000\n"),
        ("system.slice/systemd-journald.service", "46305280\n"),
        ("system.slice/NetworkManager.service", "24616960\n"),
        ("system.slice/system-getty.slice", "4923392\n"),
    ];
    let reads = readings(&targets, &files);
    let params = TopMemoryParams { path: String::new(), n: None };
    let resp = top_memory::run(params, &tree, &reads).unwrap();
    let names: Vec<_> = resp.results.iter().map(|e| e.path.as_str()).collect();
    assert_eq!(
        names,
        vec![
            "system.slice/systemd-journald.service",
            "system.slice/NetworkManager.service",
            "system.slice/dbus-broker.service",
        ]
    );
    assert!(resp.results.iter().all(|e| e.kind == CgroupKind::Service));
    assert_eq!(resp.results[0].memory_current_bytes, 46_305_280);
    assert_eq!(resp.results[2].memory_current_bytes, 6_144_000);
}

#[test]
fn top_memory_n_caps_results() {
    let tree = synthetic_tree(&["a.service", "b.service", "c.service"]);
    let targets = top_memory::collect(&tree, "");
    let reads = readings(&targets, &[("a.service", "1"), ("b.service", "3"), ("c.service", "2")]);
    let resp = top_memory::run(TopMemoryParams { path: String::new(), n: Some(1) }, &tree, &reads)
        .unwrap();
    assert_eq!(resp.results.len(), 1);
    assert_eq!(resp.results[0].path, "b.service");
    let resp = top_memory::run(TopMemoryParams { path: String::new(), n: Some(0) }, &tree, &reads)
        .unwrap();
    assert_eq!(resp.results.len(), 1);
}

#[test]
fn top_memory_with_subtree_returns_paths_relative_to_cgroup_root() {
    // The tree of the subtree `system.slice`: its own root and a service.
    let tree = synthetic_tree(&["foo.service", "bar.scope"]);
    let targets = top_memory::collect(&tree, "system.slice");
    let reads = readings(
        &targets,
        &[("system.slice/foo.service", "10"), ("system.slice/bar.scope", "20")],
    );
    let resp = top_memory::run(
        TopMemoryParams { path: "system.slice".into(), n: None },
        &tree,
        &reads,
    )
    .unwrap();
    assert!(!resp.results.is_empty());
    for entry in &resp.results {
        assert!(entry.path.starts_with("system.slice/"), "got {}", entry.path);
    }
    assert_eq!(resp.subtree, "system.slice");
    assert_eq!(resp.results[0].kind, CgroupKind::Scope);
}

#[test]
fn top_memory_n_larger_than_available_is_fine() {
    let tree = synthetic_tree(&["a.service", "b.service", "c.service", "d.service"]);
    let targets = top_memory::collect(&tree, "");
    let reads = readings(&targets, &[("a.service", "1"), ("b.service", "3"), ("c.service", "2")]);
    let resp = top_memory::run(TopMemoryParams { path: String::new(), n: Some(1000) }, &tree, &reads)
        .unwrap();
    assert_eq!(resp.results.len(), 3);
}

#[test]
fn top_memory_ties_keep_walk_order_and_errors_propagate() {
    let tree = synthetic_tree(&["a.service", "b.service", "c.service"]);
    let targets = top_memory::collect(&tree, "");
    let reads = readings(&targets, &[("a.service", "5"), ("b.service", "5"), ("c.service", "5")]);
    let resp = top_memory::run(TopMemoryParams { path: String::new(), n: None }, &tree, &reads)
        .unwrap();
    let names: Vec<_> = resp.results.iter().map(|e| e.path.as_str()).collect();
    assert_eq!(names, vec!["a.service", "b.service", "c.service"]);
    let bad = readings(&targets, &[("a.service", "5"), ("b.service", "max")]);
    let err = top_memory::run(TopMemoryParams { path: String::new(), n: None }, &tree, &bad)
        .unwrap_err();
    assert!(err.message().contains("memory.current"));
}

// ---- recent_oom_events ----

#[test]
fn recent_oom_events_filters_zero_and_sorts_by_oom_kill_desc() {
    let tree = synthetic_tree(&[
        "system.slice/killer.service",
        "system.slice/spammer.service",
        "system.slice/quiet.service",
    ]);
    let targets = recent_oom_events::collect(&tree, "");
    let reads = readings(
        &targets,
        &[
            ("system.slice/killer.service", "low 0\nhigh 0\nmax 0\noom 7\noom_kill 5\noom_group_kill 0\n"),
            ("system.slice/spammer.service", "low 9\nhigh 9\nmax 0\noom 1\noom_kill 1\noom_group_kill 0\n"),
            ("system.slice/quiet.service", "low 0\nhigh 0\nmax 0\noom 0\noom_kill 0\noom_group_kill 0\n"),
        ],
    );
    let resp = recent_oom_events::run(
        RecentOomEventsParams { path: String::new(), include_zero: None },
        &tree,
        &reads,
    )
    .unwrap();
    let names: Vec<_> = resp.results.iter().map(|e| e.path.as_str()).collect();
    assert_eq!(names, vec!["system.slice/killer.service", "system.slice/spammer.service"]);
    assert_eq!(resp.results[0].events.oom_kill, 5);
    assert_eq!(resp.results[1].events.oom_kill, 1);
}

#[test]
fn recent_oom_events_include_zero_returns_all_cgroups_with_the_file() {
    let tree = synthetic_tree(&["system.slice/quiet.service", "system.slice/no-events-file.service"]);
    let targets = recent_oom_events::collect(&tree, "");
    let reads = readings(
        &targets,
        &[("system.slice/quiet.service", "low 0\nhigh 0\nmax 0\noom 0\noom_kill 0\noom_group_kill 0\n")],
    );
    let resp = recent_oom_events::run(
        RecentOomEventsParams { path: String::new(), include_zero: Some(true) },
        &tree,
        &reads,
    )
    .unwrap();
    let names: Vec<_> = resp.results.iter().map(|e| e.path.as_str()).collect();
    assert_eq!(names, vec!["system.slice/quiet.service"]);
}

#[test]
fn recent_oom_events_kind_is_populated() {
    let tree = synthetic_tree(&["system.slice/killer.service"]);
    let targets = recent_oom_events::collect(&tree, "");
    let reads = readings(
        &targets,
        &[("system.slice/killer.service", "low 0\nhigh 0\nmax 0\noom 1\noom_kill 1\noom_group_kill 0\n")],
    );
    let resp = recent_oom_events::run(
        RecentOomEventsParams { path: String::new(), include_zero: None },
        &tree,
        &reads,
    )
    .unwrap();
    assert_eq!(resp.results[0].kind, CgroupKind::Service);
}

#[test]
fn recent_oom_events_tiebreak_order() {
    let tree = synthetic_tree(&["a.service", "b.service", "c.service"]);
    let targets = recent_oom_events::collect(&tree, "");
    assert_eq!(targets.len(), 4);
    assert_eq!(targets[0].kind, CgroupKind::Root);
    let reads = readings(
        &targets,
        &[
            ("a.service", "low 1\noom 1\noom_kill 1\n"),
            ("b.service", "low 2\noom 1\noom_kill 1\n"),
            ("c.service", "high 1\noom 1\noom_kill 1\n"),
        ],
    );
    let resp = recent_oom_events::run(
        RecentOomEventsParams { path: String::new(), include_zero: None },
        &tree,
        &reads,
    )
    .unwrap();
    let names: Vec<_> = resp.results.iter().map(|e| e.path.as_str()).collect();
    assert_eq!(names, vec!["c.service", "b.service", "a.service"]);
}

// ---- top_cpu ----

fn cpu(usage: u64, throttled: u64, throttled_usec: u64) -> Option<CpuStat> {
    Some(CpuStat {
        usage_usec: usage,
        user_usec: usage,
        nr_throttled: throttled,
        throttled_usec,
        ..Default::default()
    })
}

#[test]
fn top_cpu_ranks_by_usage_delta_and_excludes_slices() {
    let tree = synthetic_tree(&[
        "system.slice/heavy.service",
        "system.slice/light.service",
        "system.slice/system-getty.slice",
    ]);
    let targets = top_cpu::collect_targets_for_cpu(&tree, "");
    let names: Vec<_> = targets.iter().map(|t| t.path.as_str()).collect();
    assert_eq!(names, vec!["system.slice/heavy.service", "system.slice/light.service"]);
    let before = vec![cpu(0, 0, 0), cpu(0, 0, 0)];
    let after = vec![cpu(150_000, 3, 6_000), cpu(15_000, 0, 0)];
    let r = top_cpu::rank(None, &targets, &before, &after);
    assert_eq!(r[0].path, "system.slice/heavy.service");
    assert_eq!(r[0].usage_delta_usec, 150_000);
    assert_eq!(r[0].throttled_periods_delta, 3);
    assert_eq!(r[0].throttled_usec_delta, 6_000);
    assert!(!r[0].reset_detected);
    assert_eq!(r[1].usage_delta_usec, 15_000);
    assert_eq!(r[1].throttled_periods_delta, 0);
}

#[test]
fn top_cpu_n_caps_results() {
    let tree = synthetic_tree(&["system.slice/a.service", "system.slice/b.service", "system.slice/c.service"]);
    let targets = top_cpu::collect_targets_for_cpu(&tree, "");
    let before = vec![cpu(0, 0, 0), cpu(0, 0, 0), cpu(0, 0, 0)];
    let after = vec![cpu(30_000, 0, 0), cpu(20_000, 0, 0), cpu(10_000, 0, 0)];
    let r = top_cpu::rank(Some(2), &targets, &before, &after);
    assert_eq!(r.len(), 2);
    assert_eq!(r[0].path, "system.slice/a.service");
    assert_eq!(r[1].path, "system.slice/b.service");
}

#[test]
fn top_cpu_zero_window_is_rejected() {
    let err = sample_window(Some(0)).unwrap_err();
    assert!(err.message().contains("> 0"), "error was: {}", err.message());
    assert_eq!(sample_window(None).unwrap(), 500);
    assert_eq!(sample_window(Some(60)).unwrap(), 60);
}

#[test]
fn top_cpu_handles_counter_reset() {
    let tree = synthetic_tree(&["system.slice/restarter.service"]);
    let targets = top_cpu::collect_targets_for_cpu(&tree, "");
    let before = vec![cpu(1_000_000, 5, 50_000)];
    let after = vec![cpu(50_000, 0, 0)];
    let r = top_cpu::rank(None, &targets, &before, &after);
    assert!(r[0].reset_detected);
    assert_eq!(r[0].usage_delta_usec, 0);
    assert_eq!(r[0].throttled_periods_delta, 0);
}

#[test]
fn top_cpu_same_samples_show_no_usage() {
    let tree = synthetic_tree(&["system.slice/a.service", "system.slice/b.service", "c.scope"]);
    let targets = top_cpu::collect_targets_for_cpu(&tree, "");
    let samples = vec![cpu(10, 3, 40), cpu(7_000, 0, 0), cpu(0, 0, 0)];
    let r = top_cpu::rank(None, &targets, &samples, &samples);
    assert_eq!(r.len(), 3);
    for e in &r {
        assert_eq!(e.usage_delta_usec, 0);
        assert_eq!(e.user_delta_usec, 0);
        assert_eq!(e.system_delta_usec, 0);
        assert_eq!(e.throttled_periods_delta, 0);
        assert_eq!(e.throttled_usec_delta, 0);
        assert!(!e.reset_detected);
    }
    // Ties keep walk order.
    let paths: Vec<_> = r.iter().map(|e| e.path.as_str()).collect();
    assert_eq!(paths, vec!["c.scope", "system.slice/a.service", "system.slice/b.service"]);
}

#[test]
fn top_cpu_skips_unreadable_samples() {
    let reads = vec![
        FileRead::Contents("usage_usec 5\n".to_string()),
        FileRead::Missing,
        FileRead::Failed("permission denied".to_string()),
        FileRead::Contents("usage_usec five\n".to_string()),
    ];
    let samples = top_cpu::sample_all(&reads);
    assert_eq!(samples[0].unwrap().usage_usec, 5);
    assert!(samples[1].is_none() && samples[2].is_none() && samples[3].is_none());
}

// ---- top_io ----

#[test]
fn top_io_gathers_device_deltas_per_target() {
    let tree = synthetic_tree(&["a.service", "b.service"]);
    let targets = top_io::collect_targets_for_io(&tree, "");
    let before = top_io::sample_all(&vec![
        FileRead::Contents("8:0 rbytes=10 wbytes=10\n259:0 rbytes=5\n".to_string()),
        FileRead::Contents("8:0 rbytes=10\n".to_string()),
    ]);
    let after = top_io::sample_all(&vec![
        FileRead::Contents("259:0 rbytes=7\n8:0 rbytes=30 wbytes=15\n".to_string()),
        FileRead::Missing,
    ]);
    let u = top_io::usages(&targets, &before, &after);
    assert_eq!(u.len(), 1);
    assert_eq!(u[0].path, "a.service");
    let devs: Vec<_> = u[0].per_device.iter().map(|d| (d.major, d.rbytes_delta, d.wbytes_delta)).collect();
    assert_eq!(devs, vec![(8, 20, 5), (259, 2, 0)]);
    assert!(!u[0].reset_detected);
}

#[test]
fn top_io_flags_a_reset_on_any_device() {
    let tree = synthetic_tree(&["a.service"]);
    let targets = top_io::collect_targets_for_io(&tree, "");
    let before = top_io::sample_all(&vec![FileRead::Contents("8:0 rbytes=10\n8:1 rbytes=1\n".to_string())]);
    let after = top_io::sample_all(&vec![FileRead::Contents("8:0 rbytes=20\n8:1 rbytes=0\n".to_string())]);
    let u = top_io::usages(&targets, &before, &after);
    assert!(u[0].reset_detected);
    assert!(!u[0].per_device[0].reset_detected);
    assert!(u[0].per_device[1].reset_detected);
}

// ---- get_pressure and get_unit_stats ----

#[test]
fn get_pressure_for_named_unit_returns_three_psi_stanzas() {
    let psi = "some avg10=0.10 avg60=0.20 avg300=0.30 total=5\nfull avg10=0.00 avg60=0.00 avg300=0.00 total=1\n";
    let resp = get_pressure::run(
        GetPressureParams { path: "system.slice/dbus-broker.service".into() },
        &FileRead::Contents(psi.to_string()),
        &FileRead::Contents(psi.to_string()),
        &FileRead::Missing,
    )
    .unwrap();
    assert_eq!(resp.path, "system.slice/dbus-broker.service");
    assert!(resp.memory.unwrap().full.is_some());
    assert_eq!(resp.cpu.unwrap().some.total_usec, 5);
    assert!(resp.io.is_none());
    let err = get_pressure::run(
        GetPressureParams { path: String::new() },
        &FileRead::Contents("bogus avg10=0 avg60=0 avg300=0 total=0\n".to_string()),
        &FileRead::Missing,
        &FileRead::Missing,
    )
    .unwrap_err();
    assert_eq!(err.message(), "unexpected pressure line kind: bogus");
}

#[test]
fn get_unit_stats_groups_by_controller() {
    let files = ResourceFiles {
        cpu_stat: FileRead::Contents("usage_usec 9\n".to_string()),
        cpu_pressure: FileRead::Missing,
        memory_current: FileRead::Contents("6144000\n".to_string()),
        memory_stat: FileRead::Contents("anon 4902912\nfile 811008\npgfault 3\n".to_string()),
        memory_events: FileRead::Missing,
        memory_pressure: FileRead::Missing,
        io_stat: FileRead::Contents(String::new()),
        io_pressure: FileRead::Missing,
    };
    let raw = read_resource_stats(&files).unwrap();
    let resp = get_unit_stats::run(GetUnitStatsParams { path: "x.service".into() }, raw);
    assert_eq!(resp.path, "x.service");
    assert_eq!(resp.cpu.stat.unwrap().usage_usec, 9);
    assert_eq!(resp.memory.current_bytes, Some(6_144_000));
    let stat = resp.memory.stat.unwrap();
    assert_eq!(stat.get("anon"), 4_902_912);
    assert_eq!(stat.get("file"), 811_008);
    assert!(stat.raw.iter().any(|(k, _)| k == "pgfault"));
    assert!(resp.memory.events.is_none());
    assert_eq!(resp.io.stat.unwrap().len(), 0);
}

#[test]
fn result_count_defaults_and_floor() {
    assert_eq!(effective_count(None), 10);
    assert_eq!(effective_count(Some(0)), 1);
    assert_eq!(effective_count(Some(3)), 3);
}
