use cgroup_mcp::collector::stats::{
    parse_cpu_stat, parse_io_stat, parse_io_stat_line, parse_memory_current, parse_memory_events,
    parse_memory_stat, CpuStat, MemoryEvents,
};

// Stat files as the kernel writes them, holding the values that the
// assertions read.

const CPU_STAT_NORMAL: &str = "usage_usec 5126584\nuser_usec 3405331\nsystem_usec 1721253\ncore_sched.force_idle_usec 0\nnr_periods 0\nnr_throttled 0\nthrottled_usec 0\nnr_bursts 0\nburst_usec 0\n";
const CPU_STAT_WITH_THROTTLING: &str = "usage_usec 900000\nuser_usec 600000\nsystem_usec 300000\nnr_periods 100\nnr_throttled 12\nthrottled_usec 8765\nnr_bursts 0\nburst_usec 0\n";
const CPU_STAT_MINIMAL: &str = "usage_usec 100\nuser_usec 60\nsystem_usec 40\n";
const MEMORY_STAT_SMALL: &str =
    "anon 1048576\nfile 524288\nkernel 65536\nsock 0\nshmem 4096\npgmajfault 2\n";
const MEMORY_EVENTS_COMPLETE: &str = "low 0\nhigh 5\nmax 0\noom 2\noom_kill 1\noom_group_kill 0\n";
const MEMORY_EVENTS_LEGACY: &str = "low 0\nhigh 0\nmax 0\noom 0\noom_kill 0\n";
const IO_STAT_TWO_DEVICES: &str = "259:0 rbytes=18329600 wbytes=4096 rios=512 wios=248257 dbytes=0 dios=0\n8:0 rbytes=2459017728 wbytes=1024 rios=10 wios=20 dbytes=0 dios=0\n";
const IO_STAT_EMPTY: &str = "\n";

// ---- cpu.stat ----

#[test]
fn parses_cpu_stat_normal_ignoring_unknown_dotted_keys() {
    let cpu = parse_cpu_stat(CPU_STAT_NORMAL).unwrap();
    assert_eq!(cpu.usage_usec, 5126584);
    assert_eq!(cpu.user_usec, 3405331);
    assert_eq!(cpu.system_usec, 1721253);
    assert_eq!(cpu.nr_periods, 0);
}

#[test]
fn parses_cpu_stat_with_throttling() {
    let cpu = parse_cpu_stat(CPU_STAT_WITH_THROTTLING).unwrap();
    assert_eq!(cpu.nr_periods, 100);
    assert_eq!(cpu.nr_throttled, 12);
    assert_eq!(cpu.throttled_usec, 8765);
}

#[test]
fn cpu_stat_missing_fields_default_to_zero() {
    let cpu = parse_cpu_stat(CPU_STAT_MINIMAL).unwrap();
    assert_eq!(cpu.usage_usec, 100);
    assert_eq!(cpu.nice_usec, 0);
    assert_eq!(cpu.nr_throttled, 0);
}

#[test]
fn cpu_stat_rejects_non_numeric_value() {
    let bad = "usage_usec twelve\nuser_usec 5\n";
    let err = parse_cpu_stat(bad).unwrap_err();
    let msg = err.message();
    assert!(msg.contains("usage_usec"), "error was: {msg}");
}

// ---- memory.current ----

#[test]
fn parses_memory_current_with_trailing_newline() {
    let n = parse_memory_current("6144000\n").unwrap();
    assert_eq!(n, 6144000);
}

#[test]
fn parses_memory_current_no_newline() {
    assert_eq!(parse_memory_current("0").unwrap(), 0);
}

#[test]
fn rejects_non_numeric_memory_current() {
    let err = parse_memory_current("max\n").unwrap_err();
    assert!(err.message().contains("memory.current"));
}

// ---- memory.stat ----

#[test]
fn parses_memory_stat_into_raw_map_with_get_accessor() {
    let m = parse_memory_stat(MEMORY_STAT_SMALL).unwrap();
    assert_eq!(m.get("anon"), 1048576);
    assert_eq!(m.get("file"), 524288);
    assert_eq!(m.get("pgmajfault"), 2);
    // unknown key -> 0
    assert_eq!(m.get("not_a_real_field"), 0);
    // raw map preserves all entries
    assert_eq!(m.raw.len(), 6);
}

// ---- memory.events ----

#[test]
fn parses_memory_events_complete() {
    let e = parse_memory_events(MEMORY_EVENTS_COMPLETE).unwrap();
    assert_eq!(
        e,
        MemoryEvents {
            low: 0,
            high: 5,
            max: 0,
            oom: 2,
            oom_kill: 1,
            oom_group_kill: 0,
        }
    );
}

#[test]
fn memory_events_missing_oom_group_kill_defaults_to_zero() {
    let e = parse_memory_events(MEMORY_EVENTS_LEGACY).unwrap();
    assert_eq!(e.oom_group_kill, 0);
    assert_eq!(e.oom_kill, 0);
}

// ---- io.stat ----

#[test]
fn parses_io_stat_with_multiple_devices() {
    let v = parse_io_stat(IO_STAT_TWO_DEVICES).unwrap();
    assert_eq!(v.len(), 2);
    assert_eq!(v[0].major, 259);
    assert_eq!(v[0].minor, 0);
    assert_eq!(v[0].rbytes, 18329600);
    assert_eq!(v[0].wios, 248257);
    assert_eq!(v[1].major, 8);
    assert_eq!(v[1].rbytes, 2459017728);
}

#[test]
fn empty_io_stat_returns_empty_vec() {
    let v = parse_io_stat(IO_STAT_EMPTY).unwrap();
    assert!(v.is_empty());
    // also explicit empty string
    assert!(parse_io_stat("").unwrap().is_empty());
}

#[test]
fn io_stat_rejects_malformed_device_prefix() {
    let bad = "no_colon rbytes=10\n";
    let err = parse_io_stat(bad).unwrap_err();
    assert!(err.message().contains("major:minor"));
}

#[test]
fn io_stat_rejects_malformed_kv() {
    let bad = "8:0 rbytes_no_equals 10\n";
    let err = parse_io_stat(bad).unwrap_err();
    assert!(err.message().contains("key=value"));
}

#[test]
fn io_stat_tolerates_unknown_kv_fields() {
    // forward-compat: kernel may add new io counters
    let s = "8:0 rbytes=10 wbytes=20 future_field=999\n";
    let v = parse_io_stat(s).unwrap();
    assert_eq!(v[0].rbytes, 10);
    assert_eq!(v[0].wbytes, 20);
}

// ---- further cases ----

#[test]
fn kv_later_line_wins_and_crlf_is_whitespace() {
    let m = parse_memory_stat("anon 1\r\nfile 2\r\nanon 3\r\n").unwrap();
    assert_eq!(m.get("anon"), 3);
    assert_eq!(m.get("file"), 2);
    assert_eq!(m.raw.len(), 2);
}

#[test]
fn memory_stat_keys_come_sorted() {
    let m = parse_memory_stat("zswap 1\nanon 2\nfile 3\nanon_thp 4\n").unwrap();
    let keys: Vec<&str> = m.raw.iter().map(|(k, _)| k.as_str()).collect();
    assert_eq!(keys, vec!["anon", "anon_thp", "file", "zswap"]);
}

#[test]
fn kv_missing_value_names_line_and_key() {
    let err = parse_memory_events("low 0\noom\n").unwrap_err();
    assert_eq!(
        err.message(),
        "parsing memory.events: line 2: missing value for \"oom\""
    );
}

#[test]
fn kv_bad_value_tells_the_cause() {
    let err = parse_cpu_stat("usage_usec 18446744073709551616\n").unwrap_err();
    assert_eq!(
        err.message(),
        "parsing cpu.stat: line 1: parsing value for \"usage_usec\": \"18446744073709551616\": number too large to fit in target type"
    );
    let err = parse_cpu_stat("usage_usec +\n").unwrap_err();
    assert!(err.message().ends_with("invalid digit found in string"));
}

#[test]
fn u64_bounds_and_plus_sign() {
    assert_eq!(parse_memory_current("18446744073709551615").unwrap(), u64::MAX);
    assert_eq!(parse_memory_current(" +42 \n").unwrap(), 42);
    assert!(parse_memory_current("-1").is_err());
    let err = parse_memory_current("   \n").unwrap_err();
    assert_eq!(
        err.message(),
        "parsing memory.current: \"\": cannot parse integer from empty string"
    );
}

#[test]
fn cpu_stat_words_after_value_are_ignored() {
    let cpu = parse_cpu_stat("usage_usec 7 trailing words\n\n  \n").unwrap();
    assert_eq!(cpu.usage_usec, 7);
    assert_eq!(cpu, CpuStat { usage_usec: 7, ..Default::default() });
}

#[test]
fn io_stat_errors_tell_line_and_cause() {
    let err = parse_io_stat("8:0 rbytes=1\n\n8:x rbytes=2\n").unwrap_err();
    assert_eq!(
        err.message(),
        "io.stat line 3: \"8:x rbytes=2\": parsing minor from \"8:x\": invalid digit found in string"
    );
    let err = parse_io_stat("4294967296:0\n").unwrap_err();
    assert!(err.message().contains("parsing major from"));
    let err = parse_io_stat("8:0 rbytes=abc\n").unwrap_err();
    assert!(err.message().contains("parsing value for rbytes=abc"));
}

#[test]
fn io_stat_later_key_wins_missing_counters_are_zero() {
    let v = parse_io_stat("8:16 rbytes=1 rbytes=5 dios=3\n").unwrap();
    assert_eq!((v[0].major, v[0].minor), (8, 16));
    assert_eq!(v[0].rbytes, 5);
    assert_eq!(v[0].wbytes, 0);
    assert_eq!(v[0].dios, 3);
}

#[test]
fn io_stat_error_quotes_the_line_as_listed() {
    let err = parse_io_stat("8:0 rbytes=1\r\n  8:x rbytes=2 \r\n").unwrap_err();
    assert_eq!(
        err.message(),
        "io.stat line 2: \"  8:x rbytes=2 \": parsing minor from \"8:x\": invalid digit found in string"
    );
    let err = parse_io_stat("8:x\r").unwrap_err();
    let expected = format!("io.stat line 1: {:?}: ", "8:x\r");
    assert!(err.message().starts_with(&expected), "{}", err.message());
}

#[test]
fn device_numbers_fit_u32() {
    let v = parse_io_stat("4294967295:0 rbytes=18446744073709551615\n").unwrap();
    assert_eq!((v[0].major, v[0].minor, v[0].rbytes), (u32::MAX, 0, u64::MAX));
    let err = parse_io_stat("4294967296:0\n").unwrap_err();
    assert_eq!(
        err.message(),
        "io.stat line 1: \"4294967296:0\": parsing major from \"4294967296:0\": number too large to fit in target type"
    );
    assert!(parse_io_stat("8:0 rbytes=18446744073709551616\n").is_err());
}

#[test]
fn quoted_values_are_escaped_like_debug() {
    let err = parse_memory_current("1\t2\"\\\u{1}\u{7f}x").unwrap_err();
    assert_eq!(
        err.message(),
        format!("parsing memory.current: {:?}: invalid digit found in string", "1\t2\"\\\u{1}\u{7f}x")
    );
    let err = parse_io_stat("8\u{0}0 rbytes=1\n").unwrap_err();
    assert_eq!(
        err.message(),
        format!(
            "io.stat line 1: {:?}: device must be major:minor, got {:?}",
            "8\u{0}0 rbytes=1", "8\u{0}0"
        )
    );
}

#[test]
fn non_ascii_controls_are_escaped_like_debug() {
    let text = "1\u{85}2\u{200b}3";
    let err = parse_memory_current(text).unwrap_err();
    assert_eq!(
        err.message(),
        format!("parsing memory.current: {:?}: invalid digit found in string", text)
    );
}

#[test]
fn io_stat_line_parses_on_its_own() {
    let d = parse_io_stat_line("259:0").unwrap();
    assert_eq!((d.major, d.minor, d.rbytes, d.wbytes, d.rios, d.wios, d.dbytes, d.dios), (259, 0, 0, 0, 0, 0, 0, 0));
    let d = parse_io_stat_line("8:16 rbytes=1 rbytes=7 foo=3 dios=2").unwrap();
    assert_eq!((d.major, d.minor, d.rbytes, d.dios), (8, 16, 7, 2));
    assert_eq!(parse_io_stat_line("").unwrap_err().message(), "missing device prefix");
    assert!(parse_io_stat_line("8:1:2").is_err());
}

#[test]
fn io_stat_keeps_one_device_per_line_in_file_order() {
    let v = parse_io_stat("9:0 rbytes=1\n\n8:0 rbytes=2\n9:0 rbytes=3\n").unwrap();
    let devs: Vec<_> = v.iter().map(|d| (d.major, d.minor, d.rbytes)).collect();
    assert_eq!(devs, vec![(9, 0, 1), (8, 0, 2), (9, 0, 3)]);
    assert!(parse_io_stat("9:0 rbytes=1\nbad\n").is_err());
}

#[test]
fn cpu_stat_needs_a_number_on_every_line() {
    assert!(parse_cpu_stat("usage_usec 1\nuser_usec\n").is_err());
    assert!(parse_cpu_stat("usage_usec 1\nfoo -1\n").is_err());
    let c = parse_cpu_stat("usage_usec 1\nfoo 9\nusage_usec 4\n").unwrap();
    assert_eq!(c, CpuStat { usage_usec: 4, ..Default::default() });
}

#[test]
fn memory_current_reads_back_its_decimal_text() {
    for v in [0u64, 7, 10, 6_144_000, u64::MAX] {
        assert_eq!(parse_memory_current(&format!("{v}\n")).unwrap(), v);
        assert_eq!(parse_memory_current(&v.to_string()).unwrap(), v);
    }
}

#[test]
fn memory_stat_reads_back_the_lines_written_from_a_map() {
    let mut m = std::collections::BTreeMap::new();
    m.insert("anon".to_string(), 1024u64);
    m.insert("file".to_string(), 2048u64);
    m.insert("pgfault".to_string(), u64::MAX);
    let s: String = m.iter().map(|(k, v)| format!("{k} {v}\n")).collect();
    let stat = parse_memory_stat(&s).unwrap();
    let back: std::collections::BTreeMap<String, u64> = stat.raw.iter().cloned().collect();
    assert_eq!(back, m);
    assert_eq!(stat.raw.len(), m.len());
}
