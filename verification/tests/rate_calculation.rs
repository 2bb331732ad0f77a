use cgroup_mcp::collector::rate::{cpu_delta, cpu_deltas, io_deltas, monotonic_delta, RateError};
use cgroup_mcp::collector::stats::{CpuStat, IoDeviceStat};
use std::time::Duration;

// The library computes the counter deltas and reset flags; the rates are
// those deltas divided by the window, which these tests leave out.

fn cpu(usage: u64, user: u64, system: u64) -> CpuStat {
    CpuStat {
        usage_usec: usage,
        user_usec: user,
        system_usec: system,
        ..Default::default()
    }
}

fn iodev(maj: u32, min: u32, r: u64, w: u64) -> IoDeviceStat {
    IoDeviceStat {
        major: maj,
        minor: min,
        rbytes: r,
        wbytes: w,
        rios: 0,
        wios: 0,
        dbytes: 0,
        dios: 0,
    }
}

fn nanos(d: Duration) -> u128 {
    d.as_nanos()
}

// ---- CPU ----

#[test]
fn cpu_one_full_core_in_one_second_is_ratio_one() {
    let a = cpu(0, 0, 0);
    let b = cpu(1_000_000, 600_000, 400_000);
    let r = cpu_deltas(&a, &b, nanos(Duration::from_secs(1))).unwrap();
    assert_eq!(r.usage_delta_usec, 1_000_000);
    assert_eq!(r.user_delta_usec, 600_000);
    assert_eq!(r.system_delta_usec, 400_000);
    assert!(!r.reset_detected);
}

#[test]
fn cpu_four_cores_saturated_yields_ratio_four() {
    let a = cpu(0, 0, 0);
    let b = cpu(4_000_000, 4_000_000, 0);
    let r = cpu_deltas(&a, &b, nanos(Duration::from_secs(1))).unwrap();
    assert_eq!(r.usage_delta_usec, 4_000_000);
    assert_eq!(r.user_delta_usec, 4_000_000);
    assert_eq!(r.system_delta_usec, 0);
}

#[test]
fn cpu_half_second_window_scales_correctly() {
    let a = cpu(0, 0, 0);
    let b = cpu(500_000, 0, 0);
    let r = cpu_deltas(&a, &b, nanos(Duration::from_millis(500))).unwrap();
    assert_eq!(r.usage_delta_usec, 500_000);
}

#[test]
fn cpu_idle_cgroup_yields_zero_rate() {
    let a = cpu(123_456, 100_000, 23_456);
    let b = a.clone();
    let r = cpu_deltas(&a, &b, nanos(Duration::from_secs(1))).unwrap();
    assert_eq!(r.usage_delta_usec, 0);
    assert!(!r.reset_detected);
}

#[test]
fn cpu_zero_dt_is_an_error() {
    let err = cpu_deltas(&cpu(0, 0, 0), &cpu(1, 0, 0), nanos(Duration::ZERO)).unwrap_err();
    assert_eq!(err, RateError::CpuZeroDuration);
    assert!(err.message().contains("zero duration"));
}

#[test]
fn cpu_counter_regression_sets_reset_and_zero_rates() {
    let a = cpu(1_000_000, 600_000, 400_000);
    let b = cpu(50_000, 30_000, 20_000);
    let r = cpu_deltas(&a, &b, nanos(Duration::from_secs(1))).unwrap();
    assert!(r.reset_detected);
    assert_eq!(r.usage_delta_usec, 0);
}

#[test]
fn cpu_partial_regression_still_flags_reset() {
    let a = cpu(1000, 800, 200);
    let b = cpu(2000, 500, 1500);
    let r = cpu_deltas(&a, &b, nanos(Duration::from_secs(1))).unwrap();
    assert!(r.reset_detected);
    assert_eq!(r.usage_delta_usec, 1000);
    assert_eq!(r.user_delta_usec, 0);
}

// ---- IO ----

#[test]
fn io_simple_per_device_rates() {
    let a = vec![iodev(8, 0, 0, 0), iodev(259, 0, 1_000_000, 500_000)];
    let b = vec![
        iodev(8, 0, 1_048_576, 0),
        iodev(259, 0, 2_000_000, 1_500_000),
    ];
    let r = io_deltas(&a, &b, nanos(Duration::from_secs(1))).unwrap();
    assert_eq!(r.len(), 2);
    assert_eq!((r[0].major, r[0].minor), (8, 0));
    assert_eq!(r[0].rbytes_delta, 1_048_576);
    assert_eq!(r[0].wbytes_delta, 0);
    assert_eq!((r[1].major, r[1].minor), (259, 0));
    assert_eq!(r[1].rbytes_delta, 1_000_000);
    assert_eq!(r[1].wbytes_delta, 1_000_000);
}

#[test]
fn io_zero_dt_is_an_error() {
    let err = io_deltas(&vec![], &vec![], nanos(Duration::ZERO)).unwrap_err();
    assert!(err.message().contains("zero duration"));
}

#[test]
fn io_empty_snapshots_yield_empty_rates() {
    let r = io_deltas(&vec![], &vec![], nanos(Duration::from_secs(1))).unwrap();
    assert!(r.is_empty());
}

#[test]
fn io_device_added_between_snapshots_is_skipped() {
    let a = vec![iodev(259, 0, 0, 0)];
    let b = vec![iodev(8, 0, 1000, 0), iodev(259, 0, 5000, 0)];
    let r = io_deltas(&a, &b, nanos(Duration::from_secs(1))).unwrap();
    assert_eq!(r.len(), 1);
    assert_eq!((r[0].major, r[0].minor), (259, 0));
}

#[test]
fn io_device_removed_between_snapshots_is_omitted() {
    let a = vec![iodev(8, 0, 0, 0), iodev(259, 0, 0, 0)];
    let b = vec![iodev(259, 0, 1000, 0)];
    let r = io_deltas(&a, &b, nanos(Duration::from_secs(1))).unwrap();
    assert_eq!(r.len(), 1);
    assert_eq!((r[0].major, r[0].minor), (259, 0));
}

#[test]
fn io_counter_regression_on_one_device_flags_reset_for_that_device_only() {
    let a = vec![iodev(8, 0, 1000, 1000), iodev(259, 0, 0, 0)];
    let b = vec![iodev(8, 0, 500, 1000), iodev(259, 0, 5000, 0)];
    let r = io_deltas(&a, &b, nanos(Duration::from_secs(1))).unwrap();
    let dev_8 = r.iter().find(|x| x.major == 8).unwrap();
    let dev_259 = r.iter().find(|x| x.major == 259).unwrap();
    assert!(dev_8.reset_detected);
    assert_eq!(dev_8.rbytes_delta, 0);
    assert!(!dev_259.reset_detected);
    assert_eq!(dev_259.rbytes_delta, 5000);
}

#[test]
fn io_rates_are_sorted_by_major_minor_for_determinism() {
    let a = vec![iodev(259, 1, 0, 0), iodev(8, 0, 0, 0), iodev(259, 0, 0, 0)];
    let b = vec![
        iodev(259, 1, 100, 0),
        iodev(8, 0, 200, 0),
        iodev(259, 0, 300, 0),
    ];
    let r = io_deltas(&a, &b, nanos(Duration::from_secs(1))).unwrap();
    let keys: Vec<_> = r.iter().map(|x| (x.major, x.minor)).collect();
    assert_eq!(keys, vec![(8, 0), (259, 0), (259, 1)]);
}

#[test]
fn io_full_field_coverage() {
    let a = vec![IoDeviceStat {
        major: 1,
        minor: 1,
        rbytes: 0,
        wbytes: 0,
        rios: 0,
        wios: 0,
        dbytes: 0,
        dios: 0,
    }];
    let b = vec![IoDeviceStat {
        major: 1,
        minor: 1,
        rbytes: 100,
        wbytes: 200,
        rios: 10,
        wios: 20,
        dbytes: 300,
        dios: 30,
    }];
    let r = io_deltas(&a, &b, nanos(Duration::from_secs(2))).unwrap();
    assert_eq!(r[0].rbytes_delta, 100);
    assert_eq!(r[0].wbytes_delta, 200);
    assert_eq!(r[0].rios_delta, 10);
    assert_eq!(r[0].wios_delta, 20);
    assert_eq!(r[0].dbytes_delta, 300);
    assert_eq!(r[0].dios_delta, 30);
}

// ---- further cases ----

#[test]
fn monotonic_delta_cases() {
    assert_eq!(monotonic_delta(5, 9), (4, false));
    assert_eq!(monotonic_delta(9, 9), (0, false));
    assert_eq!(monotonic_delta(9, 5), (0, true));
    assert_eq!(monotonic_delta(0, u64::MAX), (u64::MAX, false));
}

#[test]
fn io_device_listed_twice_in_first_snapshot_uses_the_last() {
    let a = vec![iodev(8, 0, 100, 0), iodev(8, 0, 10, 0)];
    let b = vec![iodev(8, 0, 50, 0)];
    let r = io_deltas(&a, &b, 1).unwrap();
    assert_eq!(r[0].rbytes_delta, 40);
    assert!(!r[0].reset_detected);
}

#[test]
fn io_equal_devices_keep_their_order() {
    let a = vec![iodev(8, 0, 0, 0)];
    let b = vec![iodev(8, 0, 1, 0), iodev(7, 0, 0, 0), iodev(8, 0, 2, 0)];
    let a2 = vec![iodev(8, 0, 0, 0), iodev(7, 0, 0, 0)];
    let r = io_deltas(&a2, &b, 1).unwrap();
    let got: Vec<_> = r.iter().map(|x| (x.major, x.rbytes_delta)).collect();
    assert_eq!(got, vec![(7, 0), (8, 1), (8, 2)]);
    assert_eq!(io_deltas(&a, &b, 1).unwrap().len(), 2);
}

#[test]
fn cpu_delta_reports_reset_exactly_when_a_counter_goes_backwards() {
    let a = cpu(100, 60, 40);
    let same = cpu_delta(&a, &a);
    assert_eq!(
        (same.usage_delta_usec, same.user_delta_usec, same.system_delta_usec, same.reset_detected),
        (0, 0, 0, false)
    );
    let up = cpu_delta(&a, &cpu(150, 90, 60));
    assert_eq!((up.usage_delta_usec, up.user_delta_usec, up.system_delta_usec), (50, 30, 20));
    assert!(!up.reset_detected);
    let back = cpu_delta(&a, &cpu(150, 59, 60));
    assert!(back.reset_detected);
    assert_eq!((back.usage_delta_usec, back.user_delta_usec, back.system_delta_usec), (50, 0, 20));
}
