use cgroup_mcp::collector::pressure::parse_pressure;

// Pressure files as the kernel writes them.
const MEMORY_NORMAL: &str = "some avg10=1.23 avg60=2.34 avg300=3.45 total=12345678\nfull avg10=0.50 avg60=1.00 avg300=1.50 total=987654\n";
const CPU_SOME_ONLY: &str = "some avg10=0.42 avg60=0.10 avg300=0.05 total=54321\n";
const MEMORY_ZERO: &str = "some avg10=0.00 avg60=0.00 avg300=0.00 total=0\nfull avg10=0.00 avg60=0.00 avg300=0.00 total=0\n";

fn float(s: &str) -> f64 {
    s.parse().unwrap()
}

#[test]
fn parses_memory_pressure_with_some_and_full() {
    let p = parse_pressure(MEMORY_NORMAL).unwrap();
    assert_eq!(float(&p.some.avg10), 1.23);
    assert_eq!(float(&p.some.avg60), 2.34);
    assert_eq!(float(&p.some.avg300), 3.45);
    assert_eq!(p.some.total_usec, 12345678);
    let full = p.full.unwrap();
    assert_eq!(float(&full.avg10), 0.50);
    assert_eq!(float(&full.avg60), 1.00);
    assert_eq!(float(&full.avg300), 1.50);
    assert_eq!(full.total_usec, 987654);
}

#[test]
fn parses_cpu_pressure_with_only_some() {
    let p = parse_pressure(CPU_SOME_ONLY).unwrap();
    assert!(p.full.is_none());
    assert_eq!(float(&p.some.avg10), 0.42);
    assert_eq!(p.some.total_usec, 54321);
}

#[test]
fn parses_zero_pressure() {
    let p = parse_pressure(MEMORY_ZERO).unwrap();
    assert_eq!(float(&p.some.avg10), 0.0);
    assert_eq!(p.some.total_usec, 0);
    assert_eq!(p.full.unwrap().total_usec, 0);
}

#[test]
fn rejects_missing_required_field() {
    let bad = "some avg10=1.0 avg60=2.0 total=100\n"; // no avg300
    let err = parse_pressure(bad).unwrap_err();
    assert!(err.message().contains("avg300"), "error was: {}", err.message());
}

#[test]
fn rejects_unknown_line_kind() {
    let bad = "partial avg10=0 avg60=0 avg300=0 total=0\n";
    let err = parse_pressure(bad).unwrap_err();
    assert!(err.message().contains("partial"), "error was: {}", err.message());
}

#[test]
fn ignores_unknown_fields_for_forward_compat() {
    let s = "some avg10=1.0 avg60=2.0 avg300=3.0 total=100 future_field=42\n";
    let p = parse_pressure(s).unwrap();
    assert_eq!(float(&p.some.avg10), 1.0);
}

#[test]
fn rejects_missing_some_line() {
    let only_full = "full avg10=1.0 avg60=2.0 avg300=3.0 total=100\n";
    let err = parse_pressure(only_full).unwrap_err();
    assert!(err.message().contains("some"), "error was: {}", err.message());
}

// ---- further cases ----

#[test]
fn averages_must_be_numbers_f64_reads() {
    for ok in ["1", "1.", ".5", "1e3", "1.5E-2", "+2.0", "-0.0", "inf", "NaN", "Infinity"] {
        let s = format!("some avg10={ok} avg60=0 avg300=0 total=0\n");
        let p = parse_pressure(&s).unwrap();
        assert!(p.some.avg10.parse::<f64>().is_ok(), "{ok}");
    }
    for bad in ["", ".", "e5", "1e", "1.2.3", "abc", "1e+", "0x10"] {
        let s = format!("some avg10={bad} avg60=0 avg300=0 total=0\n");
        let err = parse_pressure(&s).unwrap_err();
        let std_err = bad.parse::<f64>().unwrap_err();
        assert_eq!(err.message(), format!("avg10={bad}: {std_err}"));
    }
}

#[test]
fn field_errors_come_before_the_kind_check() {
    let err = parse_pressure("partial avg10=x avg60=0 avg300=0 total=0\n").unwrap_err();
    assert_eq!(err.message(), "avg10=x: invalid float literal");
}

#[test]
fn malformed_pair_and_bad_total() {
    let err = parse_pressure("some avg10 avg60=0\n").unwrap_err();
    assert_eq!(err.message(), "malformed key=value: avg10");
    let err = parse_pressure("some avg10=0 avg60=0 avg300=0 total=-1\n").unwrap_err();
    assert_eq!(err.message(), "total=-1: invalid digit found in string");
}

#[test]
fn later_lines_replace_earlier_ones() {
    let s = "some avg10=1 avg60=1 avg300=1 total=1\n\nsome avg10=2 avg60=2 avg300=2 total=2\n";
    let p = parse_pressure(s).unwrap();
    assert_eq!(p.some.total_usec, 2);
    assert_eq!(p.some.avg10, "2");
}

#[test]
fn empty_average_is_told_like_std() {
    let err = parse_pressure("some avg10= avg60=0 avg300=0 total=0\n").unwrap_err();
    assert_eq!(err.message(), format!("avg10=: {}", "".parse::<f64>().unwrap_err()));
    let err = parse_pressure("some avg10=x avg60=0 avg300=0 total=0\n").unwrap_err();
    assert_eq!(err.message(), format!("avg10=x: {}", "x".parse::<f64>().unwrap_err()));
}
