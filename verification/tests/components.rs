use cycle_profiler::aggregate::Aggregator;
use cycle_profiler::generator::{Args, Generator, Type};
use cycle_profiler::metrics::{estimate_cpu_freq, get_os_time_freq, os_wait_time};
use cycle_profiler::profiler::Profiler;
use cycle_profiler::report::{percent_hundredths, rank_entries};
use cycle_profiler::stack::CallStack;

// The parent-adjustment device on the bare stack: popping a child advances
// every remaining frame's start by the child's exclusive cycles.
#[test]
fn pop_adjusts_ancestor_starts() {
    let mut s = CallStack::new();
    s.push("a".to_string(), 10);
    s.push("b".to_string(), 20);
    assert_eq!(s.len(), 2);

    let (name, cycles) = s.pop(30);
    assert_eq!(name, "b");
    assert_eq!(cycles, 10);

    // "a" started at 10 but was advanced by b's 10 cycles, so at 40 it has
    // spent 40 - 20 = 20 cycles of its own.
    let (name, cycles) = s.pop(40);
    assert_eq!(name, "a");
    assert_eq!(cycles, 20);
    assert_eq!(s.len(), 0);
}

#[test]
fn same_named_frames_coexist() {
    let mut s = CallStack::new();
    s.push("f".to_string(), 0);
    s.push("f".to_string(), 5);
    let (name, cycles) = s.pop(11);
    assert_eq!(name, "f");
    assert_eq!(cycles, 6);
    let (name, cycles) = s.pop(20);
    assert_eq!(name, "f");
    assert_eq!(cycles, 14);
}

// The aggregator creates an entry on first merge and updates it, never
// replacing, on later merges of the same name.
#[test]
fn merge_creates_then_updates() {
    let mut a = Aggregator::new();
    a.merge("x".to_string(), 5);
    a.merge("y".to_string(), 3);
    a.merge("x".to_string(), 2);
    assert_eq!(a.len(), 2);

    let snap = a.snapshot();
    assert_eq!(snap[0].name, "x");
    assert_eq!(snap[0].invocation_count, 2);
    assert_eq!(snap[0].exclusive_cycles, 7);
    assert_eq!(snap[1].name, "y");
    assert_eq!(snap[1].invocation_count, 1);
    assert_eq!(snap[1].exclusive_cycles, 3);
}

#[test]
fn merge_zero_cycles_still_counts() {
    let mut a = Aggregator::new();
    a.merge("z".to_string(), 0);
    a.merge("z".to_string(), 0);
    let snap = a.snapshot();
    assert_eq!(snap.len(), 1);
    assert_eq!(snap[0].invocation_count, 2);
    assert_eq!(snap[0].exclusive_cycles, 0);
}

// Report order: non-increasing by exclusive cycles; ties keep their
// first-completion order.
#[test]
fn report_sorted_non_increasing() {
    let mut p = Profiler::new();
    for (name, start, end) in [
        ("c", 0u64, 5u64),
        ("a", 10, 19),
        ("b", 20, 25),
        ("d", 30, 31),
    ] {
        let g = p.begin_region(name.to_string(), start);
        p.end_region(g, end);
    }
    let report = rank_entries(p.snapshot());
    let names: Vec<&str> = report.iter().map(|e| e.name.as_str()).collect();
    assert_eq!(names, ["a", "c", "b", "d"]);
    for w in report.windows(2) {
        assert!(w[0].exclusive_cycles >= w[1].exclusive_cycles);
    }
}

#[test]
fn rank_empty_report() {
    let p = Profiler::new();
    let report = rank_entries(p.snapshot());
    assert_eq!(report.len(), 0);
}

#[test]
fn percent_exact_values() {
    assert_eq!(percent_hundredths(3_000_000, 5_000_000), 6000);
    assert_eq!(percent_hundredths(1, 3), 3333);
    assert_eq!(percent_hundredths(0, 7), 0);
    assert_eq!(percent_hundredths(7, 7), 10000);
    // Saturation when the "share" is beyond the counter's width.
    assert_eq!(percent_hundredths(u64::MAX, 1), u64::MAX);
}

#[test]
fn os_timer_reports_microseconds() {
    assert_eq!(get_os_time_freq(), 1_000_000);
}

#[test]
fn wait_ticks_for_default_window() {
    // The default calibration window is 1000 ms.
    assert_eq!(os_wait_time(1_000_000, 1000), 1_000_000);
    assert_eq!(os_wait_time(1_000_000, 250), 250_000);
    assert_eq!(os_wait_time(u64::MAX, u64::MAX), u64::MAX);
}

#[test]
fn frequency_estimate_is_ratio() {
    // 3e9 cycles while the microsecond timer advanced one second.
    assert_eq!(estimate_cpu_freq(1_000_000, 3_000_000_000, 1_000_000), 3_000_000_000);
    // Half a second of reference time doubles the estimate.
    assert_eq!(estimate_cpu_freq(1_000_000, 3_000_000_000, 500_000), 6_000_000_000);
    // No reference time elapsed: no estimate rather than a division by zero.
    assert_eq!(estimate_cpu_freq(1_000_000, 12345, 0), 0);
}

#[test]
fn generator_type_labels() {
    assert_eq!(Type::Cluster.label(), "cluster");
    assert_eq!(Type::Uniform.label(), "uniform");
    assert_eq!(Type::default(), Type::Cluster);
}

#[test]
fn generator_args_hold_settings() {
    let args = Args { seed: 7, ty: Type::Uniform, number: 42 };
    assert_eq!(args.seed, 7);
    assert_eq!(args.ty, Type::Uniform);
    assert_eq!(args.number, 42);
    let _marker = Generator();
}
