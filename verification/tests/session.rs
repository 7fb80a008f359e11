use cycle_profiler::profiler::Profiler;
use cycle_profiler::report::{percent_hundredths, rank_entries};

// A run bracketed by a window of 5,000,000 cycles: "read" spends 1,000,000
// cycles, "parse" spends 3,000,000, and 1,000,000 stay unattributed.  The
// report must list "parse" (60%) before "read" (20%).
#[test]
fn scenario_two_regions_in_window() {
    let total: u64 = 5_000_000;
    let mut p = Profiler::new();

    let g = p.begin_region("read".to_string(), 500_000);
    let (name, cycles) = p.end_region(g, 1_500_000);
    assert_eq!(name, "read");
    assert_eq!(cycles, 1_000_000);

    let g = p.begin_region("parse".to_string(), 1_600_000);
    let (name, cycles) = p.end_region(g, 4_600_000);
    assert_eq!(name, "parse");
    assert_eq!(cycles, 3_000_000);

    assert_eq!(p.depth(), 0);

    let report = rank_entries(p.snapshot());
    assert_eq!(report.len(), 2);
    assert_eq!(report[0].name, "parse");
    assert_eq!(report[0].invocation_count, 1);
    assert_eq!(report[0].exclusive_cycles, 3_000_000);
    assert_eq!(report[1].name, "read");
    assert_eq!(report[1].invocation_count, 1);
    assert_eq!(report[1].exclusive_cycles, 1_000_000);

    assert_eq!(percent_hundredths(report[0].exclusive_cycles, total), 6000);
    assert_eq!(percent_hundredths(report[1].exclusive_cycles, total), 2000);

    let attributed: u64 = report.iter().map(|e| e.exclusive_cycles).sum();
    let unattributed = total - attributed;
    assert_eq!(unattributed, 1_000_000);
    assert_eq!(percent_hundredths(unattributed, total), 2000);
}

// Percentage closure: the reported percentages plus the unattributed share
// come to 100% within floating-point tolerance.
#[test]
fn percentages_close_to_one_hundred() {
    let total: u64 = 5_000_000;
    let mut p = Profiler::new();
    let g = p.begin_region("read".to_string(), 0);
    p.end_region(g, 1_000_000);
    let g = p.begin_region("parse".to_string(), 1_200_000);
    p.end_region(g, 4_200_000);

    let report = rank_entries(p.snapshot());
    let attributed: u64 = report.iter().map(|e| e.exclusive_cycles).sum();
    let mut sum_pct: f64 = report
        .iter()
        .map(|e| e.exclusive_cycles as f64 / total as f64 * 100.0)
        .sum();
    sum_pct += (total - attributed) as f64 / total as f64 * 100.0;
    assert!((sum_pct - 100.0).abs() < 1e-9);
}

// An instantaneous region: entered and exited at the same reading, with no
// children.  It is counted once, charged zero cycles, and the percentage
// computation divides by the (positive) total without trouble.
#[test]
fn scenario_instantaneous_region() {
    let mut p = Profiler::new();
    let g = p.begin_region("instant".to_string(), 42);
    let (name, cycles) = p.end_region(g, 42);
    assert_eq!(name, "instant");
    assert_eq!(cycles, 0);

    let report = rank_entries(p.snapshot());
    assert_eq!(report.len(), 1);
    assert_eq!(report[0].invocation_count, 1);
    assert_eq!(report[0].exclusive_cycles, 0);
    assert_eq!(percent_hundredths(report[0].exclusive_cycles, 1000), 0);
}

fn sim_fib(p: &mut Profiler, clock: &mut u64, n: u64) -> u64 {
    *clock += 3;
    let g = p.begin_region("fib".to_string(), *clock);
    let r = if n <= 1 {
        1
    } else {
        sim_fib(p, clock, n - 1) + sim_fib(p, clock, n - 2)
    };
    *clock += 7;
    let (_, _) = p.end_region(g, *clock);
    r
}

// Recursion correctness: naive doubling recursion computing fib(6) with
// fib(0) == fib(1) == 1 enters the "fib" region 25 times; the aggregate
// counts all 25 and its cycle total equals the root invocation's inclusive
// duration -- no cycle double-counted across overlapping recursive frames.
#[test]
fn recursive_region_counts_and_conserves() {
    let mut p = Profiler::new();
    let mut clock: u64 = 100;

    let root_enter = clock + 3;
    let ans = sim_fib(&mut p, &mut clock, 6);
    let root_exit = clock;

    assert_eq!(ans, 13);
    assert_eq!(p.depth(), 0);

    let report = p.snapshot();
    assert_eq!(report.len(), 1);
    assert_eq!(report[0].name, "fib");
    assert_eq!(report[0].invocation_count, 25);
    assert_eq!(report[0].exclusive_cycles, root_exit - root_enter);
}

// Any balanced sequence of nested enters and exits leaves the stack empty
// once the outermost region exits.
#[test]
fn balanced_nesting_empties_stack() {
    let mut p = Profiler::new();
    let outer = p.begin_region("outer".to_string(), 10);
    let mid = p.begin_region("mid".to_string(), 20);
    let inner = p.begin_region("inner".to_string(), 30);
    assert_eq!(p.depth(), 3);
    p.end_region(inner, 35);
    let sib = p.begin_region("sibling".to_string(), 40);
    p.end_region(sib, 45);
    p.end_region(mid, 50);
    assert_eq!(p.depth(), 1);
    p.end_region(outer, 60);
    assert_eq!(p.depth(), 0);
}

// Self-time conservation: a parent containing two children is charged its
// inclusive duration minus the children's inclusive durations, whatever
// happens inside the children.
#[test]
fn parent_charged_exclusive_time_only() {
    let mut p = Profiler::new();
    let parent = p.begin_region("parent".to_string(), 1000);
    let a = p.begin_region("child_a".to_string(), 1100);
    let grand = p.begin_region("grandchild".to_string(), 1150);
    p.end_region(grand, 1180);
    let (_, a_excl) = p.end_region(a, 1300);
    let b = p.begin_region("child_b".to_string(), 1400);
    let (_, b_excl) = p.end_region(b, 1600);
    let (_, parent_excl) = p.end_region(parent, 2000);

    // child_a ran 1100..1300 inclusively but lost 30 cycles to the
    // grandchild; child_b ran 1400..1600 with no children.
    assert_eq!(a_excl, 170);
    assert_eq!(b_excl, 200);
    // parent: inclusive 1000 minus the children's inclusive 200 + 200.
    assert_eq!(parent_excl, 600);

    // Transitively, everything charged inside the parent's subtree sums to
    // the parent's inclusive duration.
    let total: u64 = p.snapshot().iter().map(|e| e.exclusive_cycles).sum();
    assert_eq!(total, 1000);
}

// Two sessions do not share state: each aggregates only its own regions.
#[test]
fn sessions_are_isolated() {
    let mut p1 = Profiler::new();
    let mut p2 = Profiler::new();
    let g1 = p1.begin_region("one".to_string(), 0);
    let g2 = p2.begin_region("two".to_string(), 0);
    p1.end_region(g1, 10);
    p2.end_region(g2, 20);
    let r1 = p1.snapshot();
    let r2 = p2.snapshot();
    assert_eq!(r1.len(), 1);
    assert_eq!(r2.len(), 1);
    assert_eq!(r1[0].name, "one");
    assert_eq!(r2[0].name, "two");
}

// Releasing out of order is not detected: the exit always completes the
// innermost frame, whatever guard is handed in.  Misplaced instrumentation
// skews attribution; it does not crash.
#[test]
fn mismatched_release_completes_innermost() {
    let mut p = Profiler::new();
    let outer = p.begin_region("outer".to_string(), 0);
    let _inner = p.begin_region("inner".to_string(), 10);
    let (name, _) = p.end_region(outer, 25);
    assert_eq!(name, "inner");
    assert_eq!(p.depth(), 1);
}

// The guard records the name and reading it was created with, and the
// latest reading the session saw is the last one handed in.
#[test]
fn guard_and_last_reading() {
    let mut p = Profiler::new();
    assert_eq!(p.last_reading(), 0);
    let g = p.begin_region("work".to_string(), 17);
    assert_eq!(g.name, "work");
    assert_eq!(g.start, 17);
    assert_eq!(p.last_reading(), 17);
    p.end_region(g, 90);
    assert_eq!(p.last_reading(), 90);
    assert_eq!(p.entry_len(), 1);
}
