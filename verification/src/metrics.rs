//! Calibration arithmetic for the cycle counter.
//!
//! The counter advances at a fixed but initially unknown rate; its
//! frequency is estimated by correlating it with an OS reference timer of
//! known frequency over a busy-wait window.  Reading either timer is the
//! platform's business and happens outside this crate; the caller hands the
//! observed deltas in and this module does the arithmetic on them.

use vstd::prelude::*;

verus! {

/// Ticks per second of the OS reference timer: it reports microseconds.
pub fn get_os_time_freq() -> (freq: u64)
    ensures
        freq == 1000000u64,
{
    1_000_000
}

/// The exact number of reference ticks in `ms_to_wait` milliseconds, at
/// `os_freq` ticks per second.
pub open spec fn wait_ticks(os_freq: int, ms_to_wait: int) -> int {
    os_freq * ms_to_wait / 1000
}

/// How many reference ticks the calibration loop must wait for: the span of
/// `ms_to_wait` milliseconds on a timer of `os_freq` ticks per second,
/// saturated at the counter's width.
pub fn os_wait_time(os_freq: u64, ms_to_wait: u64) -> (ticks: u64)
    ensures
        wait_ticks(os_freq as int, ms_to_wait as int) <= u64::MAX ==> ticks == wait_ticks(
            os_freq as int,
            ms_to_wait as int,
        ),
        wait_ticks(os_freq as int, ms_to_wait as int) > u64::MAX ==> ticks == u64::MAX,
{
    proof {
        assert((os_freq as int) * (ms_to_wait as int) <= (u64::MAX as int) * (u64::MAX as int))
            by (nonlinear_arith)
            requires
                0 <= os_freq as int <= u64::MAX as int,
                0 <= ms_to_wait as int <= u64::MAX as int,
        ;
    }
    let q: u128 = (os_freq as u128) * (ms_to_wait as u128) / 1000;
    if q > u64::MAX as u128 {
        u64::MAX
    } else {
        q as u64
    }
}

/// The exact frequency estimate: cycles per reference tick, scaled to
/// cycles per second.
pub open spec fn freq_estimate(os_freq: int, cpu_elapsed: int, os_elapsed: int) -> int {
    os_freq * cpu_elapsed / os_elapsed
}

/// Estimate the cycle counter's frequency from one calibration window: the
/// counter advanced `cpu_elapsed` while the reference timer of `os_freq`
/// ticks per second advanced `os_elapsed`.  Zero elapsed reference time
/// yields 0 rather than a division by zero, as does an estimate beyond the
/// counter's width; the caller obtains the two deltas by busy-waiting on
/// the reference timer.
pub fn estimate_cpu_freq(os_freq: u64, cpu_elapsed: u64, os_elapsed: u64) -> (freq: u64)
    ensures
        os_elapsed == 0 ==> freq == 0,
        os_elapsed != 0 && freq_estimate(os_freq as int, cpu_elapsed as int, os_elapsed as int)
            <= u64::MAX ==> freq == freq_estimate(
            os_freq as int,
            cpu_elapsed as int,
            os_elapsed as int,
        ),
        os_elapsed != 0 && freq_estimate(os_freq as int, cpu_elapsed as int, os_elapsed as int)
            > u64::MAX ==> freq == u64::MAX,
{
    if os_elapsed == 0 {
        return 0;
    }
    proof {
        assert((os_freq as int) * (cpu_elapsed as int) <= (u64::MAX as int) * (u64::MAX as int))
            by (nonlinear_arith)
            requires
                0 <= os_freq as int <= u64::MAX as int,
                0 <= cpu_elapsed as int <= u64::MAX as int,
        ;
    }
    let q: u128 = (os_freq as u128) * (cpu_elapsed as u128) / (os_elapsed as u128);
    if q > u64::MAX as u128 {
        u64::MAX
    } else {
        q as u64
    }
}

} // verus!
