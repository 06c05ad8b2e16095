//! The decisions of a target's poller: when to sweep, and what a sweep leads to.
use vstd::prelude::*;
use crate::ping_result::PingResult;
use crate::sweep::SweepError;
use rand::Rng;

verus! {

/// Seconds from the start of one sweep to the start of the next.
pub const INTERVAL_SECONDS: u64 = 60;

/// Startup delays are drawn below this many seconds.
pub const JITTER_SECONDS: u64 = 60;

/// The exit status of the process when a sweep could not run.
pub const SWEEP_FAILED_EXIT_CODE: i32 = 4;

/// Relies on `rand::Rng::gen_range` over `0..bound`: a value below the bound.
#[verifier::external_body]
fn random_below(bound: u64) -> (r: u64)
    requires
        bound > 0,
    ensures
        r < bound,
{
    rand::thread_rng().gen_range(0..bound)
}

/// A random delay before a poller's first sweep, to spread the sweeps of
/// many targets over the interval.
pub fn startup_delay_seconds() -> (r: u64)
    ensures
        r < JITTER_SECONDS,
{
    random_below(JITTER_SECONDS)
}

/// How long to sleep after a sweep that took `elapsed` seconds.
pub open spec fn sleep_after(interval: int, elapsed: int) -> int {
    if elapsed >= interval {
        0
    } else {
        interval - elapsed
    }
}

/// The sleep that keeps sweeps `interval` seconds apart, start to start.
pub fn next_sleep_seconds(interval: u64, elapsed: u64) -> (r: u64)
    ensures
        r == sleep_after(interval as int, elapsed as int),
{
    if elapsed >= interval {
        0
    } else {
        interval - elapsed
    }
}

/// The next sweep never starts sooner than `interval` after the start of the
/// one before, nor later than it needs to: the sleep is never negative, and
/// a sweep that overran the interval is followed at once by the next.
pub proof fn lemma_cadence(interval: int, elapsed: int)
    requires
        0 <= elapsed,
        0 <= interval,
    ensures
        sleep_after(interval, elapsed) >= 0,
        elapsed + sleep_after(interval, elapsed) >= interval,
        elapsed + sleep_after(interval, elapsed) == if elapsed >= interval {
            elapsed
        } else {
            interval
        },
{
}

/// What a poller does after a sweep.
#[derive(Debug, Clone, PartialEq, Eq)]
pub enum PollStep {
    /// Replace the target's results, then sleep before the next sweep.
    Publish { results: Vec<PingResult>, sleep_seconds: u64 },
    /// Stop the process with this status.
    Exit { code: i32 },
}

/// The step after a sweep that took `elapsed` seconds.
pub fn after_sweep(outcome: Result<Vec<PingResult>, SweepError>, elapsed: u64) -> (r: PollStep)
    ensures
        match outcome {
            Ok(results) => r == PollStep::Publish {
                results,
                sleep_seconds: sleep_after(INTERVAL_SECONDS as int, elapsed as int) as u64,
            },
            Err(_) => r == PollStep::Exit { code: SWEEP_FAILED_EXIT_CODE },
        },
{
    match outcome {
        Ok(results) => PollStep::Publish {
            results,
            sleep_seconds: next_sleep_seconds(INTERVAL_SECONDS, elapsed),
        },
        Err(_) => PollStep::Exit { code: SWEEP_FAILED_EXIT_CODE },
    }
}

} // verus!
