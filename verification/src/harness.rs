//! The measurement harness's integer parts: the bench interface, where a bench's threads are
//! pinned, how a timed batch becomes a per-call value, the seam clock reading, and how a warm
//! stretch ended. The timing loops themselves, in floating point against the machine's clocks,
//! are outside this crate.

use vstd::prelude::*;

verus! {

/// A benchmark workload: a named operation that `step()` performs in a tight loop for sub-µs
/// latency measurement. Implementors own any setup state (channels, spawned threads,
/// counters). `step()` returns a value so the caller can `black_box` it against dead-code
/// elimination.
pub trait Bench {
    /// Human-readable name used in the report header.
    fn name(&self) -> &str;

    /// Run one unit of work. Return any value derived from the work to defeat DCE: the caller
    /// black-boxes it.
    fn step(&mut self) -> u64;
}

/// The CPU a pool gives the `thread_idx`-th thread: the pool read positionally with
/// wrap-around, `None` when the pool is empty.
pub open spec fn spec_cpu_for(pin_cpus: Seq<usize>, thread_idx: int) -> Option<usize> {
    if pin_cpus.len() == 0 {
        None
    } else {
        Some(pin_cpus[thread_idx % (pin_cpus.len() as int)])
    }
}

/// CPU id for the bench's `thread_idx`-th thread, using wrap-around over the pool. Returns
/// `None` when the pool is empty so callers can treat unpinned and pinned runs uniformly.
pub fn cpu_for(pin_cpus: &[usize], thread_idx: usize) -> (r: Option<usize>)
    ensures
        r == spec_cpu_for(pin_cpus@, thread_idx as int),
{
    if pin_cpus.len() == 0 {
        None
    } else {
        Some(pin_cpus[thread_idx % pin_cpus.len()])
    }
}

/// One delivered-clock read at a batch seam: the run-phase counterpart of the warmup's clock
/// series, and what makes per-run frequency min/max/median fall out of a record.
#[derive(Debug, Clone, Copy, PartialEq, Eq, Structural)]
pub struct SeamClock {
    /// Sample time, integer nanoseconds from the run's time origin.
    pub t_ns: u64,
    /// Logical CPU the read landed on.
    pub cpu: usize,
    /// Delivered frequency (kHz) as the driver reports it.
    pub khz: u64,
}

/// How the per-run warm stretch ended: the exit condition's outcome, carried into the report so
/// the stopping rule and the printed warmup certificate are one computation.
#[derive(Debug, Clone, Copy, PartialEq, Eq, Structural)]
pub enum WarmExit {
    /// The trailing window graded A before the cap: the run started post-ramp by construction.
    Settled,
    /// The cap elapsed with a gradeable window that never read A.
    Unstable,
    /// The cap elapsed before a gradeable window existed (a slow bench): the run proceeds
    /// uncertified.
    Uncertified,
}

/// `elapsed_ps / inner` rounded to the nearest picosecond, halves up, and clamped to `u64`.
pub open spec fn spec_round_elapsed_ps(elapsed_ps: int, inner: int) -> int {
    let q = (elapsed_ps + inner / 2) / inner;
    if q > u64::MAX {
        u64::MAX as int
    } else {
        q
    }
}

/// Per-call value: `elapsed_ps / inner`, rounded to nearest, in u128 so an hours-long
/// suspend-inflated sample can't overflow the ×1000 ns→ps conversion; the result clamps at
/// `u64::MAX`.
pub fn round_elapsed_ps(elapsed_ps: u128, inner: u64) -> (r: u64)
    requires
        inner > 0,
        elapsed_ps + inner / 2 <= u128::MAX,
    ensures
        r == spec_round_elapsed_ps(elapsed_ps as int, inner as int),
{
    let inner = inner as u128;
    let q = (elapsed_ps + inner / 2) / inner;
    if q > u64::MAX as u128 {
        u64::MAX
    } else {
        q as u64
    }
}

} // verus!
