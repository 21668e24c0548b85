//! The wall clock by which a search keeps its time limit.

use vstd::prelude::*;
use std::time::{Duration, Instant};

verus! {

#[verifier::external_type_specification]
#[verifier::external_body]
pub struct ExInstant(Instant);

/// Reads the monotonic clock with `Instant::now`. Nothing is claimed of the
/// instant that comes back.
#[verifier::external_body]
pub(crate) fn start_clock() -> (started: Instant) {
    Instant::now()
}

/// The time that has passed since an instant, by `Instant::elapsed`. Nothing
/// is claimed of what comes back: it depends on the time of the call.
#[verifier::external_body]
pub(crate) fn time_since(started: &Instant) -> (passed: Duration) {
    started.elapsed()
}

/// The whole milliseconds of a span of time, by `Duration::as_millis`.
/// Nothing is claimed of the number that comes back.
#[verifier::external_body]
pub(crate) fn whole_millis(passed: &Duration) -> (millis: u128) {
    passed.as_millis()
}

/// The milliseconds that have passed since an instant; the greatest number
/// that fits where they are more.
fn elapsed_millis(started: &Instant) -> (millis: u64) {
    let passed = time_since(started);
    let millis = whole_millis(&passed);
    if millis > u64::MAX as u128 {
        u64::MAX
    } else {
        millis as u64
    }
}

/// A time limit: so many milliseconds from the moment the stopwatch was
/// started.
pub struct Stopwatch {
    pub started: Instant,
    pub limit_millis: Option<u64>,
}

/// Whether a limit is reached once so many milliseconds have passed: no
/// limit is never reached, and a limit is reached when at least as many
/// milliseconds have passed.
pub open spec fn expired_after(limit_millis: Option<u64>, elapsed: u64) -> bool {
    match limit_millis {
        None => false,
        Some(limit) => elapsed >= limit,
    }
}

impl Stopwatch {
    /// Starts a stopwatch with a limit, or with none.
    pub fn start(limit_millis: Option<u64>) -> (watch: Stopwatch)
        ensures
            watch.limit_millis == limit_millis,
    {
        Stopwatch { started: start_clock(), limit_millis }
    }

    /// Whether the limit is reached. The answer is what the limit gives for
    /// the milliseconds that have passed, whatever their number: so a
    /// stopwatch without a limit never reaches it, and a limit of zero is
    /// reached at once.
    pub fn expired(&self) -> (r: bool)
        ensures
            exists|elapsed: u64| r == #[trigger] expired_after(self.limit_millis, elapsed),
            self.limit_millis is None ==> !r,
            self.limit_millis == Some(0u64) ==> r,
    {
        match self.limit_millis {
            None => {
                assert(!expired_after(self.limit_millis, 0));
                false
            },
            Some(limit) => {
                let elapsed = elapsed_millis(&self.started);
                let r = Self::reached(elapsed, limit);
                assert(r == expired_after(self.limit_millis, elapsed));
                r
            },
        }
    }

    /// Whether a limit is reached after so many milliseconds.
    pub fn reached(elapsed: u64, limit: u64) -> (r: bool)
        ensures
            r == (elapsed >= limit),
    {
        elapsed >= limit
    }
}

} // verus!
