//! Points in time and spans of time, in nanoseconds. The engine never reads a
//! clock: every point in time is handed in by the caller, measured from an
//! origin of the caller's choosing.
use vstd::prelude::*;

verus! {

pub const NANOS_PER_MILLI: u64 = 1_000_000;

pub const NANOS_PER_SEC: u64 = 1_000_000_000;

/// A span of time.
#[derive(Clone, Copy, Debug, PartialEq, Eq, Hash, Structural)]
pub struct Duration {
    pub nanos: u64,
}

/// A point in time, as nanoseconds since the caller's origin.
#[derive(Clone, Copy, Debug, PartialEq, Eq, Hash, Structural)]
pub struct Instant {
    pub nanos: u64,
}

/// Time elapsed from `start` to `now`; zero when `now` is not later.
pub open spec fn elapsed(start: Instant, now: Instant) -> u64 {
    if now.nanos >= start.nanos {
        (now.nanos - start.nanos) as u64
    } else {
        0
    }
}

impl Duration {
    pub fn from_nanos(nanos: u64) -> (r: Duration)
        ensures
            r.nanos == nanos,
    {
        Duration { nanos }
    }

    pub fn from_millis(millis: u64) -> (r: Duration)
        requires
            millis * NANOS_PER_MILLI <= u64::MAX,
        ensures
            r.nanos == millis * NANOS_PER_MILLI,
    {
        Duration { nanos: millis * NANOS_PER_MILLI }
    }

    pub fn from_secs(secs: u64) -> (r: Duration)
        requires
            secs * NANOS_PER_SEC <= u64::MAX,
        ensures
            r.nanos == secs * NANOS_PER_SEC,
    {
        Duration { nanos: secs * NANOS_PER_SEC }
    }

    pub fn as_nanos(&self) -> (r: u64)
        ensures
            r == self.nanos,
    {
        self.nanos
    }

    /// `k` times this span, saturating at the largest span.
    pub fn saturating_mul(&self, k: u64) -> (r: Duration)
        ensures
            r.nanos == if self.nanos * k > u64::MAX { u64::MAX as int } else { self.nanos * k },
    {
        if k == 0 {
            Duration { nanos: 0 }
        } else if self.nanos > u64::MAX / k {
            proof {
                assert(self.nanos * k > u64::MAX) by (nonlinear_arith)
                    requires
                        self.nanos > u64::MAX / k,
                        k > 0,
                ;
            }
            Duration { nanos: u64::MAX }
        } else {
            proof {
                assert(self.nanos * k <= u64::MAX) by (nonlinear_arith)
                    requires
                        self.nanos <= u64::MAX / k,
                        k > 0,
                ;
            }
            Duration { nanos: self.nanos * k }
        }
    }
}

impl Instant {
    pub fn from_nanos(nanos: u64) -> (r: Instant)
        ensures
            r.nanos == nanos,
    {
        Instant { nanos }
    }

    pub fn as_nanos(&self) -> (r: u64)
        ensures
            r == self.nanos,
    {
        self.nanos
    }

    /// The point `d` after this one.
    pub fn add(&self, d: Duration) -> (r: Instant)
        requires
            self.nanos + d.nanos <= u64::MAX,
        ensures
            r.nanos == self.nanos + d.nanos,
    {
        Instant { nanos: self.nanos + d.nanos }
    }

    /// Time elapsed from `earlier` to this point; zero when `earlier` is not
    /// before it.
    pub fn saturating_duration_since(&self, earlier: Instant) -> (r: Duration)
        ensures
            r.nanos == elapsed(earlier, *self),
    {
        Duration { nanos: self.nanos.saturating_sub(earlier.nanos) }
    }
}

} // verus!
