//! A stopwatch started when a frame is sent: it tells whether the frame has
//! timed out and, when the acknowledgement arrives, the round-trip time.
use vstd::prelude::*;

use crate::time::{elapsed, Duration, Instant};

verus! {

pub struct RttStopwatch {
    start: Instant,
    timeout: Duration,
}

impl RttStopwatch {
    /// When the stopwatch was started.
    pub closed spec fn started(&self) -> Instant {
        self.start
    }

    /// How long after `started` the stopwatch times out.
    pub closed spec fn limit(&self) -> Duration {
        self.timeout
    }

    /// Whether the stopwatch has timed out at `now`.
    pub open spec fn timed_out_at(&self, now: Instant) -> bool {
        elapsed(self.started(), now) >= self.limit().nanos
    }

    pub fn new(now: Instant, timeout: Duration) -> (r: RttStopwatch)
        ensures
            r.started() == now,
            r.limit() == timeout,
    {
        RttStopwatch { start: now, timeout }
    }

    /// Whether `now - start >= timeout`.
    pub fn is_timeout(&self, now: Instant) -> (r: bool)
        ensures
            r == self.timed_out_at(now),
    {
        now.saturating_duration_since(self.start).nanos >= self.timeout.nanos
    }

    /// The round-trip time, if the acknowledgement arrives at `now`.
    pub fn into_rtt(self, now: Instant) -> (r: Duration)
        ensures
            r.nanos == elapsed(self.started(), now),
    {
        now.saturating_duration_since(self.start)
    }

    pub fn timeout(&self) -> (r: Duration)
        ensures
            r == self.limit(),
    {
        self.timeout
    }
}

} // verus!
