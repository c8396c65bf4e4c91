//! A send window whose timers can be cancelled on retransmission: the
//! sequence stays outstanding, and its acknowledgement then yields no
//! round-trip sample, since the acknowledgement may answer either copy.
use std::collections::BTreeMap;

use vstd::prelude::*;

use crate::rtt_stopwatch::RttStopwatch;
use crate::send_queue::SendQueue;
use crate::sequence::{seq_add, Seq16};
use crate::time::{elapsed, Duration, Instant};
use crate::timed_send_queue::RetransmitError;

verus! {

pub struct RetransmitQueue {
    rtt_stopwatches: BTreeMap<u16, RttStopwatch>,
    /// Packets that have been sent but not yet acknowledged
    send_queue: SendQueue,
}

#[derive(Debug, PartialEq, Eq, Clone, Copy, Hash, Structural)]
pub enum RetransmitResult {
    Wait,
    Retransmit,
}

impl RetransmitQueue {
    /// The running timers, by sequence.
    pub closed spec fn timers(&self) -> Map<u16, RttStopwatch> {
        self.rtt_stopwatches@
    }

    /// The underlying send window.
    pub closed spec fn window(&self) -> SendQueue {
        self.send_queue
    }

    /// Only outstanding sequences have a timer.
    pub closed spec fn wf(&self) -> bool {
        &&& self.send_queue.wf()
        &&& self.rtt_stopwatches@.dom().subset_of(self.send_queue.outstanding())
    }

    pub fn new(capacity: usize) -> (r: RetransmitQueue)
        ensures
            r.wf(),
            r.timers() == Map::<u16, RttStopwatch>::empty(),
            r.window().outstanding() == Set::<u16>::empty(),
            r.window().capacity() == capacity,
            r.window().next() == 0,
            r.window().issued() == 0,
    {
        RetransmitQueue { rtt_stopwatches: BTreeMap::new(), send_queue: SendQueue::new(capacity) }
    }

    /// Whether `seq` is due for retransmission at `now`. When it is, its
    /// timer is cancelled and the sequence stays outstanding.
    pub fn retransmit(&mut self, seq: Seq16, now: Instant) -> (r: Result<
        RetransmitResult,
        RetransmitError,
    >)
        requires
            old(self).wf(),
        ensures
            final(self).wf(),
            final(self).window() == old(self).window(),
            !old(self).timers().contains_key(seq.value) ==> {
                &&& r == Err::<RetransmitResult, RetransmitError>(
                    RetransmitError::SequenceNumberNotFound,
                )
                &&& final(self).timers() == old(self).timers()
            },
            old(self).timers().contains_key(seq.value) ==> {
                let due = old(self).timers()[seq.value].timed_out_at(now);
                &&& !due ==> r == Ok::<RetransmitResult, RetransmitError>(RetransmitResult::Wait)
                    && final(self).timers() == old(self).timers()
                &&& due ==> r == Ok::<RetransmitResult, RetransmitError>(
                    RetransmitResult::Retransmit,
                ) && final(self).timers() == old(self).timers().remove(seq.value)
            },
    {
        let timed_out = match self.rtt_stopwatches.get(&seq.value) {
            Some(stopwatch) => stopwatch.is_timeout(now),
            None => return Err(RetransmitError::SequenceNumberNotFound),
        };
        if !timed_out {
            return Ok(RetransmitResult::Wait);
        }
        // Cancel the stopwatch; do not start a new one here
        self.rtt_stopwatches.remove(&seq.value);
        Ok(RetransmitResult::Retransmit)
    }

    /// Issues the next sequence of the window and starts its timer at `now`
    /// with `timeout`. Fails, changing nothing, when the window is full.
    pub fn send(&mut self, now: Instant, timeout: Duration) -> (r: Option<Seq16>)
        requires
            old(self).wf(),
        ensures
            final(self).wf(),
            old(self).window().outstanding().len() >= old(self).window().capacity() ==> r is None
                && *final(self) == *old(self),
            old(self).window().outstanding().len() < old(self).window().capacity() ==> {
                &&& r == Some(Seq16 { value: old(self).window().next() })
                &&& final(self).window().outstanding() == old(self).window().outstanding().insert(
                    old(self).window().next(),
                )
                &&& final(self).window().next() == seq_add(old(self).window().next(), 1)
                &&& final(self).window().issued() == old(self).window().issued() + 1
                &&& final(self).window().capacity() == old(self).window().capacity()
                &&& final(self).timers().dom() == old(self).timers().dom().insert(
                    old(self).window().next(),
                )
                &&& final(self).timers().remove(old(self).window().next()) == old(
                    self,
                ).timers().remove(old(self).window().next())
                &&& final(self).timers()[old(self).window().next()].started() == now
                &&& final(self).timers()[old(self).window().next()].limit() == timeout
            },
    {
        let seq = match self.send_queue.send() {
            Some(seq) => seq,
            None => return None,
        };
        self.rtt_stopwatches.insert(seq.value, RttStopwatch::new(now, timeout));
        assert(self.rtt_stopwatches@.dom() =~= old(self).rtt_stopwatches@.dom().insert(seq.value));
        assert(self.rtt_stopwatches@.remove(seq.value) =~= old(self).rtt_stopwatches@.remove(
            seq.value,
        ));
        Some(seq)
    }

    /// Retires `seq`. Yields the time since its timer started, and nothing
    /// when its timer was cancelled or never ran.
    pub fn ack(&mut self, seq: Seq16, now: Instant) -> (r: Option<Duration>)
        requires
            old(self).wf(),
        ensures
            final(self).wf(),
            final(self).timers() == old(self).timers().remove(seq.value),
            final(self).window().outstanding() == old(self).window().outstanding().remove(
                seq.value,
            ),
            final(self).window().next() == old(self).window().next(),
            final(self).window().issued() == old(self).window().issued(),
            final(self).window().capacity() == old(self).window().capacity(),
            r == if old(self).timers().contains_key(seq.value) {
                Some(Duration { nanos: elapsed(old(self).timers()[seq.value].started(), now) })
            } else {
                None::<Duration>
            },
    {
        self.send_queue.ack(seq);
        match self.rtt_stopwatches.remove(&seq.value) {
            Some(stopwatch) => Some(stopwatch.into_rtt(now)),
            None => None,
        }
    }
}

} // verus!
