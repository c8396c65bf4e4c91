//! The timed send tracker: a send window with a stopwatch per outstanding
//! sequence, tagged with the owner that the sequence was sent for.
use std::collections::BTreeMap;

use vstd::prelude::*;
use vstd::std_specs::btree::{increasing_seq, spec_btree_map_iter};
use vstd::laws_cmp::obeys_cmp;
use vstd::std_specs::cmp::{OrdSpec, PartialEqSpec};
use vstd::std_specs::iter::IteratorSpec;

use crate::rtt_stopwatch::RttStopwatch;
use crate::send_queue::SendQueue;
use crate::sequence::{seq_add, Seq16};
use crate::time::{elapsed, Duration, Instant};

verus! {

/// A stopwatch together with the owner it was started for.
pub struct KeyedRttStopwatch<K> {
    pub stopwatch: RttStopwatch,
    pub key: K,
}

pub struct TimedSendQueue<K> {
    rtt_stopwatches: BTreeMap<u16, KeyedRttStopwatch<K>>,
    /// Packets that have been sent but not yet acknowledged
    send_queue: SendQueue,
}

#[derive(Debug, PartialEq, Eq, Clone, Copy, Hash, Structural)]
pub enum RetransmitError {
    SequenceNumberNotFound,
}

/// The round-trip sample that an acknowledgement of `seq` by `key` at `now`
/// yields: the time since the timer started, when a timer runs for `seq` and
/// its owner is `key`; nothing otherwise.
pub open spec fn rtt_sample<K: PartialEq>(
    timers: Map<u16, KeyedRttStopwatch<K>>,
    seq: u16,
    now: Instant,
    key: K,
) -> Option<Duration> {
    if timers.contains_key(seq) && timers[seq].key.eq_spec(&key) {
        Some(Duration { nanos: elapsed(timers[seq].stopwatch.started(), now) })
    } else {
        None
    }
}

/// `e` was started at `now` with `timeout` for `key`.
pub open spec fn started_for<K>(e: KeyedRttStopwatch<K>, now: Instant, timeout: Duration, key: K) -> bool {
    &&& e.stopwatch.started() == now
    &&& e.stopwatch.limit() == timeout
    &&& e.key == key
}

/// What `send` does: when the window is full nothing changes and nothing is
/// issued; otherwise the window's next sequence is issued and its timer is
/// started at `now` with `timeout` for `key`.
pub open spec fn sent<K: PartialEq>(
    pre: TimedSendQueue<K>,
    post: TimedSendQueue<K>,
    now: Instant,
    timeout: Duration,
    key: K,
    r: Option<Seq16>,
) -> bool {
    let next = pre.window().next();
    if pre.window().outstanding().len() >= pre.window().capacity() {
        r is None && post == pre
    } else {
        &&& r == Some(Seq16 { value: next })
        &&& post.window().outstanding() == pre.window().outstanding().insert(next)
        &&& post.window().next() == seq_add(next, 1)
        &&& post.window().issued() == pre.window().issued() + 1
        &&& post.window().capacity() == pre.window().capacity()
        &&& post.timers().dom() == pre.timers().dom().insert(next)
        &&& post.timers().remove(next) == pre.timers().remove(next)
        &&& started_for(post.timers()[next], now, timeout, key)
    }
}

/// What `ack` of `seq` does to the tracker: `seq` leaves the window and its
/// timer stops.
pub open spec fn acked<K: PartialEq>(pre: TimedSendQueue<K>, post: TimedSendQueue<K>, seq: u16) -> bool {
    &&& post.timers() == pre.timers().remove(seq)
    &&& post.window().outstanding() == pre.window().outstanding().remove(seq)
    &&& post.window().next() == pre.window().next()
    &&& post.window().issued() == pre.window().issued()
    &&& post.window().capacity() == pre.window().capacity()
}

impl<K: PartialEq> TimedSendQueue<K> {
    /// The running timers, by sequence.
    pub closed spec fn timers(&self) -> Map<u16, KeyedRttStopwatch<K>> {
        self.rtt_stopwatches@
    }

    /// The underlying send window.
    pub closed spec fn window(&self) -> SendQueue {
        self.send_queue
    }

    /// Exactly the outstanding sequences have a timer.
    pub closed spec fn wf(&self) -> bool {
        &&& self.send_queue.wf()
        &&& self.rtt_stopwatches@.dom() == self.send_queue.outstanding()
    }

    pub fn new(capacity: usize) -> (r: TimedSendQueue<K>)
        ensures
            r.wf(),
            r.timers() == Map::<u16, KeyedRttStopwatch<K>>::empty(),
            r.window().outstanding() == Set::<u16>::empty(),
            r.window().capacity() == capacity,
            r.window().next() == 0,
            r.window().issued() == 0,
    {
        TimedSendQueue { rtt_stopwatches: BTreeMap::new(), send_queue: SendQueue::new(capacity) }
    }

    /// Restarts the timer of `seq` at `now` with `timeout`, now owned by
    /// `key`. An acknowledgement by the former owner then yields no sample.
    pub fn retransmit(&mut self, seq: Seq16, now: Instant, timeout: Duration, key: K) -> (r: Result<
        (),
        RetransmitError,
    >)
        requires
            old(self).wf(),
        ensures
            final(self).wf(),
            final(self).window() == old(self).window(),
            old(self).timers().contains_key(seq.value) ==> {
                &&& r is Ok
                &&& final(self).timers().dom() == old(self).timers().dom()
                &&& final(self).timers().remove(seq.value) == old(self).timers().remove(seq.value)
                &&& started_for(final(self).timers()[seq.value], now, timeout, key)
            },
            !old(self).timers().contains_key(seq.value) ==> r == Err::<(), RetransmitError>(
                RetransmitError::SequenceNumberNotFound,
            ) && final(self).timers() == old(self).timers(),
    {
        if !self.rtt_stopwatches.contains_key(&seq.value) {
            return Err(RetransmitError::SequenceNumberNotFound);
        }
        let stopwatch = RttStopwatch::new(now, timeout);
        self.rtt_stopwatches.insert(seq.value, KeyedRttStopwatch { stopwatch, key });
        assert(self.rtt_stopwatches@.dom() =~= old(self).rtt_stopwatches@.dom());
        assert(self.rtt_stopwatches@.remove(seq.value) =~= old(self).rtt_stopwatches@.remove(
            seq.value,
        ));
        Ok(())
    }

    /// The stopwatch of `seq`, if one runs.
    pub fn rtt_stopwatch(&self, seq: Seq16) -> (r: Option<&RttStopwatch>)
        ensures
            match r {
                Some(w) => self.timers().contains_key(seq.value) && *w == self.timers()[seq.value].stopwatch,
                None => !self.timers().contains_key(seq.value),
            },
    {
        match self.rtt_stopwatches.get(&seq.value) {
            Some(entry) => Some(&entry.stopwatch),
            None => None,
        }
    }

    /// The sequences whose timer has run out at `now`, each once, in
    /// increasing order of value.
    pub fn collect_timeout_sequences(&self, now: Instant) -> (r: Vec<Seq16>)
        ensures
            forall|s: u16| #[trigger]
                r@.contains(Seq16 { value: s }) ==> self.timers().contains_key(s)
                    && self.timers()[s].stopwatch.timed_out_at(now),
            forall|s: u16|
                self.timers().contains_key(s) && #[trigger] self.timers()[s].stopwatch.timed_out_at(now)
                    ==> r@.contains(Seq16 { value: s }),
            forall|i: int, j: int| 0 <= i < j < r.len() ==> r[i].value < r[j].value,
    {
        let mut sequences: Vec<Seq16> = Vec::new();
        let ghost items = spec_btree_map_iter(&self.rtt_stopwatches).remaining();
        let ghost mut done: int = 0;
        for (seq, entry) in it: self.rtt_stopwatches.iter()
            invariant
                it.seq() == items,
                items == spec_btree_map_iter(&self.rtt_stopwatches).remaining(),
                done == it.index(),
                increasing_seq(items.map_values(|kv: (&u16, &KeyedRttStopwatch<K>)| *kv.0)),
                forall|i: int, j: int|
                    0 <= i < j < sequences.len() ==> sequences[i].value < sequences[j].value,
                forall|j: int, i: int|
                    0 <= j < sequences.len() && done <= i < items.len() ==> #[trigger] sequences[j].value
                        < *(#[trigger] items[i]).0,
                forall|i: int|
                    0 <= i < done && (#[trigger] items[i].1).stopwatch.timed_out_at(now)
                        ==> sequences@.contains(Seq16 { value: *items[i].0 }),
                forall|j: int|
                    0 <= j < sequences.len() ==> self.rtt_stopwatches@.contains_key(
                        #[trigger] sequences[j].value,
                    ) && self.rtt_stopwatches@[sequences[j].value].stopwatch.timed_out_at(now),
        {
            proof {
                let keys = items.map_values(|kv: (&u16, &KeyedRttStopwatch<K>)| *kv.0);
                assert(items[done] == (seq, entry));
                assert(obeys_cmp::<u16>());
                assert forall|i: int| done < i < items.len() implies *seq < *(
                #[trigger] items[i]).0 by {
                    let x: u16 = keys[done];
                    let y: u16 = keys[i];
                    assert(x.cmp_spec(&y) is Less);
                }
            }
            let ghost prev = sequences@;
            if entry.stopwatch.is_timeout(now) {
                sequences.push(Seq16::new(*seq));
                proof {
                    assert(sequences@[sequences.len() - 1] == Seq16 { value: *seq });
                }
            }
            proof {
                assert forall|i: int|
                    0 <= i <= done && (#[trigger] items[i].1).stopwatch.timed_out_at(
                        now,
                    ) implies sequences@.contains(Seq16 { value: *items[i].0 }) by {
                    if i < done {
                        let w = choose|k: int|
                            0 <= k < prev.len() && prev[k] == Seq16 { value: *items[i].0 };
                        assert(sequences@[w] == prev[w]);
                    }
                }
                done = done + 1;
            }
        }
        proof {
            assert forall|s: u16|
                self.timers().contains_key(s) && #[trigger] self.timers()[s].stopwatch.timed_out_at(
                    now,
                ) implies sequences@.contains(Seq16 { value: s }) by {
                let m = self.rtt_stopwatches@;
                assert(items.contains((&s, &m[s])));
                let i = choose|i: int| 0 <= i < items.len() && items[i] == (&s, &m[s]);
                assert(items[i].1.stopwatch.timed_out_at(now));
            }
            assert forall|s: u16| #[trigger]
                sequences@.contains(Seq16 { value: s }) implies self.timers().contains_key(s)
                    && self.timers()[s].stopwatch.timed_out_at(now) by {
                let j = choose|j: int|
                    0 <= j < sequences.len() && sequences@[j] == Seq16 { value: s };
                assert(sequences[j].value == s);
            }
        }
        sequences
    }

    /// Issues the next sequence of the window and starts its timer at `now`
    /// with `timeout`, owned by `key`. Fails, changing nothing, when the
    /// window is full.
    pub fn send(&mut self, now: Instant, timeout: Duration, key: K) -> (r: Option<Seq16>)
        requires
            old(self).wf(),
        ensures
            final(self).wf(),
            sent(*old(self), *final(self), now, timeout, key, r),
    {
        let seq = match self.send_queue.send() {
            Some(seq) => seq,
            None => return None,
        };
        let stopwatch = RttStopwatch::new(now, timeout);
        self.rtt_stopwatches.insert(seq.value, KeyedRttStopwatch { stopwatch, key });
        assert(self.rtt_stopwatches@.dom() =~= old(self).rtt_stopwatches@.dom().insert(seq.value));
        assert(self.rtt_stopwatches@.remove(seq.value) =~= old(self).rtt_stopwatches@.remove(
            seq.value,
        ));
        Some(seq)
    }

    /// Retires `seq` from the window and stops its timer. Yields the time
    /// since the timer started when it was owned by `key`, and nothing when
    /// another owner holds it or no timer ran.
    pub fn ack(&mut self, seq: Seq16, now: Instant, key: K) -> (r: Option<Duration>)
        requires
            old(self).wf(),
        ensures
            final(self).wf(),
            acked(*old(self), *final(self), seq.value),
            K::obeys_eq_spec() ==> r == rtt_sample(old(self).timers(), seq.value, now, key),
            r is Some ==> old(self).timers().contains_key(seq.value),
    {
        self.send_queue.ack(seq);
        let entry = match self.rtt_stopwatches.remove(&seq.value) {
            Some(entry) => entry,
            None => return None,
        };
        if entry.key == key {
            Some(entry.stopwatch.into_rtt(now))
        } else {
            None
        }
    }
}

} // verus!
