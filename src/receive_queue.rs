//! The receive window: admits sequences that fall inside the window and hands
//! them out strictly in order.
use std::collections::BTreeSet;

use vstd::prelude::*;

use crate::sequence::{seq_add, seq_dist, seq_lt, Seq16, SEQ_HALF};

verus! {

pub struct ReceiveQueue {
    /// The admitted sequences that have not been popped
    queue: BTreeSet<u16>,
    /// The width of the window that admits new sequences
    capacity: usize,
    /// The first sequence of the receive window
    shadow_first: Seq16,
}

#[derive(Debug, PartialEq, Eq, Clone, Copy, Hash, Structural)]
pub enum ReceiveResult {
    Reject,
    Accept,
}

impl ReceiveQueue {
    /// The admitted sequences that have not been popped yet.
    pub closed spec fn admitted(&self) -> Set<u16> {
        self.queue@
    }

    pub closed spec fn capacity(&self) -> nat {
        self.capacity as nat
    }

    /// The left edge of the window: the sequence that `pop` hands out next.
    pub closed spec fn first(&self) -> u16 {
        self.shadow_first.value
    }

    /// No admitted sequence comes before the left edge of the window.
    pub closed spec fn wf(&self) -> bool {
        &&& self.queue@.finite()
        &&& forall|s: u16| #[trigger]
            self.queue@.contains(s) ==> !seq_lt(s, self.shadow_first.value)
    }

    pub fn new(capacity: usize) -> (r: ReceiveQueue)
        ensures
            r.wf(),
            r.admitted() == Set::<u16>::empty(),
            r.capacity() == capacity,
            r.first() == 0,
    {
        ReceiveQueue { queue: BTreeSet::new(), capacity, shadow_first: Seq16::new(0) }
    }

    /// Admits `seq` unless it comes before the window or lies `capacity` or
    /// more steps after its left edge. Admitting a sequence twice is accepted.
    pub fn receive(&mut self, seq: Seq16) -> (r: ReceiveResult)
        requires
            old(self).wf(),
        ensures
            final(self).wf(),
            (r == ReceiveResult::Reject) <==> (seq_lt(seq.value, old(self).first()) || seq_dist(
                old(self).first(),
                seq.value,
            ) >= old(self).capacity()),
            r == ReceiveResult::Accept ==> final(self).admitted() == old(self).admitted().insert(
                seq.value,
            ),
            r == ReceiveResult::Reject ==> final(self).admitted() == old(self).admitted(),
            final(self).first() == old(self).first(),
            final(self).capacity() == old(self).capacity(),
    {
        // Reject out of bounds packets
        if seq.precedes(&self.shadow_first) {
            return ReceiveResult::Reject;
        }
        if Seq16::dist(&self.shadow_first, &seq) as usize >= self.capacity {
            return ReceiveResult::Reject;
        }
        self.queue.insert(seq.value);
        ReceiveResult::Accept
    }

    /// Hands out the left edge of the window and moves the window on by one,
    /// if that sequence has been admitted; otherwise nothing changes. Since no
    /// admitted sequence comes before the left edge, this is exactly the case
    /// where the least admitted sequence is the left edge.
    pub fn pop(&mut self) -> (r: Option<Seq16>)
        requires
            old(self).wf(),
        ensures
            final(self).wf(),
            (r is Some) <==> old(self).admitted().contains(old(self).first()),
            r is Some ==> {
                &&& r == Some(Seq16 { value: old(self).first() })
                &&& final(self).admitted() == old(self).admitted().remove(old(self).first())
                &&& final(self).first() == seq_add(old(self).first(), 1)
            },
            r is None ==> *final(self) == *old(self),
            final(self).capacity() == old(self).capacity(),
    {
        let first = self.shadow_first;
        if !self.queue.contains(&first.value) {
            return None;
        }
        self.queue.remove(&first.value);
        self.shadow_first = first.add(1);
        proof {
            assert forall|s: u16| #[trigger] self.queue@.contains(s) implies !seq_lt(
                s,
                self.shadow_first.value,
            ) by {
                assert(old(self).queue@.contains(s));
                assert(s != first.value);
                assert(seq_dist(first.value, s) <= SEQ_HALF);
            }
        }
        Some(first)
    }

    /// Sets the width of the window for later admissions; admitted sequences
    /// stay as they are.
    pub fn set_capacity(&mut self, capacity: usize)
        requires
            old(self).wf(),
        ensures
            final(self).wf(),
            final(self).capacity() == capacity,
            final(self).admitted() == old(self).admitted(),
            final(self).first() == old(self).first(),
    {
        self.capacity = capacity;
    }
}

} // verus!
