//! The send window: issues sequence numbers in order and tracks the ones that
//! are still outstanding.
use std::collections::BTreeSet;

use vstd::prelude::*;

use crate::sequence::{seq_add, Seq16, SEQ_SPACE};

verus! {

pub struct SendQueue {
    /// The outstanding sequences
    queue: BTreeSet<u16>,
    /// At most this many sequences are outstanding when a new one is issued
    capacity: usize,
    /// The sequence that the next `send` issues
    shadow_end: Seq16,
    /// How many sequences this window has issued since it was made
    issued: Ghost<nat>,
}

impl SendQueue {
    /// The sequences issued and not yet acknowledged.
    pub closed spec fn outstanding(&self) -> Set<u16> {
        self.queue@
    }

    pub closed spec fn capacity(&self) -> nat {
        self.capacity as nat
    }

    /// The sequence that the next successful `send` issues.
    pub closed spec fn next(&self) -> u16 {
        self.shadow_end.value
    }

    /// The number of sequences issued since the window was made.
    pub closed spec fn issued(&self) -> nat {
        self.issued@
    }

    pub closed spec fn wf(&self) -> bool {
        &&& self.queue@.finite()
        &&& self.shadow_end.value == self.issued@ % (SEQ_SPACE as nat)
    }

    pub fn new(capacity: usize) -> (r: SendQueue)
        ensures
            r.wf(),
            r.outstanding() == Set::<u16>::empty(),
            r.capacity() == capacity,
            r.next() == 0,
            r.issued() == 0,
    {
        SendQueue {
            queue: BTreeSet::new(),
            capacity,
            shadow_end: Seq16::new(0),
            issued: Ghost(0),
        }
    }

    /// Issues the next sequence, unless `capacity` sequences or more are
    /// outstanding. The `n`-th sequence issued since the window was made is
    /// `n mod 2^16`, so issued sequences run on in wrap order without gaps.
    pub fn send(&mut self) -> (r: Option<Seq16>)
        requires
            old(self).wf(),
        ensures
            final(self).wf(),
            old(self).outstanding().len() >= old(self).capacity() ==> r is None && *final(self)
                == *old(self),
            old(self).outstanding().len() < old(self).capacity() ==> {
                &&& r == Some(Seq16 { value: old(self).next() })
                &&& old(self).next() == old(self).issued() % (SEQ_SPACE as nat)
                &&& final(self).outstanding() == old(self).outstanding().insert(old(self).next())
                &&& final(self).next() == seq_add(old(self).next(), 1)
                &&& final(self).issued() == old(self).issued() + 1
                &&& final(self).capacity() == old(self).capacity()
            },
    {
        if self.queue.len() >= self.capacity {
            return None;
        }
        let seq = self.shadow_end;
        self.queue.insert(seq.value);
        self.shadow_end = seq.add(1);
        self.issued = Ghost(self.issued@ + 1);
        proof {
            let n = SEQ_SPACE as int;
            let i = old(self).issued@ as int;
            assert((i % n + 1) % n == (i + 1) % n) by (nonlinear_arith)
                requires
                    n > 0,
            ;
        }
        Some(seq)
    }

    /// Retires `seq`; nothing happens when it is not outstanding.
    pub fn ack(&mut self, seq: Seq16)
        requires
            old(self).wf(),
        ensures
            final(self).wf(),
            final(self).outstanding() == old(self).outstanding().remove(seq.value),
            final(self).next() == old(self).next(),
            final(self).issued() == old(self).issued(),
            final(self).capacity() == old(self).capacity(),
    {
        self.queue.remove(&seq.value);
    }

    /// Sets the capacity; outstanding sequences stay as they are.
    pub fn set_capacity(&mut self, capacity: usize)
        requires
            old(self).wf(),
        ensures
            final(self).wf(),
            final(self).capacity() == capacity,
            final(self).outstanding() == old(self).outstanding(),
            final(self).next() == old(self).next(),
            final(self).issued() == old(self).issued(),
    {
        self.capacity = capacity;
    }
}

} // verus!
