//! The receive orchestrator: admits inbound payloads to the receive window,
//! answers admitted payloads and pings with acknowledgements, and hands the
//! payloads out in order.
use vstd::prelude::*;

use crate::frame::{Frame, PayloadAck, PingAck};
use crate::receive_queue::{ReceiveQueue, ReceiveResult};
use crate::sequence::{seq_dist, seq_lt, Seq16};

verus! {

pub struct Receive {
    queue: ReceiveQueue,
}

impl Receive {
    /// The receive window.
    pub closed spec fn window(&self) -> ReceiveQueue {
        self.queue
    }

    pub closed spec fn wf(&self) -> bool {
        self.queue.wf()
    }

    pub fn new(capacity: usize) -> (r: Receive)
        ensures
            r.wf(),
            r.window().admitted() == Set::<u16>::empty(),
            r.window().capacity() == capacity,
            r.window().first() == 0,
    {
        Receive { queue: ReceiveQueue::new(capacity) }
    }

    /// Takes in an inbound frame and returns the acknowledgement to send
    /// back, if any. A payload is offered to the receive window and
    /// acknowledged when the window admits it; one the window rejects is
    /// dropped. A ping is acknowledged and leaves the window alone. Other
    /// frames change nothing and get no answer.
    pub fn on_frame(&mut self, frame: &Frame) -> (r: Option<Frame>)
        requires
            old(self).wf(),
        ensures
            final(self).wf(),
            final(self).window().first() == old(self).window().first(),
            final(self).window().capacity() == old(self).window().capacity(),
            match *frame {
                Frame::Payload(p) => {
                    let w = old(self).window();
                    let in_window = !seq_lt(p.seq.value, w.first()) && seq_dist(w.first(), p.seq.value)
                        < w.capacity();
                    &&& in_window ==> r == Some(Frame::PayloadAck(PayloadAck { seq: p.seq }))
                        && final(self).window().admitted() == w.admitted().insert(p.seq.value)
                    &&& !in_window ==> r is None && final(self).window().admitted() == w.admitted()
                },
                Frame::Ping(p) => r == Some(Frame::PingAck(PingAck { seq: p.seq }))
                    && final(self).window().admitted() == old(self).window().admitted(),
                _ => r is None && final(self).window().admitted() == old(self).window().admitted(),
            },
    {
        match frame {
            Frame::Payload(payload) => match self.queue.receive(payload.seq) {
                ReceiveResult::Accept => Some(Frame::PayloadAck(PayloadAck { seq: payload.seq })),
                ReceiveResult::Reject => None,
            },
            Frame::Ping(ping) => Some(Frame::PingAck(PingAck { seq: ping.seq })),
            _ => None,
        }
    }

    /// The next payload in order, if it has arrived.
    pub fn pop(&mut self) -> (r: Option<Seq16>)
        requires
            old(self).wf(),
        ensures
            final(self).wf(),
            (r is Some) <==> old(self).window().admitted().contains(old(self).window().first()),
            r is Some ==> r == Some(Seq16 { value: old(self).window().first() }),
            final(self).window().capacity() == old(self).window().capacity(),
    {
        self.queue.pop()
    }
}

} // verus!
