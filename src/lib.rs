//! A multipath datagram transport engine: sliding send and receive windows
//! over a 16-bit wrapping sequence space, per-sequence retransmission timers,
//! a channel registry that keeps payloads bound to channels, the
//! orchestrators of the send and receive paths, and the wire format of
//! frames. Time is always supplied by the caller.
pub mod sequence;
pub mod time;
pub mod send_queue;
pub mod receive_queue;
pub mod rtt_stopwatch;
pub mod timed_send_queue;
pub mod retransmit_queue;
pub mod sockets;
pub mod send;
pub mod frame;
pub mod receive;
