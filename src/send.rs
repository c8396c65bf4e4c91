//! The send orchestrator: splits outbound bytes over the channels, emits
//! payload and ping frame descriptors, takes in acknowledgements, and moves
//! payloads whose timer ran out to channels with good credit.
//!
//! The host weighs the channels (see `rtt_vector` for what it weighs them
//! by) and hands in each channel's share of the bytes; everything else is
//! decided here.
use vstd::prelude::*;

use crate::sequence::{seq_add, Seq16};
use crate::sockets::{
    self, ack_taken, bind_all, fd_added, fd_removed, rto_reassigned, ReassignPayloadError,
    RetransmitPayloads, Socket, Sockets,
};
use crate::time::{elapsed, Duration, Instant};
use crate::timed_send_queue::{acked, rtt_sample, sent, started_for, TimedSendQueue};

verus! {

#[derive(Debug, Clone, Copy, PartialEq, Eq, Structural)]
pub struct SendConfig {
    /// At most this many payloads are outstanding when a new one is sent
    pub payload_queue_size: usize,
    /// The payload timeout of a channel without a round-trip sample
    pub default_rto: Duration,
}

#[derive(Debug, Clone, Copy, PartialEq, Eq, Hash, Structural)]
pub struct PayloadSendFrame {
    pub fd: i32,
    pub seq: Seq16,
    pub payload_size: usize,
}

#[derive(Debug, Clone, Copy, PartialEq, Eq, Hash, Structural)]
pub struct PingSendFrame {
    pub fd: i32,
    pub seq: Seq16,
}

#[derive(Debug, Clone, Copy, PartialEq, Eq, Hash, Structural)]
pub enum SendFrame {
    Payload(PayloadSendFrame),
    Ping(PingSendFrame),
}

#[derive(Debug, Clone, Copy, PartialEq, Eq, Hash, Structural)]
pub enum AckSpace {
    Payload,
    Ping,
}

/// `shares[0] + ... + shares[n - 1]`.
pub open spec fn share_sum(shares: Seq<usize>, n: int) -> int
    decreases n,
{
    if n <= 0 {
        0
    } else {
        share_sum(shares, n - 1) + shares[n - 1]
    }
}

/// The bytes channel `i` is given: its share, cut down to what the shares
/// of the channels before it left of `budget`.
pub open spec fn allotted(shares: Seq<usize>, budget: int, i: int) -> int {
    let left = budget - share_sum(shares, i);
    if left <= 0 {
        0
    } else if shares[i] <= left {
        shares[i] as int
    } else {
        left
    }
}

/// The payload timeout of a channel: twice its round-trip time, saturating,
/// or `rto` when it has none.
pub open spec fn payload_timeout(rec: Socket, rto: Duration) -> Duration {
    match rec.last_rtt() {
        Some(r) => Duration {
            nanos: if 2 * r.nanos > u64::MAX { u64::MAX } else { (2 * r.nanos) as u64 },
        },
        None => rto,
    }
}

/// Whether the ping tracker of `rec` can issue a ping.
pub open spec fn can_ping(rec: Socket) -> bool {
    rec.pings().window().outstanding().len() < rec.pings().window().capacity()
}

/// The ping frames of the first `n` channels: one for each channel given no
/// bytes whose ping tracker has room, in channel order.
pub open spec fn ping_frames(reg: Sockets, shares: Seq<usize>, budget: int, n: int) -> Seq<SendFrame>
    decreases n,
{
    if n <= 0 {
        Seq::empty()
    } else {
        let rest = ping_frames(reg, shares, budget, n - 1);
        let rec = reg.records()[n - 1];
        if allotted(shares, budget, n - 1) == 0 && can_ping(rec) {
            rest.push(
                SendFrame::Ping(
                    PingSendFrame {
                        fd: reg.channels()[n - 1],
                        seq: Seq16 { value: rec.pings().window().next() },
                    },
                ),
            )
        } else {
            rest
        }
    }
}

/// The payload frames of the first `n` channels, and the payload window's
/// outstanding set and next sequence after them: in channel order, each
/// channel given bytes gets a frame with the window's next sequence while
/// the window has room.
pub open spec fn payload_run(
    reg: Sockets,
    shares: Seq<usize>,
    budget: int,
    outstanding: Set<u16>,
    capacity: nat,
    next: u16,
    n: int,
) -> (Seq<SendFrame>, Set<u16>, u16)
    decreases n,
{
    if n <= 0 {
        (Seq::empty(), outstanding, next)
    } else {
        let (frames, out, x) = payload_run(reg, shares, budget, outstanding, capacity, next, n - 1);
        let a = allotted(shares, budget, n - 1);
        if a > 0 && out.len() < capacity {
            (
                frames.push(
                    SendFrame::Payload(
                        PayloadSendFrame {
                            fd: reg.channels()[n - 1],
                            seq: Seq16 { value: x },
                            payload_size: a as usize,
                        },
                    ),
                ),
                out.insert(x),
                seq_add(x, 1),
            )
        } else {
            (frames, out, x)
        }
    }
}

/// The `(channel, sequence)` pairs of the payload frames among `frames`.
pub open spec fn payload_pairs(frames: Seq<SendFrame>) -> Seq<(i32, Seq16)>
    decreases frames.len(),
{
    if frames.len() == 0 {
        Seq::empty()
    } else {
        let rest = payload_pairs(frames.drop_last());
        match frames.last() {
            SendFrame::Payload(p) => rest.push((p.fd, p.seq)),
            SendFrame::Ping(_) => rest,
        }
    }
}

/// The payloads whose timer has run out at `now`.
pub open spec fn timed_out(q: TimedSendQueue<i32>, now: Instant) -> Set<u16> {
    Set::new(|s: u16| q.timers().contains_key(s) && q.timers()[s].stopwatch.timed_out_at(now))
}

/// The channels of `cs` with good credit and a round-trip time in `rs`,
/// each with that time, in order.
pub open spec fn rtt_entries(cs: Seq<i32>, rs: Seq<Socket>) -> Seq<(i32, Duration)>
    decreases cs.len(),
{
    if cs.len() == 0 {
        Seq::empty()
    } else {
        let rest = rtt_entries(cs.drop_last(), rs.take(cs.len() - 1));
        let rec = rs[cs.len() - 1];
        if rec.standing() == sockets::Credit::Good && rec.last_rtt() is Some {
            rest.push((cs.last(), rec.last_rtt()->Some_0))
        } else {
            rest
        }
    }
}

/// The sequences of `pairs`.
pub open spec fn sequences_of(pairs: Seq<(i32, Seq16)>) -> Set<u16> {
    Set::new(|s: u16| exists|k: int| 0 <= k < pairs.len() && (#[trigger] pairs[k]).1.value == s)
}

/// Whether a pair after position `k` carries the same sequence.
pub open spec fn later_duplicate(pairs: Seq<(i32, Seq16)>, k: int) -> bool {
    exists|k2: int| k < k2 < pairs.len() && (#[trigger] pairs[k2]).1 == pairs[k].1
}

/// The timer of each sent payload was started at `now` for its channel,
/// with the channel's payload timeout. (A sequence sent twice in one call,
/// which takes more than `2^16` channels, keeps the later timer.)
pub open spec fn payload_timers_started(
    pairs: Seq<(i32, Seq16)>,
    q: TimedSendQueue<i32>,
    reg: Sockets,
    rto: Duration,
    now: Instant,
) -> bool {
    forall|k: int|
        0 <= k < pairs.len() && !later_duplicate(pairs, k) ==> started_for(
            #[trigger] q.timers()[pairs[k].1.value],
            now,
            payload_timeout(reg.records()[reg.channels().index_of(pairs[k].0)], rto),
            pairs[k].0,
        )
}

proof fn lemma_sequences_of_push(pairs: Seq<(i32, Seq16)>, p: (i32, Seq16))
    ensures
        sequences_of(pairs.push(p)) == sequences_of(pairs).insert(p.1.value),
{
    let q = pairs.push(p);
    assert forall|s: u16| sequences_of(q).contains(s) <==> sequences_of(pairs).insert(p.1.value).contains(s) by {
        if sequences_of(q).contains(s) {
            let k = choose|k: int| 0 <= k < q.len() && (#[trigger] q[k]).1.value == s;
            if k < pairs.len() {
                assert(pairs[k] == q[k]);
            }
        }
        if sequences_of(pairs).contains(s) {
            let k = choose|k: int| 0 <= k < pairs.len() && (#[trigger] pairs[k]).1.value == s;
            assert(q[k] == pairs[k]);
        }
        if s == p.1.value {
            assert(q[pairs.len() as int] == p);
        }
    }
    assert(sequences_of(q) =~= sequences_of(pairs).insert(p.1.value));
}

/// The channel records after the ping round over the first `upto`
/// channels: each channel given no bytes has sent a ping if its tracker had
/// room; round-trip times, credit and the other trackers are as they were.
pub open spec fn pings_sent(
    pre: Sockets,
    post: Sockets,
    shares: Seq<usize>,
    budget: int,
    now: Instant,
    upto: int,
) -> bool {
    &&& post.records().len() == pre.records().len()
    &&& forall|j: int|
        0 <= j < pre.records().len() ==> {
            let (a, b) = (pre.records()[j], #[trigger] post.records()[j]);
            &&& b.last_rtt() == a.last_rtt()
            &&& b.standing() == a.standing()
            &&& if j < upto && allotted(shares, budget, j) == 0 {
                sent(
                    a.pings(),
                    b.pings(),
                    now,
                    Duration { nanos: 0 },
                    pre.channels()[j],
                    if can_ping(a) {
                        Some(Seq16 { value: a.pings().window().next() })
                    } else {
                        None
                    },
                )
            } else {
                b.pings() == a.pings()
            }
        }
}

proof fn lemma_pings_sent_keep(
    pre: Sockets,
    mid: Sockets,
    post: Sockets,
    shares: Seq<usize>,
    budget: int,
    now: Instant,
    upto: int,
)
    requires
        pings_sent(pre, mid, shares, budget, now, upto),
        sockets::same_but_assigned(mid.records(), post.records()),
    ensures
        pings_sent(pre, post, shares, budget, now, upto),
{
    assert forall|j: int| 0 <= j < pre.records().len() implies {
        let (a, b) = (pre.records()[j], #[trigger] post.records()[j]);
        &&& b.last_rtt() == a.last_rtt()
        &&& b.standing() == a.standing()
        &&& if j < upto && allotted(shares, budget, j) == 0 {
            sent(
                a.pings(),
                b.pings(),
                now,
                Duration { nanos: 0 },
                pre.channels()[j],
                if can_ping(a) {
                    Some(Seq16 { value: a.pings().window().next() })
                } else {
                    None
                },
            )
        } else {
            b.pings() == a.pings()
        }
    } by {
        assert(mid.records()[j].pings() == post.records()[j].pings());
    }
}

pub struct Send {
    sockets: Sockets,
    payload_queue: TimedSendQueue<i32>,
    default_rto: Duration,
}

impl Send {
    /// The channel registry.
    pub closed spec fn registry(&self) -> Sockets {
        self.sockets
    }

    /// The timed tracker of payloads, owned by the channel they were sent on.
    pub closed spec fn payloads(&self) -> TimedSendQueue<i32> {
        self.payload_queue
    }

    pub closed spec fn rto(&self) -> Duration {
        self.default_rto
    }

    pub closed spec fn wf(&self) -> bool {
        &&& self.sockets.wf()
        &&& self.payload_queue.wf()
    }

    pub fn new(config: SendConfig) -> (r: Send)
        ensures
            r.wf(),
            r.registry().channels() == Seq::<i32>::empty(),
            r.registry().owner() == Map::<u16, i32>::empty(),
            r.payloads().window().outstanding() == Set::<u16>::empty(),
            r.payloads().window().capacity() == config.payload_queue_size,
            r.payloads().window().next() == 0,
            r.rto() == config.default_rto,
    {
        Send {
            sockets: Sockets::new(),
            payload_queue: TimedSendQueue::new(config.payload_queue_size),
            default_rto: config.default_rto,
        }
    }

    /// The channel registry, for reading.
    pub fn sockets(&self) -> (r: &Sockets)
        ensures
            *r == self.registry(),
    {
        &self.sockets
    }

    /// Adds channel `fd`.
    pub fn add_fd(&mut self, fd: i32)
        requires
            old(self).wf(),
        ensures
            final(self).wf(),
            fd_added(old(self).registry(), final(self).registry(), fd),
            final(self).payloads() == old(self).payloads(),
            final(self).rto() == old(self).rto(),
    {
        self.sockets.add_fd(fd);
    }

    /// Removes channel `fd` and hands its payloads to the remaining
    /// channels. Ignoring the error loses the payloads it carries.
    pub fn remove_fd(&mut self, fd: i32) -> (r: Result<RetransmitPayloads, ReassignPayloadError>)
        requires
            old(self).wf(),
        ensures
            final(self).wf(),
            fd_removed(old(self).registry(), final(self).registry(), fd, r),
            final(self).payloads() == old(self).payloads(),
            final(self).rto() == old(self).rto(),
    {
        self.sockets.remove_fd(fd)
    }

    /// Takes in an acknowledgement of `seq` that arrived on channel `fd`.
    /// For a payload, the payload tracker retires `seq` and yields a
    /// round-trip sample only when `fd` is the channel its timer belongs to;
    /// the registry then unbinds the payload and hands it the sample.
    pub fn ack(&mut self, now: Instant, fd: i32, seq: Seq16, space: AckSpace)
        requires
            old(self).wf(),
        ensures
            final(self).wf(),
            final(self).rto() == old(self).rto(),
            space == AckSpace::Payload ==> {
                &&& acked(old(self).payloads(), final(self).payloads(), seq.value)
                &&& ack_taken(
                    old(self).registry(),
                    final(self).registry(),
                    fd,
                    seq,
                    sockets::AckSpace::Payload {
                        rtt: rtt_sample(old(self).payloads().timers(), seq.value, now, fd),
                    },
                )
            },
            space == AckSpace::Ping ==> {
                &&& final(self).payloads() == old(self).payloads()
                &&& ack_taken(
                    old(self).registry(),
                    final(self).registry(),
                    fd,
                    seq,
                    sockets::AckSpace::Ping { now },
                )
            },
    {
        let space = match space {
            AckSpace::Payload => {
                let rtt = self.payload_queue.ack(seq, now, fd);
                sockets::AckSpace::Payload { rtt }
            },
            AckSpace::Ping => sockets::AckSpace::Ping { now },
        };
        self.sockets.ack(fd, seq, space);
    }

    /// Moves the payloads whose timer has run out at `now` to channels with
    /// good credit, as `Sockets::reassign_rto_payloads` does, taking them in
    /// increasing order of sequence value. Ignoring the error loses no data:
    /// the payloads stay bound as they were.
    pub fn retransmit_rto_payloads(&mut self, now: Instant) -> (r: Result<
        RetransmitPayloads,
        ReassignPayloadError,
    >)
        requires
            old(self).wf(),
        ensures
            final(self).wf(),
            final(self).payloads() == old(self).payloads(),
            final(self).rto() == old(self).rto(),
            exists|ts: Seq<Seq16>|
                sockets::lists_in_order(ts, timed_out(old(self).payloads(), now)) && rto_reassigned(
                    old(self).registry(),
                    final(self).registry(),
                    ts,
                    r,
                ),
    {
        let timed_out_seqs = self.payload_queue.collect_timeout_sequences(now);
        let r = self.sockets.reassign_rto_payloads(timed_out_seqs.as_slice());
        proof {
            let t = timed_out(old(self).payloads(), now);
            assert forall|s: u16|
                #![trigger t.contains(s)]
                #![trigger timed_out_seqs@.contains(Seq16 { value: s })]
                timed_out_seqs@.contains(Seq16 { value: s }) <==> t.contains(s) by {
                if t.contains(s) {
                    assert(self.payload_queue.timers()[s].stopwatch.timed_out_at(now));
                }
            }
            assert(sockets::lists_in_order(timed_out_seqs@, t));
        }
        r
    }

    /// The round-trip time of each channel with good credit that has one, in
    /// the order the channels were added: what the host weighs the channels
    /// by.
    pub fn rtt_vector(&self) -> (r: Vec<(i32, Duration)>)
        requires
            self.wf(),
        ensures
            r@ == rtt_entries(self.registry().channels(), self.registry().records()),
    {
        let list = self.sockets.sockets();
        let mut r: Vec<(i32, Duration)> = Vec::new();
        let mut i: usize = 0;
        while i < list.len()
            invariant
                i <= list.len(),
                list@.map_values(|e: (i32, Socket)| e.0) == self.registry().channels(),
                list@.map_values(|e: (i32, Socket)| e.1) == self.registry().records(),
                r@ == rtt_entries(
                    self.registry().channels().take(i as int),
                    self.registry().records().take(i as int),
                ),
            decreases list.len() - i,
        {
            proof {
                let (cs, rs) = (self.registry().channels(), self.registry().records());
                assert(cs.take(i + 1).drop_last() =~= cs.take(i as int));
                assert(rs.take(i + 1).take(i as int) =~= rs.take(i as int));
                assert(cs[i as int] == list@[i as int].0);
                assert(rs[i as int] == list@[i as int].1);
            }
            let socket = &list[i].1;
            if socket.credit() == sockets::Credit::Good {
                if let Some(rtt) = socket.rtt() {
                    r.push((list[i].0, rtt));
                }
            }
            i = i + 1;
        }
        proof {
            let (cs, rs) = (self.registry().channels(), self.registry().records());
            assert(cs.take(i as int) =~= cs);
            assert(rs.take(i as int) =~= rs);
        }
        r
    }

    /// Sends `payload_size` bytes at `now`, given the share of the bytes that
    /// the host picked for each channel, in channel order (the share of a
    /// channel is `ceil(payload_size * weight)`). Each channel is given its
    /// share, cut down to what the channels before it left. Every channel
    /// given no bytes sends a ping, unless its ping is still outstanding.
    /// Every channel given bytes sends one payload of that size, with a
    /// timeout of twice its round-trip time (or the default timeout), while
    /// the payload window has room; the payload is bound to that channel.
    /// The ping frames come first, then the payload frames, each in channel
    /// order.
    pub fn send(&mut self, now: Instant, payload_size: usize, shares: &Vec<usize>) -> (r: Vec<SendFrame>)
        requires
            old(self).wf(),
            shares.len() == old(self).registry().channels().len(),
            share_sum(shares@, shares.len() as int) >= payload_size,
        ensures
            final(self).wf(),
            final(self).rto() == old(self).rto(),
            ({
                let (reg, q) = (old(self).registry(), old(self).payloads());
                let n = shares.len() as int;
                let run = payload_run(
                    reg,
                    shares@,
                    payload_size as int,
                    q.window().outstanding(),
                    q.window().capacity(),
                    q.window().next(),
                    n,
                );
                let pairs = payload_pairs(run.0);
                &&& r@ == ping_frames(reg, shares@, payload_size as int, n) + run.0
                &&& final(self).payloads().window().outstanding() == run.1
                &&& final(self).payloads().window().next() == run.2
                &&& final(self).payloads().window().capacity() == q.window().capacity()
                &&& final(self).registry().channels() == reg.channels()
                &&& final(self).registry().owner() == bind_all(reg.owner(), pairs)
                &&& payload_timers_started(pairs, final(self).payloads(), reg, old(self).rto(), now)
                &&& forall|s: u16|
                    q.timers().contains_key(s) && !sequences_of(pairs).contains(s)
                        ==> #[trigger] final(self).payloads().timers()[s] == q.timers()[s]
                &&& pings_sent(reg, final(self).registry(), shares@, payload_size as int, now, n)
            }),
    {
        let n = shares.len();
        let ghost budget = payload_size as int;
        // Cut each share down to what is left of the bytes
        let mut allot: Vec<usize> = Vec::new();
        let mut left: usize = payload_size;
        let mut i: usize = 0;
        while i < n
            invariant
                i <= n == shares.len(),
                allot.len() == i,
                forall|j: int| 0 <= j < i ==> allot[j] == allotted(shares@, budget, j),
                left == if budget - share_sum(shares@, i as int) <= 0 {
                    0
                } else {
                    budget - share_sum(shares@, i as int)
                },
            decreases n - i,
        {
            let share = shares[i];
            let a = if share <= left {
                share
            } else {
                left
            };
            left = left - a;
            allot.push(a);
            i = i + 1;
        }
        let ghost reg0 = self.sockets;
        proof {
            reg0.lemma_records_len();
        }
        let mut frames: Vec<SendFrame> = Vec::new();
        // Send pings on the channels given no bytes
        i = 0;
        while i < n
            invariant
                i <= n == shares.len() == reg0.channels().len(),
                allot.len() == n,
                forall|j: int| 0 <= j < n ==> allot[j] == allotted(shares@, budget, j),
                reg0 == old(self).registry(),
                self.sockets.wf(),
                self.payload_queue == old(self).payload_queue,
                self.default_rto == old(self).default_rto,
                self.sockets.channels() == reg0.channels(),
                self.sockets.owner() == reg0.owner(),
                self.sockets.records().len() == n,
                frames@ == ping_frames(reg0, shares@, budget, i as int),
                forall|j: int|
                    0 <= j < n ==> (#[trigger] self.sockets.records()[j]).assigned()
                        == reg0.records()[j].assigned(),
                pings_sent(reg0, self.sockets, shares@, budget, now, i as int),
            decreases n - i,
        {
            if allot[i] == 0 {
                let fd = self.sockets.sockets()[i].0;
                let ghost pre = self.sockets;
                proof {
                    assert(pre.channels()[i as int] == fd);
                    assert(pre.channels().index_of(fd) == i as int) by {
                        assert(pre.channels().contains(fd));
                        let k = pre.channels().index_of(fd);
                        assert(pre.channels()[k] == fd);
                        sockets::lemma_channels_unique(pre, k, i as int);
                    }
                }
                let ping = self.sockets.send_ping(fd, now);
                if let Some(seq) = ping {
                    frames.push(SendFrame::Ping(PingSendFrame { fd, seq }));
                }
                proof {
                    let a = reg0.records()[i as int];
                    assert(pre.records()[i as int].pings() == a.pings());
                    self.sockets.lemma_records_len();
                    assert forall|j: int| 0 <= j < n implies (#[trigger] self.sockets.records()[j]).assigned()
                        == reg0.records()[j].assigned() by {
                        assert(pre.records()[j].assigned() == reg0.records()[j].assigned());
                    }
                    assert forall|j: int| 0 <= j < n implies {
                        let (a, b) = (reg0.records()[j], #[trigger] self.sockets.records()[j]);
                        &&& b.last_rtt() == a.last_rtt()
                        &&& b.standing() == a.standing()
                        &&& if j < i + 1 && allotted(shares@, budget, j) == 0 {
                            sent(
                                a.pings(),
                                b.pings(),
                                now,
                                Duration { nanos: 0 },
                                reg0.channels()[j],
                                if can_ping(a) {
                                    Some(Seq16 { value: a.pings().window().next() })
                                } else {
                                    None
                                },
                            )
                        } else {
                            b.pings() == a.pings()
                        }
                    } by {
                        if j != i {
                            assert(self.sockets.records()[j] == pre.records()[j]);
                        }
                    }
                }
            }
            i = i + 1;
        }
        let ghost reg1 = self.sockets;
        let ghost q0 = self.payload_queue;
        let ghost ping_part = frames@;
        // Send a payload on each channel given bytes
        i = 0;
        while i < n
            invariant
                i <= n == shares.len() == reg0.channels().len(),
                allot.len() == n,
                forall|j: int| 0 <= j < n ==> allot[j] == allotted(shares@, budget, j),
                reg0 == old(self).registry(),
                q0 == old(self).payload_queue,
                self.sockets.wf(),
                self.payload_queue.wf(),
                self.default_rto == old(self).default_rto,
                self.sockets.channels() == reg0.channels(),
                reg1.channels() == reg0.channels(),
                reg1.owner() == reg0.owner(),
                reg1.records().len() == n,
                pings_sent(reg0, reg1, shares@, budget, now, n as int),
                sockets::same_but_assigned(reg1.records(), self.sockets.records()),
                ping_part == ping_frames(reg0, shares@, budget, n as int),
                ({
                    let run = payload_run(
                        reg0,
                        shares@,
                        budget,
                        q0.window().outstanding(),
                        q0.window().capacity(),
                        q0.window().next(),
                        i as int,
                    );
                    let pairs = payload_pairs(run.0);
                    &&& frames@ == ping_part + run.0
                    &&& self.payload_queue.window().outstanding() == run.1
                    &&& self.payload_queue.window().next() == run.2
                    &&& self.payload_queue.window().capacity() == q0.window().capacity()
                    &&& self.sockets.owner() == bind_all(reg0.owner(), pairs)
                    &&& payload_timers_started(pairs, self.payload_queue, reg0, self.default_rto, now)
                    &&& forall|s: u16|
                        q0.timers().contains_key(s) && !sequences_of(pairs).contains(s)
                            ==> #[trigger] self.payload_queue.timers()[s] == q0.timers()[s]
                    &&& forall|k: int| 0 <= k < pairs.len() ==> reg0.channels().contains(#[trigger] pairs[k].0)
                }),
            decreases n - i,
        {
            let ghost run0 = payload_run(
                reg0,
                shares@,
                budget,
                q0.window().outstanding(),
                q0.window().capacity(),
                q0.window().next(),
                i as int,
            );
            let a = allot[i];
            if a > 0 {
                let fd = self.sockets.sockets()[i].0;
                let rtt = self.sockets.sockets()[i].1.rtt();
                let timeout = match rtt {
                    Some(rtt) => rtt.saturating_mul(2),
                    None => self.default_rto,
                };
                proof {
                    let pre = self.sockets;
                    assert(pre.channels()[i as int] == fd);
                    assert(reg0.channels().index_of(fd) == i as int) by {
                        assert(reg0.channels().contains(fd));
                        let k = reg0.channels().index_of(fd);
                        assert(reg0.channels()[k] == fd);
                        sockets::lemma_channels_unique(pre, k, i as int);
                    }
                    assert(pre.records()[i as int].last_rtt() == reg1.records()[i as int].last_rtt());
                    assert(timeout == payload_timeout(reg0.records()[i as int], self.default_rto));
                }
                let ghost qpre = self.payload_queue;
                let sent_seq = self.payload_queue.send(now, timeout, fd);
                if let Some(seq) = sent_seq {
                    let ghost spre = self.sockets;
                    self.sockets.send_payload(fd, seq);
                    frames.push(SendFrame::Payload(PayloadSendFrame { fd, seq, payload_size: a }));
                    proof {
                        sockets::lemma_same_but_assigned_trans(reg1.records(), spre.records(), self.sockets.records());
                        let run1 = payload_run(
                            reg0,
                            shares@,
                            budget,
                            q0.window().outstanding(),
                            q0.window().capacity(),
                            q0.window().next(),
                            i + 1,
                        );
                        assert(run1.0 == run0.0.push(SendFrame::Payload(PayloadSendFrame { fd, seq, payload_size: a })));
                        assert(run1.0.drop_last() =~= run0.0);
                        assert(frames@ =~= ping_part + run1.0);
                        let pairs0 = payload_pairs(run0.0);
                        let pairs1 = payload_pairs(run1.0);
                        assert(pairs1 == pairs0.push((fd, seq)));
                        assert(pairs1.drop_last() =~= pairs0);
                        lemma_sequences_of_push(pairs0, (fd, seq));
                        assert forall|k: int| 0 <= k < pairs1.len() implies reg0.channels().contains(#[trigger] pairs1[k].0) by {
                            if k < pairs0.len() {
                                assert(pairs1[k] == pairs0[k]);
                            }
                        }
                        assert(self.payload_queue.window().outstanding() == run1.1);
                        assert(self.payload_queue.window().next() == run1.2);
                        assert(self.sockets.owner() == bind_all(reg0.owner(), pairs1));
                        assert forall|t: u16|
                            q0.timers().contains_key(t) && !sequences_of(pairs1).contains(t)
                                implies #[trigger] self.payload_queue.timers()[t] == q0.timers()[t] by {
                            assert(t != seq.value);
                            assert(self.payload_queue.timers().remove(seq.value)[t] == self.payload_queue.timers()[t]);
                            assert(qpre.timers().remove(seq.value)[t] == qpre.timers()[t]);
                        }
                        assert(payload_timers_started(pairs1, self.payload_queue, reg0, self.default_rto, now)) by {
                            assert forall|k: int|
                                0 <= k < pairs1.len() && !later_duplicate(pairs1, k) implies started_for(
                                    #[trigger] self.payload_queue.timers()[pairs1[k].1.value],
                                    now,
                                    payload_timeout(reg0.records()[reg0.channels().index_of(pairs1[k].0)], self.default_rto),
                                    pairs1[k].0,
                                ) by {
                                let qt = self.payload_queue.timers();
                                if k == pairs0.len() {
                                    assert(pairs1[k] == (fd, seq));
                                } else {
                                    assert(pairs1[k] == pairs0[k]);
                                    assert(pairs1[pairs1.len() - 1] == (fd, seq));
                                    assert(!later_duplicate(pairs0, k)) by {
                                        if later_duplicate(pairs0, k) {
                                            let k2 = choose|k2: int| k < k2 < pairs0.len() && pairs0[k2].1 == pairs0[k].1;
                                            assert(pairs1[k2] == pairs0[k2]);
                                        }
                                    }
                                    assert(pairs1[k].1 != seq);
                                    assert(qt.remove(seq.value)[pairs1[k].1.value] == qt[pairs1[k].1.value]);
                                    assert(qpre.timers().remove(seq.value)[pairs1[k].1.value] == qpre.timers()[pairs1[k].1.value]);
                                }
                            }
                        }
                    }
                } else {
                    proof {
                        let run1 = payload_run(
                            reg0,
                            shares@,
                            budget,
                            q0.window().outstanding(),
                            q0.window().capacity(),
                            q0.window().next(),
                            i + 1,
                        );
                        assert(run1 == run0);
                    }
                }
            } else {
                proof {
                    let run1 = payload_run(
                        reg0,
                        shares@,
                        budget,
                        q0.window().outstanding(),
                        q0.window().capacity(),
                        q0.window().next(),
                        i + 1,
                    );
                    assert(run1 == run0);
                }
            }
            i = i + 1;
        }
        proof {
            lemma_pings_sent_keep(reg0, reg1, self.sockets, shares@, budget, now, n as int);
        }
        frames
    }
}

/// The bytes given to the first `n` channels.
pub open spec fn allotted_sum(shares: Seq<usize>, budget: int, n: int) -> int
    decreases n,
{
    if n <= 0 {
        0
    } else {
        allotted_sum(shares, budget, n - 1) + allotted(shares, budget, n - 1)
    }
}

/// The channels are given `min(shares[0] + ... + shares[n - 1], budget)`
/// bytes in all: the whole budget when the shares cover it.
pub proof fn lemma_allotment_total(shares: Seq<usize>, budget: int, n: int)
    requires
        0 <= n <= shares.len(),
        budget >= 0,
    ensures
        allotted_sum(shares, budget, n) == if share_sum(shares, n) <= budget {
            share_sum(shares, n)
        } else {
            budget
        },
    decreases n,
{
    if n > 0 {
        lemma_allotment_total(shares, budget, n - 1);
        lemma_share_sum_nonneg(shares, n - 1);
    }
}

proof fn lemma_share_sum_nonneg(shares: Seq<usize>, n: int)
    requires
        0 <= n <= shares.len(),
    ensures
        share_sum(shares, n) >= 0,
    decreases n,
{
    if n > 0 {
        lemma_share_sum_nonneg(shares, n - 1);
    }
}

/// Acknowledging a payload always unbinds it, whichever channel the
/// acknowledgement came in on. The channel the payload was bound to gets a
/// round-trip sample, and with it good credit, exactly when the
/// acknowledgement came in on the channel that the payload's timer belongs
/// to; otherwise that channel's round-trip time and credit stay as they
/// were. (`post` is what `Send::ack` makes of `pre` for a payload.)
pub proof fn lemma_rtt_attribution(pre: Send, post: Send, now: Instant, fd: i32, seq: Seq16)
    requires
        pre.wf(),
        acked(pre.payloads(), post.payloads(), seq.value),
        ack_taken(
            pre.registry(),
            post.registry(),
            fd,
            seq,
            sockets::AckSpace::Payload { rtt: rtt_sample(pre.payloads().timers(), seq.value, now, fd) },
        ),
    ensures
        post.registry().owner() == pre.registry().owner().remove(seq.value),
        !post.payloads().timers().contains_key(seq.value),
        pre.registry().owner().contains_key(seq.value) ==> {
            let reg = pre.registry();
            let i = reg.channels().index_of(reg.owner()[seq.value]);
            let (a, b) = (reg.records()[i], post.registry().records()[i]);
            let timers = pre.payloads().timers();
            if timers.contains_key(seq.value) && timers[seq.value].key == fd {
                &&& b.last_rtt() == Some(
                    Duration { nanos: elapsed(timers[seq.value].stopwatch.started(), now) },
                )
                &&& b.standing() == sockets::Credit::Good
            } else {
                &&& b.last_rtt() == a.last_rtt()
                &&& b.standing() == a.standing()
            }
        },
{
    if !pre.registry().owner().contains_key(seq.value) {
        assert(post.registry().owner() =~= pre.registry().owner().remove(seq.value));
    }
}

} // verus!
