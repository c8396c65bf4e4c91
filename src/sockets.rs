//! The channel registry: per-channel state, and the binding of each
//! outstanding payload to the one channel that carries it.
use std::collections::{BTreeMap, BTreeSet};

use vstd::prelude::*;

use crate::sequence::Seq16;
use vstd::laws_cmp::obeys_cmp;
use vstd::std_specs::btree::{increasing_seq, spec_btree_keys_iter};
use vstd::std_specs::cmp::OrdSpec;
use vstd::std_specs::iter::IteratorSpec;
use crate::time::{Duration, Instant};
use crate::timed_send_queue::{acked, rtt_sample, sent, TimedSendQueue};

verus! {

/// Whether a channel may take over payloads whose timer ran out.
/// Bad to good: a new round-trip sample arrived. Good to bad: the channel
/// caused a retransmission timeout.
#[derive(Debug, PartialEq, Eq, Clone, Copy, Hash, Structural)]
pub enum Credit {
    Good,
    Bad,
}

/// What an acknowledgement refers to.
#[derive(Debug, PartialEq, Eq, Clone, Copy, Hash, Structural)]
pub enum AckSpace {
    /// A payload, with the round-trip sample that its timer yielded, if any
    Payload { rtt: Option<Duration> },
    /// A ping of the receiving channel, acknowledged at `now`
    Ping { now: Instant },
}

#[derive(Debug, PartialEq, Eq, Clone, Hash)]
pub enum ReassignPayloadError {
    /// No channel could take the payloads
    NoSocketsLeft { payloads: Vec<Seq16> },
}

/// Payloads handed to new channels, as `(channel, sequence)`.
pub type RetransmitPayloads = Vec<(i32, Seq16)>;

pub struct Socket {
    ping_queue: TimedSendQueue<i32>,
    rtt: Option<Duration>,
    payloads: BTreeSet<u16>,
    credit: Credit,
}

impl Socket {
    /// The payloads bound to this channel.
    pub closed spec fn assigned(&self) -> Set<u16> {
        self.payloads@
    }

    /// The latest round-trip sample of this channel.
    pub closed spec fn last_rtt(&self) -> Option<Duration> {
        self.rtt
    }

    pub closed spec fn standing(&self) -> Credit {
        self.credit
    }

    /// The single-slot tracker of this channel's pings.
    pub closed spec fn pings(&self) -> TimedSendQueue<i32> {
        self.ping_queue
    }

    pub closed spec fn wf(&self) -> bool {
        &&& self.payloads@.finite()
        &&& self.ping_queue.wf()
        &&& self.ping_queue.window().capacity() == 1
    }

    /// A record as `new` makes it.
    pub open spec fn is_fresh(&self) -> bool {
        &&& self.wf()
        &&& self.assigned() == Set::<u16>::empty()
        &&& self.last_rtt() is None
        &&& self.standing() == Credit::Bad
        &&& self.pings().timers() == Map::<u16, crate::timed_send_queue::KeyedRttStopwatch<i32>>::empty()
        &&& self.pings().window().outstanding() == Set::<u16>::empty()
        &&& self.pings().window().next() == 0
    }

    pub fn new() -> (r: Socket)
        ensures
            r.is_fresh(),
    {
        Socket {
            ping_queue: TimedSendQueue::new(1),
            rtt: None,
            payloads: BTreeSet::new(),
            credit: Credit::Bad,
        }
    }

    pub fn rtt(&self) -> (r: Option<Duration>)
        ensures
            r == self.last_rtt(),
    {
        self.rtt
    }

    pub fn credit(&self) -> (r: Credit)
        ensures
            r == self.standing(),
    {
        self.credit
    }
}

/// Two lists of channel records that agree on everything but the payloads
/// bound to each channel.
pub open spec fn same_but_assigned(a: Seq<Socket>, b: Seq<Socket>) -> bool {
    &&& a.len() == b.len()
    &&& forall|i: int|
        0 <= i < a.len() ==> {
            &&& (#[trigger] a[i]).last_rtt() == b[i].last_rtt()
            &&& a[i].standing() == b[i].standing()
            &&& a[i].pings() == b[i].pings()
        }
}

/// The effect of a round-trip sample on a channel record: a sample becomes
/// the channel's round-trip time and gives it good credit; no sample changes
/// neither.
pub open spec fn sampled(pre: Socket, post: Socket, rtt: Option<Duration>) -> bool {
    match rtt {
        Some(r) => post.last_rtt() == Some(r) && post.standing() == Credit::Good,
        None => post.last_rtt() == pre.last_rtt() && post.standing() == pre.standing(),
    }
}

/// `ps` lists the members of `set`, each once, in increasing order.
pub open spec fn lists_in_order(ps: Seq<Seq16>, set: Set<u16>) -> bool {
    &&& forall|s: u16|
        #![trigger set.contains(s)]
        #![trigger ps.contains(Seq16 { value: s })]
        ps.contains(Seq16 { value: s }) <==> set.contains(s)
    &&& forall|a: int, b: int| 0 <= a < b < ps.len() ==> ps[a].value < ps[b].value
}

/// Pairs the payloads with channels, visiting `cs` cyclically: the `k`-th
/// payload goes to `cs[k mod |cs|]`.
pub open spec fn round_robin(ps: Seq<Seq16>, cs: Seq<i32>) -> Seq<(i32, Seq16)> {
    Seq::new(ps.len(), |k: int| (cs[k % cs.len() as int], ps[k]))
}

/// The bindings after binding each pair of `pairs`, in order.
pub open spec fn bind_all(owner: Map<u16, i32>, pairs: Seq<(i32, Seq16)>) -> Map<u16, i32>
    decreases pairs.len(),
{
    if pairs.len() == 0 {
        owner
    } else {
        bind_all(owner, pairs.drop_last()).insert(pairs.last().1.value, pairs.last().0)
    }
}

/// Whether one of `seqs` is bound to channel `c`.
pub open spec fn blamed(owner: Map<u16, i32>, seqs: Seq<Seq16>, c: i32) -> bool {
    exists|k: int|
        0 <= k < seqs.len() && owner.contains_key(#[trigger] seqs[k].value) && owner[seqs[k].value]
            == c
}

/// The channels of `cs` whose record in `rs` has good credit, in order.
pub open spec fn good_channels(cs: Seq<i32>, rs: Seq<Socket>) -> Seq<i32>
    decreases cs.len(),
{
    if cs.len() == 0 {
        Seq::empty()
    } else {
        let rest = good_channels(cs.drop_last(), rs.take(cs.len() - 1));
        if rs[cs.len() - 1].standing() == Credit::Good {
            rest.push(cs.last())
        } else {
            rest
        }
    }
}

/// Which channels have good credit depends on the credit of each record
/// alone.
proof fn lemma_good_channels_agree(cs: Seq<i32>, a: Seq<Socket>, b: Seq<Socket>)
    requires
        same_but_assigned(a, b),
        cs.len() <= a.len(),
    ensures
        good_channels(cs, a) == good_channels(cs, b),
    decreases cs.len(),
{
    if cs.len() > 0 {
        let n = cs.len() - 1;
        assert(same_but_assigned(a.take(n), b.take(n))) by {
            assert forall|i: int| 0 <= i < a.take(n).len() implies {
                &&& (#[trigger] a.take(n)[i]).last_rtt() == b.take(n)[i].last_rtt()
                &&& a.take(n)[i].standing() == b.take(n)[i].standing()
                &&& a.take(n)[i].pings() == b.take(n)[i].pings()
            } by {
                assert(a.take(n)[i] == a[i]);
                assert(b.take(n)[i] == b[i]);
            }
        }
        lemma_good_channels_agree(cs.drop_last(), a.take(n), b.take(n));
        assert(a[n].standing() == b[n].standing());
    }
}

pub proof fn lemma_same_but_assigned_trans(a: Seq<Socket>, b: Seq<Socket>, c: Seq<Socket>)
    requires
        same_but_assigned(a, b),
        same_but_assigned(b, c),
    ensures
        same_but_assigned(a, c),
{
    assert forall|i: int| 0 <= i < a.len() implies {
        &&& (#[trigger] a[i]).last_rtt() == c[i].last_rtt()
        &&& a[i].standing() == c[i].standing()
        &&& a[i].pings() == c[i].pings()
    } by {
        assert(b[i].last_rtt() == c[i].last_rtt());
    }
}

pub struct Sockets {
    /// Payload-to-channel bindings
    payload_fds: BTreeMap<u16, i32>,
    /// The channels in the order they were added
    sockets: Vec<(i32, Socket)>,
}

impl Sockets {
    /// The channel handles, in the order they were added.
    pub closed spec fn channels(&self) -> Seq<i32> {
        self.sockets@.map_values(|e: (i32, Socket)| e.0)
    }

    /// The channel records, in the same order as `channels`.
    pub closed spec fn records(&self) -> Seq<Socket> {
        self.sockets@.map_values(|e: (i32, Socket)| e.1)
    }

    /// The channel that each bound payload belongs to.
    pub closed spec fn owner(&self) -> Map<u16, i32> {
        self.payload_fds@
    }

    /// The payloads bound to channel `c`; none when `c` is unknown.
    pub open spec fn assigned_payloads(&self, c: i32) -> Set<u16> {
        if self.channels().contains(c) {
            self.records()[self.channels().index_of(c)].assigned()
        } else {
            Set::empty()
        }
    }

    /// Channels are unique, every record is well formed, every bound
    /// payload's channel exists, and a channel's record holds a payload
    /// exactly when the payload is bound to that channel.
    pub closed spec fn wf(&self) -> bool {
        &&& self.channels().no_duplicates()
        &&& forall|i: int| 0 <= i < self.sockets@.len() ==> (#[trigger] self.sockets@[i]).1.wf()
        &&& forall|s: u16| #[trigger]
            self.payload_fds@.contains_key(s) ==> self.channels().contains(self.payload_fds@[s])
        &&& forall|i: int, s: u16|
            #![trigger self.sockets@[i].1.payloads@.contains(s)]
            #![trigger self.sockets@[i], self.payload_fds@[s]]
            0 <= i < self.sockets@.len() ==> (self.sockets@[i].1.payloads@.contains(s)
                <==> (self.payload_fds@.contains_key(s) && self.payload_fds@[s] == self.sockets@[i].0))
    }

    pub fn new() -> (r: Sockets)
        ensures
            r.wf(),
            r.channels() == Seq::<i32>::empty(),
            r.owner() == Map::<u16, i32>::empty(),
    {
        let r = Sockets { payload_fds: BTreeMap::new(), sockets: Vec::new() };
        assert(r.channels() =~= Seq::<i32>::empty());
        r
    }

    /// The position of channel `fd`.
    fn find(&self, fd: i32) -> (r: Option<usize>)
        ensures
            match r {
                Some(i) => i < self.channels().len() && self.channels()[i as int] == fd,
                None => !self.channels().contains(fd),
            },
    {
        let mut i: usize = 0;
        while i < self.sockets.len()
            invariant
                i <= self.sockets.len(),
                forall|j: int| 0 <= j < i ==> self.channels()[j] != fd,
            decreases self.sockets.len() - i,
        {
            if self.sockets[i].0 == fd {
                return Some(i);
            }
            i = i + 1;
        }
        None
    }

    /// Unbinds `seq`, returning the channel it was bound to.
    fn remove_payload_seq(&mut self, seq: u16) -> (r: Option<i32>)
        requires
            old(self).wf(),
        ensures
            final(self).wf(),
            final(self).channels() == old(self).channels(),
            same_but_assigned(old(self).records(), final(self).records()),
            final(self).owner() == old(self).owner().remove(seq),
            r == if old(self).owner().contains_key(seq) {
                Some(old(self).owner()[seq])
            } else {
                None::<i32>
            },
    {
        let fd = match self.payload_fds.remove(&seq) {
            Some(fd) => fd,
            None => {
                assert(self.payload_fds@ =~= old(self).payload_fds@.remove(seq));
                return None;
            },
        };
        let i = match self.find(fd) {
            Some(i) => i,
            None => return Some(fd),
        };
        self.sockets[i].1.payloads.remove(&seq);
        proof {
            assert(self.channels() =~= old(self).channels());
            assert forall|j: int, t: u16|
                #![trigger self.sockets@[j].1.payloads@.contains(t)]
                #![trigger self.sockets@[j], self.payload_fds@[t]]
                0 <= j < self.sockets@.len() implies (self.sockets@[j].1.payloads@.contains(t)
                <==> (self.payload_fds@.contains_key(t) && self.payload_fds@[t] == self.sockets@[j].0)) by {
                assert(old(self).sockets@[j].1.payloads@.contains(t) <==> (old(self).payload_fds@.contains_key(t)
                    && old(self).payload_fds@[t] == old(self).sockets@[j].0));
                if j != i && t == seq {
                    assert(old(self).channels()[j] != old(self).channels()[i as int]);
                }
            }
            assert forall|t: u16| #[trigger]
                self.payload_fds@.contains_key(t) implies self.channels().contains(self.payload_fds@[t]) by {
                assert(old(self).payload_fds@.contains_key(t));
            }
            assert forall|j: int| 0 <= j < self.sockets@.len() implies (#[trigger] self.sockets@[j]).1.wf() by {
                assert(old(self).sockets@[j].1.wf());
            }
        }
        Some(fd)
    }

    /// Binds `seq` to `assignee`, taking it from any channel that held it.
    /// When `assignee` is unknown, `seq` ends up unbound.
    fn reassign_payload_seq(&mut self, assignee: i32, seq: u16)
        requires
            old(self).wf(),
        ensures
            final(self).wf(),
            final(self).channels() == old(self).channels(),
            same_but_assigned(old(self).records(), final(self).records()),
            final(self).owner() == if old(self).channels().contains(assignee) {
                old(self).owner().insert(seq, assignee)
            } else {
                old(self).owner().remove(seq)
            },
    {
        self.remove_payload_seq(seq);
        let i = match self.find(assignee) {
            Some(i) => i,
            None => return,
        };
        let ghost mid = *self;
        self.payload_fds.insert(seq, assignee);
        self.sockets[i].1.payloads.insert(seq);
        proof {
            assert(self.channels() =~= mid.channels());
            assert forall|j: int, t: u16|
                #![trigger self.sockets@[j].1.payloads@.contains(t)]
                #![trigger self.sockets@[j], self.payload_fds@[t]]
                0 <= j < self.sockets@.len() implies (self.sockets@[j].1.payloads@.contains(t)
                <==> (self.payload_fds@.contains_key(t) && self.payload_fds@[t] == self.sockets@[j].0)) by {
                assert(mid.sockets@[j].1.payloads@.contains(t) <==> (mid.payload_fds@.contains_key(t)
                    && mid.payload_fds@[t] == mid.sockets@[j].0));
                if j != i && t == seq {
                    assert(mid.channels()[j] != mid.channels()[i as int]);
                }
            }
            assert forall|t: u16| #[trigger]
                self.payload_fds@.contains_key(t) implies self.channels().contains(self.payload_fds@[t]) by {
                if t != seq {
                    assert(mid.payload_fds@.contains_key(t));
                } else {
                    assert(self.channels()[i as int] == assignee);
                }
            }
            assert forall|j: int| 0 <= j < self.sockets@.len() implies (#[trigger] self.sockets@[j]).1.wf() by {
                assert(mid.sockets@[j].1.wf());
            }
            assert(mid.records()[i as int].last_rtt() == self.records()[i as int].last_rtt());
        }
    }

    /// Binds `seq` to channel `fd`: the payload is now carried by `fd`, and
    /// any channel that carried it before loses it.
    pub fn send_payload(&mut self, fd: i32, seq: Seq16)
        requires
            old(self).wf(),
        ensures
            final(self).wf(),
            final(self).channels() == old(self).channels(),
            same_but_assigned(old(self).records(), final(self).records()),
            final(self).owner() == if old(self).channels().contains(fd) {
                old(self).owner().insert(seq.value, fd)
            } else {
                old(self).owner().remove(seq.value)
            },
    {
        self.reassign_payload_seq(fd, seq.value);
    }

    /// Adds channel `fd` with a fresh record at the end of the channel order.
    /// A channel that is already known gets a fresh record in its place, and
    /// the payloads it carried become unbound.
    pub fn add_fd(&mut self, fd: i32)
        requires
            old(self).wf(),
        ensures
            final(self).wf(),
            fd_added(*old(self), *final(self), fd),
    {
        match self.find(fd) {
            None => {
                self.sockets.push((fd, Socket::new()));
                proof {
                    assert(self.channels() =~= old(self).channels().push(fd));
                    assert(self.records().drop_last() =~= old(self).records());
                    assert forall|j: int, t: u16|
                        #![trigger self.sockets@[j].1.payloads@.contains(t)]
                        #![trigger self.sockets@[j], self.payload_fds@[t]]
                        0 <= j < self.sockets@.len() implies (self.sockets@[j].1.payloads@.contains(t)
                        <==> (self.payload_fds@.contains_key(t) && self.payload_fds@[t] == self.sockets@[j].0)) by {
                        if j < old(self).sockets@.len() {
                            assert(old(self).sockets@[j] == self.sockets@[j]);
                        } else if self.payload_fds@.contains_key(t) {
                            assert(old(self).channels().contains(self.payload_fds@[t]));
                        }
                    }
                    assert forall|t: u16| #[trigger]
                        self.payload_fds@.contains_key(t) implies self.channels().contains(self.payload_fds@[t]) by {
                        let k = old(self).channels().index_of(self.payload_fds@[t]);
                        assert(self.channels()[k] == self.payload_fds@[t]);
                    }
                    assert forall|j: int| 0 <= j < self.sockets@.len() implies (#[trigger] self.sockets@[j]).1.wf() by {
                        if j < old(self).sockets@.len() {
                            assert(old(self).sockets@[j] == self.sockets@[j]);
                        }
                    }
                }
            },
            Some(i) => {
                unbind_all(&mut self.payload_fds, &self.sockets[i].1.payloads);
                self.sockets[i].1 = Socket::new();
                proof {
                    let o = old(self);
                    assert(o.channels().index_of(fd) == i) by {
                        assert(o.channels()[i as int] == fd);
                        assert(o.channels().contains(fd));
                    }
                    assert(self.channels() =~= o.channels());
                    assert(self.records() =~= o.records().update(i as int, self.records()[i as int]));
                    assert(o.assigned_payloads(fd) == o.sockets@[i as int].1.payloads@);
                    assert forall|j: int, t: u16|
                        #![trigger self.sockets@[j].1.payloads@.contains(t)]
                        #![trigger self.sockets@[j], self.payload_fds@[t]]
                        0 <= j < self.sockets@.len() implies (self.sockets@[j].1.payloads@.contains(t)
                        <==> (self.payload_fds@.contains_key(t) && self.payload_fds@[t] == self.sockets@[j].0)) by {
                        assert(o.sockets@[j].1.payloads@.contains(t) <==> (o.payload_fds@.contains_key(t)
                            && o.payload_fds@[t] == o.sockets@[j].0));
                        assert(o.sockets@[i as int].1.payloads@.contains(t) <==> (o.payload_fds@.contains_key(t)
                            && o.payload_fds@[t] == o.sockets@[i as int].0));
                        if j != i {
                            assert(o.channels()[j] != o.channels()[i as int]);
                        }
                    }
                    assert forall|t: u16| #[trigger]
                        self.payload_fds@.contains_key(t) implies self.channels().contains(self.payload_fds@[t]) by {
                        assert(o.payload_fds@.contains_key(t));
                    }
                    assert forall|j: int| 0 <= j < self.sockets@.len() implies (#[trigger] self.sockets@[j]).1.wf() by {
                        assert(o.sockets@[j].1.wf());
                    }
                }
            },
        }
    }

    /// Sends a ping on channel `fd` through its single-slot ping tracker,
    /// with a zero timeout; nothing is issued while a ping is outstanding or
    /// when `fd` is unknown.
    pub fn send_ping(&mut self, fd: i32, now: Instant) -> (r: Option<Seq16>)
        requires
            old(self).wf(),
        ensures
            final(self).wf(),
            final(self).channels() == old(self).channels(),
            final(self).owner() == old(self).owner(),
            !old(self).channels().contains(fd) ==> r is None && *final(self) == *old(self),
            old(self).channels().contains(fd) ==> {
                let i = old(self).channels().index_of(fd);
                let (pre, post) = (old(self).records()[i], final(self).records()[i]);
                &&& final(self).records() == old(self).records().update(i, post)
                &&& post.assigned() == pre.assigned()
                &&& post.last_rtt() == pre.last_rtt()
                &&& post.standing() == pre.standing()
                &&& sent(pre.pings(), post.pings(), now, Duration { nanos: 0 }, fd, r)
            },
    {
        let i = match self.find(fd) {
            Some(i) => i,
            None => return None,
        };
        let r = self.sockets[i].1.ping_queue.send(now, Duration::from_nanos(0), fd);
        proof {
            self.lemma_update_record(*old(self), i as int);
        }
        r
    }

    /// Takes in an acknowledgement that arrived on `receiving_fd`.
    ///
    /// For a payload, the binding of `seq` is removed whichever channel the
    /// acknowledgement came in on, and the round-trip sample, if any, goes to
    /// the channel that the payload was bound to. For a ping, the ping
    /// tracker of `receiving_fd` is acknowledged at `now`. A sample sets the
    /// channel's round-trip time and gives it good credit.
    pub fn ack(&mut self, receiving_fd: i32, seq: Seq16, space: AckSpace)
        requires
            old(self).wf(),
        ensures
            final(self).wf(),
            ack_taken(*old(self), *final(self), receiving_fd, seq, space),
    {
        match space {
            AckSpace::Payload { rtt } => {
                if !self.payload_fds.contains_key(&seq.value) {
                    // Payload was already acked
                    return;
                }
                let assigned_fd = match self.remove_payload_seq(seq.value) {
                    Some(fd) => fd,
                    None => return,
                };
                // The payload may have been reassigned to a channel other than the
                // one the acknowledgement arrived on: the sample belongs to `assigned_fd`
                assert(self.channels().contains(assigned_fd)) by {
                    assert(old(self).channels().contains(old(self).owner()[seq.value]));
                }
                let i = match self.find(assigned_fd) {
                    Some(i) => i,
                    None => return,
                };
                let ghost mid = *self;
                if let Some(rtt) = rtt {
                    self.sockets[i].1.rtt = Some(rtt);
                    self.sockets[i].1.credit = Credit::Good;
                }
                proof {
                    assert(self.sockets@ =~= mid.sockets@.update(i as int, self.sockets@[i as int]));
                    self.lemma_update_record(mid, i as int);
                    let o = old(self);
                    assert(o.channels().index_of(o.owner()[seq.value]) == i) by {
                        assert(o.channels()[i as int] == o.owner()[seq.value]);
                        assert(o.channels().contains(o.owner()[seq.value]));
                    }
                    assert(o.records()[i as int].pings() == mid.records()[i as int].pings());
                }
            },
            AckSpace::Ping { now } => {
                let i = match self.find(receiving_fd) {
                    Some(i) => i,
                    None => return,
                };
                let rtt = self.sockets[i].1.ping_queue.ack(seq, now, receiving_fd);
                if let Some(rtt) = rtt {
                    self.sockets[i].1.rtt = Some(rtt);
                    self.sockets[i].1.credit = Credit::Good;
                }
                proof {
                    assert(self.sockets@ =~= old(self).sockets@.update(i as int, self.sockets@[i as int]));
                    self.lemma_update_record(*old(self), i as int);
                }
            },
        }
    }

    /// Gives each payload of `payloads`, in order, to the next channel of
    /// `applicable`, visiting it cyclically. Fails, changing nothing, when
    /// `applicable` is empty.
    fn round_robin_reassign_payloads(&mut self, payloads: Vec<Seq16>, applicable: Vec<i32>) -> (r:
        Result<RetransmitPayloads, ReassignPayloadError>)
        requires
            old(self).wf(),
            forall|j: int| 0 <= j < applicable.len() ==> old(self).channels().contains(#[trigger] applicable[j]),
        ensures
            final(self).wf(),
            final(self).channels() == old(self).channels(),
            same_but_assigned(old(self).records(), final(self).records()),
            applicable.len() == 0 ==> r == Err::<RetransmitPayloads, ReassignPayloadError>(
                ReassignPayloadError::NoSocketsLeft { payloads },
            ) && *final(self) == *old(self),
            applicable.len() > 0 ==> match r {
                Ok(v) => v@ == round_robin(payloads@, applicable@) && final(self).owner() == bind_all(
                    old(self).owner(),
                    v@,
                ),
                Err(_) => false,
            },
    {
        if applicable.len() == 0 {
            return Err(ReassignPayloadError::NoSocketsLeft { payloads });
        }
        let mut assigned: Vec<(i32, Seq16)> = Vec::new();
        let mut k: usize = 0;
        while k < payloads.len()
            invariant
                self.wf(),
                self.channels() == old(self).channels(),
                same_but_assigned(old(self).records(), self.records()),
                applicable.len() > 0,
                forall|j: int| 0 <= j < applicable.len() ==> old(self).channels().contains(#[trigger] applicable[j]),
                k <= payloads.len(),
                assigned@ == round_robin(payloads@.take(k as int), applicable@),
                self.owner() == bind_all(old(self).owner(), assigned@),
            decreases payloads.len() - k,
        {
            let assignee = applicable[k % applicable.len()];
            let seq = payloads[k];
            let ghost before = assigned@;
            assigned.push((assignee, seq));
            let ghost mid = *self;
            self.reassign_payload_seq(assignee, seq.value);
            proof {
                assert(assigned@ =~= round_robin(payloads@.take(k + 1), applicable@));
                assert(assigned@.drop_last() =~= before);
                assert(old(self).channels().contains(assignee));
                lemma_same_but_assigned_trans(old(self).records(), mid.records(), self.records());
            }
            k = k + 1;
        }
        proof {
            assert(payloads@.take(k as int) =~= payloads@);
        }
        Ok(assigned)
    }

    /// Gives the channel that `seq` is bound to, if any, bad credit: it
    /// caused a timeout, so it takes over no payloads until a new round-trip
    /// sample arrives.
    pub fn discredit(&mut self, seq: Seq16)
        requires
            old(self).wf(),
        ensures
            final(self).wf(),
            final(self).channels() == old(self).channels(),
            final(self).owner() == old(self).owner(),
            old(self).owner().contains_key(seq.value) ==> {
                let i = old(self).channels().index_of(old(self).owner()[seq.value]);
                let (pre, post) = (old(self).records()[i], final(self).records()[i]);
                &&& final(self).records() == old(self).records().update(i, post)
                &&& post.standing() == Credit::Bad
                &&& post.assigned() == pre.assigned()
                &&& post.last_rtt() == pre.last_rtt()
                &&& post.pings() == pre.pings()
            },
            !old(self).owner().contains_key(seq.value) ==> *final(self) == *old(self),
    {
        let fd = match self.payload_fds.get(&seq.value) {
            Some(fd) => *fd,
            None => return,
        };
        assert(self.channels().contains(fd));
        let i = match self.find(fd) {
            Some(i) => i,
            None => return,
        };
        self.sockets[i].1.credit = Credit::Bad;
        proof {
            assert(self.sockets@ =~= old(self).sockets@.update(i as int, self.sockets@[i as int]));
            self.lemma_update_record(*old(self), i as int);
            assert(old(self).channels().index_of(fd) == i) by {
                assert(old(self).channels()[i as int] == fd);
            }
        }
    }

    /// Hands the payloads whose timer ran out to the channels with good
    /// credit. First every channel that one of `rto_payloads` is bound to
    /// gets bad credit; then the payloads go round-robin, in order, to the
    /// channels that still have good credit, in the order the channels were
    /// added. When no such channel is left, this fails and the payloads stay
    /// bound as they were.
    pub fn reassign_rto_payloads(&mut self, rto_payloads: &[Seq16]) -> (r: Result<
        RetransmitPayloads,
        ReassignPayloadError,
    >)
        requires
            old(self).wf(),
        ensures
            final(self).wf(),
            rto_reassigned(*old(self), *final(self), rto_payloads@, r),
    {
        // Discredit channels that have caused timeouts
        let mut k: usize = 0;
        while k < rto_payloads.len()
            invariant
                old(self).wf(),
                self.wf(),
                self.channels() == old(self).channels(),
                self.owner() == old(self).owner(),
                self.records().len() == old(self).records().len(),
                k <= rto_payloads.len(),
                forall|i: int|
                    0 <= i < old(self).records().len() ==> {
                        let (pre, post) = (old(self).records()[i], #[trigger] self.records()[i]);
                        &&& post.standing() == if blamed(
                            old(self).owner(),
                            rto_payloads@.take(k as int),
                            old(self).channels()[i],
                        ) {
                            Credit::Bad
                        } else {
                            pre.standing()
                        }
                        &&& post.last_rtt() == pre.last_rtt()
                        &&& post.pings() == pre.pings()
                        &&& post.assigned() == pre.assigned()
                    },
            decreases rto_payloads.len() - k,
        {
            let ghost mid = *self;
            self.discredit(rto_payloads[k]);
            proof {
                let o = old(self);
                let seq = rto_payloads@[k as int].value;
                assert forall|i: int| 0 <= i < o.records().len() implies blamed(
                    o.owner(),
                    rto_payloads@.take(k + 1),
                    o.channels()[i],
                ) == (blamed(o.owner(), rto_payloads@.take(k as int), o.channels()[i]) || (o.owner().contains_key(seq)
                    && o.owner()[seq] == o.channels()[i])) by {
                    let c = o.channels()[i];
                    let pre = rto_payloads@.take(k as int);
                    let post = rto_payloads@.take(k + 1);
                    if blamed(o.owner(), post, c) {
                        let j = choose|j: int| 0 <= j < post.len() && o.owner().contains_key(post[j].value) && o.owner()[post[j].value] == c;
                        if j < k {
                            assert(pre[j] == post[j]);
                        }
                    }
                    if blamed(o.owner(), pre, c) {
                        let j = choose|j: int| 0 <= j < pre.len() && o.owner().contains_key(pre[j].value) && o.owner()[pre[j].value] == c;
                        assert(pre[j] == post[j]);
                    }
                    if o.owner().contains_key(seq) && o.owner()[seq] == c {
                        assert(post[k as int].value == seq);
                    }
                }
                if o.owner().contains_key(seq) {
                    let i0 = o.channels().index_of(o.owner()[seq]);
                    assert(o.channels()[i0] == o.owner()[seq]);
                    assert forall|i: int| 0 <= i < o.records().len() && o.owner()[seq] == o.channels()[i] implies i == i0 by {
                        assert(o.channels().no_duplicates());
                    }
                }
            }
            k = k + 1;
        }
        proof {
            assert(rto_payloads@.take(k as int) =~= rto_payloads@);
        }
        let applicable = self.good_channel_list();
        let mut payloads: Vec<Seq16> = Vec::new();
        let mut j: usize = 0;
        while j < rto_payloads.len()
            invariant
                j <= rto_payloads.len(),
                payloads@ == rto_payloads@.take(j as int),
            decreases rto_payloads.len() - j,
        {
            payloads.push(rto_payloads[j]);
            j = j + 1;
            proof {
                assert(payloads@ =~= rto_payloads@.take(j as int));
            }
        }
        proof {
            assert(payloads@ =~= rto_payloads@);
        }
        let ghost mid = *self;
        let r = self.round_robin_reassign_payloads(payloads, applicable);
        proof {
            lemma_good_channels_agree(mid.channels(), mid.records(), self.records());
            assert forall|i: int| 0 <= i < old(self).records().len() implies {
                let (pre, post) = (old(self).records()[i], #[trigger] self.records()[i]);
                &&& post.standing() == if blamed(old(self).owner(), rto_payloads@, old(self).channels()[i]) {
                    Credit::Bad
                } else {
                    pre.standing()
                }
                &&& post.last_rtt() == pre.last_rtt()
                &&& post.pings() == pre.pings()
            } by {
                assert(mid.records()[i].standing() == self.records()[i].standing());
            }
        }
        r
    }

    /// The channels with good credit, in the order they were added.
    fn good_channel_list(&self) -> (r: Vec<i32>)
        requires
            self.wf(),
        ensures
            r@ == good_channels(self.channels(), self.records()),
            forall|j: int| 0 <= j < r.len() ==> self.channels().contains(#[trigger] r[j]),
    {
        let mut r: Vec<i32> = Vec::new();
        let mut i: usize = 0;
        while i < self.sockets.len()
            invariant
                i <= self.sockets.len(),
                r@ == good_channels(self.channels().take(i as int), self.records().take(i as int)),
                forall|j: int| 0 <= j < r.len() ==> self.channels().contains(#[trigger] r[j]),
            decreases self.sockets.len() - i,
        {
            proof {
                assert(self.channels().take(i + 1).drop_last() =~= self.channels().take(i as int));
                assert(self.records().take(i + 1).take(i as int) =~= self.records().take(i as int));
            }
            if self.sockets[i].1.credit == Credit::Good {
                r.push(self.sockets[i].0);
                proof {
                    assert(self.channels()[i as int] == self.sockets@[i as int].0);
                }
            }
            i = i + 1;
        }
        proof {
            assert(self.channels().take(i as int) =~= self.channels());
            assert(self.records().take(i as int) =~= self.records());
        }
        r
    }

    /// Removes channel `fd` and hands the payloads it carried round-robin to
    /// the remaining channels, in the order they were added; the payloads go
    /// in increasing order of sequence value. When `fd` carried payloads and
    /// no channel is left, this fails with those payloads, which are then
    /// bound to no channel. An unknown `fd` changes nothing.
    pub fn remove_fd(&mut self, fd: i32) -> (r: Result<RetransmitPayloads, ReassignPayloadError>)
        requires
            old(self).wf(),
        ensures
            final(self).wf(),
            fd_removed(*old(self), *final(self), fd, r),
    {
        let i = match self.find(fd) {
            Some(i) => i,
            None => return Ok(Vec::new()),
        };
        let (_, socket) = self.sockets.remove(i);
        // Remove the bindings of the channel's payloads
        unbind_all(&mut self.payload_fds, &socket.payloads);
        proof {
            self.lemma_remove_record(*old(self), i as int);
        }
        if socket.payloads.is_empty() {
            // No payloads to reassign
            proof {
                assert(self.payload_fds@ =~= old(self).payload_fds@);
            }
            return Ok(Vec::new());
        }
        let payloads = sorted_payloads(&socket.payloads);
        if self.sockets.len() == 0 {
            // No channels left to take the payloads
            return Err(ReassignPayloadError::NoSocketsLeft { payloads });
        }
        // The remaining channels take the payloads of the removed one
        let applicable = self.channel_list();
        let ghost mid = *self;
        let r = self.round_robin_reassign_payloads(payloads, applicable);
        proof {
            lemma_same_but_assigned_trans(old(self).records().remove(i as int), mid.records(), self.records());
            if r is Ok {
                let v = r->Ok_0;
                assert(v@.map_values(|p: (i32, Seq16)| p.1) =~= payloads@);
            }
        }
        r
    }

    pub proof fn lemma_records_len(&self)
        ensures
            self.records().len() == self.channels().len(),
    {
    }

    /// The channel handles, in the order they were added.
    fn channel_list(&self) -> (r: Vec<i32>)
        ensures
            r@ == self.channels(),
    {
        let mut r: Vec<i32> = Vec::new();
        let mut i: usize = 0;
        while i < self.sockets.len()
            invariant
                i <= self.sockets.len(),
                r@ == self.channels().take(i as int),
            decreases self.sockets.len() - i,
        {
            r.push(self.sockets[i].0);
            i = i + 1;
            proof {
                assert(r@ =~= self.channels().take(i as int));
            }
        }
        proof {
            assert(r@ =~= self.channels());
        }
        r
    }

    /// Dropping record `i` together with the bindings of its payloads keeps
    /// the registry well formed.
    proof fn lemma_remove_record(&self, pre: Sockets, i: int)
        requires
            pre.wf(),
            0 <= i < pre.sockets@.len(),
            self.sockets@ == pre.sockets@.remove(i),
            self.payload_fds@ == pre.payload_fds@.remove_keys(pre.sockets@[i].1.payloads@),
        ensures
            self.wf(),
            self.channels() == pre.channels().remove(i),
            pre.channels().index_of(pre.channels()[i]) == i,
            same_but_assigned(pre.records().remove(i), self.records()),
    {
        let fd = pre.sockets@[i].0;
        assert(self.channels() =~= pre.channels().remove(i));
        assert(self.records() =~= pre.records().remove(i));
        assert(pre.channels()[i] == fd);
        assert forall|j: int, t: u16|
            #![trigger self.sockets@[j].1.payloads@.contains(t)]
            #![trigger self.sockets@[j], self.payload_fds@[t]]
            0 <= j < self.sockets@.len() implies (self.sockets@[j].1.payloads@.contains(t)
            <==> (self.payload_fds@.contains_key(t) && self.payload_fds@[t] == self.sockets@[j].0)) by {
            let k = if j < i { j } else { j + 1 };
            assert(self.sockets@[j] == pre.sockets@[k]);
            assert(pre.sockets@[k].1.payloads@.contains(t) <==> (pre.payload_fds@.contains_key(t)
                && pre.payload_fds@[t] == pre.sockets@[k].0));
            assert(pre.sockets@[i].1.payloads@.contains(t) <==> (pre.payload_fds@.contains_key(t)
                && pre.payload_fds@[t] == pre.sockets@[i].0));
            assert(pre.channels()[k] != pre.channels()[i]);
        }
        assert forall|t: u16| #[trigger]
            self.payload_fds@.contains_key(t) implies self.channels().contains(self.payload_fds@[t]) by {
            let c = pre.payload_fds@[t];
            assert(pre.channels().contains(c));
            let k = pre.channels().index_of(c);
            assert(pre.sockets@[i].1.payloads@.contains(t) <==> (pre.payload_fds@.contains_key(t)
                && pre.payload_fds@[t] == pre.sockets@[i].0));
            assert(k != i);
            let j = if k < i { k } else { k - 1 };
            assert(self.channels()[j] == c);
        }
        assert forall|j: int| 0 <= j < self.sockets@.len() implies (#[trigger] self.sockets@[j]).1.wf() by {
            let k = if j < i { j } else { j + 1 };
            assert(pre.sockets@[k].1.wf());
        }
    }

    /// The channels and their records, in the order the channels were added.
    pub fn sockets(&self) -> (r: &Vec<(i32, Socket)>)
        ensures
            r@.map_values(|e: (i32, Socket)| e.0) == self.channels(),
            r@.map_values(|e: (i32, Socket)| e.1) == self.records(),
    {
        &self.sockets
    }

    /// The record of channel `fd`.
    pub fn socket(&self, fd: i32) -> (r: Option<&Socket>)
        requires
            self.wf(),
        ensures
            match r {
                Some(s) => self.channels().contains(fd) && *s == self.records()[self.channels().index_of(fd)],
                None => !self.channels().contains(fd),
            },
    {
        match self.find(fd) {
            Some(i) => {
                proof {
                    assert(self.channels()[i as int] == fd);
                    assert(self.channels().contains(fd));
                    let k = self.channels().index_of(fd);
                    assert(self.channels()[k] == fd);
                    assert(self.records()[i as int] == self.sockets@[i as int].1);
                }
                Some(&self.sockets[i].1)
            },
            None => None,
        }
    }

    /// Changing record `i` in anything but its payloads keeps the registry
    /// well formed.
    proof fn lemma_update_record(&self, pre: Sockets, i: int)
        requires
            pre.wf(),
            0 <= i < pre.sockets@.len(),
            self.sockets@ == pre.sockets@.update(i, self.sockets@[i]),
            self.sockets@[i].0 == pre.sockets@[i].0,
            self.sockets@[i].1.payloads@ == pre.sockets@[i].1.payloads@,
            self.sockets@[i].1.wf(),
            self.payload_fds@ == pre.payload_fds@,
        ensures
            self.wf(),
            self.channels() == pre.channels(),
            self.records() == pre.records().update(i, self.records()[i]),
    {
        assert(self.channels() =~= pre.channels());
        assert(self.records() =~= pre.records().update(i, self.records()[i]));
        assert forall|j: int, t: u16|
            #![trigger self.sockets@[j].1.payloads@.contains(t)]
            #![trigger self.sockets@[j], self.payload_fds@[t]]
            0 <= j < self.sockets@.len() implies (self.sockets@[j].1.payloads@.contains(t)
            <==> (self.payload_fds@.contains_key(t) && self.payload_fds@[t] == self.sockets@[j].0)) by {
            assert(pre.sockets@[j].1.payloads@.contains(t) <==> (pre.payload_fds@.contains_key(t)
                && pre.payload_fds@[t] == pre.sockets@[j].0));
        }
        assert forall|t: u16| #[trigger]
            self.payload_fds@.contains_key(t) implies self.channels().contains(self.payload_fds@[t]) by {
            assert(pre.payload_fds@.contains_key(t));
        }
        assert forall|j: int| 0 <= j < self.sockets@.len() implies (#[trigger] self.sockets@[j]).1.wf() by {
            if j != i {
                assert(pre.sockets@[j].1.wf());
            }
        }
    }
}

/// What `add_fd` does to the registry.
pub open spec fn fd_added(pre: Sockets, post: Sockets, fd: i32) -> bool {
    &&& !pre.channels().contains(fd) ==> {
        &&& post.channels() == pre.channels().push(fd)
        &&& post.records().drop_last() == pre.records()
        &&& post.records().last().is_fresh()
        &&& post.owner() == pre.owner()
    }
    &&& pre.channels().contains(fd) ==> {
        let i = pre.channels().index_of(fd);
        &&& post.channels() == pre.channels()
        &&& post.records() == pre.records().update(i, post.records()[i])
        &&& post.records()[i].is_fresh()
        &&& post.owner() == pre.owner().remove_keys(
            pre.assigned_payloads(fd),
        )
    }
}

/// What `remove_fd` does to the registry, and what it returns.
pub open spec fn fd_removed(pre: Sockets, post: Sockets, fd: i32, r: Result<RetransmitPayloads, ReassignPayloadError>) -> bool {
    &&& !pre.channels().contains(fd) ==> post == pre && match r {
        Ok(v) => v@.len() == 0,
        Err(_) => false,
    }
    &&& pre.channels().contains(fd) ==> {
        let i = pre.channels().index_of(fd);
        let orphans = pre.records()[i].assigned();
        let rest = pre.channels().remove(i);
        &&& post.channels() == rest
        &&& same_but_assigned(pre.records().remove(i), post.records())
        &&& if orphans.is_empty() {
            post.owner() == pre.owner() && match r {
                Ok(v) => v@.len() == 0,
                Err(_) => false,
            }
        } else if rest.len() == 0 {
            post.owner() == pre.owner().remove_keys(orphans) && match r {
                Ok(_) => false,
                Err(ReassignPayloadError::NoSocketsLeft { payloads }) => lists_in_order(
                    payloads@,
                    orphans,
                ),
            }
        } else {
            match r {
                Ok(v) => {
                    let ps = v@.map_values(|p: (i32, Seq16)| p.1);
                    &&& lists_in_order(ps, orphans)
                    &&& v@ == round_robin(ps, rest)
                    &&& post.owner() == bind_all(
                        pre.owner().remove_keys(orphans),
                        v@,
                    )
                },
                Err(_) => false,
            }
        }
    }
}

/// What `ack` does to the registry.
pub open spec fn ack_taken(pre: Sockets, post: Sockets, receiving_fd: i32, seq: Seq16, space: AckSpace) -> bool {
    &&& post.channels() == pre.channels()
    &&& match space {
        AckSpace::Payload { rtt } => if pre.owner().contains_key(seq.value) {
            let i = pre.channels().index_of(pre.owner()[seq.value]);
            &&& post.owner() == pre.owner().remove(seq.value)
            &&& same_but_assigned(
                pre.records().update(i, post.records()[i]),
                post.records(),
            )
            &&& post.records()[i].pings() == pre.records()[i].pings()
            &&& sampled(pre.records()[i], post.records()[i], rtt)
        } else {
            post == pre
        },
        AckSpace::Ping { now } => if pre.channels().contains(receiving_fd) {
            let i = pre.channels().index_of(receiving_fd);
            let (a, b) = (pre.records()[i], post.records()[i]);
            &&& post.owner() == pre.owner()
            &&& post.records() == pre.records().update(i, b)
            &&& b.assigned() == a.assigned()
            &&& acked(a.pings(), b.pings(), seq.value)
            &&& sampled(a, b, rtt_sample(a.pings().timers(), seq.value, now, receiving_fd))
        } else {
            post == pre
        },
    }
}

/// What `reassign_rto_payloads` does to the registry, and what it returns.
pub open spec fn rto_reassigned(pre: Sockets, post: Sockets, rto_payloads: Seq<Seq16>, r: Result<RetransmitPayloads, ReassignPayloadError>) -> bool {
    &&& post.channels() == pre.channels()
    &&& post.records().len() == pre.records().len()
    &&& forall|i: int|
        0 <= i < pre.records().len() ==> {
            let (a, b) = (pre.records()[i], #[trigger] post.records()[i]);
            &&& b.standing() == if blamed(pre.owner(), rto_payloads, pre.channels()[i]) {
                Credit::Bad
            } else {
                a.standing()
            }
            &&& b.last_rtt() == a.last_rtt()
            &&& b.pings() == a.pings()
        }
    &&& ({
        let good = good_channels(post.channels(), post.records());
        match r {
            Ok(v) => good.len() > 0 && v@ == round_robin(rto_payloads, good)
                && post.owner() == bind_all(pre.owner(), v@),
            Err(ReassignPayloadError::NoSocketsLeft { payloads }) => good.len() == 0
                && payloads@ == rto_payloads && post.owner() == pre.owner(),
        }
    })
}

/// The members of `set`, each once, in increasing order.
fn sorted_payloads(set: &BTreeSet<u16>) -> (r: Vec<Seq16>)
    ensures
        lists_in_order(r@, set@),
{
    let mut r: Vec<Seq16> = Vec::new();
    let ghost items = spec_btree_keys_iter(set).remaining();
    let ghost mut done: int = 0;
    for k in it: set.iter()
        invariant
            it.seq() == items,
            items == spec_btree_keys_iter(set).remaining(),
            items.unref().to_set() == set@,
            increasing_seq(items),
            done == it.index(),
            r.len() == done,
            forall|j: int| 0 <= j < done ==> (#[trigger] r@[j]).value == *items[j],
    {
        r.push(Seq16::new(*k));
        proof {
            done = done + 1;
        }
    }
    proof {
        assert(obeys_cmp::<u16>());
        assert(obeys_cmp::<&u16>());
        assert forall|a: int, b: int| 0 <= a < b < r.len() implies r@[a].value < r@[b].value by {
            assert(<&u16 as OrdSpec>::cmp_spec(&items[a], &items[b]) is Less);
            let x: u16 = *items[a];
            let y: u16 = *items[b];
            assert(x.cmp_spec(&y) is Less);
        }
        assert forall|s: u16|
            #![trigger set@.contains(s)]
            #![trigger r@.contains(Seq16 { value: s })]
            r@.contains(Seq16 { value: s }) <==> set@.contains(s) by {
            if set@.contains(s) {
                assert(items.unref().contains(s));
                let j = choose|j: int| 0 <= j < items.len() && items.unref()[j] == s;
                assert(r@[j] == Seq16 { value: s });
            }
            if r@.contains(Seq16 { value: s }) {
                let j = choose|j: int| 0 <= j < r.len() && r@[j] == Seq16 { value: s };
                assert(items.unref()[j] == s);
                assert(items.unref().contains(s));
            }
        }
    }
    r
}

/// Removes every key of `keys` from `map`.
fn unbind_all(map: &mut BTreeMap<u16, i32>, keys: &BTreeSet<u16>)
    ensures
        final(map)@ == old(map)@.remove_keys(keys@),
{
    let ghost items = spec_btree_keys_iter(keys).remaining();
    let ghost mut done: int = 0;
    for k in it: keys.iter()
        invariant
            it.seq() == items,
            items == spec_btree_keys_iter(keys).remaining(),
            done == it.index(),
            forall|t: u16| #[trigger] map@.contains_key(t) ==> old(map)@.contains_key(t) && map@[t] == old(map)@[t],
            forall|t: u16| old(map)@.contains_key(t) && !(#[trigger] map@.contains_key(t)) ==> keys@.contains(t),
            forall|i: int| 0 <= i < done ==> !map@.contains_key(*(#[trigger] items[i])),
    {
        map.remove(k);
        proof {
            done = done + 1;
        }
    }
    proof {
        assert forall|t: u16| keys@.contains(t) implies !(#[trigger] map@.contains_key(t)) by {
            assert(items.unref().to_set().contains(t));
            let i = choose|i: int| 0 <= i < items.len() && items.unref()[i] == t;
            assert(*items[i] == t);
        }
        assert(map@ =~= old(map)@.remove_keys(keys@));
    }
}

/// Two positions of the same channel are the same position.
pub proof fn lemma_channels_unique(sockets: Sockets, i: int, j: int)
    requires
        sockets.wf(),
        0 <= i < sockets.channels().len(),
        0 <= j < sockets.channels().len(),
        sockets.channels()[i] == sockets.channels()[j],
    ensures
        i == j,
{
}

/// A payload belongs to channel `c`'s record exactly when the binding of the
/// payload names `c`: the two directions of the registry agree.
pub proof fn lemma_binding_agrees(sockets: &Sockets, c: i32, seq: u16)
    requires
        sockets.wf(),
    ensures
        sockets.assigned_payloads(c).contains(seq) <==> (sockets.owner().contains_key(seq)
            && sockets.owner()[seq] == c),
{
    if sockets.channels().contains(c) {
        let i = sockets.channels().index_of(c);
        assert(sockets.sockets@[i].0 == c);
    } else if sockets.owner().contains_key(seq) {
        assert(sockets.channels().contains(sockets.owner()[seq]));
    }
}

} // verus!
