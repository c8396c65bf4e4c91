use multipath::retransmit_queue::{RetransmitQueue, RetransmitResult};
use multipath::rtt_stopwatch::RttStopwatch;
use multipath::sequence::Seq16;
use multipath::time::{Duration, Instant};
use multipath::timed_send_queue::{RetransmitError, TimedSendQueue};

#[test]
fn retransmit_queue_ok() {
    let mut queue = RetransmitQueue::new(10);
    let now = Instant::from_nanos(0);
    let timeout = Duration::from_millis(100);
    assert_eq!(
        queue.retransmit(Seq16::new(0), now),
        Err(RetransmitError::SequenceNumberNotFound)
    );
    assert_eq!(queue.send(now, timeout), Some(Seq16::new(0)));
    assert_eq!(queue.retransmit(Seq16::new(0), now), Ok(RetransmitResult::Wait));
    assert_eq!(
        queue.retransmit(Seq16::new(1), now),
        Err(RetransmitError::SequenceNumberNotFound)
    );
    let now = now.add(timeout);
    assert_eq!(
        queue.retransmit(Seq16::new(0), now),
        Ok(RetransmitResult::Retransmit)
    );
    assert_eq!(queue.ack(Seq16::new(0), now), None);
    assert_eq!(
        queue.retransmit(Seq16::new(0), now),
        Err(RetransmitError::SequenceNumberNotFound)
    );
}

#[test]
fn retransmit_queue_rtt() {
    let mut queue = RetransmitQueue::new(10);
    let now = Instant::from_nanos(0);
    let timeout = Duration::from_millis(100);
    assert_eq!(queue.send(now, timeout), Some(Seq16::new(0)));
    let rtt = Duration::from_millis(50);
    let now = now.add(rtt);
    assert_eq!(queue.ack(Seq16::new(0), now), Some(rtt));
}

#[test]
fn timed_send_queue_ok() {
    let mut queue = TimedSendQueue::new(10);
    let now = Instant::from_nanos(0);
    let timeout = Duration::from_millis(100);
    let key_0 = 0;
    let key_1 = 1;
    assert_eq!(
        queue.retransmit(Seq16::new(0), now, timeout, key_1),
        Err(RetransmitError::SequenceNumberNotFound)
    );
    assert_eq!(queue.send(now, timeout, key_0), Some(Seq16::new(0)));
    assert_eq!(queue.retransmit(Seq16::new(0), now, timeout, key_1), Ok(()));
    assert_eq!(
        queue.retransmit(Seq16::new(1), now, timeout, key_1),
        Err(RetransmitError::SequenceNumberNotFound)
    );
    let now = now.add(timeout);
    assert_eq!(queue.collect_timeout_sequences(now), vec![Seq16::new(0)]);
    assert_eq!(queue.ack(Seq16::new(0), now, key_0), None);
    assert_eq!(
        queue.retransmit(Seq16::new(0), now, timeout, key_1),
        Err(RetransmitError::SequenceNumberNotFound)
    );
}

#[test]
fn timed_send_queue_rtt() {
    let mut queue = TimedSendQueue::new(10);
    let now = Instant::from_nanos(0);
    let timeout = Duration::from_millis(100);
    let key_0 = 0;
    assert_eq!(queue.send(now, timeout, key_0), Some(Seq16::new(0)));
    let rtt = Duration::from_millis(50);
    let now = now.add(rtt);
    assert_eq!(queue.ack(Seq16::new(0), now, key_0), Some(rtt));
}

#[test]
fn timed_send_queue_collects_in_order_and_only_due() {
    let mut queue = TimedSendQueue::new(10);
    let start = Instant::from_nanos(1_000);
    let short = Duration::from_millis(10);
    let long = Duration::from_millis(500);
    assert_eq!(queue.send(start, long, 7), Some(Seq16::new(0)));
    assert_eq!(queue.send(start, short, 7), Some(Seq16::new(1)));
    assert_eq!(queue.send(start, short, 8), Some(Seq16::new(2)));
    let now = start.add(Duration::from_millis(10));
    assert_eq!(
        queue.collect_timeout_sequences(now),
        vec![Seq16::new(1), Seq16::new(2)]
    );
    // a timer that has not started yet counts no time
    assert!(queue.collect_timeout_sequences(Instant::from_nanos(0)).is_empty());
    let watch = queue.rtt_stopwatch(Seq16::new(0)).unwrap();
    assert_eq!(watch.timeout(), long);
    assert!(queue.rtt_stopwatch(Seq16::new(3)).is_none());
}

#[test]
fn timed_send_queue_full_window() {
    let mut queue = TimedSendQueue::new(1);
    let now = Instant::from_nanos(0);
    let timeout = Duration::from_millis(1);
    assert_eq!(queue.send(now, timeout, 1), Some(Seq16::new(0)));
    assert_eq!(queue.send(now, timeout, 1), None);
    assert_eq!(queue.ack(Seq16::new(0), now, 1), Some(Duration::from_nanos(0)));
    assert_eq!(queue.ack(Seq16::new(0), now, 1), None);
    assert_eq!(queue.send(now, timeout, 1), Some(Seq16::new(1)));
}

#[test]
fn rtt_stopwatch_measures() {
    let start = Instant::from_nanos(5_000);
    let watch = RttStopwatch::new(start, Duration::from_nanos(100));
    assert!(!watch.is_timeout(Instant::from_nanos(5_099)));
    assert!(watch.is_timeout(Instant::from_nanos(5_100)));
    assert!(!watch.is_timeout(Instant::from_nanos(10)));
    assert_eq!(watch.timeout(), Duration::from_nanos(100));
    assert_eq!(watch.into_rtt(Instant::from_nanos(5_250)), Duration::from_nanos(250));
}

#[test]
fn time_arithmetic() {
    assert_eq!(Duration::from_secs(2).as_nanos(), 2_000_000_000);
    assert_eq!(Duration::from_millis(3).as_nanos(), 3_000_000);
    assert_eq!(Duration::from_nanos(7).saturating_mul(3), Duration::from_nanos(21));
    assert_eq!(
        Duration::from_nanos(u64::MAX / 2 + 1).saturating_mul(2),
        Duration::from_nanos(u64::MAX)
    );
    let t = Instant::from_nanos(10);
    assert_eq!(t.add(Duration::from_nanos(5)).as_nanos(), 15);
    assert_eq!(
        Instant::from_nanos(3).saturating_duration_since(t),
        Duration::from_nanos(0)
    );
    assert_eq!(
        t.saturating_duration_since(Instant::from_nanos(4)),
        Duration::from_nanos(6)
    );
}
