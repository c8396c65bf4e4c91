use multipath::receive_queue::{ReceiveQueue, ReceiveResult};
use multipath::send_queue::SendQueue;
use multipath::sequence::Seq16;

#[test]
fn receive_queue_ok() {
    let mut queue = ReceiveQueue::new(2);
    assert_eq!(queue.receive(Seq16::new(1)), ReceiveResult::Accept);
    assert_eq!(queue.receive(Seq16::new(2)), ReceiveResult::Reject);
    let first = queue.pop();
    assert_eq!(first, None);
    assert_eq!(queue.receive(Seq16::new(0)), ReceiveResult::Accept);
    let first = queue.pop();
    assert_eq!(first, Some(Seq16::new(0)));
    assert_eq!(queue.receive(Seq16::new(0)), ReceiveResult::Reject);
    let first = queue.pop();
    assert_eq!(first, Some(Seq16::new(1)));
    let first = queue.pop();
    assert_eq!(first, None);
}

#[test]
fn receive_queue_reset_capacity() {
    let mut queue = ReceiveQueue::new(2);
    assert_eq!(queue.receive(Seq16::new(0)), ReceiveResult::Accept);
    assert_eq!(queue.receive(Seq16::new(1)), ReceiveResult::Accept);
    queue.set_capacity(1);
    assert_eq!(queue.receive(Seq16::new(1)), ReceiveResult::Reject);
    let first = queue.pop();
    assert_eq!(first, Some(Seq16::new(0)));
    let first = queue.pop();
    assert_eq!(first, Some(Seq16::new(1)));
    let first = queue.pop();
    assert_eq!(first, None);
}

#[test]
fn send_queue_ok() {
    let mut queue = SendQueue::new(2);
    assert_eq!(queue.send(), Some(Seq16::new(0)));
    assert_eq!(queue.send(), Some(Seq16::new(1)));
    assert_eq!(queue.send(), None);
    queue.ack(Seq16::new(0));
    assert_eq!(queue.send(), Some(Seq16::new(2)));
    assert_eq!(queue.send(), None);
    queue.ack(Seq16::new(2));
    assert_eq!(queue.send(), Some(Seq16::new(3)));
    assert_eq!(queue.send(), None);
    queue.ack(Seq16::new(1));
    assert_eq!(queue.send(), Some(Seq16::new(4)));
    assert_eq!(queue.send(), None);
}

#[test]
fn send_queue_reset_capacity() {
    let mut queue = SendQueue::new(2);
    assert_eq!(queue.send(), Some(Seq16::new(0)));
    assert_eq!(queue.send(), Some(Seq16::new(1)));
    assert_eq!(queue.send(), None);
    queue.set_capacity(1);
    assert_eq!(queue.send(), None);
    queue.ack(Seq16::new(0));
    assert_eq!(queue.send(), None);
    queue.ack(Seq16::new(1));
    assert_eq!(queue.send(), Some(Seq16::new(2)));
    assert_eq!(queue.send(), None);
}

#[test]
fn send_queue_issues_in_order_across_wrap() {
    let mut queue = SendQueue::new(1);
    for i in 0..70_000u32 {
        let seq = queue.send().unwrap();
        assert_eq!(seq, Seq16::new((i % 0x1_0000) as u16));
        queue.ack(seq);
    }
}

#[test]
fn send_queue_ack_of_unknown_is_a_no_op() {
    let mut queue = SendQueue::new(1);
    assert_eq!(queue.send(), Some(Seq16::new(0)));
    queue.ack(Seq16::new(7));
    queue.ack(Seq16::new(7));
    assert_eq!(queue.send(), None);
    queue.ack(Seq16::new(0));
    queue.ack(Seq16::new(0));
    assert_eq!(queue.send(), Some(Seq16::new(1)));
}

#[test]
fn receive_queue_edges_of_window() {
    let mut queue = ReceiveQueue::new(3);
    // two steps past the left edge is the last slot of a window of three
    assert_eq!(queue.receive(Seq16::new(2)), ReceiveResult::Accept);
    assert_eq!(queue.receive(Seq16::new(3)), ReceiveResult::Reject);
    // a duplicate is accepted again
    assert_eq!(queue.receive(Seq16::new(2)), ReceiveResult::Accept);
    // 65535 comes before 0 in wrap order
    assert_eq!(queue.receive(Seq16::new(u16::MAX)), ReceiveResult::Reject);
    assert_eq!(queue.pop(), None);
}

#[test]
fn receive_queue_zero_capacity_rejects_all() {
    let mut queue = ReceiveQueue::new(0);
    assert_eq!(queue.receive(Seq16::new(0)), ReceiveResult::Reject);
    assert_eq!(queue.pop(), None);
}

#[test]
fn seq16_wraps() {
    let a = Seq16::new(u16::MAX);
    assert_eq!(a.add(1), Seq16::new(0));
    assert_eq!(a.add(3), Seq16::new(2));
    assert_eq!(Seq16::dist(&a, &Seq16::new(1)), 2);
    assert_eq!(Seq16::dist(&Seq16::new(1), &a), u16::MAX - 1);
    assert!(a.precedes(&Seq16::new(1)));
    assert!(!Seq16::new(1).precedes(&a));
    assert!(!a.precedes(&a));
    assert!(Seq16::new(0).precedes(&Seq16::new(0x7fff)));
    assert!(!Seq16::new(0).precedes(&Seq16::new(0x8000)));
    assert_eq!(a.value(), u16::MAX);
}
