use multipath::send::{AckSpace, PayloadSendFrame, PingSendFrame, Send, SendConfig, SendFrame};
use multipath::sequence::Seq16;
use multipath::sockets::{Credit, ReassignPayloadError};
use multipath::time::{Duration, Instant};

/// The host's share of `payload_size` for each of `n` channels of even
/// weight: `ceil(payload_size * weight)`.
fn even_shares(payload_size: usize, n: usize) -> Vec<usize> {
    let weight = 1.0 / n as f64;
    let share = (payload_size as f64 * weight).ceil() as usize;
    vec![share; n]
}

fn config() -> SendConfig {
    SendConfig {
        payload_queue_size: 100,
        default_rto: Duration::from_secs(1),
    }
}

#[test]
fn mod_ok() {
    let config = config();
    let mut send = Send::new(config);

    let fd1 = 1;
    let fd2 = 2;
    let fd3 = 3;

    send.add_fd(fd1);
    send.add_fd(fd2);
    send.add_fd(fd3);

    let now = Instant::from_nanos(0);

    // Send 1 payload
    let frames = send.send(now, 3, &even_shares(3, 3));
    assert_eq!(frames.len(), 3);

    let mut fd1_count = 0;
    let mut fd2_count = 0;
    let mut fd3_count = 0;
    for frame in &frames {
        match frame {
            SendFrame::Payload(frame) => match frame.fd {
                fd if fd == fd1 => fd1_count += 1,
                fd if fd == fd2 => fd2_count += 1,
                fd if fd == fd3 => fd3_count += 1,
                _ => unreachable!(),
            },
            _ => unreachable!(),
        }
    }
    assert_eq!(fd1_count, 1);
    assert_eq!(fd2_count, 1);
    assert_eq!(fd3_count, 1);

    let duration = Duration::from_secs(1);
    let now = now.add(duration);

    // Ack 1 payload
    for frame in frames {
        match frame {
            SendFrame::Payload(frame) => {
                send.ack(now, frame.fd, frame.seq, AckSpace::Payload);
            }
            _ => unreachable!(),
        }
    }

    for fd in &[fd1, fd2, fd3] {
        assert_eq!(send.sockets().socket(*fd).unwrap().credit(), Credit::Good);
    }
}

#[test]
fn rto_no_rtt() {
    let config = config();
    let mut send = Send::new(config);

    let fd1 = 1;
    let fd2 = 2;
    let fd3 = 3;

    send.add_fd(fd1);
    send.add_fd(fd2);
    send.add_fd(fd3);

    let now = Instant::from_nanos(0);

    // Send 1 payload
    let frames = send.send(now, 3, &even_shares(3, 3));
    assert_eq!(frames.len(), 3);
    let frames = frames
        .into_iter()
        .map(|frame| match frame {
            SendFrame::Payload(frame) => frame,
            _ => unreachable!(),
        })
        .collect::<Vec<_>>();

    let duration = config.default_rto;
    let now = now.add(duration);

    // RTO
    let res = send.retransmit_rto_payloads(now);
    assert!(matches!(
        res,
        Err(ReassignPayloadError::NoSocketsLeft { ref payloads }) if payloads.len() == 3
    ));

    let ack_seq = frames[0].seq;
    let different_fd = frames[1].fd;

    // Ack 1 payload
    send.ack(now, different_fd, ack_seq, AckSpace::Payload);

    // RTO
    let res = send.retransmit_rto_payloads(now);
    assert!(matches!(res, Err(ReassignPayloadError::NoSocketsLeft { .. })));
}

#[test]
fn rto_ok() {
    let config = config();
    let mut send = Send::new(config);

    let fd1 = 1;
    let fd2 = 2;
    let fd3 = 3;

    send.add_fd(fd1);
    send.add_fd(fd2);
    send.add_fd(fd3);

    let now = Instant::from_nanos(0);

    // Send 1 payload
    let frames = send.send(now, 3, &even_shares(3, 3));
    assert_eq!(frames.len(), 3);
    let frames = frames
        .into_iter()
        .map(|frame| match frame {
            SendFrame::Payload(frame) => frame,
            _ => unreachable!(),
        })
        .collect::<Vec<_>>();

    let duration = config.default_rto;
    let now = now.add(duration);

    // RTO
    let res = send.retransmit_rto_payloads(now);
    assert!(matches!(
        res,
        Err(ReassignPayloadError::NoSocketsLeft { ref payloads }) if payloads.len() == 3
    ));

    let ack_fd = frames[0].fd;
    let ack_seq = frames[0].seq;

    // Ack 1 payload
    send.ack(now, ack_fd, ack_seq, AckSpace::Payload);

    // RTO
    let retx = send.retransmit_rto_payloads(now).unwrap();
    assert_eq!(retx.len(), 2);
    for (fd, seq) in retx {
        assert_eq!(fd, ack_fd);
        assert!(seq != ack_seq);
    }

    // The scheduler is fed this channel alone, so its weight becomes 1
    assert_eq!(send.rtt_vector(), vec![(ack_fd, duration)]);
}

#[test]
fn ping_ok() {
    let config = config();
    let mut send = Send::new(config);

    let fd1 = 1;
    let fd2 = 2;
    let fd3 = 3;

    send.add_fd(fd1);
    send.add_fd(fd2);
    send.add_fd(fd3);

    let now = Instant::from_nanos(0);

    // Send 1 ping
    let frames = send.send(now, 0, &even_shares(0, 3));
    assert_eq!(frames.len(), 3);

    let mut fd1_count = 0;
    let mut fd2_count = 0;
    let mut fd3_count = 0;
    for frame in &frames {
        match frame {
            SendFrame::Ping(frame) => match frame.fd {
                fd if fd == fd1 => fd1_count += 1,
                fd if fd == fd2 => fd2_count += 1,
                fd if fd == fd3 => fd3_count += 1,
                _ => unreachable!(),
            },
            _ => unreachable!(),
        }
    }
    assert_eq!(fd1_count, 1);
    assert_eq!(fd2_count, 1);
    assert_eq!(fd3_count, 1);

    let duration = Duration::from_secs(1);
    let now = now.add(duration);

    // Ack 1 ping
    for frame in frames {
        match frame {
            SendFrame::Ping(frame) => {
                send.ack(now, frame.fd, frame.seq, AckSpace::Ping);
            }
            _ => unreachable!(),
        }
    }

    for fd in &[fd1, fd2, fd3] {
        assert_eq!(send.sockets().socket(*fd).unwrap().credit(), Credit::Good);
    }
}

#[test]
fn empty() {
    let config = config();
    let mut send = Send::new(config);

    let fd1 = 1;

    send.add_fd(fd1);
    send.remove_fd(fd1).unwrap();
}

#[test]
fn shares_are_cut_to_the_budget() {
    let mut send = Send::new(config());
    send.add_fd(1);
    send.add_fd(2);
    send.add_fd(3);
    let now = Instant::from_nanos(0);
    let frames = send.send(now, 3, &vec![2, 2, 2]);
    assert_eq!(
        frames,
        vec![
            SendFrame::Ping(PingSendFrame { fd: 3, seq: Seq16::new(0) }),
            SendFrame::Payload(PayloadSendFrame { fd: 1, seq: Seq16::new(0), payload_size: 2 }),
            SendFrame::Payload(PayloadSendFrame { fd: 2, seq: Seq16::new(1), payload_size: 1 }),
        ]
    );
    // the ping of channel 3 is still outstanding: no second one
    let frames = send.send(now, 0, &vec![0, 0, 0]);
    assert_eq!(
        frames,
        vec![
            SendFrame::Ping(PingSendFrame { fd: 1, seq: Seq16::new(0) }),
            SendFrame::Ping(PingSendFrame { fd: 2, seq: Seq16::new(0) }),
        ]
    );
}

#[test]
fn payload_window_limits_frames() {
    let mut send = Send::new(SendConfig {
        payload_queue_size: 1,
        default_rto: Duration::from_millis(10),
    });
    send.add_fd(1);
    send.add_fd(2);
    let now = Instant::from_nanos(0);
    let frames = send.send(now, 4, &vec![2, 2]);
    assert_eq!(
        frames,
        vec![SendFrame::Payload(PayloadSendFrame { fd: 1, seq: Seq16::new(0), payload_size: 2 })]
    );
    assert!(send.send(now, 4, &vec![2, 2]).is_empty());
}

#[test]
fn timeout_doubles_the_rtt() {
    let mut send = Send::new(config());
    send.add_fd(1);
    let start = Instant::from_nanos(0);
    let frames = send.send(start, 1, &vec![1]);
    assert_eq!(frames.len(), 1);
    // acknowledged after 100 ms: the next timeout is 200 ms
    send.ack(start.add(Duration::from_millis(100)), 1, Seq16::new(0), AckSpace::Payload);
    assert_eq!(send.rtt_vector(), vec![(1, Duration::from_millis(100))]);
    let t = start.add(Duration::from_secs(10));
    assert_eq!(send.send(t, 1, &vec![1]).len(), 1);
    assert!(matches!(
        send.retransmit_rto_payloads(t.add(Duration::from_millis(199))),
        Ok(ref v) if v.is_empty()
    ));
    assert!(matches!(
        send.retransmit_rto_payloads(t.add(Duration::from_millis(200))),
        Err(ReassignPayloadError::NoSocketsLeft { ref payloads }) if payloads == &vec![Seq16::new(1)]
    ));
}

#[test]
fn ack_from_other_channel_gives_no_sample() {
    let mut send = Send::new(config());
    send.add_fd(1);
    send.add_fd(2);
    let now = Instant::from_nanos(0);
    let frames = send.send(now, 1, &vec![1, 0]);
    assert_eq!(
        frames,
        vec![
            SendFrame::Ping(PingSendFrame { fd: 2, seq: Seq16::new(0) }),
            SendFrame::Payload(PayloadSendFrame { fd: 1, seq: Seq16::new(0), payload_size: 1 }),
        ]
    );
    let later = now.add(Duration::from_millis(20));
    // the payload's timer belongs to channel 1: an acknowledgement on 2 yields no sample
    send.ack(later, 2, Seq16::new(0), AckSpace::Payload);
    assert!(send.rtt_vector().is_empty());
    assert_eq!(send.sockets().socket(1).unwrap().credit(), Credit::Bad);
    // but the binding is gone: removing channel 1 hands nothing over
    assert_eq!(send.remove_fd(1), Ok(Vec::new()));
    // and the payload is retired: no timeout follows (with no channel of good
    // credit the empty list is still refused)
    assert_eq!(
        send.retransmit_rto_payloads(later.add(Duration::from_secs(5))),
        Err(ReassignPayloadError::NoSocketsLeft { payloads: Vec::new() })
    );
}
