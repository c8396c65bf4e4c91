use multipath::sequence::Seq16;
use multipath::sockets::{AckSpace, Credit, ReassignPayloadError, Sockets};
use multipath::time::{Duration, Instant};

#[test]
fn sockets_ok() {
    let mut sockets = Sockets::new();
    let fd1 = 1;
    let fd2 = 2;
    let fd3 = 3;

    sockets.add_fd(fd1);
    sockets.remove_fd(fd1).unwrap();

    sockets.add_fd(fd1);
    sockets.add_fd(fd2);
    sockets.add_fd(fd3);

    let seq1 = Seq16::new(0);
    let seq2 = Seq16::new(1);

    let now = Instant::from_nanos(0);
    sockets.send_payload(fd1, seq1);
    sockets.send_payload(fd2, seq2);
    let seq3 = sockets.send_ping(fd3, now).unwrap();

    assert_eq!(seq3, Seq16::new(0));
    assert!(sockets.send_ping(fd3, now).is_none());

    let duration = Duration::from_millis(100);
    let now = now.add(duration);

    sockets.discredit(seq1);
    sockets.discredit(seq2);
    sockets.discredit(seq3);

    sockets.ack(fd1, seq1, AckSpace::Payload { rtt: None });
    sockets.ack(
        fd2,
        seq2,
        AckSpace::Payload {
            rtt: Some(duration),
        },
    );
    sockets.ack(fd3, seq3, AckSpace::Ping { now });

    assert_eq!(sockets.socket(fd1).unwrap().rtt(), None);
    assert_eq!(sockets.socket(fd2).unwrap().rtt(), Some(duration));
    assert_eq!(sockets.socket(fd3).unwrap().rtt(), Some(duration));

    assert_eq!(sockets.socket(fd1).unwrap().credit(), Credit::Bad);
    assert_eq!(sockets.socket(fd2).unwrap().credit(), Credit::Good);
    assert_eq!(sockets.socket(fd3).unwrap().credit(), Credit::Good);
}

#[test]
fn reassign_on_remove_fd() {
    let mut sockets = Sockets::new();
    let fd1 = 1;
    let fd2 = 2;
    let fd3 = 3;

    sockets.add_fd(fd1);
    sockets.add_fd(fd2);
    sockets.add_fd(fd3);

    let seq1 = Seq16::new(2);
    sockets.send_payload(fd1, seq1);
    let seq1 = Seq16::new(3);
    sockets.send_payload(fd1, seq1);
    let seq1 = Seq16::new(4);
    sockets.send_payload(fd1, seq1);

    let retx = sockets.remove_fd(fd1).unwrap();
    let mut fd2_count = 0;
    let mut fd3_count = 0;
    let mut seqs = Vec::new();
    for (fd, seq) in retx {
        seqs.push(seq);
        if fd == fd2 {
            fd2_count += 1;
        } else if fd == fd3 {
            fd3_count += 1;
        } else {
            unreachable!();
        }
    }
    assert!(fd2_count > 0);
    assert!(fd3_count > 0);
    assert_eq!(seqs.len(), fd2_count + fd3_count);
    seqs.dedup();
    assert_eq!(seqs.len(), fd2_count + fd3_count);
    for seq in seqs {
        assert!(seq == Seq16::new(2) || seq == Seq16::new(3) || seq == Seq16::new(4));
    }
}

#[test]
fn reassign_on_rto() {
    let mut sockets = Sockets::new();
    let fd1 = 1;
    let fd2 = 2;
    let fd3 = 3;

    sockets.add_fd(fd1);
    sockets.add_fd(fd2);
    sockets.add_fd(fd3);

    let seq1_1 = Seq16::new(0);
    let seq1_2 = Seq16::new(1);
    let seq2_1 = Seq16::new(2);

    let now = Instant::from_nanos(0);
    sockets.send_payload(fd1, seq1_1);
    sockets.send_payload(fd1, seq1_2);
    sockets.send_payload(fd2, seq2_1);

    let duration = Duration::from_millis(100);
    let _now = now.add(duration);

    sockets.ack(
        fd2,
        seq2_1,
        AckSpace::Payload {
            rtt: Some(duration),
        },
    );

    assert_eq!(sockets.reassign_rto_payloads(&[]).unwrap().len(), 0);

    let retx_seqs = vec![seq1_1, seq1_2];
    let retx = sockets.reassign_rto_payloads(&retx_seqs).unwrap();

    for (fd, seq) in retx {
        if fd != fd2 {
            unreachable!();
        }
        assert!(seq == seq1_1 || seq == seq1_2);
    }
}

#[test]
fn remove_fd_round_robin_order() {
    let mut sockets = Sockets::new();
    for fd in [1, 2, 3] {
        sockets.add_fd(fd);
    }
    for seq in [4, 2, 3] {
        sockets.send_payload(1, Seq16::new(seq));
    }
    let retx = sockets.remove_fd(1).unwrap();
    assert_eq!(
        retx,
        vec![(2, Seq16::new(2)), (3, Seq16::new(3)), (2, Seq16::new(4))]
    );
    // the bindings moved with the payloads
    let retx = sockets.remove_fd(2).unwrap();
    assert_eq!(retx, vec![(3, Seq16::new(2)), (3, Seq16::new(4))]);
}

#[test]
fn remove_last_fd_with_payloads_fails() {
    let mut sockets = Sockets::new();
    sockets.add_fd(9);
    sockets.send_payload(9, Seq16::new(5));
    sockets.send_payload(9, Seq16::new(1));
    assert_eq!(
        sockets.remove_fd(9),
        Err(ReassignPayloadError::NoSocketsLeft {
            payloads: vec![Seq16::new(1), Seq16::new(5)]
        })
    );
    assert!(sockets.sockets().is_empty());
    // unknown channels change nothing
    assert_eq!(sockets.remove_fd(9), Ok(Vec::new()));
}

#[test]
fn rto_without_good_channel_keeps_bindings() {
    let mut sockets = Sockets::new();
    sockets.add_fd(1);
    sockets.add_fd(2);
    sockets.send_payload(1, Seq16::new(0));
    let err = sockets.reassign_rto_payloads(&[Seq16::new(0)]);
    assert_eq!(
        err,
        Err(ReassignPayloadError::NoSocketsLeft {
            payloads: vec![Seq16::new(0)]
        })
    );
    // still bound to channel 1: removing it hands the payload to channel 2
    assert_eq!(sockets.remove_fd(1), Ok(vec![(2, Seq16::new(0))]));
}

#[test]
fn ack_on_other_channel_credits_the_owner() {
    let mut sockets = Sockets::new();
    sockets.add_fd(1);
    sockets.add_fd(2);
    sockets.send_payload(1, Seq16::new(0));
    let rtt = Duration::from_millis(30);
    sockets.ack(2, Seq16::new(0), AckSpace::Payload { rtt: Some(rtt) });
    assert_eq!(sockets.socket(1).unwrap().rtt(), Some(rtt));
    assert_eq!(sockets.socket(1).unwrap().credit(), Credit::Good);
    assert_eq!(sockets.socket(2).unwrap().rtt(), None);
    // a second acknowledgement finds no binding and changes nothing
    sockets.ack(2, Seq16::new(0), AckSpace::Payload { rtt: Some(Duration::from_millis(1)) });
    assert_eq!(sockets.socket(1).unwrap().rtt(), Some(rtt));
    assert_eq!(sockets.socket(2).unwrap().credit(), Credit::Bad);
}

#[test]
fn add_existing_fd_resets_record() {
    let mut sockets = Sockets::new();
    sockets.add_fd(1);
    sockets.add_fd(2);
    sockets.send_payload(1, Seq16::new(3));
    sockets.ack(1, Seq16::new(3), AckSpace::Payload { rtt: Some(Duration::from_millis(5)) });
    sockets.send_payload(1, Seq16::new(4));
    sockets.add_fd(1);
    assert_eq!(sockets.socket(1).unwrap().rtt(), None);
    assert_eq!(sockets.socket(1).unwrap().credit(), Credit::Bad);
    assert_eq!(sockets.sockets().len(), 2);
    assert_eq!(sockets.sockets()[0].0, 1);
    // the payload it carried is no longer bound to it
    assert_eq!(sockets.remove_fd(1), Ok(Vec::new()));
}

#[test]
fn send_payload_to_unknown_fd_unbinds() {
    let mut sockets = Sockets::new();
    sockets.add_fd(1);
    sockets.add_fd(2);
    sockets.send_payload(1, Seq16::new(8));
    sockets.send_payload(5, Seq16::new(8));
    assert_eq!(sockets.remove_fd(1), Ok(Vec::new()));
}
