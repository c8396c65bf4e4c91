use multipath::frame::{Connect, DecodeError, Frame, Payload, PayloadAck, Ping, PingAck};
use multipath::receive::Receive;
use multipath::sequence::Seq16;

#[test]
fn encode_each_frame() {
    let payload = Frame::Payload(Payload { seq: Seq16::new(0x1234), data: vec![9, 8, 7] });
    assert_eq!(payload.encode(), vec![0, 0x12, 0x34, 0, 3, 9, 8, 7]);
    assert_eq!(
        Frame::PayloadAck(PayloadAck { seq: Seq16::new(0xabcd) }).encode(),
        vec![1, 0xab, 0xcd]
    );
    assert_eq!(Frame::Ping(Ping { seq: Seq16::new(1) }).encode(), vec![2, 0, 1]);
    assert_eq!(Frame::PingAck(PingAck { seq: Seq16::new(256) }).encode(), vec![3, 1, 0]);
    assert_eq!(
        Frame::Connect(Connect { connection_id: 0x0102_0304 }).encode(),
        vec![4, 1, 2, 3, 4]
    );
}

#[test]
fn decode_each_frame() {
    assert_eq!(
        Frame::decode(&[0, 0x12, 0x34, 0, 2, 5, 6, 99]),
        Ok((Frame::Payload(Payload { seq: Seq16::new(0x1234), data: vec![5, 6] }), 7))
    );
    assert_eq!(
        Frame::decode(&[1, 0xab, 0xcd]),
        Ok((Frame::PayloadAck(PayloadAck { seq: Seq16::new(0xabcd) }), 3))
    );
    assert_eq!(Frame::decode(&[2, 0, 7, 1]), Ok((Frame::Ping(Ping { seq: Seq16::new(7) }), 3)));
    assert_eq!(
        Frame::decode(&[3, 0xff, 0xfe]),
        Ok((Frame::PingAck(PingAck { seq: Seq16::new(0xfffe) }), 3))
    );
    assert_eq!(
        Frame::decode(&[4, 0xde, 0xad, 0xbe, 0xef]),
        Ok((Frame::Connect(Connect { connection_id: 0xdead_beef }), 5))
    );
}

#[test]
fn decode_errors() {
    assert_eq!(Frame::decode(&[]), Err(DecodeError::InvalidFrameType));
    assert_eq!(Frame::decode(&[5, 0, 0]), Err(DecodeError::InvalidFrameType));
    assert_eq!(Frame::decode(&[0, 0, 1, 0]), Err(DecodeError::InvalidPayload));
    assert_eq!(Frame::decode(&[0, 0, 1, 0, 3, 1, 2]), Err(DecodeError::InvalidPayload));
    assert_eq!(Frame::decode(&[1, 0]), Err(DecodeError::InvalidPayloadAck));
    assert_eq!(Frame::decode(&[2]), Err(DecodeError::InvalidPing));
    assert_eq!(Frame::decode(&[3, 9]), Err(DecodeError::InvalidPingAck));
    assert_eq!(Frame::decode(&[4, 1, 2, 3]), Err(DecodeError::InvalidConnect));
}

#[test]
fn encode_then_decode() {
    let frames = vec![
        Frame::Payload(Payload { seq: Seq16::new(65535), data: vec![] }),
        Frame::Payload(Payload { seq: Seq16::new(3), data: vec![1; 300] }),
        Frame::Ping(Ping { seq: Seq16::new(40000) }),
        Frame::Connect(Connect { connection_id: u32::MAX }),
    ];
    for frame in frames {
        let bytes = frame.encode();
        let mut with_tail = bytes.clone();
        with_tail.extend_from_slice(&[7, 7]);
        assert_eq!(Frame::decode(&with_tail), Ok((frame, bytes.len())));
    }
}

#[test]
fn receive_acknowledges_in_window_payloads() {
    let mut receive = Receive::new(2);
    let payload = |seq: u16| Frame::Payload(Payload { seq: Seq16::new(seq), data: vec![seq as u8] });
    assert_eq!(
        receive.on_frame(&payload(1)),
        Some(Frame::PayloadAck(PayloadAck { seq: Seq16::new(1) }))
    );
    assert_eq!(receive.on_frame(&payload(2)), None);
    assert_eq!(receive.pop(), None);
    assert_eq!(
        receive.on_frame(&Frame::Ping(Ping { seq: Seq16::new(4) })),
        Some(Frame::PingAck(PingAck { seq: Seq16::new(4) }))
    );
    assert_eq!(receive.on_frame(&Frame::Connect(Connect { connection_id: 1 })), None);
    assert_eq!(
        receive.on_frame(&payload(0)),
        Some(Frame::PayloadAck(PayloadAck { seq: Seq16::new(0) }))
    );
    assert_eq!(receive.pop(), Some(Seq16::new(0)));
    assert_eq!(receive.pop(), Some(Seq16::new(1)));
    assert_eq!(receive.pop(), None);
}
