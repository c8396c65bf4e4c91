//! Frames on the wire, big-endian:
//!
//! ```text
//! Payload     0x00 | seq: u16 | len: u16 | data[len]
//! PayloadAck  0x01 | seq: u16
//! Ping        0x02 | seq: u16
//! PingAck     0x03 | seq: u16
//! Connect     0x04 | connection_id: u32
//! ```
use byteorder::{BigEndian, ByteOrder};
use vstd::prelude::*;

use crate::sequence::Seq16;

verus! {

#[derive(Debug, Clone, PartialEq, Eq)]
pub enum Frame {
    Payload(Payload),
    PayloadAck(PayloadAck),
    Ping(Ping),
    PingAck(PingAck),
    Connect(Connect),
}

#[derive(Debug, Clone, PartialEq, Eq)]
pub struct Payload {
    pub seq: Seq16,
    pub data: Vec<u8>,
}

#[derive(Debug, Clone, Copy, PartialEq, Eq, Structural)]
pub struct PayloadAck {
    pub seq: Seq16,
}

#[derive(Debug, Clone, Copy, PartialEq, Eq, Structural)]
pub struct Ping {
    pub seq: Seq16,
}

#[derive(Debug, Clone, Copy, PartialEq, Eq, Structural)]
pub struct PingAck {
    pub seq: Seq16,
}

#[derive(Debug, Clone, Copy, PartialEq, Eq, Structural)]
pub struct Connect {
    pub connection_id: u32,
}

#[derive(Debug, Clone, Copy, PartialEq, Eq, Structural)]
pub enum DecodeError {
    InvalidFrameType,
    InvalidPayload,
    InvalidPayloadAck,
    InvalidPing,
    InvalidPingAck,
    InvalidConnect,
}

/// `v` as two bytes, most significant first.
pub open spec fn be16(v: u16) -> Seq<u8> {
    seq![(v / 0x100) as u8, (v % 0x100) as u8]
}

/// `v` as four bytes, most significant first.
pub open spec fn be32(v: u32) -> Seq<u8> {
    seq![
        (v / 0x100_0000) as u8,
        ((v / 0x1_0000) % 0x100) as u8,
        ((v / 0x100) % 0x100) as u8,
        (v % 0x100) as u8,
    ]
}

/// The big-endian number in `b[at]` and `b[at + 1]`.
pub open spec fn u16_at(b: Seq<u8>, at: int) -> int {
    b[at] * 0x100 + b[at + 1]
}

/// The big-endian number in `b[at..at + 4]`.
pub open spec fn u32_at(b: Seq<u8>, at: int) -> int {
    ((b[at] * 0x100 + b[at + 1]) * 0x100 + b[at + 2]) * 0x100 + b[at + 3]
}

/// Whether a frame can be written: a payload carries at most `u16::MAX`
/// bytes.
pub open spec fn fits_wire(f: Frame) -> bool {
    match f {
        Frame::Payload(p) => p.data.len() <= u16::MAX,
        _ => true,
    }
}

/// The bytes of a frame on the wire.
pub open spec fn frame_bytes(f: Frame) -> Seq<u8> {
    match f {
        Frame::Payload(p) => seq![0u8] + be16(p.seq.value) + be16(p.data.len() as u16) + p.data@,
        Frame::PayloadAck(a) => seq![1u8] + be16(a.seq.value),
        Frame::Ping(p) => seq![2u8] + be16(p.seq.value),
        Frame::PingAck(a) => seq![3u8] + be16(a.seq.value),
        Frame::Connect(c) => seq![4u8] + be32(c.connection_id),
    }
}

/// Why the frame at the start of `b` cannot be read, if it cannot: an
/// unknown leading byte, or fewer bytes than the frame needs.
pub open spec fn decode_error(b: Seq<u8>) -> Option<DecodeError> {
    if b.len() == 0 {
        Some(DecodeError::InvalidFrameType)
    } else if b[0] == 0 {
        if b.len() < 5 || b.len() < 5 + u16_at(b, 3) {
            Some(DecodeError::InvalidPayload)
        } else {
            None
        }
    } else if b[0] == 1 {
        if b.len() < 3 {
            Some(DecodeError::InvalidPayloadAck)
        } else {
            None
        }
    } else if b[0] == 2 {
        if b.len() < 3 {
            Some(DecodeError::InvalidPing)
        } else {
            None
        }
    } else if b[0] == 3 {
        if b.len() < 3 {
            Some(DecodeError::InvalidPingAck)
        } else {
            None
        }
    } else if b[0] == 4 {
        if b.len() < 5 {
            Some(DecodeError::InvalidConnect)
        } else {
            None
        }
    } else {
        Some(DecodeError::InvalidFrameType)
    }
}

/// Relies on byteorder's `BigEndian::read_u16`: it reads the first two bytes
/// of its argument, most significant first, and panics on fewer than two.
#[verifier::external_body]
fn read_u16_at(buf: &[u8], at: usize) -> (r: u16)
    requires
        at + 2 <= buf.len(),
    ensures
        r == u16_at(buf@, at as int),
{
    BigEndian::read_u16(&buf[at..])
}

/// Relies on byteorder's `BigEndian::read_u32`: it reads the first four
/// bytes of its argument, most significant first, and panics on fewer than
/// four.
#[verifier::external_body]
fn read_u32_at(buf: &[u8], at: usize) -> (r: u32)
    requires
        at + 4 <= buf.len(),
    ensures
        r == u32_at(buf@, at as int),
{
    BigEndian::read_u32(&buf[at..])
}

fn push_u16(buf: &mut Vec<u8>, v: u16)
    ensures
        final(buf)@ == old(buf)@ + be16(v),
{
    buf.push((v / 0x100) as u8);
    buf.push((v % 0x100) as u8);
    assert(final(buf)@ =~= old(buf)@ + be16(v));
}

fn push_u32(buf: &mut Vec<u8>, v: u32)
    ensures
        final(buf)@ == old(buf)@ + be32(v),
{
    buf.push((v / 0x100_0000) as u8);
    buf.push(((v / 0x1_0000) % 0x100) as u8);
    buf.push(((v / 0x100) % 0x100) as u8);
    buf.push((v % 0x100) as u8);
    assert(final(buf)@ =~= old(buf)@ + be32(v));
}

impl Frame {
    /// The bytes of this frame on the wire.
    pub fn encode(&self) -> (r: Vec<u8>)
        requires
            fits_wire(*self),
        ensures
            r@ == frame_bytes(*self),
    {
        let mut buf: Vec<u8> = Vec::new();
        match self {
            Frame::Payload(payload) => {
                buf.push(0);
                push_u16(&mut buf, payload.seq.value);
                push_u16(&mut buf, payload.data.len() as u16);
                let ghost head = buf@;
                let mut i: usize = 0;
                while i < payload.data.len()
                    invariant
                        i <= payload.data.len(),
                        buf@ == head + payload.data@.take(i as int),
                    decreases payload.data.len() - i,
                {
                    buf.push(payload.data[i]);
                    i = i + 1;
                    assert(buf@ =~= head + payload.data@.take(i as int));
                }
                assert(payload.data@.take(i as int) =~= payload.data@);
            },
            Frame::PayloadAck(ack) => {
                buf.push(1);
                push_u16(&mut buf, ack.seq.value);
            },
            Frame::Ping(ping) => {
                buf.push(2);
                push_u16(&mut buf, ping.seq.value);
            },
            Frame::PingAck(ack) => {
                buf.push(3);
                push_u16(&mut buf, ack.seq.value);
            },
            Frame::Connect(connect) => {
                buf.push(4);
                push_u32(&mut buf, connect.connection_id);
            },
        }
        assert(buf@ =~= frame_bytes(*self));
        buf
    }

    /// Reads the frame at the start of `buf`, returning it with the number of
    /// bytes it takes up; the bytes after it are left alone.
    pub fn decode(buf: &[u8]) -> (r: Result<(Frame, usize), DecodeError>)
        ensures
            match r {
                Ok((f, n)) => {
                    &&& decode_error(buf@) is None
                    &&& fits_wire(f)
                    &&& n <= buf.len()
                    &&& frame_bytes(f) == buf@.subrange(0, n as int)
                },
                Err(e) => decode_error(buf@) == Some(e),
            },
    {
        if buf.len() == 0 {
            return Err(DecodeError::InvalidFrameType);
        }
        let kind = buf[0];
        if kind == 0 {
            if buf.len() < 5 {
                return Err(DecodeError::InvalidPayload);
            }
            let seq = read_u16_at(buf, 1);
            let len = read_u16_at(buf, 3) as usize;
            if buf.len() - 5 < len {
                return Err(DecodeError::InvalidPayload);
            }
            let mut data: Vec<u8> = Vec::new();
            let mut i: usize = 0;
            while i < len
                invariant
                    i <= len,
                    5 + len <= buf.len(),
                    data@ == buf@.subrange(5, 5 + i),
                decreases len - i,
            {
                data.push(buf[5 + i]);
                i = i + 1;
                assert(data@ =~= buf@.subrange(5, 5 + i));
            }
            let f = Frame::Payload(Payload { seq: Seq16::new(seq), data });
            proof {
                assert(be16(seq) =~= buf@.subrange(1, 3));
                assert(be16(len as u16) =~= buf@.subrange(3, 5));
                assert(frame_bytes(f) =~= buf@.subrange(0, 5 + len));
            }
            Ok((f, 5 + len))
        } else if kind == 1 || kind == 2 || kind == 3 {
            if buf.len() < 3 {
                return Err(
                    if kind == 1 {
                        DecodeError::InvalidPayloadAck
                    } else if kind == 2 {
                        DecodeError::InvalidPing
                    } else {
                        DecodeError::InvalidPingAck
                    },
                );
            }
            let seq = Seq16::new(read_u16_at(buf, 1));
            let f = if kind == 1 {
                Frame::PayloadAck(PayloadAck { seq })
            } else if kind == 2 {
                Frame::Ping(Ping { seq })
            } else {
                Frame::PingAck(PingAck { seq })
            };
            proof {
                assert(be16(seq.value) =~= buf@.subrange(1, 3));
                assert(frame_bytes(f) =~= buf@.subrange(0, 3));
            }
            Ok((f, 3))
        } else if kind == 4 {
            if buf.len() < 5 {
                return Err(DecodeError::InvalidConnect);
            }
            let connection_id = read_u32_at(buf, 1);
            let f = Frame::Connect(Connect { connection_id });
            proof {
                assert(be32(connection_id) =~= buf@.subrange(1, 5));
                assert(frame_bytes(f) =~= buf@.subrange(0, 5));
            }
            Ok((f, 5))
        } else {
            Err(DecodeError::InvalidFrameType)
        }
    }
}

proof fn lemma_be16(v: u16)
    ensures
        u16_at(be16(v), 0) == v,
{
    assert(be16(v)[0] * 0x100 + be16(v)[1] == v);
}

/// Encoding then decoding gives the frame back: whatever follows the bytes
/// of a frame, they decode, and any frame read from them takes up exactly
/// those bytes and has exactly those bytes.
pub proof fn lemma_round_trip(f: Frame, rest: Seq<u8>, g: Frame, n: int)
    requires
        fits_wire(f),
        fits_wire(g),
        0 <= n <= frame_bytes(f).len() + rest.len(),
        frame_bytes(g) == (frame_bytes(f) + rest).subrange(0, n),
    ensures
        decode_error(frame_bytes(f) + rest) is None,
        n == frame_bytes(f).len(),
        frame_bytes(g) == frame_bytes(f),
{
    let b = frame_bytes(f) + rest;
    let fb = frame_bytes(f);
    assert(b.subrange(0, fb.len() as int) =~= fb);
    match f {
        Frame::Payload(p) => {
            lemma_be16(p.data.len() as u16);
            assert(u16_at(b, 3) == u16_at(be16(p.data.len() as u16), 0));
            assert(fb.len() == 5 + p.data.len());
        },
        Frame::Connect(c) => {},
        _ => {},
    }
    assert(frame_bytes(g).len() == n);
    assert(frame_bytes(g)[0] == b[0]);
    match g {
        Frame::Payload(q) => {
            lemma_be16(q.data.len() as u16);
            assert(frame_bytes(g).subrange(3, 5) =~= be16(q.data.len() as u16));
            assert(b[3] == frame_bytes(g)[3] && b[4] == frame_bytes(g)[4]);
            assert(u16_at(b, 3) == q.data.len());
        },
        _ => {},
    }
    assert(n == fb.len());
    assert(frame_bytes(g) =~= fb);
}

} // verus!
