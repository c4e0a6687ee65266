//! Message framing: each frame is a big-endian `u32` length followed by that
//! many payload bytes; a zero length is a keep-alive.
use vstd::prelude::*;

use super::bytes::{append_bytes, copy_range};
use super::error::ProtocolError;

verus! {

/// Largest frame payload: 256 MiB plus 64 bytes of message header.
pub const MAX_FRAME_SIZE: usize = 268435520;

/// A decoded frame.
#[derive(Debug, Clone, PartialEq, Eq)]
pub enum Frame {
    /// A zero-length frame.
    KeepAlive,
    /// The payload of a non-empty frame, one encoded message.
    Payload(Vec<u8>),
}

/// The big-endian `u32` of the first four bytes.
pub open spec fn be32_value(b: Seq<u8>) -> nat {
    b[0] as nat * 16777216 + b[1] as nat * 65536 + b[2] as nat * 256 + b[3] as nat
}

/// A `u32` as four big-endian bytes.
pub open spec fn be32_bytes(v: nat) -> Seq<u8> {
    seq![(v / 16777216) as u8, ((v / 65536) % 256) as u8, ((v / 256) % 256) as u8, (v % 256) as u8]
}

/// The frame holding `payload`.
pub open spec fn frame_bytes(payload: Seq<u8>) -> Seq<u8> {
    be32_bytes(payload.len()) + payload
}

/// The frame at the front of `src`: `Ok(None)` while it is incomplete,
/// else the payload (`None` for a keep-alive) and the bytes left after it.
pub open spec fn decode_frame_spec(src: Seq<u8>) -> Result<Option<(Option<Seq<u8>>, Seq<u8>)>, ProtocolError> {
    if src.len() < 4 {
        Ok(None)
    } else {
        let length = be32_value(src) as int;
        if length == 0 {
            Ok(Some((None, src.subrange(4, src.len() as int))))
        } else if length > MAX_FRAME_SIZE {
            Err(ProtocolError::FrameTooLarge(length as usize))
        } else if src.len() < 4 + length {
            Ok(None)
        } else {
            Ok(Some((Some(src.subrange(4, 4 + length)), src.subrange(4 + length, src.len() as int))))
        }
    }
}

impl Frame {
    /// The payload, `None` for a keep-alive.
    pub open spec fn payload(&self) -> Option<Seq<u8>> {
        match self {
            Frame::KeepAlive => None,
            Frame::Payload(p) => Some(p@),
        }
    }
}

/// Frames messages on a byte stream.
pub struct MessageCodec;

impl MessageCodec {
    /// Takes the next frame off the front of `src`. An incomplete frame gives
    /// `Ok(None)` and leaves `src` as it is; a frame longer than
    /// [`MAX_FRAME_SIZE`] is an error.
    pub fn decode(&mut self, src: &mut Vec<u8>) -> (res: Result<Option<Frame>, ProtocolError>)
        ensures
            match decode_frame_spec(old(src)@) {
                Err(e) => res == Err::<Option<Frame>, ProtocolError>(e) && final(src)@ == old(src)@,
                Ok(None) => res matches Ok(None) && final(src)@ == old(src)@,
                Ok(Some((p, rest))) => res matches Ok(Some(f)) && f.payload() == p && final(src)@ == rest,
            },
    {
        let n = src.len();
        if n < 4 {
            return Ok(None);
        }
        let length64: u64 = src[0] as u64 * 16777216 + src[1] as u64 * 65536 + src[2] as u64 * 256 + src[3] as u64;
        if length64 == 0 {
            let rest = copy_range(src.as_slice(), 4, n);
            *src = rest;
            return Ok(Some(Frame::KeepAlive));
        }
        if length64 > MAX_FRAME_SIZE as u64 {
            return Err(ProtocolError::FrameTooLarge(length64 as usize));
        }
        let length = length64 as usize;
        if n - 4 < length {
            return Ok(None);
        }
        let payload = copy_range(src.as_slice(), 4, 4 + length);
        let rest = copy_range(src.as_slice(), 4 + length, n);
        *src = rest;
        Ok(Some(Frame::Payload(payload)))
    }

    /// Appends the frame of `payload` to `dst`; a payload longer than
    /// [`MAX_FRAME_SIZE`] is an error and writes nothing.
    pub fn encode(&mut self, payload: &[u8], dst: &mut Vec<u8>) -> (res: Result<(), ProtocolError>)
        ensures
            payload@.len() > MAX_FRAME_SIZE ==> res == Err::<(), ProtocolError>(ProtocolError::FrameTooLarge(payload@.len() as usize))
                && final(dst)@ == old(dst)@,
            payload@.len() <= MAX_FRAME_SIZE ==> res is Ok && final(dst)@ == old(dst)@ + frame_bytes(payload@),
    {
        let len = payload.len();
        if len > MAX_FRAME_SIZE {
            return Err(ProtocolError::FrameTooLarge(len));
        }
        let v = len as u32;
        let ghost start = dst@;
        dst.push((v / 16777216) as u8);
        dst.push(((v / 65536) % 256) as u8);
        dst.push(((v / 256) % 256) as u8);
        dst.push((v % 256) as u8);
        assert(dst@ =~= start + be32_bytes(len as nat));
        append_bytes(dst, payload);
        assert(dst@ =~= start + frame_bytes(payload@));
        Ok(())
    }
}

/// Decoding a frame that [`MessageCodec::encode`] wrote, followed by any
/// bytes, gives the payload back (a keep-alive for an empty one) and leaves
/// exactly the bytes that followed.
pub proof fn lemma_frame_roundtrip(payload: Seq<u8>, rest: Seq<u8>)
    requires
        payload.len() <= MAX_FRAME_SIZE,
    ensures
        decode_frame_spec(frame_bytes(payload) + rest) == Ok::<Option<(Option<Seq<u8>>, Seq<u8>)>, ProtocolError>(
            Some((if payload.len() == 0 { None } else { Some(payload) }, rest)),
        ),
{
    let b = frame_bytes(payload) + rest;
    let n = payload.len() as int;
    let q0 = n / 16777216;
    let q1 = (n / 65536) % 256;
    let q2 = (n / 256) % 256;
    let q3 = n % 256;
    assert(0 <= q0 < 256 && 0 <= q1 < 256 && 0 <= q2 < 256 && 0 <= q3 < 256);
    assert(b[0] as int == q0 && b[1] as int == q1 && b[2] as int == q2 && b[3] as int == q3);
    assert(q0 * 16777216 + q1 * 65536 + q2 * 256 + q3 == n) by (nonlinear_arith)
        requires
            0 <= n <= MAX_FRAME_SIZE,
            q0 == n / 16777216,
            q1 == (n / 65536) % 256,
            q2 == (n / 256) % 256,
            q3 == n % 256,
    ;
    assert(b.subrange(4, 4 + n) =~= payload);
    assert(b.subrange(4 + n, b.len() as int) =~= rest);
}

} // verus!
