//! The frame codec: every message on a stream socket is a little-endian
//! unsigned 64-bit byte count followed by exactly that many payload bytes.
//! The codec itself places no bound on the frame size; the protocol layer
//! decides what it accepts.

use vstd::bytes::*;
use vstd::prelude::*;
use vstd::slice::slice_subrange;
use vstd::slice::slice_to_vec;

verus! {

/// Number of bytes in a frame header.
pub const FRAME_HEADER_BYTES: usize = 8;

/// The encoding of a payload: its length as eight little-endian bytes,
/// then the payload itself.
pub open spec fn spec_encode_frame(payload: Seq<u8>) -> Seq<u8> {
    spec_u64_to_le_bytes(payload.len() as u64) + payload
}

/// The decoding of a buffer that should hold exactly one frame:
/// `Some(payload)` when the buffer is a header followed by as many bytes as
/// the header announces, `None` otherwise.
pub open spec fn spec_decode_frame(bytes: Seq<u8>) -> Option<Seq<u8>> {
    if bytes.len() >= 8 && spec_u64_from_le_bytes(bytes.subrange(0, 8)) == bytes.len() - 8 {
        Some(bytes.subrange(8, bytes.len() as int))
    } else {
        None
    }
}

/// Frames a payload for the wire.
pub fn encode_frame(payload: &Vec<u8>) -> (framed: Vec<u8>)
    ensures
        framed@ == spec_encode_frame(payload@),
{
    let mut framed = u64_to_le_bytes(payload.len() as u64);
    framed.extend_from_slice(payload.as_slice());
    framed
}

/// Recovers the payload from a buffer holding exactly one frame.
pub fn decode_frame(bytes: &Vec<u8>) -> (payload: Option<Vec<u8>>)
    ensures
        match payload {
            Some(p) => spec_decode_frame(bytes@) == Some(p@),
            None => spec_decode_frame(bytes@) is None,
        },
{
    if bytes.len() < 8 {
        return None;
    }
    let announced = u64_from_le_bytes(slice_subrange(bytes.as_slice(), 0, 8));
    if announced != (bytes.len() - 8) as u64 {
        return None;
    }
    let payload = slice_to_vec(slice_subrange(bytes.as_slice(), 8, bytes.len()));
    assert(bytes@.subrange(8, bytes@.len() as int) == payload@);
    Some(payload)
}

/// Reads the payload length out of a frame header, for a caller that pulls
/// the header off a socket before the payload.
pub fn parse_frame_header(header: &Vec<u8>) -> (announced: Option<u64>)
    ensures
        match announced {
            Some(n) => header@.len() == 8 && n == spec_u64_from_le_bytes(header@),
            None => header@.len() != 8,
        },
{
    if header.len() != 8 {
        return None;
    }
    assert(header@.subrange(0, 8) =~= header@);
    Some(u64_from_le_bytes(slice_subrange(header.as_slice(), 0, 8)))
}

/// Framing loses nothing: decoding an encoded payload gives the payload back,
/// for every payload whose length a header can hold.
pub proof fn lemma_frame_round_trip(payload: Seq<u8>)
    requires
        payload.len() < 0x1_0000_0000_0000_0000,
    ensures
        spec_decode_frame(spec_encode_frame(payload)) == Some(payload),
{
    lemma_auto_spec_u64_to_from_le_bytes();
    let framed = spec_encode_frame(payload);
    assert(framed.subrange(0, 8) =~= spec_u64_to_le_bytes(payload.len() as u64));
    assert(framed.subrange(8, framed.len() as int) =~= payload);
}

} // verus!
