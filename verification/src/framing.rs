//! Length-prefixed messages on a byte stream: each message is its length as
//! a little-endian `u32`, then its bytes.

use vstd::prelude::*;
use crate::frame::spec_le_u32;

verus! {

/// The four little-endian bytes of `n`.
pub open spec fn le_bytes(n: u32) -> Seq<u8> {
    seq![(n % 256) as u8, ((n / 256) % 256) as u8, ((n / 65536) % 256) as u8, (n / 16777216) as u8]
}

/// The frame of a message: its length, then the message.
pub open spec fn framed(payload: Seq<u8>) -> Seq<u8> {
    le_bytes(payload.len() as u32) + payload
}

proof fn lemma_le_bytes(n: u32)
    ensures
        spec_le_u32(le_bytes(n), 0) == n,
        le_bytes(n).len() == 4,
{
    assert(n == (n % 256) + 256 * ((n / 256) % 256) + 65536 * ((n / 65536) % 256) + 16777216 * (n / 16777216))
        by (bit_vector);
}

fn le_bytes_of(n: u32) -> (b: [u8; 4])
    ensures
        b@ == le_bytes(n),
{
    let b = [(n % 256) as u8, ((n / 256) % 256) as u8, ((n / 65536) % 256) as u8, (n / 16777216) as u8];
    assert(b@ =~= le_bytes(n));
    b
}

/// Frames `payload`; `None` when it is too long for a `u32` length.
pub fn encode_frame(payload: &[u8]) -> (r: Option<Vec<u8>>)
    ensures
        match r {
            None => payload@.len() > u32::MAX,
            Some(f) => payload@.len() <= u32::MAX && f@ == framed(payload@),
        },
{
    if payload.len() > 0xffff_ffffusize {
        return None;
    }
    let header = le_bytes_of(payload.len() as u32);
    let mut out: Vec<u8> = Vec::new();
    let mut i: usize = 0;
    while i < 4
        invariant
            i <= 4,
            header@ == le_bytes(payload@.len() as u32),
            out@ == header@.take(i as int),
        decreases 4 - i,
    {
        out.push(header[i]);
        i = i + 1;
        proof {
            assert(out@ =~= header@.take(i as int));
        }
    }
    let mut j: usize = 0;
    while j < payload.len()
        invariant
            j <= payload@.len(),
            header@ == le_bytes(payload@.len() as u32),
            out@ == header@ + payload@.take(j as int),
        decreases payload@.len() - j,
    {
        out.push(payload[j]);
        j = j + 1;
        proof {
            assert(out@ =~= header@ + payload@.take(j as int));
        }
    }
    proof {
        assert(payload@.take(payload@.len() as int) =~= payload@);
    }
    Some(out)
}

/// The message length a frame starts with.
pub fn frame_payload_len(header: [u8; 4]) -> (n: usize)
    ensures
        n == spec_le_u32(header@, 0),
{
    let v: u32 = header[0] as u32 + 256 * (header[1] as u32) + 65536 * (header[2] as u32)
        + 16777216 * (header[3] as u32);
    v as usize
}

/// Reading a frame's length back gives the message length, and the bytes
/// after the length are the message.
pub proof fn lemma_frame_round_trip(payload: Seq<u8>)
    requires
        payload.len() <= u32::MAX,
    ensures
        spec_le_u32(framed(payload), 0) == payload.len(),
        framed(payload).skip(4) == payload,
{
    lemma_le_bytes(payload.len() as u32);
    assert(framed(payload).skip(4) =~= payload);
}

} // verus!
