//! Length-prefixed framing: each message on the wire is a fixed-width
//! big-endian length followed by exactly that many payload bytes.

use vstd::prelude::*;

verus! {

/// Width in bytes of the length prefix.
pub const HEADER_LEN: usize = 4;

/// A declared payload length above the configured per-message maximum is a
/// protocol violation; the offending connection is removed by the caller.
#[derive(Clone, Copy, PartialEq, Eq, Structural, Debug)]
pub enum FrameError {
    Oversized,
}

/// The four big-endian bytes of a 32-bit length.
pub open spec fn be_bytes(n: u32) -> Seq<u8> {
    seq![
        ((n >> 24) & 0xff) as u8,
        ((n >> 16) & 0xff) as u8,
        ((n >> 8) & 0xff) as u8,
        (n & 0xff) as u8,
    ]
}

/// The 32-bit value read from four big-endian bytes.
pub open spec fn be_value(b: Seq<u8>) -> u32
    recommends
        b.len() == HEADER_LEN,
{
    (((b[0] as u32) << 24) | ((b[1] as u32) << 16) | ((b[2] as u32) << 8) | (b[3] as u32)) as u32
}

/// A payload framed for the wire: its length, big-endian, then its bytes.
pub open spec fn frame_bytes(p: Seq<u8>) -> Seq<u8>
    recommends
        p.len() <= u32::MAX,
{
    be_bytes(p.len() as u32) + p
}

/// Whether the buffer holds a full length prefix yet.
pub open spec fn has_header(b: Seq<u8>) -> bool {
    b.len() >= HEADER_LEN
}

/// The payload length the buffer's prefix declares.
pub open spec fn declared_len(b: Seq<u8>) -> nat
    recommends
        has_header(b),
{
    be_value(b.take(HEADER_LEN as int)) as nat
}

/// The buffer declares a payload larger than the configured maximum.
pub open spec fn oversized(b: Seq<u8>, max: nat) -> bool {
    has_header(b) && declared_len(b) > max
}

/// The buffer begins with one complete, acceptable frame.
pub open spec fn frame_complete(b: Seq<u8>, max: nat) -> bool {
    has_header(b) && declared_len(b) <= max && b.len() >= HEADER_LEN + declared_len(b)
}

/// The payload of the frame at the front of the buffer.
pub open spec fn frame_payload(b: Seq<u8>) -> Seq<u8>
    recommends
        has_header(b),
        b.len() >= HEADER_LEN + declared_len(b),
{
    b.subrange(HEADER_LEN as int, HEADER_LEN + declared_len(b) as int)
}

/// What remains in the buffer once the front frame is consumed.
pub open spec fn frame_rest(b: Seq<u8>) -> Seq<u8>
    recommends
        has_header(b),
        b.len() >= HEADER_LEN + declared_len(b),
{
    b.skip(HEADER_LEN + declared_len(b) as int)
}

proof fn lemma_be_round_trip(n: u32)
    ensures
        be_value(be_bytes(n)) == n,
{
    let b0 = ((n >> 24) & 0xff) as u8;
    let b1 = ((n >> 16) & 0xff) as u8;
    let b2 = ((n >> 8) & 0xff) as u8;
    let b3 = (n & 0xff) as u8;
    assert(((((((n >> 24) & 0xff) as u8) as u32) << 24)
        | (((((n >> 16) & 0xff) as u8) as u32) << 16)
        | (((((n >> 8) & 0xff) as u8) as u32) << 8)
        | (((n & 0xff) as u8) as u32)) == n) by (bit_vector);
    assert(be_bytes(n)[0] == b0);
    assert(be_bytes(n)[1] == b1);
    assert(be_bytes(n)[2] == b2);
    assert(be_bytes(n)[3] == b3);
}

/// Framing round trip: framing a payload of any length up to the maximum
/// and feeding the bytes back in yields exactly that payload once, with
/// nothing left over; and no strict prefix of the frame — however the bytes
/// are split across partial reads — yields a message or a protocol error.
pub proof fn lemma_frame_round_trip(p: Seq<u8>, max: nat)
    requires
        p.len() <= max,
        p.len() <= u32::MAX,
    ensures
        frame_complete(frame_bytes(p), max),
        frame_payload(frame_bytes(p)) == p,
        frame_rest(frame_bytes(p)) == Seq::<u8>::empty(),
        forall|k: int|
            0 <= k < frame_bytes(p).len() ==> !frame_complete(
                #[trigger] frame_bytes(p).take(k),
                max,
            ) && !oversized(frame_bytes(p).take(k), max),
{
    let f = frame_bytes(p);
    lemma_be_round_trip(p.len() as u32);
    assert(f.take(HEADER_LEN as int) =~= be_bytes(p.len() as u32));
    assert(declared_len(f) == p.len());
    assert(frame_payload(f) =~= p);
    assert(frame_rest(f) =~= Seq::<u8>::empty());
    assert forall|k: int|
        0 <= k < f.len() implies !frame_complete(#[trigger] f.take(k), max) && !oversized(
        f.take(k),
        max,
    ) by {
        if k >= HEADER_LEN {
            assert(f.take(k).take(HEADER_LEN as int) =~= f.take(HEADER_LEN as int));
            assert(declared_len(f.take(k)) == p.len());
            assert(f.take(k).len() == k < HEADER_LEN + declared_len(f.take(k)));
        }
    }
}

/// Oversized frame rejection: a frame whose declared length exceeds the
/// configured maximum is reported as a protocol violation, never as a
/// complete message.
pub proof fn lemma_oversized_rejected(p: Seq<u8>, max: nat)
    requires
        max < p.len() <= u32::MAX,
    ensures
        oversized(frame_bytes(p), max),
        !frame_complete(frame_bytes(p), max),
{
    let f = frame_bytes(p);
    lemma_be_round_trip(p.len() as u32);
    assert(f.take(HEADER_LEN as int) =~= be_bytes(p.len() as u32));
    assert(declared_len(f) == p.len());
}

/// Writes the length prefix for `n` payload bytes.
fn encode_len(n: u32) -> (r: [u8; 4])
    ensures
        r@ == be_bytes(n),
{
    let b0 = ((n >> 24) & 0xff) as u8;
    let b1 = ((n >> 16) & 0xff) as u8;
    let b2 = ((n >> 8) & 0xff) as u8;
    let b3 = (n & 0xff) as u8;
    let r = [b0, b1, b2, b3];
    assert(r@ =~= be_bytes(n));
    r
}

/// Frames a payload for the wire: big-endian length prefix, then the bytes.
pub fn encode_frame(payload: &Vec<u8>) -> (r: Vec<u8>)
    requires
        payload@.len() <= u32::MAX,
    ensures
        r@ == frame_bytes(payload@),
        r@.len() == HEADER_LEN + payload@.len(),
{
    let n: u32 = payload.len() as u32;
    let header = encode_len(n);
    let mut r: Vec<u8> = Vec::new();
    r.push(header[0]);
    r.push(header[1]);
    r.push(header[2]);
    r.push(header[3]);
    assert(r@ =~= be_bytes(n));
    let mut i: usize = 0;
    while i < payload.len()
        invariant
            i <= payload@.len(),
            r@ == be_bytes(payload@.len() as u32) + payload@.take(i as int),
        decreases payload@.len() - i,
    {
        r.push(payload[i]);
        assert(r@ =~= be_bytes(payload@.len() as u32) + payload@.take(i + 1));
        i = i + 1;
    }
    assert(payload@.take(payload@.len() as int) =~= payload@);
    r
}

/// Tries to take one complete frame off the front of `buf`.
///
/// Returns `Ok(None)` and leaves `buf` unchanged while no full, acceptable
/// frame has arrived; returns the extracted payload and consumes the frame
/// when one has; rejects a declared length above `max` without consuming
/// anything.
pub fn try_extract(buf: &mut Vec<u8>, max: usize) -> (r: Result<Option<Vec<u8>>, FrameError>)
    ensures
        match r {
            Ok(None) => {
                &&& final(buf)@ == old(buf)@
                &&& !frame_complete(old(buf)@, max as nat)
                &&& !oversized(old(buf)@, max as nat)
            },
            Ok(Some(m)) => {
                &&& frame_complete(old(buf)@, max as nat)
                &&& m@ == frame_payload(old(buf)@)
                &&& final(buf)@ == frame_rest(old(buf)@)
            },
            Err(e) => {
                &&& e == FrameError::Oversized
                &&& oversized(old(buf)@, max as nat)
                &&& final(buf)@ == old(buf)@
            },
        },
{
    if buf.len() < HEADER_LEN {
        return Ok(None);
    }
    let d: u32 = (((buf[0] as u32) << 24) | ((buf[1] as u32) << 16) | ((buf[2] as u32) << 8)
        | (buf[3] as u32)) as u32;
    proof {
        let h = buf@.take(HEADER_LEN as int);
        assert(h[0] == buf@[0] && h[1] == buf@[1] && h[2] == buf@[2] && h[3] == buf@[3]);
        assert(d == declared_len(buf@));
    }
    if max < u32::MAX as usize && d > max as u32 {
        return Err(FrameError::Oversized);
    }
    let dl: usize = d as usize;
    assert(dl == declared_len(buf@));
    assert(dl <= max);
    if buf.len() - HEADER_LEN < dl {
        return Ok(None);
    }
    let total: usize = HEADER_LEN + dl;
    let mut payload: Vec<u8> = Vec::new();
    let mut i: usize = HEADER_LEN;
    while i < total
        invariant
            HEADER_LEN <= i <= total,
            total == HEADER_LEN + dl,
            total <= buf@.len(),
            payload@ == buf@.subrange(HEADER_LEN as int, i as int),
        decreases total - i,
    {
        payload.push(buf[i]);
        assert(payload@ =~= buf@.subrange(HEADER_LEN as int, i + 1));
        i = i + 1;
    }
    let mut rest: Vec<u8> = Vec::new();
    let mut j: usize = total;
    while j < buf.len()
        invariant
            total <= j <= buf@.len(),
            rest@ == buf@.subrange(total as int, j as int),
        decreases buf@.len() - j,
    {
        rest.push(buf[j]);
        assert(rest@ =~= buf@.subrange(total as int, j + 1));
        j = j + 1;
    }
    proof {
        assert(payload@ =~= frame_payload(buf@));
        assert(rest@ =~= frame_rest(buf@));
    }
    *buf = rest;
    Ok(Some(payload))
}

} // verus!
