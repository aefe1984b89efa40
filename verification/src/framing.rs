//! Length-prefixed frames for the control stream: a `u32` big-endian length, then that many body
//! bytes (an encoded control message). At most 16 MiB per body.
use vstd::prelude::*;

verus! {

/// Largest body a frame may carry.
pub const MAX_FRAME: usize = 16777216;

/// Why a frame was refused.
#[derive(Debug, PartialEq, Eq, Structural)]
pub enum FrameError {
    /// The length prefix announces a body larger than [`MAX_FRAME`].
    TooLarge(usize),
}

/// The four big-endian bytes of `n`.
pub open spec fn be32(n: u32) -> Seq<u8> {
    seq![(n / 16777216) as u8, ((n / 65536) % 256) as u8, ((n / 256) % 256) as u8, (n % 256) as u8]
}

/// The number four big-endian bytes stand for.
pub open spec fn from_be32(s: Seq<u8>) -> nat {
    s[0] as nat * 16777216 + s[1] as nat * 65536 + s[2] as nat * 256 + s[3] as nat
}

/// The frame of `body`: its length (as `u32`) in four big-endian bytes, then the body.
pub open spec fn frame_of(body: Seq<u8>) -> Seq<u8> {
    be32(body.len() as u32) + body
}

/// What [`decode`] returns for `buf`, and what it leaves in `buf`.
pub open spec fn decode_spec(buf: Seq<u8>) -> (Result<Option<Seq<u8>>, FrameError>, Seq<u8>) {
    if buf.len() < 4 {
        (Ok(None), buf)
    } else {
        let len = from_be32(buf);
        if len > MAX_FRAME {
            (Err(FrameError::TooLarge(len as usize)), buf)
        } else if buf.len() < 4 + len {
            (Ok(None), buf)
        } else {
            (Ok(Some(buf.subrange(4, 4 + len as int))), buf.subrange(4 + len as int, buf.len() as int))
        }
    }
}

/// Frames `body`.
pub fn encode(body: &[u8]) -> (out: Vec<u8>)
    ensures
        out@ == frame_of(body@),
{
    let n: u32 = body.len() as u32;
    let mut out: Vec<u8> = Vec::new();
    out.push((n / 16777216) as u8);
    out.push(((n / 65536) % 256) as u8);
    out.push(((n / 256) % 256) as u8);
    out.push((n % 256) as u8);
    let mut i: usize = 0;
    let blen = body.len();
    while i < blen
        invariant
            blen == body@.len(),
            i <= blen,
            out@ == be32(n) + body@.subrange(0, i as int),
        decreases blen - i,
    {
        out.push(body[i]);
        assert(be32(n) + body@.subrange(0, i + 1) =~= (be32(n) + body@.subrange(0, i as int)).push(body@[i as int]));
        i = i + 1;
    }
    assert(body@.subrange(0, blen as int) =~= body@);
    out
}

/// Pulls one frame off the front of `buf`: its body, or `None` while the frame is incomplete (then
/// `buf` is left as it was).
pub fn decode(buf: &mut Vec<u8>) -> (r: Result<Option<Vec<u8>>, FrameError>)
    ensures
        decode_spec(old(buf)@).0 == (match r {
            Ok(Some(b)) => Ok(Some(b@)),
            Ok(None) => Ok(None),
            Err(e) => Err(e),
        }),
        final(buf)@ == decode_spec(old(buf)@).1,
{
    if buf.len() < 4 {
        return Ok(None);
    }
    let len: usize = (buf[0] as usize) * 16777216 + (buf[1] as usize) * 65536 + (buf[2] as usize) * 256 + (buf[3] as usize);
    assert(len == from_be32(buf@));
    if len > MAX_FRAME {
        return Err(FrameError::TooLarge(len));
    }
    if buf.len() < 4 + len {
        return Ok(None);
    }
    let mut body: Vec<u8> = Vec::new();
    let end: usize = 4 + len;
    let mut i: usize = 4;
    while i < end
        invariant
            end == 4 + len,
            4 <= i <= end <= buf@.len(),
            body@ == buf@.subrange(4, i as int),
        decreases end - i,
    {
        body.push(buf[i]);
        assert(buf@.subrange(4, i + 1) =~= buf@.subrange(4, i as int).push(buf@[i as int]));
        i = i + 1;
    }
    let rest = buf.split_off(end);
    *buf = rest;
    Ok(Some(body))
}

/// The four big-endian bytes of a length read back give the length.
proof fn lemma_be32(n: u32)
    ensures
        from_be32(be32(n)) == n,
{
    let s = be32(n);
    assert(s[0] as nat == n / 16777216) by {
        assert(n / 16777216 < 256) by (nonlinear_arith)
            requires
                n <= 0xffff_ffff,
        ;
    }
    assert(n == (n / 16777216) * 16777216 + ((n / 65536) % 256) * 65536 + ((n / 256) % 256) * 256 + n % 256) by (nonlinear_arith)
        requires
            0 <= n,
    ;
}

/// A frame read back from the front of a buffer gives its body and leaves what followed it.
pub proof fn law_frame_round_trip(body: Seq<u8>, rest: Seq<u8>)
    requires
        body.len() <= MAX_FRAME,
    ensures
        decode_spec(frame_of(body) + rest) == (Ok::<Option<Seq<u8>>, FrameError>(Some(body)), rest),
{
    let buf = frame_of(body) + rest;
    lemma_be32(body.len() as u32);
    assert(buf.subrange(0, 4) =~= be32(body.len() as u32));
    assert(from_be32(buf) == from_be32(be32(body.len() as u32)));
    assert(buf.subrange(4, 4 + body.len() as int) =~= body);
    assert(buf.subrange(4 + body.len() as int, buf.len() as int) =~= rest);
}

/// A frame that has not fully arrived yields nothing and stays in the buffer.
pub proof fn law_partial_frame_waits(body: Seq<u8>, k: int)
    requires
        body.len() <= MAX_FRAME,
        0 <= k < frame_of(body).len(),
    ensures
        decode_spec(frame_of(body).subrange(0, k)) == (Ok::<Option<Seq<u8>>, FrameError>(None), frame_of(body).subrange(0, k)),
{
    let f = frame_of(body);
    let buf = f.subrange(0, k);
    if k >= 4 {
        lemma_be32(body.len() as u32);
        assert(buf[0] == f[0] && buf[1] == f[1] && buf[2] == f[2] && buf[3] == f[3]);
        assert(from_be32(buf) == from_be32(f));
        assert(from_be32(f) == from_be32(be32(body.len() as u32)));
    }
}

} // verus!
