use vstd::prelude::*;

use crate::errors::Fault;

verus! {

/// A frame's length prefix occupies this many bytes and is counted by the
/// length it encodes, so no valid frame is shorter than this.
pub const HEADER_LEN: usize = 4;

/// The value of a big-endian 4-byte length prefix at the head of `b`.
pub open spec fn be32(b: Seq<u8>) -> u32 {
    ((b[0] as u32) << 24) | ((b[1] as u32) << 16) | ((b[2] as u32) << 8) | (b[3] as u32)
}

/// The big-endian 4-byte encoding of `n`.
pub open spec fn be32_bytes(n: u32) -> Seq<u8> {
    seq![(n >> 24) as u8, (n >> 16) as u8, (n >> 8) as u8, n as u8]
}

/// Decoding the encoding of `n` gives back `n`.
pub proof fn lemma_be32_round_trip(n: u32)
    ensures
        be32(be32_bytes(n)) == n,
{
    assert((((n >> 24) as u8 as u32) << 24) | (((n >> 16) as u8 as u32) << 16) | (((n >> 8)
        as u8 as u32) << 8) | (n as u8 as u32) == n) by (bit_vector);
}

/// Re-encoding the value of a length prefix gives back those four bytes.
pub proof fn lemma_be32_bytes_of_be32(b: Seq<u8>)
    requires
        b.len() == 4,
    ensures
        be32_bytes(be32(b)) == b,
{
    let b0 = b[0];
    let b1 = b[1];
    let b2 = b[2];
    let b3 = b[3];
    let n: u32 = ((b0 as u32) << 24) | ((b1 as u32) << 16) | ((b2 as u32) << 8) | (b3 as u32);
    assert((n >> 24) as u8 == b0 && (n >> 16) as u8 == b1 && (n >> 8) as u8 == b2 && n as u8 == b3)
        by (bit_vector)
        requires
            n == ((b0 as u32) << 24) | ((b1 as u32) << 16) | ((b2 as u32) << 8) | (b3 as u32),
    ;
    assert(be32_bytes(be32(b)) =~= b);
}

/// One frame on the wire: a length prefix that counts itself plus the
/// payload, followed by the payload.
pub open spec fn frame_bytes(p: Seq<u8>) -> Seq<u8> {
    be32_bytes((p.len() + 4) as u32) + p
}

/// What parsing a byte stream yields: the complete frame payloads in
/// arrival order, the unconsumed suffix that belongs to the next frame,
/// and whether the stream is free of a malformed length prefix (one
/// below 4, which cannot even count its own header).
pub struct ParseOutcome {
    pub frames: Seq<Seq<u8>>,
    pub rest: Seq<u8>,
    pub ok: bool,
}

/// Greedily split a byte stream into complete frames, leaving behind the
/// bytes of any still-incomplete trailing frame.
pub open spec fn parse_stream(s: Seq<u8>) -> ParseOutcome
    decreases s.len(),
{
    if s.len() < 4 {
        ParseOutcome { frames: Seq::empty(), rest: s, ok: true }
    } else if be32(s) < 4 {
        ParseOutcome { frames: Seq::empty(), rest: s, ok: false }
    } else if s.len() < be32(s) {
        ParseOutcome { frames: Seq::empty(), rest: s, ok: true }
    } else {
        let n = be32(s) as int;
        let tail = parse_stream(s.skip(n));
        ParseOutcome {
            frames: seq![s.subrange(4, n)] + tail.frames,
            rest: tail.rest,
            ok: tail.ok,
        }
    }
}

/// Reassembles discrete frames out of an arbitrarily chunked byte stream.
/// The accumulated, not yet consumed bytes are the codec's view.
pub struct FrameCodec {
    buffer: Vec<u8>,
}

impl View for FrameCodec {
    type V = Seq<u8>;

    closed spec fn view(&self) -> Seq<u8> {
        self.buffer@
    }
}

impl FrameCodec {
    /// A codec with nothing buffered.
    pub fn new() -> (c: FrameCodec)
        ensures
            c@ == Seq::<u8>::empty(),
    {
        FrameCodec { buffer: Vec::new() }
    }

    /// Append newly arrived bytes and split off every frame that is now
    /// complete. A length prefix below 4 is a protocol violation; the
    /// offending bytes stay buffered and nothing is delivered.
    pub fn push_bytes(&mut self, chunk: &[u8]) -> (r: Result<Vec<Vec<u8>>, Fault>)
        ensures
            final(self)@ == parse_stream(old(self)@ + chunk@).rest,
            (match r {
                Ok(frames) => parse_stream(old(self)@ + chunk@).ok && frames@.map_values(
                    |f: Vec<u8>| f@,
                ) == parse_stream(old(self)@ + chunk@).frames,
                Err(e) => !parse_stream(old(self)@ + chunk@).ok && e == Fault::Protocol,
            }),
    {
        self.buffer.extend_from_slice(chunk);
        let ghost s0 = self.buffer@;
        let mut frames: Vec<Vec<u8>> = Vec::new();
        proof {
            assert(frames@.map_values(|f: Vec<u8>| f@) + parse_stream(s0).frames =~= parse_stream(
                s0,
            ).frames);
        }
        loop
            invariant
                s0 == old(self)@ + chunk@,
                parse_stream(s0).frames == frames@.map_values(|f: Vec<u8>| f@) + parse_stream(
                    self.buffer@,
                ).frames,
                parse_stream(s0).rest == parse_stream(self.buffer@).rest,
                parse_stream(s0).ok == parse_stream(self.buffer@).ok,
            ensures
                parse_stream(self.buffer@).frames == Seq::<Seq<u8>>::empty(),
                parse_stream(self.buffer@).rest == self.buffer@,
                parse_stream(self.buffer@).ok,
            decreases self.buffer@.len(),
        {
            if self.buffer.len() < 4 {
                break ;
            }
            let n32 = read_len_prefix(&self.buffer);
            if n32 < 4 {
                return Err(Fault::Protocol);
            }
            let n = n32 as usize;
            if self.buffer.len() < n {
                break ;
            }
            let ghost before = self.buffer@;
            let ghost mapped = frames@.map_values(|f: Vec<u8>| f@);
            let rest = self.buffer.split_off(n);
            let payload = self.buffer.split_off(HEADER_LEN);
            self.buffer = rest;
            let ghost pv = payload@;
            frames.push(payload);
            proof {
                assert(pv =~= before.subrange(4, n as int));
                assert(self.buffer@ =~= before.skip(n as int));
                assert(parse_stream(before).frames == seq![before.subrange(4, n as int)]
                    + parse_stream(before.skip(n as int)).frames);
                assert(frames@.map_values(|f: Vec<u8>| f@) =~= mapped + seq![pv]);
                assert(mapped + (seq![pv] + parse_stream(self.buffer@).frames) =~= (mapped + seq![
                    pv,
                ]) + parse_stream(self.buffer@).frames);
            }
        }
        proof {
            assert(parse_stream(s0).frames =~= frames@.map_values(|f: Vec<u8>| f@));
        }
        Ok(frames)
    }
}

/// Read the big-endian length prefix at the head of the buffer.
fn read_len_prefix(b: &Vec<u8>) -> (n: u32)
    requires
        b@.len() >= 4,
    ensures
        n == be32(b@),
{
    ((b[0] as u32) << 24) | ((b[1] as u32) << 16) | ((b[2] as u32) << 8) | (b[3] as u32)
}

/// Serialize a payload as one frame: the big-endian length of the whole
/// frame (header included), then the payload.
pub fn serialize_frame(payload: &[u8]) -> (r: Vec<u8>)
    requires
        payload@.len() + 4 <= u32::MAX,
    ensures
        r@ == frame_bytes(payload@),
{
    let n: u32 = (payload.len() + 4) as u32;
    let mut r: Vec<u8> = Vec::new();
    r.push((n >> 24) as u8);
    r.push((n >> 16) as u8);
    r.push((n >> 8) as u8);
    r.push(n as u8);
    r.extend_from_slice(payload);
    proof {
        assert(r@ =~= frame_bytes(payload@));
    }
    r
}

/// Serializing never produces a malformed prefix, and parsing the
/// serialization of a payload yields exactly that payload and leaves
/// nothing behind.
pub proof fn lemma_frame_round_trip(p: Seq<u8>)
    requires
        p.len() + 4 <= u32::MAX,
    ensures
        parse_stream(frame_bytes(p)).ok,
        parse_stream(frame_bytes(p)).frames == seq![p],
        parse_stream(frame_bytes(p)).rest == Seq::<u8>::empty(),
{
    let s = frame_bytes(p);
    let n: u32 = (p.len() + 4) as u32;
    assert(n == p.len() + 4);
    lemma_be32_round_trip(n);
    assert(s[0] == be32_bytes(n)[0] && s[1] == be32_bytes(n)[1] && s[2] == be32_bytes(n)[2] && s[3]
        == be32_bytes(n)[3]);
    assert(be32(s) == be32(be32_bytes(n)));
    assert(s.len() == n);
    assert(s.subrange(4, n as int) =~= p);
    assert(s.skip(n as int) =~= Seq::<u8>::empty());
    assert(parse_stream(Seq::<u8>::empty()).frames == Seq::<Seq<u8>>::empty());
    assert(parse_stream(Seq::<u8>::empty()).rest == Seq::<u8>::empty());
    assert(parse_stream(Seq::<u8>::empty()).ok);
    assert(parse_stream(s).frames == seq![s.subrange(4, n as int)] + parse_stream(
        s.skip(n as int),
    ).frames);
    assert(parse_stream(s).frames =~= seq![p]);
}

/// Parsing neither invents nor loses a byte: the frames delivered, each
/// re-serialized with its prefix, followed by the leftover, are exactly
/// the stream that was fed in.
proof fn lemma_flatten_cons(x: Seq<u8>, rest: Seq<Seq<u8>>)
    ensures
        (seq![x] + rest).flatten() == x + rest.flatten(),
{
    let all = seq![x] + rest;
    assert(all.first() == x);
    assert(all.drop_first() =~= rest);
    assert(all.flatten() == all.first() + all.drop_first().flatten());
}

/// Parsing neither invents nor loses a byte: the frames delivered, each
/// re-serialized with its prefix, followed by the leftover, are exactly
/// the stream that was fed in.
#[verifier::rlimit(50)]
pub proof fn lemma_parse_stream_conserves(s: Seq<u8>)
    requires
        parse_stream(s).ok,
    ensures
        parse_stream(s).frames.map_values(|p: Seq<u8>| frame_bytes(p)).flatten() + parse_stream(
            s,
        ).rest == s,
    decreases s.len(),
{
    let po = parse_stream(s);
    let mapped = po.frames.map_values(|p: Seq<u8>| frame_bytes(p));
    if s.len() < 4 || s.len() < be32(s) {
        assert(mapped =~= Seq::<Seq<u8>>::empty());
        assert(Seq::<Seq<u8>>::empty().flatten() == Seq::<u8>::empty());
        assert(mapped.flatten() + po.rest =~= s);
    } else {
        let n = be32(s) as int;
        let payload = s.subrange(4, n);
        let tail = parse_stream(s.skip(n));
        let tail_mapped = tail.frames.map_values(|p: Seq<u8>| frame_bytes(p));
        lemma_parse_stream_conserves(s.skip(n));
        assert(frame_bytes(payload) == s.take(n)) by {
            lemma_be32_bytes_of_be32(s.subrange(0, 4));
            assert(be32(s.subrange(0, 4)) == be32(s)) by {
                assert(s.subrange(0, 4)[0] == s[0] && s.subrange(0, 4)[1] == s[1] && s.subrange(
                    0,
                    4,
                )[2] == s[2] && s.subrange(0, 4)[3] == s[3]);
            }
            assert((payload.len() + 4) as u32 == be32(s));
            assert(frame_bytes(payload) =~= s.take(n));
        }
        assert(mapped == seq![frame_bytes(payload)] + tail_mapped) by {
            assert(mapped =~= seq![frame_bytes(payload)] + tail_mapped);
        }
        lemma_flatten_cons(frame_bytes(payload), tail_mapped);
        assert(mapped.flatten() + po.rest =~= s) by {
            assert(mapped.flatten() == s.take(n) + tail_mapped.flatten());
            assert(tail_mapped.flatten() + tail.rest == s.skip(n));
            assert(s.take(n) + s.skip(n) =~= s);
        }
    }
}

/// Frames already complete in a stream survive the arrival of more bytes:
/// parsing `s + t` yields the frames of `s` followed by the frames of
/// `s`'s leftover joined with `t`. This is why delivery chunking — a
/// header split in two, many frames in one read — cannot change what is
/// parsed.
pub proof fn lemma_parse_stream_append(s: Seq<u8>, t: Seq<u8>)
    requires
        parse_stream(s).ok,
    ensures
        parse_stream(s + t).frames == parse_stream(s).frames + parse_stream(
            parse_stream(s).rest + t,
        ).frames,
        parse_stream(s + t).rest == parse_stream(parse_stream(s).rest + t).rest,
        parse_stream(s + t).ok == parse_stream(parse_stream(s).rest + t).ok,
    decreases s.len(),
{
    if s.len() < 4 {
        assert(parse_stream(s).rest == s);
        assert(s + t == parse_stream(s).rest + t);
        assert(parse_stream(s).frames + parse_stream(parse_stream(s).rest + t).frames
            =~= parse_stream(parse_stream(s).rest + t).frames);
    } else {
        assert((s + t).subrange(0, 4) =~= s.subrange(0, 4));
        assert(be32(s + t) == be32(s)) by {
            assert((s + t)[0] == s[0] && (s + t)[1] == s[1] && (s + t)[2] == s[2] && (s + t)[3]
                == s[3]);
        }
        let n = be32(s) as int;
        if s.len() < n {
            assert(parse_stream(s).rest == s);
            assert(s + t == parse_stream(s).rest + t);
            assert(parse_stream(s).frames + parse_stream(parse_stream(s).rest + t).frames
                =~= parse_stream(parse_stream(s).rest + t).frames);
        } else {
            assert((s + t).len() >= n);
            assert((s + t).subrange(4, n) =~= s.subrange(4, n));
            assert((s + t).skip(n) =~= s.skip(n) + t);
            lemma_parse_stream_append(s.skip(n), t);
            assert(parse_stream(s + t).frames =~= parse_stream(s).frames + parse_stream(
                parse_stream(s).rest + t,
            ).frames);
        }
    }
}

} // verus!
