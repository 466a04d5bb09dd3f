//! Framing of the control connection's messages over a byte buffer.
//!
//! `Client` frames with a two-byte big-endian length of the body; `Server`
//! with a four-byte big-endian length. The message bodies are JSON; turning
//! them into values is left to the caller, which hands the encoders the
//! serialized bytes and parses what the decoders cut out.

use crate::buffer::{
    be_u16_value, be_u32_value, buffer_advance, buffer_as_slice, buffer_bytes, buffer_extend_from_slice,
    buffer_len, buffer_put, buffer_put_u16, buffer_put_u32_at, buffer_reserve, buffer_split_to,
    read_u16_be, read_u32_be, u16_be_bytes, u32_be_bytes,
};
use bytes::BytesMut;
use vstd::prelude::*;

verus! {

/// The framing with a two-byte length prefix.
#[derive(Debug, Clone, Copy)]
pub struct Client;

/// What the two-byte framing makes of buffered bytes `s`: the body of the
/// first frame and the bytes after it, once the whole frame is there.
pub open spec fn client_decode_spec(s: Seq<u8>) -> Option<(Seq<u8>, Seq<u8>)> {
    if s.len() >= 2 && s.len() >= be_u16_value(s) + 2 {
        Some((s.subrange(2, be_u16_value(s) + 2), s.skip(be_u16_value(s) + 2)))
    } else {
        None
    }
}

/// The frame that the two-byte framing writes for `body`: its length, cut to
/// sixteen bits, then the body.
pub open spec fn client_frame(body: Seq<u8>) -> Seq<u8> {
    u16_be_bytes(body.len() as u16) + body
}

impl Client {
    /// Cuts the first frame off the front of `src` and hands back its body,
    /// once the length prefix and the whole body have arrived; until then
    /// hands back `None` and leaves `src` as it is.
    pub fn decode(&mut self, src: &mut BytesMut) -> (res: Option<BytesMut>)
        ensures
            match client_decode_spec(buffer_bytes(*old(src))) {
                Some((body, rest)) => res matches Some(b) && buffer_bytes(b) == body
                    && buffer_bytes(*final(src)) == rest,
                None => res is None && buffer_bytes(*final(src)) == buffer_bytes(*old(src)),
            },
    {
        let len = buffer_len(src);
        if len < 2 {
            return None;
        }
        let size = read_u16_be(buffer_as_slice(src)) as usize;
        if len >= size + 2 {
            let _ = buffer_split_to(src, 2);
            let body = buffer_split_to(src, size);
            proof {
                let s = buffer_bytes(*old(src));
                assert(buffer_bytes(body) =~= s.subrange(2, size + 2));
                assert(buffer_bytes(*src) =~= s.skip(size + 2));
            }
            Some(body)
        } else {
            None
        }
    }

    /// Appends to `dst` the frame of the serialized message `body`: its
    /// length, cut to sixteen bits, in big-endian order, then the body.
    pub fn encode(&mut self, body: &[u8], dst: &mut BytesMut)
        requires
            buffer_bytes(*old(dst)).len() + body@.len() + 2 <= isize::MAX,
        ensures
            buffer_bytes(*final(dst)) == buffer_bytes(*old(dst)) + client_frame(body@),
    {
        buffer_reserve(dst, body.len() + 2);
        buffer_put_u16(dst, body.len() as u16);
        buffer_put(dst, body);
        assert(buffer_bytes(*dst) =~= buffer_bytes(*old(dst)) + client_frame(body@));
    }
}


/// The frame written for a body of at most 65535 bytes is two bytes that
/// spell the body's length, most significant first, followed by the body.
pub proof fn lemma_client_frame_layout(body: Seq<u8>)
    requires
        body.len() <= 0xffff,
    ensures
        client_frame(body).len() == body.len() + 2,
        client_frame(body)[0] * 0x100 + client_frame(body)[1] == body.len(),
        client_frame(body).skip(2) == body,
{
    let f = client_frame(body);
    let v = body.len() as u16;
    assert(v == body.len());
    assert(f[0] == (v / 0x100) as u8 && f[1] == (v % 0x100) as u8);
    assert(f.skip(2) =~= body);
}

/// Buffered bytes that start with two bytes `hi`, `lo` hold a frame whose
/// body is the next `hi * 256 + lo` bytes: once all of them are there, that
/// body comes out and the bytes after it are left; until then nothing comes
/// out.
pub proof fn lemma_client_reads_big_endian_prefix(hi: u8, lo: u8, rest: Seq<u8>)
    ensures
        rest.len() >= hi * 0x100 + lo ==> client_decode_spec(seq![hi, lo] + rest) == Some(
            (rest.take(hi * 0x100 + lo), rest.skip(hi * 0x100 + lo)),
        ),
        rest.len() < hi * 0x100 + lo ==> client_decode_spec(seq![hi, lo] + rest) is None,
{
    let s = seq![hi, lo] + rest;
    let n = hi * 0x100 + lo;
    assert(s[0] == hi && s[1] == lo);
    assert(be_u16_value(s) == n);
    if rest.len() >= n {
        assert(s.subrange(2, n + 2) =~= rest.take(n));
        assert(s.skip(n + 2) =~= rest.skip(n));
    }
}

/// Fewer than two buffered bytes hold no frame.
pub proof fn lemma_client_needs_prefix(s: Seq<u8>)
    requires
        s.len() < 2,
    ensures
        client_decode_spec(s) is None,
{
}

/// The two-byte framing reads back what it writes: a frame followed by any
/// bytes decodes to its body, with those bytes left over, for every body
/// shorter than 65536 bytes.
pub proof fn lemma_client_roundtrip(body: Seq<u8>, rest: Seq<u8>)
    requires
        body.len() < 0x1_0000,
    ensures
        client_decode_spec(client_frame(body) + rest) == Some((body, rest)),
{
    let s = client_frame(body) + rest;
    let v = body.len() as u16;
    assert(s[0] == (v / 0x100) as u8 && s[1] == (v % 0x100) as u8);
    assert(be_u16_value(s) == body.len());
    assert(s.subrange(2, body.len() + 2int) =~= body);
    assert(s.skip(body.len() + 2int) =~= rest);
}

/// The two-byte framing waits for a whole frame: no strict prefix of a frame
/// decodes to anything.
pub proof fn lemma_client_waits_for_whole_frame(body: Seq<u8>, k: int)
    requires
        body.len() < 0x1_0000,
        0 <= k < client_frame(body).len(),
    ensures
        client_decode_spec(client_frame(body).take(k)) is None,
{
    let f = client_frame(body);
    let s = f.take(k);
    let v = body.len() as u16;
    if k >= 2 {
        assert(s[0] == f[0] && s[1] == f[1]);
        assert(f[0] == (v / 0x100) as u8 && f[1] == (v % 0x100) as u8);
        assert(be_u16_value(s) == body.len());
    }
}

/// The framing with a four-byte length prefix. Between calls it remembers
/// the length of a frame whose prefix it has already taken off the buffer.
#[derive(Debug, Clone, Copy)]
pub struct Server {
    size: Option<usize>,
}

/// What one call of `Server::decode` does, from the remembered length and
/// the buffered bytes: the remembered length after the call, the buffered
/// bytes after the call, and the length of the body that is then complete
/// at the front of the buffer, if one is.
pub open spec fn server_decode_spec(size: Option<usize>, s: Seq<u8>) -> (Option<usize>, Seq<u8>, Option<usize>) {
    match size {
        Some(n) => (size, s, if n <= s.len() { Some(n) } else { None }),
        None => if s.len() < 4 {
            (None, s, None)
        } else {
            let n = be_u32_value(s) as usize;
            (Some(n), s.skip(4), if n <= s.len() - 4 { Some(n) } else { None })
        },
    }
}

/// The frame that the four-byte framing writes for `body`: a length that
/// counts the four prefix bytes as well as the body, cut to thirty-two
/// bits, then the body.
pub open spec fn server_frame(body: Seq<u8>) -> Seq<u8> {
    u32_be_bytes((body.len() + 4) as u32) + body
}

impl Default for Server {
    /// A framing that is waiting for a length prefix.
    fn default() -> (s: Self)
        ensures
            s.pending() is None,
    {
        Server { size: None }
    }
}

impl Server {
    /// The length of the frame whose prefix has been taken off the buffer,
    /// while its body has not been consumed.
    pub closed spec fn pending(&self) -> Option<usize> {
        self.size
    }

    /// Reads the length prefix off `src` if none is pending and four bytes
    /// are there; then reports the length of the body when the whole body
    /// is at the front of `src`. The body stays in `src` until `consume`.
    pub fn decode(&mut self, src: &mut BytesMut) -> (res: Option<usize>)
        ensures
            (final(self).pending(), buffer_bytes(*final(src)), res) == server_decode_spec(
                old(self).pending(),
                buffer_bytes(*old(src)),
            ),
    {
        loop
            invariant
                server_decode_spec(self.size, buffer_bytes(*src)) == server_decode_spec(
                    old(self).size,
                    buffer_bytes(*old(src)),
                ),
                self.size is Some ==> self.size == server_decode_spec(
                    old(self).size,
                    buffer_bytes(*old(src)),
                ).0 && buffer_bytes(*src) == server_decode_spec(
                    old(self).size,
                    buffer_bytes(*old(src)),
                ).1,
            decreases (if self.size is None { 1int } else { 0int }),
        {
            match self.size {
                Some(size) => {
                    return if size <= buffer_len(src) {
                        Some(size)
                    } else {
                        None
                    };
                },
                None => {
                    if buffer_len(src) < 4 {
                        return None;
                    }
                    let n = read_u32_be(buffer_as_slice(src)) as usize;
                    self.size = Some(n);
                    buffer_advance(src, 4);
                },
            }
        }
    }

    /// Drops the body of the pending frame off the front of `src` and
    /// waits for the next length prefix.
    pub fn consume(&mut self, src: &mut BytesMut)
        requires
            old(self).pending() matches Some(n) && n <= buffer_bytes(*old(src)).len(),
        ensures
            final(self).pending() is None,
            buffer_bytes(*final(src)) == buffer_bytes(*old(src)).skip(old(self).pending()->0 as int),
    {
        if let Some(size) = self.size {
            buffer_advance(src, size);
            self.size = None;
        }
    }

    /// Appends to `dst` the frame of the serialized message `body`: four
    /// bytes that hold, in big-endian order, the length of the whole frame
    /// (prefix included) cut to thirty-two bits, then the body.
    pub fn encode(&mut self, body: &[u8], dst: &mut BytesMut)
        requires
            buffer_bytes(*old(dst)).len() + body@.len() + 4 <= isize::MAX,
        ensures
            buffer_bytes(*final(dst)) == buffer_bytes(*old(dst)) + server_frame(body@),
    {
        let base = buffer_len(dst);
        let zeros: [u8; 4] = [0u8; 4];
        buffer_extend_from_slice(dst, zeros.as_slice());
        buffer_extend_from_slice(dst, body);
        let len = (buffer_len(dst) - base) as u32;
        buffer_put_u32_at(dst, base, len);
        assert(buffer_bytes(*dst) =~= buffer_bytes(*old(dst)) + server_frame(body@));
    }
}

/// What the four-byte framing reads out of buffered bytes `s`, from the
/// remembered length `size`, when `Server::decode` is called until it
/// reports nothing and `Server::consume` after each body it reports: the
/// bodies, in order, then the remembered length and the buffered bytes it
/// ends with.
pub open spec fn server_drain(size: Option<usize>, s: Seq<u8>) -> (Seq<Seq<u8>>, Option<usize>, Seq<u8>)
    decreases s.len(), (if size is Some { 1int } else { 0int }),
{
    let (size1, s1, ready) = server_decode_spec(size, s);
    match ready {
        Some(n) => {
            let (bodies, size2, s2) = server_drain(None, s1.skip(n as int));
            (seq![s1.take(n as int)] + bodies, size2, s2)
        },
        None => (Seq::empty(), size1, s1),
    }
}

/// How the bytes arrive does not matter to the four-byte framing: reading
/// `s` and then, with what is left, `t` appended, gives the bodies of
/// reading `s + t` at once, and ends in the same state.
pub proof fn lemma_server_split_reads(size: Option<usize>, s: Seq<u8>, t: Seq<u8>)
    ensures
        ({
            let (b1, z1, r1) = server_drain(size, s);
            let (b2, z2, r2) = server_drain(z1, r1 + t);
            server_drain(size, s + t) == (b1 + b2, z2, r2)
        }),
    decreases s.len(), (if size is Some { 1int } else { 0int }),
{
    let st = s + t;
    let (b1, z1, r1) = server_drain(size, s);
    match size {
        Some(n) => {
            if n <= s.len() {
                assert(st.take(n as int) =~= s.take(n as int));
                assert(st.skip(n as int) =~= s.skip(n as int) + t);
                lemma_server_split_reads(None, s.skip(n as int), t);
                let (bb, zz, rr) = server_drain(None, s.skip(n as int));
                let (b2, z2, r2) = server_drain(zz, rr + t);
                assert(seq![s.take(n as int)] + (bb + b2) =~= (seq![s.take(n as int)] + bb) + b2);
            } else {
                assert(r1 + t =~= st);
            }
        },
        None => {
            if s.len() < 4 {
                assert(r1 + t =~= st);
            } else {
                assert(st[0] == s[0] && st[1] == s[1] && st[2] == s[2] && st[3] == s[3]);
                assert(be_u32_value(st) == be_u32_value(s));
                let n = be_u32_value(s) as usize;
                let s1 = s.skip(4);
                assert(st.skip(4) =~= s1 + t);
                if n <= s1.len() {
                    assert((s1 + t).take(n as int) =~= s1.take(n as int));
                    assert((s1 + t).skip(n as int) =~= s1.skip(n as int) + t);
                    lemma_server_split_reads(None, s1.skip(n as int), t);
                    let (bb, zz, rr) = server_drain(None, s1.skip(n as int));
                    let (b2, z2, r2) = server_drain(zz, rr + t);
                    assert(seq![s1.take(n as int)] + (bb + b2) =~= (seq![s1.take(n as int)] + bb) + b2);
                } else {
                    assert(b1 =~= Seq::<Seq<u8>>::empty());
                    assert(server_drain(Some(n), s1 + t) == server_drain(None, st));
                    assert(Seq::<Seq<u8>>::empty() + server_drain(Some(n), s1 + t).0 =~= server_drain(Some(n), s1 + t).0);
                }
            }
        },
    }
}


/// Once a length `n` is pending, the body is ready exactly when at least `n`
/// bytes are buffered, and then it is reported as `n` bytes long; the
/// pending length and the buffered bytes are kept either way.
pub proof fn lemma_server_pending_body(n: usize, s: Seq<u8>)
    ensures
        server_decode_spec(Some(n), s).0 == Some(n),
        server_decode_spec(Some(n), s).1 == s,
        n <= s.len() ==> server_decode_spec(Some(n), s).2 == Some(n),
        s.len() < n ==> server_decode_spec(Some(n), s).2 is None,
{
}

/// With no length pending, four buffered bytes `b0`..`b3` are taken as the
/// length, most significant first: `b0 * 2^24 + b1 * 2^16 + b2 * 2^8 + b3`
/// becomes pending, the four bytes are dropped, and the body is ready exactly
/// when the bytes after them hold that many.
pub proof fn lemma_server_reads_big_endian_prefix(b0: u8, b1: u8, b2: u8, b3: u8, t: Seq<u8>)
    ensures
        ({
            let n = b0 * 0x100_0000 + b1 * 0x1_0000 + b2 * 0x100 + b3;
            &&& server_decode_spec(None, seq![b0, b1, b2, b3] + t).0 == Some(n as usize)
            &&& server_decode_spec(None, seq![b0, b1, b2, b3] + t).1 == t
            &&& (n <= t.len() ==> server_decode_spec(None, seq![b0, b1, b2, b3] + t).2 == Some(
                n as usize,
            ))
            &&& (t.len() < n ==> server_decode_spec(None, seq![b0, b1, b2, b3] + t).2 is None)
        }),
{
    let s = seq![b0, b1, b2, b3] + t;
    let n = b0 * 0x100_0000 + b1 * 0x1_0000 + b2 * 0x100 + b3;
    assert(s[0] == b0 && s[1] == b1 && s[2] == b2 && s[3] == b3);
    assert(be_u32_value(s) == n);
    assert(n <= u32::MAX);
    assert((n as usize) as int == n);
    assert(s.skip(4) =~= t);
}

/// With no length pending and fewer than four bytes buffered, nothing is
/// read.
pub proof fn lemma_server_needs_prefix(s: Seq<u8>)
    requires
        s.len() < 4,
    ensures
        server_decode_spec(None, s) == (None::<usize>, s, None::<usize>),
{
}

/// The frame written for a body is four bytes that spell, most significant
/// first, the length of the whole frame (the body plus the four bytes),
/// followed by the body; for every body whose frame length fits in 32 bits.
pub proof fn lemma_server_frame_layout(body: Seq<u8>)
    requires
        body.len() + 4 <= u32::MAX,
    ensures
        server_frame(body).len() == body.len() + 4,
        server_frame(body)[0] * 0x100_0000 + server_frame(body)[1] * 0x1_0000
            + server_frame(body)[2] * 0x100 + server_frame(body)[3] == body.len() + 4,
        server_frame(body).skip(4) == body,
{
    let f = server_frame(body);
    let v = (body.len() + 4) as u32;
    assert(v == body.len() + 4);
    assert(f[0] == (v / 0x100_0000) as u8);
    assert(f[1] == ((v / 0x1_0000) % 0x100) as u8);
    assert(f[2] == ((v / 0x100) % 0x100) as u8);
    assert(f[3] == (v % 0x100) as u8);
    assert(f.skip(4) =~= body);
}

/// The four-byte framing's length prefix counts itself: reading a frame
/// that `Server::encode` wrote leaves pending a body four bytes longer than
/// the body that was written, so the decoder takes the first four bytes
/// that follow the frame as part of its body.
pub proof fn lemma_server_prefix_counts_itself(body: Seq<u8>, rest: Seq<u8>)
    requires
        body.len() + 4 <= u32::MAX,
    ensures
        server_decode_spec(None, server_frame(body) + rest).0 == Some((body.len() + 4) as usize),
        server_decode_spec(None, server_frame(body) + rest).1 == body + rest,
{
    let s = server_frame(body) + rest;
    let v = (body.len() + 4) as u32;
    assert(s[0] == (v / 0x100_0000) as u8);
    assert(s[1] == ((v / 0x1_0000) % 0x100) as u8);
    assert(s[2] == ((v / 0x100) % 0x100) as u8);
    assert(s[3] == (v % 0x100) as u8);
    assert(be_u32_value(s) == v);
    assert(s.skip(4) =~= body + rest);
}

} // verus!
