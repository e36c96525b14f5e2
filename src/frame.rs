use vstd::prelude::*;

verus! {

/// The unsigned number that the first four bytes of `b` spell, most
/// significant byte first.
pub open spec fn be32(b: Seq<u8>) -> int
    recommends
        b.len() >= 4,
{
    b[0] * 0x100_0000 + b[1] * 0x1_0000 + b[2] * 0x100 + b[3]
}

/// Splits a byte stream into the payloads of its complete frames, each a
/// four-byte big-endian length followed by that many bytes, and the bytes
/// that remain: a length prefix not yet whole, or a frame whose payload has
/// not fully arrived.
pub open spec fn split_frames(s: Seq<u8>) -> (Seq<Seq<u8>>, Seq<u8>)
    decreases s.len(),
{
    if s.len() < 4 || s.len() - 4 < be32(s) {
        (Seq::empty(), s)
    } else {
        let n = be32(s);
        let rest = split_frames(s.skip(4 + n));
        (seq![s.subrange(4, 4 + n)] + rest.0, rest.1)
    }
}

/// What a decoder that holds `pending` yields when fed `chunks` one after
/// another: the payloads of all the calls in order, and what it then holds.
pub open spec fn feed_all(pending: Seq<u8>, chunks: Seq<Seq<u8>>) -> (Seq<Seq<u8>>, Seq<u8>)
    decreases chunks.len(),
{
    if chunks.len() == 0 {
        (Seq::empty(), pending)
    } else {
        let first = split_frames(pending + chunks[0]);
        let rest = feed_all(first.1, chunks.drop_first());
        (first.0 + rest.0, rest.1)
    }
}

/// Splitting a stream at any point and framing the second part after what the
/// first part left over gives the frames of the whole stream.
pub proof fn lemma_split_frames_append(s: Seq<u8>, t: Seq<u8>)
    ensures
        ({
            let first = split_frames(s);
            let second = split_frames(first.1 + t);
            split_frames(s + t) == (first.0 + second.0, second.1)
        }),
    decreases s.len(),
{
    let first = split_frames(s);
    if s.len() < 4 || s.len() - 4 < be32(s) {
        assert(first.0 + split_frames(s + t).0 =~= split_frames(s + t).0);
    } else {
        let n = be32(s);
        let st = s + t;
        assert(be32(st) == n);
        let tail = s.skip(4 + n);
        lemma_split_frames_append(tail, t);
        assert(st.skip(4 + n) =~= tail + t);
        assert(st.subrange(4, 4 + n) =~= s.subrange(4, 4 + n));
        let second = split_frames(first.1 + t);
        assert(split_frames(st).0 =~= first.0 + second.0);
    }
}

/// What a decoder keeps never holds a complete frame.
pub proof fn lemma_leftover_settled(s: Seq<u8>)
    ensures
        split_frames(split_frames(s).1).0.len() == 0,
    decreases s.len(),
{
    if !(s.len() < 4 || s.len() - 4 < be32(s)) {
        lemma_leftover_settled(s.skip(4 + be32(s)));
    }
}

/// Feeding, one after another, the pieces of a stream to a decoder whose
/// pending bytes hold no complete frame frames their concatenation.
proof fn lemma_feed_all_flatten(pending: Seq<u8>, chunks: Seq<Seq<u8>>)
    requires
        split_frames(pending).0.len() == 0,
    ensures
        feed_all(pending, chunks) == split_frames(pending + chunks.flatten()),
    decreases chunks.len(),
{
    if chunks.len() == 0 {
        assert(pending + chunks.flatten() =~= pending);
    } else {
        let first = split_frames(pending + chunks[0]);
        lemma_leftover_settled(pending + chunks[0]);
        lemma_feed_all_flatten(first.1, chunks.drop_first());
        lemma_split_frames_append(pending + chunks[0], chunks.drop_first().flatten());
        assert(pending + chunks[0] + chunks.drop_first().flatten() =~= pending + chunks.flatten());
    }
}

/// Feeding a fresh decoder a stream in pieces of any sizes, down to single
/// bytes, yields the same payloads in the same order, and leaves the same
/// bytes pending, as feeding it the whole stream in one call.
pub proof fn lemma_feed_in_pieces(chunks: Seq<Seq<u8>>)
    ensures
        feed_all(Seq::empty(), chunks) == split_frames(chunks.flatten()),
{
    lemma_feed_all_flatten(Seq::empty(), chunks);
    assert(Seq::<u8>::empty() + chunks.flatten() =~= chunks.flatten());
}

/// Cuts an inbound byte stream, however it arrives, into length-prefixed
/// payloads. Bytes of an unfinished frame wait for the next call.
pub struct FrameDecoder {
    buf: Vec<u8>,
    pos: usize,
}

impl View for FrameDecoder {
    type V = Seq<u8>;

    /// The bytes received and not yet handed out.
    closed spec fn view(&self) -> Seq<u8> {
        self.buf@.skip(self.pos as int)
    }
}

/// Reads the big-endian length prefix that starts at `at`.
fn read_be32(buf: &Vec<u8>, at: usize) -> (r: u32)
    requires
        at + 4 <= buf@.len(),
    ensures
        r == be32(buf@.skip(at as int)),
{
    let len = buf.len();
    assert(at + 4 <= len);
    let b0 = buf[at] as u32;
    let b1 = buf[at + 1] as u32;
    let b2 = buf[at + 2] as u32;
    let b3 = buf[at + 3] as u32;
    b0 * 0x100_0000 + b1 * 0x1_0000 + b2 * 0x100 + b3
}

impl FrameDecoder {
    /// The read cursor stays within the buffer.
    pub closed spec fn wf(self) -> bool {
        self.pos <= self.buf@.len()
    }

    /// A decoder holding no bytes.
    pub fn new() -> (r: FrameDecoder)
        ensures
            r.wf(),
            r@ == Seq::<u8>::empty(),
    {
        let r = FrameDecoder { buf: Vec::new(), pos: 0 };
        assert(r@ =~= Seq::<u8>::empty());
        r
    }

    /// Appends `chunk` to the pending bytes and takes out every complete
    /// frame, returning the payloads in stream order. What is left is kept
    /// for the next call.
    pub fn feed(&mut self, chunk: &[u8]) -> (frames: Vec<Vec<u8>>)
        requires
            old(self).wf(),
        ensures
            final(self).wf(),
            frames@.len() == split_frames(old(self)@ + chunk@).0.len(),
            forall|i: int|
                0 <= i < frames@.len() ==> #[trigger] frames@[i]@ == split_frames(
                    old(self)@ + chunk@,
                ).0[i],
            final(self)@ == split_frames(old(self)@ + chunk@).1,
    {
        let ghost all = self@ + chunk@;
        let ghost fs = split_frames(all).0;
        let m = chunk.len();
        for i in 0..m
            invariant
                m == chunk@.len(),
                self.pos <= self.buf@.len(),
                self@ == old(self)@ + chunk@.take(i as int),
        {
            let ghost before = self.buf@;
            self.buf.push(chunk[i]);
            assert(chunk@.take(i + 1) =~= chunk@.take(i as int).push(chunk@[i as int]));
            assert(self.buf@.skip(self.pos as int) =~= before.skip(self.pos as int).push(chunk@[i as int]));
            assert(self@ =~= old(self)@ + chunk@.take(i + 1));
        }
        assert(chunk@.take(m as int) =~= chunk@);
        let mut frames: Vec<Vec<u8>> = Vec::new();
        loop
            invariant
                self.pos <= self.buf@.len(),
                frames@.len() <= fs.len(),
                split_frames(self@).0 == fs.skip(frames@.len() as int),
                split_frames(self@).1 == split_frames(all).1,
                forall|i: int| 0 <= i < frames@.len() ==> #[trigger] frames@[i]@ == fs[i],
            ensures
                self.pos <= self.buf@.len(),
                split_frames(self@).0.len() == 0,
                split_frames(self@).0 == fs.skip(frames@.len() as int),
                split_frames(self@).1 == split_frames(all).1,
                frames@.len() <= fs.len(),
                forall|i: int| 0 <= i < frames@.len() ==> #[trigger] frames@[i]@ == fs[i],
            decreases self.buf@.len() - self.pos,
        {
            let blen = self.buf.len();
            let avail = blen - self.pos;
            let ghost cur = self@;
            if avail < 4 {
                assert(split_frames(cur).0.len() == 0);
                break;
            }
            let n = read_be32(&self.buf, self.pos) as usize;
            if avail - 4 < n {
                assert(split_frames(cur).0.len() == 0);
                break;
            }
            assert(split_frames(cur).0 == seq![cur.subrange(4, 4 + n)] + split_frames(cur.skip(4 + n)).0);
            let ghost k = frames@.len() as int;
            let start = self.pos + 4;
            let mut payload: Vec<u8> = Vec::new();
            for j in 0..n
                invariant
                    start + n <= blen == self.buf@.len(),
                    payload@ == self.buf@.subrange(start as int, start + j),
            {
                payload.push(self.buf[start + j]);
                assert(payload@ =~= self.buf@.subrange(start as int, start + j + 1));
            }
            assert(payload@ =~= cur.subrange(4, 4 + n));
            assert(fs.skip(k)[0] == fs[k]);
            assert(fs.skip(k).drop_first() =~= fs.skip(k + 1));
            frames.push(payload);
            self.pos = start + n;
            assert(self@ =~= cur.skip(4 + n));
        }
        assert(fs.skip(frames@.len() as int).len() == 0);
        if self.pos > 0 && self.pos >= self.buf.len() - self.pos {
            let mut rest: Vec<u8> = Vec::new();
            let len = self.buf.len();
            for j in self.pos..len
                invariant
                    self.pos <= len == self.buf@.len(),
                    rest@ == self.buf@.subrange(self.pos as int, j as int),
            {
                rest.push(self.buf[j]);
                assert(rest@ =~= self.buf@.subrange(self.pos as int, j + 1));
            }
            let ghost kept = self@;
            self.buf = rest;
            self.pos = 0;
            assert(self@ =~= kept);
        }
        frames
    }
}

} // verus!
