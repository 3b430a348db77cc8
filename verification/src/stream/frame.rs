//! Frames of the stream: a byte of flags, the length of the payload in four bytes, most
//! significant first, and the payload.

use vstd::prelude::*;

verus! {

/// The length of the head of a frame.
pub const HEAD: usize = 5;

/// The number that four bytes give, most significant first.
pub open spec fn be32(b: Seq<u8>, i: int) -> int {
    b[i] * 0x100_0000 + b[i + 1] * 0x1_0000 + b[i + 2] * 0x100 + b[i + 3]
}

/// The length of the frame that begins at `i`; nothing where it is not complete.
pub open spec fn frame_len(b: Seq<u8>, i: int) -> Option<int> {
    if 0 <= i && i + HEAD <= b.len() && i + HEAD + be32(b, i + 1) <= b.len() {
        Some(HEAD + be32(b, i + 1))
    } else {
        None
    }
}

/// The complete frames from `i` on: their flags and payloads.
pub open spec fn frames_from(b: Seq<u8>, i: int) -> Seq<(u8, Seq<u8>)>
    decreases b.len() - i,
{
    match frame_len(b, i) {
        Some(n) => seq![(b[i], b.subrange(i + HEAD, i + n))] + frames_from(b, i + n),
        None => Seq::empty(),
    }
}

/// Where the complete frames from `i` on end.
pub open spec fn frames_end(b: Seq<u8>, i: int) -> int
    decreases b.len() - i,
{
    match frame_len(b, i) {
        Some(n) => frames_end(b, i + n),
        None => i,
    }
}

/// A frame that was taken from the stream.
pub struct RawMessage {
    pub kind: u8,
    pub data: Vec<u8>,
}

/// The flags and payloads of frames.
pub open spec fn raw_views(v: Seq<RawMessage>) -> Seq<(u8, Seq<u8>)> {
    Seq::new(v.len(), |i: int| (v[i].kind, v[i].data@))
}

/// Bytes of the stream that wait to be read.
pub struct Buffer {
    bytes: Vec<u8>,
}

impl View for Buffer {
    type V = Seq<u8>;

    closed spec fn view(&self) -> Seq<u8> {
        self.bytes@
    }
}

impl Buffer {
    /// Creates an empty buffer.
    pub fn new() -> (b: Buffer)
        ensures
            b@ == Seq::<u8>::empty(),
    {
        Buffer { bytes: Vec::new() }
    }

    /// Returns the number of bytes.
    pub fn len(&self) -> (r: usize)
        ensures
            r == self@.len(),
    {
        self.bytes.len()
    }

    /// Returns `true` if there are no bytes.
    pub fn is_empty(&self) -> (r: bool)
        ensures
            r == (self@.len() == 0),
    {
        self.bytes.len() == 0
    }

    /// Appends bytes.
    pub fn extend_from_slice(&mut self, data: &[u8])
        ensures
            final(self)@ == old(self)@ + data@,
    {
        self.bytes.extend_from_slice(data);
        assert(self@ =~= old(self)@ + data@);
    }

    /// Returns the complete frames and where they end.
    pub fn frames(&self) -> (r: (Vec<RawMessage>, usize))
        ensures
            raw_views(r.0@) == frames_from(self@, 0),
            r.1 == frames_end(self@, 0),
            r.1 <= self@.len(),
    {
        let mut out: Vec<RawMessage> = Vec::new();
        let mut i: usize = 0;
        let ghost b = self@;
        assert(raw_views(out@) + frames_from(b, 0) =~= frames_from(b, 0));
        loop
            invariant
                b == self.bytes@,
                i <= b.len(),
                raw_views(out@) + frames_from(b, i as int) == frames_from(b, 0),
                frames_end(b, i as int) == frames_end(b, 0),
            ensures
                raw_views(out@) == frames_from(b, 0),
                i == frames_end(b, 0),
            decreases b.len() - i,
        {
            if self.bytes.len() - i < HEAD {
                assert(raw_views(out@) + frames_from(b, i as int) =~= raw_views(out@));
                break;
            }
            let n: u64 = self.bytes[i + 1] as u64 * 0x100_0000 + self.bytes[i + 2] as u64 * 0x1_0000
                + self.bytes[i + 3] as u64 * 0x100 + self.bytes[i + 4] as u64;
            assert(n == be32(b, i + 1));
            if ((self.bytes.len() - i - HEAD) as u64) < n {
                assert(raw_views(out@) + frames_from(b, i as int) =~= raw_views(out@));
                break;
            }
            let n: usize = n as usize;
            let mut data: Vec<u8> = Vec::new();
            let mut j: usize = i + HEAD;
            assert(b.subrange(i + HEAD, i + HEAD) =~= Seq::empty());
            while j < i + HEAD + n
                invariant
                    b == self.bytes@,
                    i + HEAD <= j <= i + HEAD + n <= b.len(),
                    b.len() <= usize::MAX,
                    data@ == b.subrange(i + HEAD, j as int),
                decreases i + HEAD + n - j,
            {
                data.push(self.bytes[j]);
                assert(b.subrange(i + HEAD, j as int + 1) =~= b.subrange(i + HEAD, j as int).push(
                    b[j as int],
                ));
                j += 1;
            }
            let ghost before = raw_views(out@);
            let kind: u8 = self.bytes[i];
            out.push(RawMessage { kind, data });
            proof {
                let f = (b[i as int], b.subrange(i + HEAD, i + HEAD + n));
                assert(raw_views(out@) =~= before.push(f));
                assert(raw_views(out@) + frames_from(b, i + HEAD + n) =~= before + (seq![f]
                    + frames_from(b, i + HEAD + n)));
            }
            i = i + HEAD + n;
        }
        (out, i)
    }

    /// Drops the first bytes.
    pub fn advance(&mut self, n: usize)
        requires
            n <= old(self)@.len(),
        ensures
            final(self)@ == old(self)@.skip(n as int),
    {
        let mut rest: Vec<u8> = Vec::new();
        let mut i: usize = n;
        let ghost b = self@;
        assert(b.subrange(n as int, n as int) =~= Seq::empty());
        while i < self.bytes.len()
            invariant
                b == self.bytes@,
                n <= i <= b.len(),
                rest@ == b.subrange(n as int, i as int),
            decreases b.len() - i,
        {
            rest.push(self.bytes[i]);
            assert(b.subrange(n as int, i as int + 1) =~= b.subrange(n as int, i as int).push(
                b[i as int],
            ));
            i += 1;
        }
        assert(rest@ =~= b.skip(n as int));
        self.bytes = rest;
    }
}

/// A frame as it stands in the stream.
pub open spec fn framed(kind: u8, data: Seq<u8>) -> Seq<u8> {
    seq![
        kind,
        (data.len() / 0x100_0000) as u8,
        (data.len() / 0x1_0000 % 0x100) as u8,
        (data.len() / 0x100 % 0x100) as u8,
        (data.len() % 0x100) as u8,
    ] + data
}

/// What is read of a framed payload is the payload, whatever follows it.
pub proof fn frame_roundtrip(kind: u8, data: Seq<u8>, rest: Seq<u8>)
    requires
        data.len() < 0x1_0000_0000,
    ensures
        frames_from(framed(kind, data) + rest, 0) == seq![(kind, data)] + frames_from(
            framed(kind, data) + rest,
            framed(kind, data).len() as int,
        ),
{
    let f = framed(kind, data);
    let b = f + rest;
    let n = data.len();
    assert(be32(b, 1) == n) by {
        assert(n / 0x100_0000 < 0x100);
        assert(n == n / 0x100_0000 * 0x100_0000 + n / 0x1_0000 % 0x100 * 0x1_0000 + n / 0x100
            % 0x100 * 0x100 + n % 0x100);
    }
    assert(b.subrange(HEAD as int, HEAD + n) =~= data);
}

/// Bytes that complete no frame leave what is read unchanged: the frames of a longer stream begin
/// with those of a shorter one.
pub proof fn frames_prefix(b: Seq<u8>, more: Seq<u8>, i: int)
    requires
        0 <= i <= b.len(),
    ensures
        frames_from(b + more, i) == frames_from(b, i) + frames_from(b + more, frames_end(b, i)),
        i <= frames_end(b, i) <= b.len(),
    decreases b.len() - i,
{
    let c = b + more;
    match frame_len(b, i) {
        Some(n) => {
            assert(be32(b, i + 1) == be32(c, i + 1));
            assert(frame_len(c, i) == Some(n));
            frames_prefix(b, more, i + n);
            assert(c.subrange(i + HEAD, i + n) =~= b.subrange(i + HEAD, i + n));
            let f = (b[i], b.subrange(i + HEAD, i + n));
            assert(seq![f] + (frames_from(b, i + n) + frames_from(c, frames_end(b, i + n)))
                =~= seq![f] + frames_from(b, i + n) + frames_from(c, frames_end(b, i + n)));
        },
        None => {
            assert(Seq::<(u8, Seq<u8>)>::empty() + frames_from(c, i) =~= frames_from(c, i));
        },
    }
}

} // verus!
