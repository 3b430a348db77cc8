//! The decoder of single response chunks.
//!
//! A chunk holds length-prefixed messages, or compressed text.

use vstd::prelude::*;
use crate::codec;
use crate::text;

verus! {

/// The length of a message's head: its length in five bytes, most significant first.
pub const HEAD: usize = 5;

/// The first byte of a chunk of gzip data.
pub const GZIP: u8 = 0x1f;

/// The first byte of a chunk of brotli data.
pub const BROTLI: u8 = 0x0b;

/// The number that five bytes give, most significant first.
pub open spec fn be40(b: Seq<u8>, i: int) -> int {
    b[i] * 0x1_0000_0000 + b[i + 1] * 0x100_0000 + b[i + 2] * 0x1_0000 + b[i + 3] * 0x100 + b[i + 4]
}

/// The complete messages from `i` on.
pub open spec fn messages_from(b: Seq<u8>, i: int) -> Seq<Seq<u8>>
    decreases b.len() - i,
{
    if 0 <= i && i + HEAD <= b.len() && i + HEAD + be40(b, i) <= b.len() {
        let end = i + HEAD + be40(b, i);
        seq![b.subrange(i + HEAD, end)] + messages_from(b, end)
    } else {
        Seq::empty()
    }
}

/// The texts that are there, joined; nothing where there is none.
pub open spec fn gathered(texts: Seq<Option<Seq<char>>>) -> Option<Seq<char>>
    decreases texts.len(),
{
    if texts.len() == 0 {
        None
    } else {
        match (gathered(texts.drop_last()), texts.last()) {
            (Some(a), Some(b)) => Some(a + b),
            (None, Some(b)) => Some(b),
            (a, None) => a,
        }
    }
}

/// The text of decompressed data. A prompt that the service sends back is left out, as is data
/// that is not text.
pub open spec fn shown(data: Option<Seq<u8>>) -> Seq<char> {
    match data {
        Some(b) => if vstd::utf8::valid_utf8(b) && !text::has(
            vstd::utf8::decode_utf8(b),
            "<|BEGIN_SYSTEM|>"@,
        ) {
            vstd::utf8::decode_utf8(b)
        } else {
            Seq::empty()
        },
        None => Seq::empty(),
    }
}

/// What decoding can fail of.
#[derive(Debug, Clone, PartialEq)]
pub enum DecoderError {
    InvalidLength,
    HexDecode(String),
    ProtoDecode(String),
    Decompress(String),
    Utf8(String),
}

impl DecoderError {
    /// Returns the message of the error.
    pub fn message(&self) -> (r: String)
        ensures
            r@ == match *self {
                DecoderError::InvalidLength => "Invalid message length"@,
                DecoderError::HexDecode(e) => "Hex decode error: "@ + e@,
                DecoderError::ProtoDecode(e) => "Proto decode error: "@ + e@,
                DecoderError::Decompress(e) => "Decompression error: "@ + e@,
                DecoderError::Utf8(e) => "UTF-8 decode error: "@ + e@,
            },
    {
        match self {
            DecoderError::InvalidLength => "Invalid message length".to_owned(),
            DecoderError::HexDecode(e) => "Hex decode error: ".to_owned().concat(e.as_str()),
            DecoderError::ProtoDecode(e) => "Proto decode error: ".to_owned().concat(e.as_str()),
            DecoderError::Decompress(e) => "Decompression error: ".to_owned().concat(e.as_str()),
            DecoderError::Utf8(e) => "UTF-8 decode error: ".to_owned().concat(e.as_str()),
        }
    }
}

/// Returns the complete messages of a chunk.
pub fn split_messages(data: &[u8]) -> (r: Vec<Vec<u8>>)
    ensures
        byte_views(r@) == messages_from(data@, 0),
{
    let mut out: Vec<Vec<u8>> = Vec::new();
    let mut i: usize = 0;
    let ghost b = data@;
    assert(byte_views(out@) + messages_from(b, 0) =~= messages_from(b, 0));
    loop
        invariant
            b == data@,
            i <= b.len(),
            byte_views(out@) + messages_from(b, i as int) == messages_from(b, 0),
        ensures
            byte_views(out@) == messages_from(b, 0),
        decreases b.len() - i,
    {
        if data.len() - i < HEAD {
            assert(byte_views(out@) + messages_from(b, i as int) =~= byte_views(out@));
            break;
        }
        let n: u64 = data[i] as u64 * 0x1_0000_0000 + data[i + 1] as u64 * 0x100_0000 + data[i
            + 2] as u64 * 0x1_0000 + data[i + 3] as u64 * 0x100 + data[i + 4] as u64;
        if ((data.len() - i - HEAD) as u64) < n {
            assert(byte_views(out@) + messages_from(b, i as int) =~= byte_views(out@));
            break;
        }
        let n: usize = n as usize;
        let mut message: Vec<u8> = Vec::new();
        let mut j: usize = i + HEAD;
        assert(b.subrange(i + HEAD, i + HEAD) =~= Seq::empty());
        while j < i + HEAD + n
            invariant
                b == data@,
                i + HEAD <= j <= i + HEAD + n <= b.len(),
                b.len() <= usize::MAX,
                message@ == b.subrange(i + HEAD, j as int),
            decreases i + HEAD + n - j,
        {
            message.push(data[j]);
            assert(b.subrange(i + HEAD, j as int + 1) =~= b.subrange(i + HEAD, j as int).push(
                b[j as int],
            ));
            j += 1;
        }
        let ghost before = byte_views(out@);
        out.push(message);
        proof {
            let m = b.subrange(i + HEAD, i + HEAD + n);
            assert(byte_views(out@) =~= before.push(m));
            assert(byte_views(out@) + messages_from(b, i + HEAD + n) =~= before + (seq![m]
                + messages_from(b, i + HEAD + n)));
        }
        i = i + HEAD + n;
    }
    out
}

/// The bytes of vectors.
pub open spec fn byte_views(v: Seq<Vec<u8>>) -> Seq<Seq<u8>> {
    Seq::new(v.len(), |i: int| v[i]@)
}

/// The views of optional texts.
pub open spec fn opt_views(v: Seq<Option<String>>) -> Seq<Option<Seq<char>>> {
    Seq::new(v.len(), |i: int| text::opt(v[i]))
}

/// Joins the texts that are there.
pub fn gather(texts: &Vec<Option<String>>) -> (r: Option<String>)
    ensures
        text::opt(r) == gathered(opt_views(texts@)),
{
    let mut out: Option<String> = None;
    let mut i: usize = 0;
    let ghost v = opt_views(texts@);
    assert(v.take(0) =~= Seq::empty());
    while i < texts.len()
        invariant
            i <= texts@.len(),
            v == opt_views(texts@),
            text::opt(out) == gathered(v.take(i as int)),
        decreases texts@.len() - i,
    {
        proof {
            assert(v.take(i as int + 1).drop_last() =~= v.take(i as int));
            assert(v.take(i as int + 1).last() == text::opt(texts@[i as int]));
        }
        if let Some(t) = &texts[i] {
            out = match out {
                Some(s) => Some(s.concat(t.as_str())),
                None => Some(t.clone()),
            };
        }
        i += 1;
    }
    assert(v.take(v.len() as int) =~= v);
    out
}

/// Returns the text of decompressed data.
pub fn show(data: Option<Vec<u8>>) -> (r: String)
    ensures
        r@ == shown(codec::opt_bytes(data)),
{
    match data {
        Some(bytes) => match codec::utf8_text(bytes) {
            Some(s) => {
                if text::contains(s.as_str(), "<|BEGIN_SYSTEM|>") {
                    String::new()
                } else {
                    s
                }
            },
            None => String::new(),
        },
        None => String::new(),
    }
}

/// The decoder of response chunks.
pub struct StreamDecoder;

impl StreamDecoder {
    /// Creates a decoder.
    pub fn new() -> (d: StreamDecoder)
        ensures
            d == StreamDecoder,
    {
        StreamDecoder
    }

    /// Returns the text of a chunk.
    ///
    /// The texts of its messages count first; without any, the chunk is read as compressed data
    /// behind a head of five bytes.
    ///
    /// # Errors
    ///
    /// There are none: what cannot be decoded gives no text.
    pub fn process_chunk(&self, data: &[u8]) -> (r: Result<String, DecoderError>)
        ensures
            r is Ok,
            (r->Ok_0)@ == chunk_text(data@),
    {
        let messages = split_messages(data);
        let ghost ms = messages_from(data@, 0);
        let mut texts: Vec<Option<String>> = Vec::new();
        let mut i: usize = 0;
        while i < messages.len()
            invariant
                i == texts@.len() <= messages@.len(),
                byte_views(messages@) == ms,
                forall|k: int|
                    0 <= k < i ==> text::opt(#[trigger] texts@[k]) == codec::proto_text(ms[k]),
            decreases messages@.len() - i,
        {
            let message = &messages[i];
            assert(ms[i as int] == message@) by {
                assert(byte_views(messages@)[i as int] == messages@[i as int]@);
            }
            texts.push(codec::decode_proto_text(message.as_slice()));
            i += 1;
        }
        assert(opt_views(texts@) =~= message_texts(ms));
        if let Some(s) = gather(&texts) {
            return Ok(s);
        }
        if data.len() > HEAD && data[0] == GZIP {
            let body = vstd::slice::slice_subrange(data, HEAD, data.len());
            assert(body@ =~= data@.skip(HEAD as int));
            return Ok(show(codec::gunzip(body)));
        }
        if data.len() > HEAD && data[0] == BROTLI {
            let body = vstd::slice::slice_subrange(data, HEAD, data.len());
            assert(body@ =~= data@.skip(HEAD as int));
            return Ok(show(codec::unbrotli(body)));
        }
        Ok(String::new())
    }
}

impl Default for StreamDecoder {
    fn default() -> (d: StreamDecoder)
        ensures
            d == StreamDecoder,
    {
        StreamDecoder::new()
    }
}

/// The texts of messages.
pub open spec fn message_texts(ms: Seq<Seq<u8>>) -> Seq<Option<Seq<char>>> {
    Seq::new(ms.len(), |i: int| codec::proto_text(ms[i]))
}

/// The text of a chunk.
pub open spec fn chunk_text(data: Seq<u8>) -> Seq<char> {
    match gathered(message_texts(messages_from(data, 0))) {
        Some(s) => s,
        None => if data.len() > HEAD && data[0] == GZIP {
            shown(codec::gunzipped(data.skip(HEAD as int)))
        } else if data.len() > HEAD && data[0] == BROTLI {
            shown(codec::unbrotlied(data.skip(HEAD as int)))
        } else {
            Seq::empty()
        },
    }
}

/// A prompt that the service sends back is never shown.
pub proof fn prompt_is_never_shown(data: Option<Seq<u8>>)
    ensures
        !text::has(shown(data), "<|BEGIN_SYSTEM|>"@),
{
    reveal_strlit("<|BEGIN_SYSTEM|>");
}

} // verus!
