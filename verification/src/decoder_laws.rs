//! What a chunk of a response shows.

use vstd::prelude::*;
use crate::codec;
use crate::decoder;
use crate::decoder::{gather, show, split_messages, DecoderError, StreamDecoder};
use crate::text;
use crate::text_laws;

verus! {

/// Where the message stands: behind the heads and bodies of those before.
pub open spec fn stands_at(messages: Seq<Vec<u8>>, k: int) -> int
    decreases k,
{
    if k <= 0 {
        0
    } else {
        stands_at(messages, k - 1) + 5 + messages[k - 1]@.len()
    }
}

/// The length of a message that the five bytes at the position announce, the highest first.
pub open spec fn announced(b: Seq<u8>, i: int) -> int {
    (((b[i] * 0x100 + b[i + 1]) * 0x100 + b[i + 2]) * 0x100 + b[i + 3]) * 0x100 + b[i + 4]
}

/// The messages of a chunk stand in it one behind the other, each behind its length; behind the last
/// one no complete message follows.
pub proof fn messages_stand_in_the_chunk(data: &[u8], r: Vec<Vec<u8>>, k: int)
    requires
        call_ensures(split_messages, (data,), r),
    ensures
        0 <= k < r@.len() ==> {
            let i = stands_at(r@, k);
            &&& 0 <= i
            &&& i + 5 + r@[k]@.len() <= data@.len()
            &&& announced(data@, i) == r@[k]@.len()
            &&& data@.subrange(i + 5, i + 5 + r@[k]@.len()) == r@[k]@
        },
        ({
            let e = stands_at(r@, r@.len() as int);
            0 <= e <= data@.len() && (data@.len() - e < 5 || e + 5 + announced(data@, e)
                > data@.len())
        }),
{
    let v = decoder::byte_views(r@);
    assert(v.len() == r@.len());
    lemma_from(data@, r@, r@.len() as int);
    let e = stands_at(r@, r@.len() as int);
    assert(v.skip(r@.len() as int).len() == 0);
    if 0 <= k < r@.len() {
        lemma_from(data@, r@, k);
        lemma_next(data@, r@, k);
    }
}

proof fn lemma_next(b: Seq<u8>, messages: Seq<Vec<u8>>, k: int)
    requires
        0 <= k < messages.len(),
        0 <= stands_at(messages, k) <= b.len(),
        decoder::messages_from(b, stands_at(messages, k)) == decoder::byte_views(messages).skip(k),
    ensures
        ({
            let i = stands_at(messages, k);
            let n = messages[k]@.len();
            &&& i + 5 + n <= b.len()
            &&& announced(b, i) == n
            &&& b.subrange(i + 5, i + 5 + n) == messages[k]@
            &&& decoder::messages_from(b, i + 5 + n) == decoder::byte_views(messages).skip(k + 1)
        }),
{
    let v = decoder::byte_views(messages);
    let i = stands_at(messages, k);
    assert(v.skip(k).len() > 0);
    assert(v.skip(k)[0] == v[k]);
    assert(v[k] == messages[k]@);
    let end = i + 5 + decoder::be40(b, i);
    let m = b.subrange(i + 5, end);
    let rest = decoder::messages_from(b, end);
    assert((seq![m] + rest)[0] == m);
    assert((seq![m] + rest).skip(1) =~= rest);
    assert(v.skip(k).skip(1) =~= v.skip(k + 1));
}

proof fn lemma_from(b: Seq<u8>, messages: Seq<Vec<u8>>, k: int)
    requires
        0 <= k <= messages.len(),
        decoder::messages_from(b, 0) == decoder::byte_views(messages),
    ensures
        0 <= stands_at(messages, k) <= b.len(),
        decoder::messages_from(b, stands_at(messages, k)) == decoder::byte_views(messages).skip(k),
    decreases k,
{
    let v = decoder::byte_views(messages);
    if k > 0 {
        lemma_from(b, messages, k - 1);
        lemma_next(b, messages, k - 1);
    } else {
        assert(v.skip(0) =~= v);
    }
}

/// The texts that are there.
pub open spec fn present(texts: Seq<Option<String>>) -> Seq<Seq<char>> {
    texts.filter(|t: Option<String>| t is Some).map_values(|t: Option<String>| t->0@)
}

/// Gathering texts puts those that are there one behind the other, in order and with nothing between
/// them; it gives nothing exactly where there is none.
pub proof fn texts_are_gathered_in_order(texts: &Vec<Option<String>>, r: Option<String>)
    requires
        call_ensures(gather, (texts,), r),
    ensures
        r is None <==> forall|i: int| 0 <= i < texts@.len() ==> (#[trigger] texts@[i]) is None,
        r matches Some(s) ==> s@ == text::joined(present(texts@), Seq::empty()),
{
    lemma_gathered(texts@);
}

proof fn lemma_gathered(texts: Seq<Option<String>>)
    ensures
        match decoder::gathered(decoder::opt_views(texts)) {
            None => present(texts).len() == 0 && forall|i: int|
                0 <= i < texts.len() ==> (#[trigger] texts[i]) is None,
            Some(s) => present(texts).len() > 0 && s == text::joined(present(texts), Seq::empty())
                && exists|i: int| 0 <= i < texts.len() && (#[trigger] texts[i]) is Some,
        },
    decreases texts.len(),
{
    reveal(Seq::filter);
    let f = |t: Option<String>| t is Some;
    let g = |t: Option<String>| t->0@;
    let v = decoder::opt_views(texts);
    if texts.len() > 0 {
        let d = texts.drop_last();
        lemma_gathered(d);
        assert(v.drop_last() =~= decoder::opt_views(d));
        assert(v.last() == text::opt(texts.last()));
        assert(texts[texts.len() - 1] == texts.last());
        assert forall|i: int| 0 <= i < d.len() implies #[trigger] d[i] == texts[i] by {
        }
        let p = present(d);
        if texts.last() is Some {
            let last = texts.last()->0@;
            assert(texts.filter(f) == d.filter(f).push(texts.last()));
            assert(present(texts) =~= p.push(last));
            assert(p.push(last).drop_last() =~= p);
            if p.len() == 0 {
                assert(present(texts)[0] == last);
            } else {
                assert(text::joined(p, Seq::empty()) + Seq::<char>::empty() + last
                    =~= text::joined(p, Seq::empty()) + last);
            }
        } else {
            assert(texts.filter(f) == d.filter(f));
            if decoder::gathered(decoder::opt_views(d)) is Some {
                let i = choose|i: int| 0 <= i < d.len() && (#[trigger] d[i]) is Some;
                assert(texts[i] is Some);
            } else {
                assert forall|i: int| 0 <= i < texts.len() implies (#[trigger] texts[i]) is None by {
                    if i < d.len() {
                        assert(d[i] is None);
                    }
                }
            }
        }
    } else {
        assert(present(texts) =~= Seq::empty());
    }
}

/// Decompressed data is shown as it is where it is text without the mark of a prompt; everything else
/// is shown as nothing.
pub proof fn text_is_shown_as_it_is(data: Option<Vec<u8>>, r: String)
    requires
        call_ensures(show, (data,), r),
    ensures
        data is None ==> r@.len() == 0,
        data matches Some(b) ==> {
            let s = vstd::utf8::decode_utf8(b@);
            &&& !vstd::utf8::valid_utf8(b@) ==> r@.len() == 0
            &&& vstd::utf8::valid_utf8(b@) && (exists|i: int| #[trigger]
                text::occurs_at(s, "<|BEGIN_SYSTEM|>"@, i)) ==> r@.len() == 0
            &&& vstd::utf8::valid_utf8(b@) && (forall|i: int|
                !(#[trigger] text::occurs_at(s, "<|BEGIN_SYSTEM|>"@, i))) ==> r@ == s
        },
{
    if let Some(b) = data {
        text_laws::first_occurrence_is_found(
            vstd::utf8::decode_utf8(b@),
            "<|BEGIN_SYSTEM|>"@,
            0,
        );
    }
}

/// The text of a chunk is that of its messages, one behind the other, where any of them has text.
pub proof fn chunk_shows_its_messages(
    d: &StreamDecoder,
    data: &[u8],
    r: Result<String, DecoderError>,
    messages: Vec<Vec<u8>>,
    texts: &Vec<Option<String>>,
    all: Option<String>,
)
    requires
        call_ensures(StreamDecoder::process_chunk, (d, data), r),
        call_ensures(split_messages, (data,), messages),
        texts@.len() == messages@.len(),
        forall|i: int|
            0 <= i < texts@.len() ==> text::opt(#[trigger] texts@[i]) == codec::proto_text(
                messages@[i]@,
            ),
        call_ensures(gather, (texts,), all),
    ensures
        r is Ok,
        all matches Some(s) ==> (r->Ok_0)@ == s@,
{
    lemma_texts(data@, messages@, texts@);
}

proof fn lemma_texts(data: Seq<u8>, messages: Seq<Vec<u8>>, texts: Seq<Option<String>>)
    requires
        decoder::byte_views(messages) == decoder::messages_from(data, 0),
        texts.len() == messages.len(),
        forall|i: int|
            0 <= i < texts.len() ==> text::opt(#[trigger] texts[i]) == codec::proto_text(
                messages[i]@,
            ),
    ensures
        decoder::opt_views(texts) == decoder::message_texts(decoder::messages_from(data, 0)),
{
    let ms = decoder::messages_from(data, 0);
    assert(decoder::byte_views(messages).len() == messages.len());
    assert forall|i: int| 0 <= i < texts.len() implies #[trigger] decoder::opt_views(texts)[i]
        == decoder::message_texts(ms)[i] by {
        assert(text::opt(texts[i]) == codec::proto_text(messages[i]@));
        assert(decoder::byte_views(messages)[i] == messages[i]@);
    }
    assert(decoder::opt_views(texts) =~= decoder::message_texts(ms));
}

/// Without such a message, a chunk that begins with the first byte of gzip or brotli data is
/// decompressed behind its head of five bytes, and any other shows nothing.
pub proof fn chunk_is_decompressed(
    d: &StreamDecoder,
    data: &[u8],
    r: Result<String, DecoderError>,
    messages: Vec<Vec<u8>>,
    body: Option<Vec<u8>>,
    shown: String,
)
    requires
        call_ensures(StreamDecoder::process_chunk, (d, data), r),
        call_ensures(split_messages, (data,), messages),
        forall|i: int|
            0 <= i < messages@.len() ==> codec::proto_text((#[trigger] messages@[i])@) is None,
        call_ensures(show, (body,), shown),
    ensures
        r is Ok,
        data@.len() > 5 && data@[0] == 0x1f && codec::opt_bytes(body) == codec::gunzipped(
            data@.skip(5),
        ) ==> (r->Ok_0)@ == shown@,
        data@.len() > 5 && data@[0] == 0x0b && codec::opt_bytes(body) == codec::unbrotlied(
            data@.skip(5),
        ) ==> (r->Ok_0)@ == shown@,
        data@.len() <= 5 || (data@[0] != 0x1f && data@[0] != 0x0b) ==> (r->Ok_0)@.len() == 0,
{
    let ms = decoder::messages_from(data@, 0);
    let none = Seq::new(messages@.len(), |i: int| None::<String>);
    assert forall|i: int| 0 <= i < none.len() implies text::opt(#[trigger] none[i])
        == codec::proto_text(messages@[i]@) by {
        assert(codec::proto_text(messages@[i]@) is None);
    }
    lemma_texts(data@, messages@, none);
    lemma_gathered(none);
    if decoder::gathered(decoder::opt_views(none)) is Some {
        let i = choose|i: int| 0 <= i < none.len() && (#[trigger] none[i]) is Some;
        assert(none[i] is None);
    }
}

/// Each error of a decoder says what it is, and why.
pub proof fn errors_say_why(e: &DecoderError, r: String)
    requires
        call_ensures(DecoderError::message, (e,), r),
    ensures
        *e is InvalidLength ==> r@ == "Invalid message length"@,
        *e matches DecoderError::HexDecode(s) ==> r@ == "Hex decode error: "@ + s@,
        *e matches DecoderError::ProtoDecode(s) ==> r@ == "Proto decode error: "@ + s@,
        *e matches DecoderError::Decompress(s) ==> r@ == "Decompression error: "@ + s@,
        *e matches DecoderError::Utf8(s) ==> r@ == "UTF-8 decode error: "@ + s@,
{
}

} // verus!
