//! Streams that arrive in chunks of whole frames.

use vstd::prelude::*;
use crate::stream::decoder;
use crate::stream::decoder::{
    CursorError, Decoded, DecodedView, DecoderView, Response,
};
use crate::stream::frame;
use crate::stream::laws;
use crate::stream::message::MessageView;

verus! {

/// The sequences one behind the other.
pub open spec fn joined<A>(s: Seq<Seq<A>>) -> Seq<A>
    decreases s.len(),
{
    if s.len() == 0 {
        Seq::empty()
    } else {
        joined(s.drop_last()) + s.last()
    }
}

/// The bytes are one or more whole frames.
pub open spec fn whole(b: Seq<u8>) -> bool {
    b.len() > 0 && frame::frames_end(b, 0) == b.len()
}

/// The frames of each chunk.
pub open spec fn chunk_frames(chunks: Seq<Seq<u8>>) -> Seq<Seq<(u8, Seq<u8>)>> {
    Seq::new(chunks.len(), |i: int| frame::frames_from(chunks[i], 0))
}

/// The views of the payloads of each chunk.
pub open spec fn chunk_views(items: Seq<Seq<Decoded>>) -> Seq<Seq<DecodedView>> {
    Seq::new(items.len(), |i: int| decoder::decoded_views(items[i]))
}

/// The decoder after the chunks came in one by one, and all messages that were handed out; none
/// where a chunk gave an error.
pub open spec fn decoded_all(
    d: DecoderView,
    chunks: Seq<Seq<u8>>,
    items: Seq<Seq<DecodedView>>,
    convert_web_ref: bool,
) -> (DecoderView, Option<Seq<MessageView>>)
    decreases chunks.len(),
{
    if chunks.len() == 0 {
        (d, Some(Seq::empty()))
    } else {
        let (d1, m1) = decoded_all(d, chunks.drop_last(), items.drop_last(), convert_web_ref);
        let (d2, r) = decoder::decoded(d1, chunks.last(), items.last(), convert_web_ref);
        match (m1, r) {
            (Some(m1), Ok(m2)) => (d2, Some(m1 + m2)),
            _ => (d2, None),
        }
    }
}

/// The payloads differ at most in the time at which they were read.
spec fn alike(a: DecodedView, b: DecodedView) -> bool {
    match (a, b) {
        (DecodedView::Text(r, _), DecodedView::Text(s, _)) => r == s,
        _ => a == b,
    }
}

spec fn all_alike(a: Seq<DecodedView>, b: Seq<DecodedView>) -> bool {
    a.len() == b.len() && forall|i: int| 0 <= i < a.len() ==> alike(#[trigger] a[i], b[i])
}

/// The messages depend on nothing but the context and what was parsed.
proof fn lemma_run_alike(
    d: DecoderView,
    e: DecoderView,
    a: Seq<DecodedView>,
    b: Seq<DecodedView>,
    convert_web_ref: bool,
)
    requires
        d.context == e.context,
        all_alike(a, b),
    ensures
        ({
            let (d1, m1, e1) = decoder::run(d, a, convert_web_ref);
            let (d2, m2, e2) = decoder::run(e, b, convert_web_ref);
            d1.context == d2.context && m1 == m2 && e1 == e2
        }),
    decreases a.len(),
{
    if a.len() > 0 {
        lemma_run_alike(d, e, a.drop_last(), b.drop_last(), convert_web_ref);
        assert(alike(a[a.len() - 1], b[b.len() - 1]));
    }
}

/// A run does not change whether messages are held back.
proof fn lemma_run_taken(d: DecoderView, items: Seq<DecodedView>, convert_web_ref: bool)
    ensures
        decoder::run(d, items, convert_web_ref).0.first_result_taken == d.first_result_taken,
    decreases items.len(),
{
    if items.len() > 0 {
        lemma_run_taken(d, items.drop_last(), convert_web_ref);
    }
}

proof fn lemma_decoded_all(
    d: DecoderView,
    e: DecoderView,
    chunks: Seq<Seq<u8>>,
    items: Seq<Seq<DecodedView>>,
    all: Seq<DecodedView>,
    convert_web_ref: bool,
)
    requires
        d.context == e.context,
        d.buffer.len() == 0,
        d.first_result_taken,
        forall|i: int| 0 <= i < chunks.len() ==> whole(#[trigger] chunks[i]),
        items.len() == chunks.len(),
        all_alike(all, joined(items)),
        decoder::run(e, all, convert_web_ref).2 is None,
    ensures
        ({
            let (d1, m) = decoded_all(d, chunks, items, convert_web_ref);
            let (e1, n, _) = decoder::run(e, all, convert_web_ref);
            &&& m == Some(n)
            &&& d1.context == e1.context
            &&& d1.buffer.len() == 0
            &&& d1.first_result_taken
        }),
    decreases chunks.len(),
{
    if chunks.len() > 0 {
        let k = joined(items.drop_last()).len() as int;
        let a = all.take(k);
        let b = all.skip(k);
        let c = chunks.last();
        assert(whole(chunks[chunks.len() - 1]));
        assert(all =~= a + b);
        assert(all_alike(a, joined(items.drop_last()))) by {
            assert forall|i: int| 0 <= i < a.len() implies alike(
                #[trigger] a[i],
                joined(items.drop_last())[i],
            ) by {
                assert(alike(all[i], joined(items)[i]));
            }
        }
        assert(all_alike(b, items.last())) by {
            assert forall|i: int| 0 <= i < b.len() implies alike(
                #[trigger] b[i],
                items.last()[i],
            ) by {
                assert(alike(all[k + i], joined(items)[k + i]));
            }
        }
        if decoder::run(e, a, convert_web_ref).2 is Some {
            decoder::lemma_run_stops(e, all, convert_web_ref, k);
        }
        assert forall|i: int| 0 <= i < chunks.drop_last().len() implies whole(
            #[trigger] chunks.drop_last()[i],
        ) by {
            assert(whole(chunks[i]));
        }
        lemma_decoded_all(d, e, chunks.drop_last(), items.drop_last(), a, convert_web_ref);
        laws::run_in_parts(e, a, b, convert_web_ref);
        let (d1, _) = decoded_all(d, chunks.drop_last(), items.drop_last(), convert_web_ref);
        let e1 = decoder::run(e, a, convert_web_ref).0;
        let f = decoder::fed(d1, c);
        lemma_run_alike(e1, f, b, items.last(), convert_web_ref);
        lemma_run_taken(f, items.last(), convert_web_ref);
        laws::upstream_error_keeps_buffer(f, items.last(), convert_web_ref);
        assert(d1.buffer + c =~= c);
        lemma_end_head(c);
        assert(c.skip(c.len() as int).len() == 0);
    } else {
        assert(all =~= Seq::empty());
    }
}

/// Whole frames are no shorter than the head of one.
proof fn lemma_end_head(b: Seq<u8>)
    requires
        whole(b),
    ensures
        b.len() >= frame::HEAD,
{
    assert(frame::frame_len(b, 0) is Some);
}

/// Bytes that stand behind others are read as they are by themselves.
proof fn lemma_frames_shift(a: Seq<u8>, b: Seq<u8>, i: int)
    requires
        0 <= i <= b.len(),
    ensures
        frame::frames_from(a + b, a.len() + i) == frame::frames_from(b, i),
        frame::frames_end(a + b, a.len() + i) == a.len() + frame::frames_end(b, i),
    decreases b.len() - i,
{
    let c = a + b;
    let j = a.len() + i;
    if i + frame::HEAD <= b.len() {
        assert(frame::be32(c, j + 1) == frame::be32(b, i + 1));
    }
    assert(frame::frame_len(c, j) == frame::frame_len(b, i));
    if let Some(n) = frame::frame_len(b, i) {
        lemma_frames_shift(a, b, i + n);
        assert(c.subrange(j + frame::HEAD, j + n) =~= b.subrange(i + frame::HEAD, i + n));
    }
}

/// Where the frames of bytes end does not change by what follows them.
proof fn lemma_end_prefix(b: Seq<u8>, more: Seq<u8>, i: int)
    requires
        0 <= i <= b.len(),
    ensures
        frame::frames_end(b + more, i) == frame::frames_end(b + more, frame::frames_end(b, i)),
        0 <= frame::frames_end(b, i) <= b.len(),
    decreases b.len() - i,
{
    if let Some(n) = frame::frame_len(b, i) {
        assert(frame::be32(b, i + 1) == frame::be32(b + more, i + 1));
        assert(frame::frame_len(b + more, i) == Some(n));
        lemma_end_prefix(b, more, i + n);
    }
}

/// The frames of chunks of whole frames are those of each chunk, one behind the other.
pub proof fn chunks_have_the_frames(chunks: Seq<Seq<u8>>)
    requires
        forall|i: int| 0 <= i < chunks.len() ==> whole(#[trigger] chunks[i]),
    ensures
        frame::frames_from(joined(chunks), 0) == joined(chunk_frames(chunks)),
        frame::frames_end(joined(chunks), 0) == joined(chunks).len(),
    decreases chunks.len(),
{
    if chunks.len() > 0 {
        let before = chunks.drop_last();
        let a = joined(before);
        let b = chunks.last();
        assert forall|i: int| 0 <= i < before.len() implies whole(#[trigger] before[i]) by {
            assert(whole(chunks[i]));
        }
        assert(whole(chunks[chunks.len() - 1]));
        chunks_have_the_frames(before);
        frame::frames_prefix(a, b, 0);
        lemma_end_prefix(a, b, 0);
        lemma_frames_shift(a, b, 0);
        assert(chunk_frames(chunks).drop_last() =~= chunk_frames(before));
        assert(chunk_frames(chunks).last() == frame::frames_from(b, 0));
    } else {
        assert(chunk_frames(chunks).len() == 0);
        assert(frame::frame_len(joined(chunks), 0) is None);
    }
}

/// A parser gives the same for the same bytes.
pub open spec fn deterministic<
    F: Fn(&Vec<u8>) -> Option<Response>,
    G: Fn(&Vec<u8>) -> Option<CursorError>,
>(parse: F, parse_error: G) -> bool {
    &&& forall|v: Vec<u8>, w: Vec<u8>, r: Option<Response>, s: Option<Response>|
        v@ == w@ && #[trigger] call_ensures(parse, (&v,), r) && #[trigger] call_ensures(
            parse,
            (&w,),
            s,
        ) ==> Decoded::Text(r, 0)@ == Decoded::Text(s, 0)@
    &&& forall|v: Vec<u8>, w: Vec<u8>, r: Option<CursorError>, s: Option<CursorError>|
        v@ == w@ && #[trigger] call_ensures(parse_error, (&v,), r) && #[trigger] call_ensures(
            parse_error,
            (&w,),
            s,
        ) ==> r == s
}

proof fn lemma_parsed_alike<
    F: Fn(&Vec<u8>) -> Option<Response>,
    G: Fn(&Vec<u8>) -> Option<CursorError>,
    C: Fn() -> u64,
>(
    p: Seq<decoder::PendingView>,
    a: Seq<Decoded>,
    b: Seq<Decoded>,
    parse: F,
    parse_error: G,
    clock: C,
)
    requires
        deterministic(parse, parse_error),
        decoder::parsed(p, a, parse, parse_error, clock),
        decoder::parsed(p, b, parse, parse_error, clock),
    ensures
        all_alike(decoder::decoded_views(a), decoder::decoded_views(b)),
{
    let x = decoder::decoded_views(a);
    let y = decoder::decoded_views(b);
    assert forall|i: int| 0 <= i < x.len() implies alike(#[trigger] x[i], y[i]) by {
        assert(decoder::parsed_one(p[i], a[i], parse, parse_error, clock));
        assert(decoder::parsed_one(p[i], b[i], parse, parse_error, clock));
        if let (Decoded::Text(r, _), Decoded::Text(s, _)) = (a[i], b[i]) {
            assert(Decoded::Text(r, 0)@ == Decoded::Text(s, 0)@);
        }
    }
}

/// What was parsed chunk by chunk was parsed of the whole.
proof fn lemma_parsed_joined<
    F: Fn(&Vec<u8>) -> Option<Response>,
    G: Fn(&Vec<u8>) -> Option<CursorError>,
    C: Fn() -> u64,
>(
    frames: Seq<Seq<(u8, Seq<u8>)>>,
    items: Seq<Seq<Decoded>>,
    parse: F,
    parse_error: G,
    clock: C,
)
    requires
        items.len() == frames.len(),
        forall|i: int|
            0 <= i < items.len() ==> decoder::parsed(
                decoder::all_pending(frames[i]),
                #[trigger] items[i],
                parse,
                parse_error,
                clock,
            ),
    ensures
        decoder::parsed(
            decoder::all_pending(joined(frames)),
            joined(items),
            parse,
            parse_error,
            clock,
        ),
        decoder::decoded_views(joined(items)) == joined(chunk_views(items)),
    decreases items.len(),
{
    if items.len() > 0 {
        let n = items.len() - 1;
        let fs = frames.drop_last();
        let is = items.drop_last();
        assert forall|i: int| 0 <= i < is.len() implies decoder::parsed(
            decoder::all_pending(fs[i]),
            #[trigger] is[i],
            parse,
            parse_error,
            clock,
        ) by {
            assert(decoder::parsed(
                decoder::all_pending(frames[i]),
                items[i],
                parse,
                parse_error,
                clock,
            ));
        }
        lemma_parsed_joined(fs, is, parse, parse_error, clock);
        assert(decoder::parsed(
            decoder::all_pending(frames[n]),
            items[n],
            parse,
            parse_error,
            clock,
        ));
        let p = decoder::all_pending(joined(frames));
        assert(p =~= decoder::all_pending(joined(fs)) + decoder::all_pending(frames[n]));
        let k = joined(is).len() as int;
        let all = joined(items);
        assert forall|i: int| 0 <= i < all.len() implies decoder::parsed_one(
            p[i],
            #[trigger] all[i],
            parse,
            parse_error,
            clock,
        ) by {
            if i < k {
                assert(all[i] == joined(is)[i]);
            } else {
                assert(all[i] == items[n][i - k]);
            }
        }
        assert(chunk_views(items).drop_last() =~= chunk_views(is));
        assert(decoder::decoded_views(all) =~= decoder::decoded_views(joined(is))
            + decoder::decoded_views(items[n]));
    } else {
        assert(decoder::decoded_views(joined(items)) =~= joined(chunk_views(items)));
    }
}

/// It does not matter how a stream of whole frames is cut into chunks: a decoder that holds no
/// messages back and receives them one by one hands out, all in all, the messages that it hands
/// out of the whole, at whatever times it reads them.
///
/// `whole_items` and `items` are what the parsers made of the frames, as in
/// [`decoder::StreamDecoder::decode`].
pub proof fn chunks_decode_as_one<
    F: Fn(&Vec<u8>) -> Option<Response>,
    G: Fn(&Vec<u8>) -> Option<CursorError>,
    C: Fn() -> u64,
>(
    d: DecoderView,
    e: DecoderView,
    chunks: Seq<Seq<u8>>,
    whole_items: Seq<Decoded>,
    items: Seq<Seq<Decoded>>,
    parse: F,
    parse_error: G,
    clock: C,
    convert_web_ref: bool,
)
    requires
        deterministic(parse, parse_error),
        d.buffer.len() == 0,
        d.first_result_taken,
        e.buffer.len() == 0,
        e.first_result_taken,
        e.context == d.context,
        forall|i: int| 0 <= i < chunks.len() ==> whole(#[trigger] chunks[i]),
        decoder::parsed(
            decoder::all_pending(frame::frames_from(d.buffer + joined(chunks), 0)),
            whole_items,
            parse,
            parse_error,
            clock,
        ),
        items.len() == chunks.len(),
        forall|i: int|
            0 <= i < items.len() ==> decoder::parsed(
                decoder::all_pending(frame::frames_from(chunks[i], 0)),
                #[trigger] items[i],
                parse,
                parse_error,
                clock,
            ),
        decoder::decoded(
            d,
            joined(chunks),
            decoder::decoded_views(whole_items),
            convert_web_ref,
        ).1 is Ok,
    ensures
        decoded_all(e, chunks, chunk_views(items), convert_web_ref).1 == Some(
            decoder::decoded(
                d,
                joined(chunks),
                decoder::decoded_views(whole_items),
                convert_web_ref,
            ).1->Ok_0,
        ),
        decoded_all(e, chunks, chunk_views(items), convert_web_ref).0.buffer.len() == 0,
{
    let b = joined(chunks);
    assert(d.buffer + b =~= b);
    chunks_have_the_frames(chunks);
    let frames = chunk_frames(chunks);
    assert forall|i: int| 0 <= i < items.len() implies decoder::parsed(
        decoder::all_pending(frames[i]),
        #[trigger] items[i],
        parse,
        parse_error,
        clock,
    ) by {
    }
    lemma_parsed_joined(frames, items, parse, parse_error, clock);
    lemma_parsed_alike(
        decoder::all_pending(joined(frames)),
        whole_items,
        joined(items),
        parse,
        parse_error,
        clock,
    );
    let all = decoder::decoded_views(whole_items);
    let f = decoder::fed(d, b);
    lemma_decoded_all(e, f, chunks, chunk_views(items), all, convert_web_ref);
    lemma_run_taken(f, all, convert_web_ref);
}

} // verus!
