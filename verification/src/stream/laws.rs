//! What holds of every response stream.

use vstd::prelude::*;
use crate::adapter::tool_id;
use crate::stream::decoder;
use crate::stream::decoder::{
    ContextView, DecodedView, DecoderView, ResponseView, ToolCallResponseView,
};
use crate::stream::message::MessageView;
use crate::stream::frame;

verus! {

/// A model call that was saved stays saved: no later response replaces it.
pub proof fn saved_model_call_stays(d: DecoderView, items: Seq<DecodedView>, convert_web_ref: bool)
    requires
        d.context.saved_model_call_id is Some,
    ensures
        decoder::run(d, items, convert_web_ref).0.context.saved_model_call_id
            == d.context.saved_model_call_id,
    decreases items.len(),
{
    if items.len() > 0 {
        saved_model_call_stays(d, items.drop_last(), convert_web_ref);
    }
}

/// All tool calls of a stream that name a model call are attributed to the one that was saved.
pub proof fn tool_calls_share_model_call(c: ContextView, r: ToolCallResponseView)
    requires
        c.saved_model_call_id is Some,
        r.model_call_id is Some,
    ensures
        decoder::tool_step(c, r).1 matches Some(MessageView::ToolCall(call))
            ==> call.id == tool_id::formatted(r.tool_call_id, c.saved_model_call_id),
        decoder::tool_step(c, r).1 matches Some(m) ==> m is ToolCall,
{
}

/// The first model call that a stream names is the one that is saved.
pub proof fn first_model_call_is_saved(c: ContextView, r: ToolCallResponseView)
    requires
        c.saved_model_call_id is None,
        r.model_call_id is Some,
    ensures
        decoder::tool_step(c, r).0.saved_model_call_id == r.model_call_id,
{
}

/// The model call that a tool call is attributed to, where it is the payload at position `i`.
pub open spec fn model_call_at(
    d: DecoderView,
    items: Seq<DecodedView>,
    convert_web_ref: bool,
    i: int,
) -> Option<Seq<char>> {
    match items[i] {
        DecodedView::Text(Some(ResponseView::Tool(r)), _) => decoder::shared_model_call(
            decoder::run(d, items.take(i), convert_web_ref).0.context.saved_model_call_id,
            r.model_call_id,
        ).0,
        _ => None,
    }
}

/// The payload at position `i` is a tool call that names a model call.
pub open spec fn names_model_call(items: Seq<DecodedView>, i: int) -> bool {
    items[i] matches DecodedView::Text(Some(ResponseView::Tool(r)), _) && r.model_call_id is Some
}

/// All tool calls of a stream that name a model call are attributed to the same one: the one that
/// the decoder was created with, or else the first that was named.
pub proof fn stream_has_one_model_call(
    d: DecoderView,
    items: Seq<DecodedView>,
    convert_web_ref: bool,
    i: int,
    j: int,
)
    requires
        0 <= i < j < items.len(),
        names_model_call(items, i),
        names_model_call(items, j),
        decoder::run(d, items.take(j), convert_web_ref).2 is None,
    ensures
        model_call_at(d, items, convert_web_ref, i) is Some,
        model_call_at(d, items, convert_web_ref, j) == model_call_at(d, items, convert_web_ref, i),
        d.context.saved_model_call_id is Some ==> model_call_at(d, items, convert_web_ref, i)
            == d.context.saved_model_call_id,
{
    let a = items.take(i + 1);
    let b = items.subrange(i + 1, j);
    assert(items.take(j).take(i + 1) =~= a);
    if decoder::run(d, a, convert_web_ref).2 is Some {
        decoder::lemma_run_stops(d, items.take(j), convert_web_ref, i + 1);
    }
    assert(items.take(j) =~= a + b);
    run_in_parts(d, a, b, convert_web_ref);
    assert(a.drop_last() =~= items.take(i));
    assert(a.last() == items[i]);
    let after = decoder::run(d, a, convert_web_ref).0;
    assert(after.context.saved_model_call_id == model_call_at(d, items, convert_web_ref, i));
    saved_model_call_stays(after, b, convert_web_ref);
    if d.context.saved_model_call_id is Some {
        saved_model_call_stays(d, items.take(i), convert_web_ref);
    }
}

/// It does not matter where the stream is cut: payloads that are taken in one after the other give
/// the messages that they give together, as long as no error ends the first part.
pub proof fn run_in_parts(
    d: DecoderView,
    a: Seq<DecodedView>,
    b: Seq<DecodedView>,
    convert_web_ref: bool,
)
    requires
        decoder::run(d, a, convert_web_ref).2 is None,
    ensures
        ({
            let (d1, m1, _) = decoder::run(d, a, convert_web_ref);
            let (d2, m2, e2) = decoder::run(d1, b, convert_web_ref);
            decoder::run(d, a + b, convert_web_ref) == (d2, m1 + m2, e2)
        }),
    decreases b.len(),
{
    let (d1, m1, _) = decoder::run(d, a, convert_web_ref);
    if b.len() == 0 {
        assert(a + b =~= a);
        assert(m1 + Seq::<MessageView>::empty() =~= m1);
    } else {
        run_in_parts(d, a, b.drop_last(), convert_web_ref);
        assert((a + b).drop_last() =~= a + b.drop_last());
        assert((a + b).last() == b.last());
        let (d2, m2, e2) = decoder::run(d1, b.drop_last(), convert_web_ref);
        let (_, m3, _) = decoder::step(d2, b.last(), convert_web_ref);
        assert((m1 + m2) + m3 =~= m1 + (m2 + m3));
    }
}

proof fn lemma_encode_join(a: Seq<char>, b: Seq<char>)
    ensures
        vstd::utf8::encode_utf8(a + b) == vstd::utf8::encode_utf8(a) + vstd::utf8::encode_utf8(b),
    decreases a.len(),
{
    if a.len() == 0 {
        assert(a + b =~= b);
        assert(vstd::utf8::encode_utf8(a) + vstd::utf8::encode_utf8(b) =~= vstd::utf8::encode_utf8(
            b,
        ));
    } else {
        lemma_encode_join(a.drop_first(), b);
        assert((a + b).drop_first() =~= a.drop_first() + b);
        assert((a + b)[0] == a[0]);
        let h = vstd::utf8::encode_scalar(a[0] as u32);
        assert(h + (vstd::utf8::encode_utf8(a.drop_first()) + vstd::utf8::encode_utf8(b)) =~= (h
            + vstd::utf8::encode_utf8(a.drop_first())) + vstd::utf8::encode_utf8(b));
    }
}

proof fn lemma_boundary(a: Seq<char>, b: Seq<char>)
    ensures
        vstd::utf8::is_char_boundary(
            vstd::utf8::encode_utf8(a + b),
            vstd::utf8::encode_utf8(a).len() as int,
        ),
    decreases a.len(),
{
    broadcast use vstd::utf8::encode_utf8_valid_utf8;

    let s = vstd::utf8::encode_utf8(a + b);
    if a.len() > 0 {
        vstd::utf8::encode_utf8_first_scalar(a + b);
        lemma_boundary(a.drop_first(), b);
        assert((a + b).drop_first() =~= a.drop_first() + b);
        assert((a + b)[0] == a[0]);
        assert(vstd::utf8::pop_first_scalar(s) =~= vstd::utf8::encode_utf8(a.drop_first() + b));
        lemma_encode_join(a, b);
    }
}

/// Streamed arguments that grow are passed on piece by piece: what follows the part that was
/// passed on is exactly what is passed on next.
pub proof fn streamed_pieces_add_up(passed_on: Seq<char>, more: Seq<char>)
    ensures
        decoder::news(
            passed_on + more,
            vstd::utf8::encode_utf8(passed_on).len() as int,
        ) == Some(more),
{
    broadcast use vstd::utf8::encode_utf8_decode_utf8;

    lemma_boundary(passed_on, more);
    lemma_encode_join(passed_on, more);
    let s = vstd::utf8::encode_utf8(passed_on + more);
    let n = vstd::utf8::encode_utf8(passed_on).len() as int;
    assert(s.subrange(n, s.len() as int) =~= vstd::utf8::encode_utf8(more));
}

/// What responses that call tools make of the context, and the messages that they give, one after
/// the other.
pub open spec fn tool_steps(c: ContextView, rs: Seq<ToolCallResponseView>) -> (
    ContextView,
    Seq<Option<MessageView>>,
)
    decreases rs.len(),
{
    if rs.len() == 0 {
        (c, Seq::empty())
    } else {
        let (c1, m1) = tool_steps(c, rs.drop_last());
        let (c2, m2) = decoder::respond(c1, ResponseView::Tool(rs.last()));
        (c2, m1.push(m2))
    }
}

/// The responses stream the arguments of one tool call: each brings more of them, up to the last
/// one.
pub open spec fn streams_call(rs: Seq<ToolCallResponseView>) -> bool {
    &&& rs.len() > 0
    &&& rs[0].raw_args.len() > 0
    &&& forall|i: int|
        0 <= i < rs.len() ==> (#[trigger] rs[i]).is_streaming && rs[i].separator_spaced
            && rs[i].is_last_message == (i == rs.len() - 1)
    &&& forall|i: int, j: int|
        0 <= i < rs.len() && j == i + 1 && j < rs.len() ==> (#[trigger] rs[i]).raw_args.len() < (
        #[trigger] rs[j]).raw_args.len() && rs[i].raw_args == rs[j].raw_args.take(
            rs[i].raw_args.len() as int,
        )
}

/// What the response at position `i` adds to the arguments.
pub open spec fn piece(rs: Seq<ToolCallResponseView>, i: int) -> Seq<char> {
    if i == 0 {
        rs[0].raw_args
    } else {
        rs[i].raw_args.skip(rs[i - 1].raw_args.len() as int)
    }
}

/// What the first `n` responses add to the arguments, one behind the other.
pub open spec fn pieces(rs: Seq<ToolCallResponseView>, n: int) -> Seq<char>
    decreases n,
{
    if n <= 0 {
        Seq::empty()
    } else {
        pieces(rs, n - 1) + piece(rs, n - 1)
    }
}

proof fn lemma_encode_grows(a: Seq<char>)
    requires
        a.len() > 0,
    ensures
        vstd::utf8::encode_utf8(a).len() > 0,
{
    assert(vstd::utf8::encode_scalar(a[0] as u32).len() > 0);
}

/// The context and the messages after the first `n` responses.
proof fn lemma_tool_steps(c: ContextView, rs: Seq<ToolCallResponseView>, n: int)
    requires
        c.raw_args_len == 0,
        streams_call(rs),
        0 < n <= rs.len(),
    ensures
        ({
            let (c1, m) = tool_steps(c, rs.take(n));
            &&& m.len() == n
            &&& c1.raw_args_len == (if n == rs.len() {
                0
            } else {
                vstd::utf8::encode_utf8(rs[n - 1].raw_args).len() as int
            })
            &&& c1.processed == (if n == rs.len() {
                decoder::counted(c.processed)
            } else {
                c.processed
            })
            &&& forall|i: int|
                0 <= i < n ==> (#[trigger] m[i] matches Some(MessageView::ToolCall(call))
                    && call.input == piece(rs, i) && call.is_last == (i == rs.len() - 1))
            &&& pieces(rs, n) == rs[n - 1].raw_args
        }),
    decreases n,
{
    let r = rs[n - 1];
    assert(rs.take(n).drop_last() =~= rs.take(n - 1));
    assert(rs.take(n).last() == r);
    let (c1, m1) = tool_steps(c, rs.take(n - 1));
    if n == 1 {
        assert(rs.take(0).len() == 0);
        let none = Seq::<char>::empty();
        streamed_pieces_add_up(none, r.raw_args);
        assert(none + r.raw_args =~= r.raw_args);
        assert(vstd::utf8::encode_utf8(none).len() == 0);
        lemma_encode_grows(r.raw_args);
        assert(pieces(rs, 0) + piece(rs, 0) =~= r.raw_args);
    } else {
        lemma_tool_steps(c, rs, n - 1);
        let a = rs[n - 2].raw_args;
        let more = r.raw_args.skip(a.len() as int);
        assert(rs[n - 2].raw_args.len() < rs[n - 1].raw_args.len());
        assert(r.raw_args =~= a + more);
        streamed_pieces_add_up(a, more);
        lemma_encode_join(a, more);
        lemma_encode_grows(more);
    }
}

/// Arguments that are streamed in pieces reach the client whole: each response passes on what it
/// adds, the last one alone ends the call, the pieces joined are the arguments, and the call counts
/// once.
pub proof fn streamed_call_is_whole(c: ContextView, rs: Seq<ToolCallResponseView>)
    requires
        c.raw_args_len == 0,
        streams_call(rs),
    ensures
        ({
            let (c1, m) = tool_steps(c, rs);
            &&& m.len() == rs.len()
            &&& c1.raw_args_len == 0
            &&& c1.processed == decoder::counted(c.processed)
            &&& forall|i: int|
                0 <= i < rs.len() ==> (#[trigger] m[i] matches Some(MessageView::ToolCall(call))
                    && call.input == piece(rs, i) && call.is_last == (i == rs.len() - 1))
            &&& pieces(rs, rs.len() as int) == rs.last().raw_args
        }),
{
    assert(rs.take(rs.len() as int) =~= rs);
    lemma_tool_steps(c, rs, rs.len() as int);
}

/// An error of the service gives no frame up: after it, all that was received waits to be read
/// again.
pub proof fn upstream_error_keeps_buffer(
    d: DecoderView,
    items: Seq<DecodedView>,
    convert_web_ref: bool,
)
    ensures
        decoder::run(d, items, convert_web_ref).0.buffer == d.buffer,
    decreases items.len(),
{
    if items.len() > 0 {
        upstream_error_keeps_buffer(d, items.drop_last(), convert_web_ref);
    }
}

/// After frames were read, what remains holds no complete frame.
pub proof fn settled_buffer_is_incomplete(d: DecoderView, messages: Seq<MessageView>)
    ensures
        frame::frames_from(decoder::settled(d, messages).0.buffer, 0).len() == 0,
{
    let end = frame::frames_end(d.buffer, 0);
    lemma_end_stops(d.buffer, 0);
    let rest = d.buffer.skip(end);
    if frame::frame_len(rest, 0) is Some {
        assert(frame::be32(rest, 1) == frame::be32(d.buffer, end + 1));
        assert(frame::frame_len(d.buffer, end) is Some);
    }
}

proof fn lemma_end_stops(b: Seq<u8>, i: int)
    requires
        0 <= i <= b.len(),
    ensures
        frame::frame_len(b, frame::frames_end(b, i)) is None,
        0 <= frame::frames_end(b, i) <= b.len(),
    decreases b.len() - i,
{
    match frame::frame_len(b, i) {
        Some(n) => {
            lemma_end_stops(b, i + n);
        },
        None => {},
    }
}

} // verus!
