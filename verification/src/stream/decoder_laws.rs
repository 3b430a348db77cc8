//! What each thing that the service sends becomes.

use vstd::prelude::*;
use crate::codec;
use crate::stream::decoder;
use crate::stream::decoder::{
    classify, process_message, ContextView, CursorError, Decoded, DecodedView, DecoderView, Pending,
    PendingView, Response, ResponseView, StreamDecoder, StreamError, ToolCallResponse,
    ToolCallResponseView,
};
use crate::stream::frame;
use crate::stream::frame::{Buffer, RawMessage};
use crate::stream::message;
use crate::stream::message::{
    MessageView, StreamMessage, Thinking, ToolCall, ToolCallView, WebReference,
    WebReferenceView,
};
use crate::text;

verus! {

/// The call has the identifier, the name and the end that the response gives it.
pub open spec fn is_call(t: ToolCallView, r: ToolCallResponseView, saved: Option<Seq<char>>) -> bool {
    &&& r.model_call_id is None ==> t.id == r.tool_call_id
    &&& r.model_call_id is Some ==> t.id == r.tool_call_id + "\nmc_"@ + (if saved is Some {
        saved->0
    } else {
        r.model_call_id->0
    })
    &&& r.tools.len() == 0 ==> t.name.len() == 0
    &&& r.tools.len() > 0 && r.tools[0].0 == "custom"@ ==> t.name == r.tools[0].1
    &&& r.tools.len() > 0 && r.tools[0].0 != "custom"@ ==> t.name == "mcp__"@ + r.tools[0].0
        + "__"@ + r.tools[0].1
    &&& t.is_last <==> !r.is_streaming || r.is_last_message
}

/// A call of a tool that is not streamed gives exactly one message, whatever came before: the call
/// with its arguments as they were sent. It ends the call, and counts it.
pub proof fn whole_call_keeps_its_arguments(c: ContextView, r: ToolCallResponseView)
    requires
        !r.is_streaming,
    ensures
        ({
            let (next, m) = decoder::respond(c, ResponseView::Tool(r));
            &&& m matches Some(MessageView::ToolCall(t)) && {
                &&& t.input == r.raw_args
                &&& t.is_last
                &&& is_call(t, r, c.saved_model_call_id)
            }
            &&& next.raw_args_len == 0
            &&& c.processed < u32::MAX ==> next.processed == c.processed + 1
            &&& c.processed == u32::MAX ==> next.processed == 0
            &&& next.saved_model_call_id == (if c.saved_model_call_id is Some {
                c.saved_model_call_id
            } else {
                r.model_call_id
            })
        }),
{
}

/// A streamed call passes on the arguments behind the bytes that were passed on before, all of them.
/// It gives nothing as long as no separator is followed by a space, or nothing is new.
pub proof fn streamed_call_passes_on_the_rest(c: ContextView, r: ToolCallResponseView)
    requires
        r.is_streaming,
        0 <= c.raw_args_len,
    ensures
        ({
            let (next, m) = decoder::respond(c, ResponseView::Tool(r));
            let bytes = vstd::utf8::encode_utf8(r.raw_args);
            &&& !r.separator_spaced ==> m is None && next.raw_args_len == c.raw_args_len
                && next.processed == c.processed
            &&& bytes.len() == c.raw_args_len ==> m is None && next.raw_args_len == c.raw_args_len
                && next.processed == c.processed
            &&& m matches Some(x) ==> (x matches MessageView::ToolCall(t) && is_call(
                t,
                r,
                c.saved_model_call_id,
            ) && vstd::utf8::is_char_boundary(bytes, c.raw_args_len) && t.input
                == vstd::utf8::decode_utf8(bytes.skip(c.raw_args_len)))
            &&& r.separator_spaced && bytes.len() > c.raw_args_len
                && vstd::utf8::is_char_boundary(bytes, c.raw_args_len) ==> m is Some
            &&& m is Some && !r.is_last_message ==> next.raw_args_len == bytes.len()
                && next.processed == c.processed
            &&& m is Some && r.is_last_message ==> next.raw_args_len == 0 && next.processed
                == decoder::counted(c.processed)
        }),
{
    let bytes = vstd::utf8::encode_utf8(r.raw_args);
    assert(bytes.skip(c.raw_args_len) == bytes.subrange(c.raw_args_len, bytes.len() as int));
}

/// The decoder hands messages out as they come.
pub open spec fn hands_out(d: DecoderView) -> bool {
    d.first_result_taken && d.content_delays is Some
}

/// All text of the answer so far.
pub open spec fn kept_text(d: DecoderView) -> Seq<char> {
    (d.content_delays->0).0
}

/// The length and the delay of each piece of the answer so far.
pub open spec fn kept_delays(d: DecoderView) -> Seq<(u32, u64)> {
    (d.content_delays->0).1
}

proof fn lemma_one(d: DecoderView, item: DecodedView, convert_web_ref: bool)
    ensures
        decoder::run(d, seq![item], convert_web_ref) == ({
            let (d2, m2, e2) = decoder::step(d, item, convert_web_ref);
            (d2, m2, e2)
        }),
{
    let items = seq![item];
    assert(items.drop_last() =~= Seq::empty());
    let (d1, m1, e1) = decoder::run(d, items.drop_last(), convert_web_ref);
    assert(m1 =~= Seq::empty());
    let (d2, m2, e2) = decoder::step(d, item, convert_web_ref);
    assert(m1 + m2 =~= m2);
}

proof fn lemma_finish(
    d: &mut StreamDecoder,
    items: Vec<Decoded>,
    convert_web_ref: bool,
    r: Result<Vec<StreamMessage>, StreamError>,
    item: Decoded,
)
    requires
        call_ensures(StreamDecoder::finish, (d, items, convert_web_ref), r),
        items@ == seq![item],
        hands_out(old(d)@),
    ensures
        ({
            let (d2, m, e) = decoder::step(old(d)@, item@, convert_web_ref);
            match e {
                Some(e) => r == Err::<Vec<StreamMessage>, StreamError>(StreamError::Upstream(e))
                    && final(d)@ == d2,
                None => {
                    &&& r matches Ok(v)
                    &&& (r->Ok_0)@.len() == m.len()
                    &&& forall|i: int| 0 <= i < m.len() ==> (#[trigger] (r->Ok_0)@[i])@ == m[i]
                    &&& final(d)@ == decoder::settled(d2, m).0
                },
            }
        }),
{
    assert(decoder::decoded_views(items@) =~= seq![item@]);
    lemma_one(old(d)@, item@, convert_web_ref);
    if let Ok(v) = r {
        let views = message::message_views(v@);
        assert(views.len() == v@.len());
        assert forall|i: int| 0 <= i < views.len() implies (#[trigger] v@[i])@ == views[i] by {
        }
    }
}

/// A call of a tool that is not streamed reaches the client as one message, with the arguments that
/// the service sent.
pub proof fn client_gets_the_whole_call(
    d: &mut StreamDecoder,
    items: Vec<Decoded>,
    convert_web_ref: bool,
    r: Result<Vec<StreamMessage>, StreamError>,
    call: ToolCallResponse,
    at: u64,
    before: u32,
    after: u32,
)
    requires
        call_ensures(StreamDecoder::finish, (d, items, convert_web_ref), r),
        call_ensures(StreamDecoder::tool_processed, (old(d),), before),
        call_ensures(StreamDecoder::tool_processed, (final(d),), after),
        items@ == seq![Decoded::Text(Some(Response::ClientSideToolV2Call(call)), at)],
        hands_out(old(d)@),
        !call.is_streaming,
    ensures
        r is Ok && {
            let messages = (r->Ok_0)@;
            &&& messages.len() == 1
            &&& messages[0] matches StreamMessage::ToolCall(t) && {
                &&& t.input@ == call.raw_args@
                &&& t.is_last
                &&& is_call(t@, call@, old(d)@.context.saved_model_call_id)
            }
        },
        before < u32::MAX ==> after == before + 1,
        final(d)@.has_seen_content <==> old(d)@.has_seen_content || call.raw_args@.len() > 0,
        final(d)@.content_delays == old(d)@.content_delays,
        final(d)@.thinking_content == old(d)@.thinking_content,
{
    let item = Decoded::Text(Some(Response::ClientSideToolV2Call(call)), at);
    lemma_finish(d, items, convert_web_ref, r, item);
    whole_call_keeps_its_arguments(old(d)@.context, call@);
    let (c, m) = decoder::respond(old(d)@.context, ResponseView::Tool(call@));
    let v = (r->Ok_0)@[0];
    assert(v@ == m->0);
}

/// Text of the answer reaches the client as it is, before any reasoning and references that came
/// with it. It is kept with its length and the time since the text before.
pub proof fn client_gets_the_text(
    d: &mut StreamDecoder,
    items: Vec<Decoded>,
    convert_web_ref: bool,
    r: Result<Vec<StreamMessage>, StreamError>,
    response: decoder::ChatResponse,
    at: u64,
)
    requires
        call_ensures(StreamDecoder::finish, (d, items, convert_web_ref), r),
        items@ == seq![Decoded::Text(Some(Response::StreamUnifiedChatResponse(response)), at)],
        hands_out(old(d)@),
        response.text@.len() > 0,
    ensures
        r is Ok && {
            let messages = (r->Ok_0)@;
            &&& messages.len() == 1
            &&& messages[0] matches StreamMessage::Content(s) && s@ == response.text@
        },
        final(d)@.content_delays is Some,
        kept_text(final(d)@) == kept_text(old(d)@) + response.text@,
        kept_delays(final(d)@).len() == kept_delays(old(d)@).len() + 1,
        kept_delays(final(d)@).drop_last() == kept_delays(old(d)@),
        kept_delays(final(d)@).last().0 == response.text@.len() as u32,
        at >= old(d)@.last_content_time ==> kept_delays(final(d)@).last().1 == at
            - old(d)@.last_content_time,
        at < old(d)@.last_content_time ==> kept_delays(final(d)@).last().1 == 0,
        final(d)@.last_content_time == at,
        final(d)@.has_seen_content,
        final(d)@.thinking_content == old(d)@.thinking_content,
        final(d)@.context == old(d)@.context,
{
    let item = Decoded::Text(Some(Response::StreamUnifiedChatResponse(response)), at);
    lemma_finish(d, items, convert_web_ref, r, item);
    let v = (r->Ok_0)@[0];
    assert(v@ == MessageView::Content(response.text@));
    assert(kept_delays(final(d)@).drop_last() =~= kept_delays(old(d)@));
}

/// Reasoning without text reaches the client as it is; its text is kept, one piece behind the other.
pub proof fn client_gets_the_reasoning(
    d: &mut StreamDecoder,
    items: Vec<Decoded>,
    convert_web_ref: bool,
    r: Result<Vec<StreamMessage>, StreamError>,
    response: decoder::ChatResponse,
    at: u64,
    thinking: Thinking,
)
    requires
        call_ensures(StreamDecoder::finish, (d, items, convert_web_ref), r),
        items@ == seq![Decoded::Text(Some(Response::StreamUnifiedChatResponse(response)), at)],
        hands_out(old(d)@),
        response.text@.len() == 0,
        response.thinking == Some(thinking),
    ensures
        r is Ok && {
            let messages = (r->Ok_0)@;
            &&& messages.len() == 1
            &&& messages[0] matches StreamMessage::Thinking(t) && match (t, thinking) {
                (Thinking::Text(a), Thinking::Text(b)) => a@ == b@,
                (Thinking::Signature(a), Thinking::Signature(b)) => a@ == b@,
                (Thinking::RedactedThinking(a), Thinking::RedactedThinking(b)) => a@ == b@,
                _ => false,
            }
        },
        thinking matches Thinking::Text(s) ==> final(d)@.thinking_content is Some && final(d)@.thinking_content->0 == (if old(d)@.thinking_content is Some {
            old(d)@.thinking_content->0
        } else {
            Seq::empty()
        }) + s@,
        !(thinking is Text) ==> final(d)@.thinking_content == old(d)@.thinking_content,
        final(d)@.has_seen_content <==> old(d)@.has_seen_content || match thinking {
            Thinking::Text(s) => s@.len() > 0,
            Thinking::Signature(s) => s@.len() > 0,
            Thinking::RedactedThinking(s) => false,
        },
        final(d)@.content_delays == old(d)@.content_delays,
        final(d)@.last_content_time == old(d)@.last_content_time,
        final(d)@.context == old(d)@.context,
{
    let item = Decoded::Text(Some(Response::StreamUnifiedChatResponse(response)), at);
    lemma_finish(d, items, convert_web_ref, r, item);
    let v = (r->Ok_0)@[0];
    assert(v@ == MessageView::Thinking(thinking@));
    if let Thinking::Text(s) = thinking {
        assert(Seq::<char>::empty() + s@ =~= s@);
    }
}

/// References alone reach the client as they are, or as text where that was asked for.
pub proof fn client_gets_the_references(
    d: &mut StreamDecoder,
    items: Vec<Decoded>,
    convert_web_ref: bool,
    r: Result<Vec<StreamMessage>, StreamError>,
    response: decoder::ChatResponse,
    at: u64,
    refs: Vec<WebReference>,
)
    requires
        call_ensures(StreamDecoder::finish, (d, items, convert_web_ref), r),
        items@ == seq![Decoded::Text(Some(Response::StreamUnifiedChatResponse(response)), at)],
        hands_out(old(d)@),
        response.text@.len() == 0,
        response.thinking is None,
        response.web_citation == Some(refs),
    ensures
        r is Ok && {
            let messages = (r->Ok_0)@;
            &&& messages.len() == 1
            &&& !convert_web_ref ==> (messages[0] matches StreamMessage::WebReference(v)
                && message::ref_views(v@) == message::ref_views(refs@))
            &&& convert_web_ref ==> (messages[0] matches StreamMessage::Content(s) && s@
                == references_text(message::ref_views(refs@)))
        },
        final(d)@.content_delays == old(d)@.content_delays,
        final(d)@.thinking_content == old(d)@.thinking_content,
        final(d)@.context == old(d)@.context,
{
    let item = Decoded::Text(Some(Response::StreamUnifiedChatResponse(response)), at);
    lemma_finish(d, items, convert_web_ref, r, item);
    let v = (r->Ok_0)@[0];
    lemma_lines(message::ref_views(refs@), refs@.len() as int);
    assert(v@ == decoder::handed_out(
        MessageView::WebReference(message::ref_views(refs@)),
        convert_web_ref,
    ));
}

/// References as text: a heading, a line for each with its number, title and address, and an empty
/// line.
pub open spec fn references_text(refs: Seq<WebReferenceView>) -> Seq<char> {
    if refs.len() == 0 {
        Seq::empty()
    } else {
        "WebReferences:\n"@ + text::joined(line_list(refs, refs.len() as int), Seq::empty()) + "\n"@
    }
}

/// The lines of the first references.
pub open spec fn line_list(refs: Seq<WebReferenceView>, n: int) -> Seq<Seq<char>> {
    Seq::new(
        n as nat,
        |i: int|
            codec::decimal((i + 1) as nat) + ". ["@ + refs[i].title + "]("@ + refs[i].url + ")\n"@,
    )
}

proof fn lemma_lines(refs: Seq<WebReferenceView>, n: int)
    requires
        0 <= n <= refs.len(),
    ensures
        message::reference_lines(refs, n) == text::joined(line_list(refs, n), Seq::empty()),
    decreases n,
{
    let lines = line_list(refs, n);
    if n > 0 {
        lemma_lines(refs, n - 1);
        let d = line_list(refs, n - 1);
        assert(lines.drop_last() =~= d);
        assert(lines.last() == message::reference_line(n - 1, refs[n - 1]));
        if n == 1 {
            assert(message::reference_lines(refs, 0) + lines[0] =~= lines[0]);
        } else {
            assert(text::joined(d, Seq::empty()) + Seq::<char>::empty() + lines.last()
                =~= text::joined(d, Seq::empty()) + lines.last());
        }
    }
}

/// References are turned into text, and any other message stays as it is.
pub proof fn references_become_text(m: StreamMessage, r: StreamMessage)
    requires
        call_ensures(StreamMessage::convert_web_ref_to_content, (m,), r),
    ensures
        m matches StreamMessage::WebReference(refs) ==> (r matches StreamMessage::Content(s) && s@
            == references_text(message::ref_views(refs@))),
        !(m is WebReference) ==> r@ == m@,
{
    if let StreamMessage::WebReference(refs) = m {
        lemma_lines(message::ref_views(refs@), refs@.len() as int);
    }
}

/// A message has content where its text, its signature or its arguments are not empty.
pub proof fn content_is_not_empty(m: &StreamMessage, r: bool)
    requires
        call_ensures(StreamMessage::any_content, (m,), r),
    ensures
        *m matches StreamMessage::Content(s) ==> r == (s@.len() > 0),
        *m matches StreamMessage::Thinking(Thinking::Text(s)) ==> r == (s@.len() > 0),
        *m matches StreamMessage::Thinking(Thinking::Signature(s)) ==> r == (s@.len() > 0),
        *m matches StreamMessage::Thinking(Thinking::RedactedThinking(s)) ==> !r,
        *m matches StreamMessage::ToolCall(c) ==> r == (c.input@.len() > 0),
        *m is WebReference || *m is StreamEnd ==> !r,
{
}

/// The end of the stream, and a request that the user gave up, end the messages; any other error of
/// the service is reported, and what was not understood gives nothing.
pub proof fn ends_and_errors_are_told(
    d: &mut StreamDecoder,
    items: Vec<Decoded>,
    convert_web_ref: bool,
    r: Result<Vec<StreamMessage>, StreamError>,
    item: Decoded,
)
    requires
        call_ensures(StreamDecoder::finish, (d, items, convert_web_ref), r),
        items@ == seq![item],
        hands_out(old(d)@),
    ensures
        item is End ==> r is Ok && (r->Ok_0)@.len() == 1 && (r->Ok_0)@[0] is StreamEnd,
        item matches Decoded::Json(Some(e)) ==> e.user_aborted_request ==> r is Ok && (
        r->Ok_0)@.len() == 1 && (r->Ok_0)@[0] is StreamEnd,
        item matches Decoded::Json(Some(e)) ==> !e.user_aborted_request ==> r == Err::<
            Vec<StreamMessage>,
            StreamError,
        >(StreamError::Upstream(e)) && final(d)@ == old(d)@,
        item is Skip || item == Decoded::Json(None) ==> r is Ok && (r->Ok_0)@.len() == 0,
        item matches Decoded::Text(None, at) ==> r is Ok && (r->Ok_0)@.len() == 0,
        item matches Decoded::Text(
            Some(Response::StreamUnifiedChatResponse(c)),
            at,
        ) ==> c.text@.len() == 0 && c.thinking is None && c.web_citation is None ==> r is Ok && (
        r->Ok_0)@.len() == 0,
        !(item is Text) ==> final(d)@.context == old(d)@.context && final(d)@.content_delays
            == old(d)@.content_delays && final(d)@.thinking_content == old(d)@.thinking_content,
{
    lemma_finish(d, items, convert_web_ref, r, item);
    let (d2, m, e) = decoder::step(old(d)@, item@, convert_web_ref);
    if e is None && m.len() > 0 {
        assert((r->Ok_0)@[0]@ == m[0]);
    }
}

/// What is held back.
pub open spec fn held(d: DecoderView) -> Seq<MessageView> {
    match d.first_result {
        Some(m) => m,
        None => Seq::empty(),
    }
}

/// No message is lost or doubled: what was held back and what came in, in order, is what is held
/// back now and what is handed out.
pub proof fn no_message_is_lost(d: DecoderView, messages: Seq<MessageView>)
    requires
        d.first_result_taken ==> d.first_result is None,
    ensures
        ({
            let (next, out) = decoder::settled(d, messages);
            &&& held(next) + out == held(d) + messages
            &&& d.first_result_taken ==> out == messages
            &&& !d.first_result_taken && !d.first_result_ready ==> out.len() == 0
            &&& next.first_result_ready <==> d.first_result_ready || (d.has_seen_content
                && !d.first_result_taken && (d.first_result is Some || messages.len() > 0))
            &&& next.context == d.context
            &&& next.content_delays == d.content_delays
            &&& next.thinking_content == d.thinking_content
        }),
{
    let (next, out) = decoder::settled(d, messages);
    assert(held(next) + out =~= held(d) + messages);
}

/// Whatever came in is handed out or held back, in order, unless the service reports an error; then
/// nothing is handed out, and what was held back stays. Frames that were read are given up.
pub proof fn messages_are_handed_out_or_held(
    d: &mut StreamDecoder,
    items: Vec<Decoded>,
    convert_web_ref: bool,
    r: Result<Vec<StreamMessage>, StreamError>,
    end: int,
)
    requires
        call_ensures(StreamDecoder::finish, (d, items, convert_web_ref), r),
        old(d)@.first_result_taken ==> old(d)@.first_result is None,
        end == frame::frames_end(old(d)@.buffer, 0),
    ensures
        ({
            let (_, m, e) = decoder::run(
                old(d)@,
                decoder::decoded_views(items@),
                convert_web_ref,
            );
            &&& e matches Some(x) ==> r == Err::<Vec<StreamMessage>, StreamError>(
                StreamError::Upstream(x),
            ) && final(d)@.first_result == old(d)@.first_result && final(d)@.buffer
                == old(d)@.buffer
            &&& e is None ==> r is Ok && held(final(d)@) + message::message_views((r->Ok_0)@)
                == held(old(d)@) + m
            &&& e is None && old(d)@.first_result_taken ==> message::message_views((r->Ok_0)@) == m
            &&& e is None && !old(d)@.first_result_taken && !old(d)@.first_result_ready ==> (
            r->Ok_0)@.len() == 0
            &&& e is None ==> final(d)@.buffer == old(d)@.buffer.skip(end)
            &&& final(d)@.first_result_taken == old(d)@.first_result_taken
        }),
{
    let views = decoder::decoded_views(items@);
    lemma_run_keeps(old(d)@, views, convert_web_ref);
    let (d1, m, e) = decoder::run(old(d)@, views, convert_web_ref);
    if e is None {
        no_message_is_lost(d1, m);
        assert(message::message_views((r->Ok_0)@).len() == (r->Ok_0)@.len());
    }
}

proof fn lemma_run_keeps(d: DecoderView, items: Seq<DecodedView>, convert_web_ref: bool)
    ensures
        ({
            let (e, _, _) = decoder::run(d, items, convert_web_ref);
            &&& e.buffer == d.buffer
            &&& e.first_result == d.first_result
            &&& e.first_result_ready == d.first_result_ready
            &&& e.first_result_taken == d.first_result_taken
            &&& e.empty_stream_count == d.empty_stream_count
        }),
    decreases items.len(),
{
    if items.len() > 0 {
        lemma_run_keeps(d, items.drop_last(), convert_web_ref);
    }
}

/// Bytes that do not even make the head of a frame give no message; they are kept for later.
pub proof fn too_few_bytes_wait<
    F: Fn(&Vec<u8>) -> Option<Response>,
    G: Fn(&Vec<u8>) -> Option<CursorError>,
    C: Fn() -> u64,
>(
    d: &mut StreamDecoder,
    data: &[u8],
    convert_web_ref: bool,
    parse: &F,
    parse_error: &G,
    clock: &C,
    r: Result<Vec<StreamMessage>, StreamError>,
)
    requires
        call_ensures(
            StreamDecoder::decode::<F, G, C>,
            (d, data, convert_web_ref, parse, parse_error, clock),
            r,
        ),
    ensures
        data@.len() == 0 || old(d)@.buffer.len() + data@.len() < 5 ==> {
            &&& r == Err::<Vec<StreamMessage>, StreamError>(StreamError::EmptyStream)
            &&& final(d)@.buffer == old(d)@.buffer + data@
            &&& final(d)@.first_result == old(d)@.first_result
            &&& final(d)@.context == old(d)@.context
            &&& old(d)@.empty_stream_count < usize::MAX ==> final(d)@.empty_stream_count
                == old(d)@.empty_stream_count + 1
        },
        data@.len() > 0 && old(d)@.buffer.len() + data@.len() >= 5 ==> final(
            d)@.empty_stream_count == 0 && !(r matches Err(StreamError::EmptyStream)),
{
    if data@.len() > 0 && old(d)@.buffer.len() + data@.len() >= 5 {
        let items = choose|items: Seq<Decoded>|
            (final(d)@, decoder::answer(r)) == decoder::decoded(
                old(d)@,
                data@,
                #[trigger] decoder::decoded_views(items),
                convert_web_ref,
            );
        lemma_run_keeps(
            decoder::fed(old(d)@, data@),
            decoder::decoded_views(items),
            convert_web_ref,
        );
    }
}

/// What was held back is handed out once, when all that was received has been read.
pub proof fn held_back_is_taken_once(
    d: &mut StreamDecoder,
    r: Option<Vec<StreamMessage>>,
    incomplete: bool,
    k: int,
)
    requires
        call_ensures(StreamDecoder::take_first_result, (d,), r),
        call_ensures(StreamDecoder::is_incomplete, (old(d),), incomplete),
    ensures
        incomplete <==> old(d)@.buffer.len() > 0,
        incomplete ==> r is None && final(d)@ == old(d)@,
        !incomplete ==> {
            &&& r is Some <==> old(d)@.first_result is Some
            &&& r matches Some(v) ==> v@.len() == held(old(d)@).len()
            &&& r is Some && 0 <= k < (r->0)@.len() ==> (r->0)@[k]@ == held(old(d)@)[k]
            &&& final(d)@.first_result is None
            &&& r is Some ==> final(d)@.first_result_taken
            &&& final(d)@.context == old(d)@.context
        },
{
    if let Some(v) = r {
        let views = message::message_views(v@);
        assert(views.len() == v@.len());
        if 0 <= k < v@.len() {
            assert(views[k] == v@[k]@);
        }
    }
}

/// Taking the text and the delays, or the reasoning, hands out what was kept, and keeps nothing;
/// a decoder without a cache hands messages out at once.
pub proof fn what_was_kept_is_taken(
    d: &mut StreamDecoder,
    delays: Option<(String, Vec<(u32, u64)>)>,
    e: &mut StreamDecoder,
    thinking: Option<String>,
    f: StreamDecoder,
    direct: StreamDecoder,
    g: &mut StreamDecoder,
)
    requires
        call_ensures(StreamDecoder::take_content_delays, (d,), delays),
        call_ensures(StreamDecoder::take_thinking_content, (e,), thinking),
        call_ensures(StreamDecoder::no_first_cache, (f,), direct),
        call_ensures(StreamDecoder::reset_empty_stream_count, (g,), ()),
    ensures
        delays is Some <==> old(d)@.content_delays is Some,
        delays matches Some((s, v)) ==> s@ == kept_text(old(d)@) && v@
            == kept_delays(old(d)@),
        final(d)@.content_delays is None,
        final(d)@.thinking_content == old(d)@.thinking_content,
        final(d)@.context == old(d)@.context,
        thinking is Some <==> old(e)@.thinking_content is Some,
        thinking matches Some(s) ==> s@ == old(e)@.thinking_content->0,
        final(e)@.thinking_content is None,
        final(e)@.content_delays == old(e)@.content_delays,
        final(e)@.context == old(e)@.context,
        direct@.first_result_taken && direct@.first_result_ready,
        direct@.context == f@.context && direct@.buffer == f@.buffer,
        direct@.content_delays == f@.content_delays,
        final(g)@.empty_stream_count == 0,
        final(g)@.context == old(g)@.context && final(g)@.buffer == old(g)@.buffer,
        final(g)@.content_delays == old(g)@.content_delays,
{
}

/// A new decoder has nothing: no bytes, no messages, no calls, and the model call that it was given.
pub proof fn new_decoder_has_nothing(
    now: u64,
    plain: StreamDecoder,
    model_call_id: Option<String>,
    given: StreamDecoder,
    saved: Option<String>,
    count: usize,
    ready: bool,
)
    requires
        call_ensures(StreamDecoder::new, (now,), plain),
        call_ensures(StreamDecoder::with_model_call_id, (model_call_id, now), given),
        call_ensures(StreamDecoder::get_saved_model_call_id, (&given,), saved),
        call_ensures(StreamDecoder::get_empty_stream_count, (&given,), count),
        call_ensures(StreamDecoder::is_first_result_ready, (&given,), ready),
    ensures
        plain@.context.saved_model_call_id is None,
        saved is Some <==> model_call_id is Some,
        saved matches Some(s) ==> s@ == model_call_id->0@,
        count == 0,
        !ready,
        plain@.buffer.len() == 0 && given@.buffer.len() == 0,
        plain@.first_result is None && given@.first_result is None,
        plain@.content_delays is None && given@.content_delays is None,
        plain@.thinking_content is None && given@.thinking_content is None,
        plain@.context.processed == 0 && given@.context.processed == 0,
        plain@.context.raw_args_len == 0 && given@.context.raw_args_len == 0,
        plain@.last_content_time == now && given@.last_content_time == now,
        !plain@.first_result_taken && !plain@.first_result_ready && !plain@.has_seen_content,
        !given@.first_result_taken && !given@.has_seen_content,
{
}

/// The flags of a frame tell what its payload is: the lowest bit that it is compressed, the others
/// that it is a response or, of two bytes, the end, or else an error. A payload that is empty, cannot
/// be decompressed or has other flags is passed over.
pub proof fn flags_tell_the_payload(
    kind: u8,
    data: Vec<u8>,
    unzipped: Option<Vec<u8>>,
    r: Pending,
)
    requires
        call_ensures(classify, (kind, data, unzipped), r),
    ensures
        data@.len() == 0 ==> r is Skip,
        kind > 3 ==> r is Skip,
        data@.len() > 0 && kind == 0 ==> r@ == PendingView::Text(data@),
        data@.len() > 0 && kind == 2 && data@.len() != 2 ==> r@ == PendingView::Json(data@),
        data@.len() > 0 && kind == 2 && data@.len() == 2 ==> r is End,
        data@.len() > 0 && kind == 1 ==> match unzipped {
            Some(v) => r@ == PendingView::Text(v@),
            None => r is Skip,
        },
        data@.len() > 0 && kind == 3 ==> match unzipped {
            Some(v) => if v@.len() == 2 {
                r is End
            } else {
                r@ == PendingView::Json(v@)
            },
            None => r is Skip,
        },
{
}

/// A frame of the stream is made ready by its own payload, decompressed where its flags say so.
pub proof fn frames_are_made_ready(m: RawMessage, r: Pending)
    requires
        call_ensures(process_message, (m,), r),
    ensures
        m.data@.len() > 0 && m.kind == 0 ==> r@ == PendingView::Text(m.data@),
        m.data@.len() > 0 && m.kind == 1 ==> match codec::gunzipped(m.data@) {
            Some(v) => r@ == PendingView::Text(v),
            None => r is Skip,
        },
        m.data@.len() > 2 && m.kind == 2 ==> r@ == PendingView::Json(m.data@),
        m.data@.len() == 2 && m.kind == 2 ==> r is End,
        m.data@.len() == 0 || m.kind > 3 ==> r is Skip,
{
}

/// Where the frame stands: behind the heads and payloads of those before.
pub open spec fn stands_at(frames: Seq<RawMessage>, k: int) -> int
    decreases k,
{
    if k <= 0 {
        0
    } else {
        stands_at(frames, k - 1) + 5 + frames[k - 1].data@.len()
    }
}

/// The length of a payload that the head at the position announces.
pub open spec fn announced(b: Seq<u8>, i: int) -> int {
    ((b[i + 1] * 0x100 + b[i + 2]) * 0x100 + b[i + 3]) * 0x100 + b[i + 4]
}

/// The frames that are read stand in the stream one behind the other: each with its flags, the
/// length of its payload, and the payload. Behind the last one no complete frame follows.
pub proof fn frames_stand_in_the_stream(
    b: &Buffer,
    r: (Vec<RawMessage>, usize),
    k: int,
)
    requires
        call_ensures(Buffer::frames, (b,), r),
    ensures
        r.1 == stands_at(r.0@, r.0@.len() as int),
        r.1 <= b@.len(),
        b@.len() - r.1 < 5 || r.1 + 5 + announced(b@, r.1 as int) > b@.len(),
        0 <= k < r.0@.len() ==> {
            let i = stands_at(r.0@, k);
            let m = r.0@[k];
            &&& 0 <= i
            &&& i + 5 + m.data@.len() <= r.1
            &&& b@[i] == m.kind
            &&& announced(b@, i) == m.data@.len()
            &&& b@.subrange(i + 5, i + 5 + m.data@.len()) == m.data@
        },
{
    let fs = frame::raw_views(r.0@);
    assert(fs.len() == r.0@.len());
    assert(fs.skip(0) =~= fs);
    lemma_stands(b@, r.0@, 0, 0);
    if 0 <= k < r.0@.len() {
        lemma_stands_before(r.0@, k, r.0@.len() as int);
        lemma_stands_at(b@, r.0@, k);
    }
}

proof fn lemma_stands_before(frames: Seq<RawMessage>, k: int, n: int)
    requires
        0 <= k < n <= frames.len(),
    ensures
        0 <= stands_at(frames, k),
        stands_at(frames, k) + 5 + frames[k].data@.len() <= stands_at(frames, n),
    decreases n,
{
    if k < n - 1 {
        lemma_stands_before(frames, k, n - 1);
    } else if k > 0 {
        lemma_stands_before(frames, 0, k);
    }
}

/// From the frame `k` on, which stands at `i`, the rest stand one behind the other.
proof fn lemma_stands(b: Seq<u8>, frames: Seq<RawMessage>, k: int, i: int)
    requires
        0 <= k <= frames.len(),
        0 <= i <= b.len(),
        i == stands_at(frames, k),
        frame::frames_from(b, i) == frame::raw_views(frames).skip(k),
    ensures
        frame::frames_end(b, i) == stands_at(frames, frames.len() as int),
        ({
            let e = frame::frames_end(b, i);
            i <= e <= b.len() && (b.len() - e < 5 || e + 5 + announced(b, e) > b.len())
        }),
    decreases b.len() - i,
{
    let fs = frame::raw_views(frames);
    match frame::frame_len(b, i) {
        Some(n) => {
            let f = (b[i], b.subrange(i + 5, i + n));
            let rest = frame::frames_from(b, i + n);
            assert((seq![f] + rest)[0] == f);
            assert(fs.skip(k).len() > 0);
            assert(fs.skip(k)[0] == fs[k]);
            assert(fs[k] == (frames[k].kind, frames[k].data@));
            assert(rest =~= fs.skip(k + 1)) by {
                assert((seq![f] + rest).skip(1) =~= rest);
                assert(fs.skip(k).skip(1) =~= fs.skip(k + 1));
            }
            lemma_stands(b, frames, k + 1, i + n);
        },
        None => {
            assert(fs.skip(k).len() == 0);
        },
    }
}

proof fn lemma_stands_at(b: Seq<u8>, frames: Seq<RawMessage>, k: int)
    requires
        0 <= k < frames.len(),
        frame::frames_from(b, 0) == frame::raw_views(frames),
    ensures
        ({
            let i = stands_at(frames, k);
            &&& 0 <= i
            &&& i + 5 + frames[k].data@.len() <= b.len()
            &&& b[i] == frames[k].kind
            &&& announced(b, i) == frames[k].data@.len()
            &&& b.subrange(i + 5, i + 5 + frames[k].data@.len()) == frames[k].data@
        }),
{
    let fs = frame::raw_views(frames);
    lemma_from(b, frames, k);
    let i = stands_at(frames, k);
    assert(fs.skip(k).len() > 0);
    assert(fs.skip(k)[0] == fs[k]);
    assert(fs[k] == (frames[k].kind, frames[k].data@));
    let n = frame::frame_len(b, i)->0;
    let f = (b[i], b.subrange(i + 5, i + n));
    assert((seq![f] + frame::frames_from(b, i + n))[0] == f);
}

proof fn lemma_from(b: Seq<u8>, frames: Seq<RawMessage>, k: int)
    requires
        0 <= k <= frames.len(),
        frame::frames_from(b, 0) == frame::raw_views(frames),
    ensures
        0 <= stands_at(frames, k) <= b.len(),
        frame::frames_from(b, stands_at(frames, k)) == frame::raw_views(frames).skip(k),
    decreases k,
{
    let fs = frame::raw_views(frames);
    if k > 0 {
        lemma_from(b, frames, k - 1);
        let i = stands_at(frames, k - 1);
        assert(fs.skip(k - 1).len() > 0);
        assert(fs.skip(k - 1)[0] == fs[k - 1]);
        assert(fs[k - 1] == (frames[k - 1].kind, frames[k - 1].data@));
        let n = frame::frame_len(b, i)->0;
        let f = (b[i], b.subrange(i + 5, i + n));
        let rest = frame::frames_from(b, i + n);
        assert((seq![f] + rest)[0] == f);
        assert((seq![f] + rest).skip(1) =~= rest);
        assert(fs.skip(k - 1).skip(1) =~= fs.skip(k));
    } else {
        assert(fs.skip(0) =~= fs);
    }
}

/// A buffer keeps its bytes in order, and gives up those that were read from the front.
pub proof fn buffers_keep_their_bytes(
    fresh: Buffer,
    b: &mut Buffer,
    data: &[u8],
    c: &mut Buffer,
    n: usize,
    d: &Buffer,
    len: usize,
    empty: bool,
)
    requires
        call_ensures(Buffer::new, (), fresh),
        call_ensures(Buffer::extend_from_slice, (b, data), ()),
        call_ensures(Buffer::advance, (c, n), ()),
        n <= old(c)@.len(),
        call_ensures(Buffer::len, (d,), len),
        call_ensures(Buffer::is_empty, (d,), empty),
    ensures
        fresh@.len() == 0,
        final(b)@.len() == old(b)@.len() + data@.len(),
        final(b)@.take(old(b)@.len() as int) == old(b)@,
        final(b)@.skip(old(b)@.len() as int) == data@,
        old(c)@ == old(c)@.take(n as int) + final(c)@,
        len == d@.len(),
        empty <==> len == 0,
{
    assert(final(b)@.take(old(b)@.len() as int) =~= old(b)@);
    assert(final(b)@.skip(old(b)@.len() as int) =~= data@);
    assert(old(c)@ =~= old(c)@.take(n as int) + final(c)@);
}

/// Bytes that do not even make the head of a frame are kept, and counted as nothing received;
/// others are kept too, and begin to be counted anew.
pub proof fn receiving_keeps_the_bytes(
    d: &mut StreamDecoder,
    data: &[u8],
    r: Result<Vec<Pending>, StreamError>,
)
    requires
        call_ensures(StreamDecoder::accept, (d, data), r),
    ensures
        final(d)@.buffer == old(d)@.buffer + data@,
        final(d)@.context == old(d)@.context,
        final(d)@.first_result == old(d)@.first_result,
        final(d)@.thinking_content == old(d)@.thinking_content,
        r is Err <==> data@.len() == 0 || old(d)@.buffer.len() + data@.len() < 5,
        r matches Err(e) ==> e is EmptyStream,
        r is Err && old(d)@.empty_stream_count < usize::MAX ==> final(d)@.empty_stream_count
            == old(d)@.empty_stream_count + 1,
        r is Ok ==> final(d)@.empty_stream_count == 0,
        r is Ok ==> final(d)@.content_delays is Some,
        old(d)@.content_delays is Some ==> final(d)@.content_delays == old(d)@.content_delays,
{
}

/// A frame that arrives by itself and is a call of a tool that is not streamed reaches the client as
/// one message with the arguments that were sent.
pub proof fn one_frame_is_one_call<
    F: Fn(&Vec<u8>) -> Option<Response>,
    G: Fn(&Vec<u8>) -> Option<CursorError>,
    C: Fn() -> u64,
>(
    d: &mut StreamDecoder,
    data: &[u8],
    convert_web_ref: bool,
    parse: &F,
    parse_error: &G,
    clock: &C,
    r: Result<Vec<StreamMessage>, StreamError>,
    payload: Seq<u8>,
    call: ToolCallResponse,
)
    requires
        call_ensures(
            StreamDecoder::decode::<F, G, C>,
            (d, data, convert_web_ref, parse, parse_error, clock),
            r,
        ),
        old(d)@.buffer.len() == 0,
        old(d)@.first_result_taken,
        payload.len() > 0,
        data@.len() == 5 + payload.len(),
        data@[0] == 0,
        announced(data@, 0) == payload.len(),
        data@.skip(5) == payload,
        forall|v: Vec<u8>, x: Option<Response>|
            v@ == payload && #[trigger] call_ensures(*parse, (&v,), x) ==> x == Some(
                Response::ClientSideToolV2Call(call),
            ),
        !call.is_streaming,
    ensures
        r is Ok && {
            let messages = (r->Ok_0)@;
            &&& messages.len() == 1
            &&& messages[0] matches StreamMessage::ToolCall(t) && {
                &&& t.input@ == call.raw_args@
                &&& t.is_last
                &&& is_call(t@, call@, old(d)@.context.saved_model_call_id)
            }
        },
        final(d)@.buffer.len() == 0,
{
    let b = data@;
    assert(old(d)@.buffer + b =~= b);
    let n = b.len() as int;
    assert(frame::be32(b, 1) == payload.len());
    assert(frame::frame_len(b, 0) == Some(n));
    assert(frame::frame_len(b, n) is None);
    assert(b.subrange(5, n) =~= payload);
    let fs = frame::frames_from(b, 0);
    assert(frame::frames_from(b, n) =~= Seq::empty());
    assert(fs =~= seq![(0u8, payload)]);
    assert(frame::frames_end(b, n) == n);
    let ps = decoder::all_pending(fs);
    assert(ps.len() == 1);
    assert(ps[0] == PendingView::Text(payload));
    let items = choose|items: Seq<Decoded>|
        {
            &&& decoder::parsed(ps, items, *parse, *parse_error, *clock)
            &&& (final(d)@, decoder::answer(r)) == decoder::decoded(
                old(d)@,
                data@,
                #[trigger] decoder::decoded_views(items),
                convert_web_ref,
            )
        };
    assert(items.len() == 1);
    let item = items[0];
    assert(decoder::parsed_one(ps[0], item, *parse, *parse_error, *clock));
    let at = item->Text_1;
    assert(item == Decoded::Text(Some(Response::ClientSideToolV2Call(call)), at));
    assert(decoder::decoded_views(items) =~= seq![item@]);
    let f = decoder::fed(old(d)@, b);
    lemma_one(f, item@, convert_web_ref);
    whole_call_keeps_its_arguments(f.context, call@);
    let m = decoder::step(f, item@, convert_web_ref).1;
    let views = message::message_views((r->Ok_0)@);
    assert(views == m);
    assert(views.len() == (r->Ok_0)@.len());
    assert(views[0] == (r->Ok_0)@[0]@);
    assert(b.skip(n).len() == 0);
}

/// What comes in two parts gives the messages of the first part and then those of the second: a
/// decoder that hands messages out treats each thing that it receives by itself.
pub proof fn messages_come_in_order(
    d: DecoderView,
    a: Seq<DecodedView>,
    item: DecodedView,
    convert_web_ref: bool,
)
    requires
        decoder::run(d, a, convert_web_ref).2 is None,
    ensures
        ({
            let (d1, m1, _) = decoder::run(d, a, convert_web_ref);
            let (d2, m2, e2) = decoder::run(d1, seq![item], convert_web_ref);
            let (d3, m3, e3) = decoder::run(d, a.push(item), convert_web_ref);
            d3 == d2 && m3 == m1 + m2 && e3 == e2
        }),
{
    let d1 = decoder::run(d, a, convert_web_ref).0;
    lemma_one(d1, item, convert_web_ref);
    assert(a.push(item).drop_last() =~= a);
}

/// Behind the first error of the service nothing more is taken in.
pub proof fn errors_end_the_messages(
    d: DecoderView,
    a: Seq<DecodedView>,
    item: DecodedView,
    convert_web_ref: bool,
)
    requires
        decoder::run(d, a, convert_web_ref).2 is Some,
    ensures
        decoder::run(d, a.push(item), convert_web_ref) == decoder::run(d, a, convert_web_ref),
{
    assert(a.push(item).drop_last() =~= a);
}

} // verus!
