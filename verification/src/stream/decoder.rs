//! The decoder of the response stream.
//!
//! Decoding goes in two steps. First the frames are taken from the stream and their payloads made
//! ready to be parsed. Then what was parsed is turned into messages.

use vstd::prelude::*;
use crate::adapter::tool_id;
use crate::adapter::tool_id::ToolId;
use crate::codec;
use crate::stream::frame;
use crate::stream::frame::{Buffer, RawMessage};
use crate::stream::message;
use crate::stream::message::{
    MessageView, StreamMessage, Thinking, ThinkingView, ToolCall, ToolCallView, WebReference,
    WebReferenceView,
};
use crate::text;

verus! {

/// A tool that a server offers.
#[derive(Debug, Clone, PartialEq)]
pub struct McpTool {
    pub server_name: String,
    pub name: String,
}

/// A call of a tool, as the service sends it: in full, or more of it each time.
#[derive(Debug, Clone, PartialEq)]
pub struct ToolCallResponse {
    pub tool_call_id: String,
    pub model_call_id: Option<String>,
    pub raw_args: String,
    /// A separator in `raw_args` is followed by a space.
    pub separator_spaced: bool,
    pub is_streaming: bool,
    pub is_last_message: bool,
    pub tools: Vec<McpTool>,
}

/// A piece of the answer, as the service sends it.
#[derive(Debug, Clone, PartialEq)]
pub struct ChatResponse {
    pub text: String,
    pub thinking: Option<Thinking>,
    pub web_citation: Option<Vec<WebReference>>,
}

/// What a text frame holds.
#[derive(Debug, Clone, PartialEq)]
pub enum Response {
    ClientSideToolV2Call(ToolCallResponse),
    StreamUnifiedChatResponse(ChatResponse),
}

/// An error of the service.
#[derive(Debug, Clone, PartialEq)]
pub struct CursorError {
    /// The user gave the request up.
    pub user_aborted_request: bool,
    pub detail: String,
}

/// Why nothing was decoded.
#[derive(Debug, Clone, PartialEq)]
pub enum StreamError {
    /// There is not even the head of a frame.
    EmptyStream,
    /// The service reports an error.
    Upstream(CursorError),
}

/// A payload that waits to be parsed.
#[derive(Debug, Clone, PartialEq)]
pub enum Pending {
    /// Nothing to parse.
    Skip,
    /// A response.
    Text(Vec<u8>),
    /// An error.
    Json(Vec<u8>),
    /// The end of the stream.
    End,
}

/// A parsed payload; nothing was understood where it is `None`.
#[derive(Debug, Clone, PartialEq)]
pub enum Decoded {
    Skip,
    /// A response and the time at which it was read, in nanoseconds.
    Text(Option<Response>, u64),
    Json(Option<CursorError>),
    End,
}

/// What a frame gives to parse.
pub enum PendingView {
    Skip,
    Text(Seq<u8>),
    Json(Seq<u8>),
    End,
}

impl View for Pending {
    type V = PendingView;

    open spec fn view(&self) -> PendingView {
        match *self {
            Pending::Skip => PendingView::Skip,
            Pending::Text(v) => PendingView::Text(v@),
            Pending::Json(v) => PendingView::Json(v@),
            Pending::End => PendingView::End,
        }
    }
}

/// The views of payloads.
pub open spec fn pending_views(v: Seq<Pending>) -> Seq<PendingView> {
    Seq::new(v.len(), |i: int| v[i]@)
}

/// What a frame gives to parse, where `unzipped` is its payload decompressed.
///
/// The lowest bit of the flags tells a compressed payload, the others what it holds.
pub open spec fn pending(kind: u8, data: Seq<u8>, unzipped: Option<Seq<u8>>) -> PendingView {
    let payload = if kind % 2 == 1 {
        unzipped
    } else {
        Some(data)
    };
    if data.len() == 0 || payload is None {
        PendingView::Skip
    } else if kind / 2 == 0 {
        PendingView::Text(payload->0)
    } else if kind / 2 == 1 {
        if (payload->0).len() == 2 {
            PendingView::End
        } else {
            PendingView::Json(payload->0)
        }
    } else {
        PendingView::Skip
    }
}

/// What the frames give to parse.
pub open spec fn all_pending(frames: Seq<(u8, Seq<u8>)>) -> Seq<PendingView> {
    Seq::new(
        frames.len(),
        |i: int| pending(frames[i].0, frames[i].1, codec::gunzipped(frames[i].1)),
    )
}

/// Makes the payload of a frame ready to be parsed, where `unzipped` is the payload decompressed.
pub fn classify(kind: u8, data: Vec<u8>, unzipped: Option<Vec<u8>>) -> (r: Pending)
    ensures
        r@ == pending(kind, data@, codec::opt_bytes(unzipped)),
{
    if data.len() == 0 {
        return Pending::Skip;
    }
    let payload = if kind % 2 == 1 {
        match unzipped {
            Some(v) => v,
            None => {
                return Pending::Skip;
            },
        }
    } else {
        data
    };
    if kind / 2 == 0 {
        Pending::Text(payload)
    } else if kind / 2 == 1 {
        if payload.len() == 2 {
            Pending::End
        } else {
            Pending::Json(payload)
        }
    } else {
        Pending::Skip
    }
}

/// Makes the payload of a frame ready to be parsed.
pub fn process_message(raw_msg: RawMessage) -> (r: Pending)
    ensures
        r@ == pending(raw_msg.kind, raw_msg.data@, codec::gunzipped(raw_msg.data@)),
{
    let unzipped = codec::gunzip(raw_msg.data.as_slice());
    classify(raw_msg.kind, raw_msg.data, unzipped)
}

/// What is carried from one response of the stream to the next.
struct Context {
    /// The number of bytes of the streamed arguments that were passed on.
    raw_args_len: usize,
    /// The number of finished tool calls.
    processed: u32,
    /// The first model call that was seen.
    saved_model_call_id: Option<String>,
}

/// [`ToolCallResponse`] as characters.
pub struct ToolCallResponseView {
    pub tool_call_id: Seq<char>,
    pub model_call_id: Option<Seq<char>>,
    pub raw_args: Seq<char>,
    pub separator_spaced: bool,
    pub is_streaming: bool,
    pub is_last_message: bool,
    pub tools: Seq<(Seq<char>, Seq<char>)>,
}

impl View for ToolCallResponse {
    type V = ToolCallResponseView;

    open spec fn view(&self) -> ToolCallResponseView {
        ToolCallResponseView {
            tool_call_id: self.tool_call_id@,
            model_call_id: text::opt(self.model_call_id),
            raw_args: self.raw_args@,
            separator_spaced: self.separator_spaced,
            is_streaming: self.is_streaming,
            is_last_message: self.is_last_message,
            tools: Seq::new(
                self.tools@.len(),
                |i: int| (self.tools@[i].server_name@, self.tools@[i].name@),
            ),
        }
    }
}

/// What a text frame holds, as characters.
pub enum ResponseView {
    Tool(ToolCallResponseView),
    Chat {
        text: Seq<char>,
        thinking: Option<ThinkingView>,
        web_citation: Option<Seq<WebReferenceView>>,
    },
}

impl View for Response {
    type V = ResponseView;

    open spec fn view(&self) -> ResponseView {
        match *self {
            Response::ClientSideToolV2Call(r) => ResponseView::Tool(r@),
            Response::StreamUnifiedChatResponse(r) => ResponseView::Chat {
                text: r.text@,
                thinking: match r.thinking {
                    Some(t) => Some(t@),
                    None => None,
                },
                web_citation: match r.web_citation {
                    Some(v) => Some(message::ref_views(v@)),
                    None => None,
                },
            },
        }
    }
}

/// A parsed payload, as characters.
pub enum DecodedView {
    Skip,
    Text(Option<ResponseView>, u64),
    Json(Option<CursorError>),
    End,
}

impl View for Decoded {
    type V = DecodedView;

    open spec fn view(&self) -> DecodedView {
        match *self {
            Decoded::Skip => DecodedView::Skip,
            Decoded::Text(r, at) => DecodedView::Text(
                match r {
                    Some(r) => Some(r@),
                    None => None,
                },
                at,
            ),
            Decoded::Json(e) => DecodedView::Json(e),
            Decoded::End => DecodedView::End,
        }
    }
}

/// The views of parsed payloads.
pub open spec fn decoded_views(v: Seq<Decoded>) -> Seq<DecodedView> {
    Seq::new(v.len(), |i: int| v[i]@)
}

/// What is carried from one response of the stream to the next.
pub struct ContextView {
    pub raw_args_len: int,
    pub processed: u32,
    pub saved_model_call_id: Option<Seq<char>>,
}

impl Context {
    spec fn view(self) -> ContextView {
        ContextView {
            raw_args_len: self.raw_args_len as int,
            processed: self.processed,
            saved_model_call_id: text::opt(self.saved_model_call_id),
        }
    }
}

/// The model call that a tool call is attributed to, and the one that is remembered: the first one
/// that was ever seen stands for all later ones.
pub open spec fn shared_model_call(saved: Option<Seq<char>>, own: Option<Seq<char>>) -> (
    Option<Seq<char>>,
    Option<Seq<char>>,
) {
    if own is None {
        (None, saved)
    } else if saved is None {
        (own, own)
    } else {
        (saved, saved)
    }
}

/// The name under which a tool is called.
pub open spec fn call_name(tools: Seq<(Seq<char>, Seq<char>)>) -> Seq<char> {
    if tools.len() == 0 {
        Seq::empty()
    } else if tools[0].0 == "custom"@ {
        tools[0].1
    } else {
        "mcp__"@ + tools[0].0 + "__"@ + tools[0].1
    }
}

/// The part of streamed arguments that follows the first `n` bytes; none where these do not end
/// with a character.
pub open spec fn news(raw_args: Seq<char>, n: int) -> Option<Seq<char>> {
    let bytes = vstd::utf8::encode_utf8(raw_args);
    if vstd::utf8::is_char_boundary(bytes, n) {
        Some(vstd::utf8::decode_utf8(bytes.subrange(n, bytes.len() as int)))
    } else {
        None
    }
}

/// One more, and 0 after the last number.
pub open spec fn counted(n: u32) -> u32 {
    if n == u32::MAX {
        0
    } else {
        (n + 1) as u32
    }
}

/// What a tool call response makes of the context, and the message that it gives.
///
/// Streamed arguments are passed on as far as they are new. A response that brings nothing new, or
/// whose arguments are still without a spaced separator, gives no message and ends no call.
pub open spec fn tool_step(c: ContextView, r: ToolCallResponseView) -> (
    ContextView,
    Option<MessageView>,
) {
    let (model, saved) = shared_model_call(c.saved_model_call_id, r.model_call_id);
    let len = vstd::utf8::encode_utf8(r.raw_args).len() as int;
    let kept = ContextView { saved_model_call_id: saved, ..c };
    if r.is_streaming && (!r.separator_spaced || len == c.raw_args_len) {
        (kept, None)
    } else {
        let input = if !r.is_streaming {
            Some(r.raw_args)
        } else if len > c.raw_args_len {
            news(r.raw_args, c.raw_args_len)
        } else {
            None
        };
        let finish = !r.is_streaming || r.is_last_message;
        let next = ContextView {
            raw_args_len: if finish {
                0
            } else if input is Some {
                len
            } else {
                c.raw_args_len
            },
            processed: if finish {
                counted(c.processed)
            } else {
                c.processed
            },
            saved_model_call_id: saved,
        };
        (
            next,
            match input {
                Some(input) => Some(
                    MessageView::ToolCall(
                        ToolCallView {
                            id: tool_id::formatted(r.tool_call_id, model),
                            name: call_name(r.tools),
                            input,
                            is_last: finish,
                        },
                    ),
                ),
                None => None,
            },
        )
    }
}

/// What a response makes of the context, and the message that it gives: text comes before
/// reasoning, and reasoning before references.
pub open spec fn respond(c: ContextView, r: ResponseView) -> (ContextView, Option<MessageView>) {
    match r {
        ResponseView::Tool(t) => tool_step(c, t),
        ResponseView::Chat { text, thinking, web_citation } => (
            c,
            if text.len() > 0 {
                Some(MessageView::Content(text))
            } else if thinking is Some {
                Some(MessageView::Thinking(thinking->0))
            } else if web_citation is Some {
                Some(MessageView::WebReference(web_citation->0))
            } else {
                None
            },
        ),
    }
}

impl Context {
    fn handle_tool_call(&mut self, response: ToolCallResponse) -> (r: Option<StreamMessage>)
        ensures
            ({
                let (c, m) = tool_step(old(self)@, response@);
                final(self)@ == c && match r {
                    Some(x) => m == Some(x@),
                    None => m is None,
                }
            }),
    {
        let ghost c = old(self)@;
        let ghost v = response@;
        // The first model call is saved and reused by all later ones.
        let model_call_id = match response.model_call_id {
            Some(own) => match &self.saved_model_call_id {
                Some(saved) => Some(saved.clone()),
                None => {
                    self.saved_model_call_id = Some(own.clone());
                    Some(own)
                },
            },
            None => None,
        };
        let mut result: Option<String> = None;
        let finish: bool;
        if response.is_streaming {
            if !response.separator_spaced {
                return None;
            }
            let raw_args_len: usize = response.raw_args.as_str().as_bytes().len();
            if raw_args_len == self.raw_args_len {
                // Nothing new.
                return None;
            }
            if raw_args_len > self.raw_args_len && response.raw_args.as_str().is_char_boundary(
                self.raw_args_len,
            ) {
                let (_, args) = response.raw_args.as_str().split_at(self.raw_args_len);
                result = Some(args.to_owned());
                proof {
                    broadcast use vstd::utf8::encode_utf8_decode_utf8;

                    assert(args@ == vstd::utf8::decode_utf8(vstd::utf8::encode_utf8(args@)));
                }
                self.raw_args_len = raw_args_len;
            }
            finish = response.is_last_message;
        } else {
            result = Some(response.raw_args);
            finish = true;
        }
        if finish {
            self.processed = self.processed.wrapping_add(1);
            self.raw_args_len = 0;
        }
        match result {
            Some(input) => {
                let id = ToolId::format(response.tool_call_id, model_call_id);
                let name = if response.tools.len() == 0 {
                    String::new()
                } else if text::equal(response.tools[0].server_name.as_str(), "custom") {
                    response.tools[0].name.clone()
                } else {
                    let mut name = "mcp__".to_owned();
                    name.append(response.tools[0].server_name.as_str());
                    name.append("__");
                    name.append(response.tools[0].name.as_str());
                    name
                };
                Some(StreamMessage::ToolCall(ToolCall { id, name, input, is_last: finish }))
            },
            None => None,
        }
    }

    /// Turns a response into a message.
    fn handle_text_message(&mut self, response: Response) -> (r: Option<StreamMessage>)
        ensures
            ({
                let (c, m) = respond(old(self)@, response@);
                final(self)@ == c && match r {
                    Some(x) => m == Some(x@),
                    None => m is None,
                }
            }),
    {
        match response {
            Response::ClientSideToolV2Call(r) => self.handle_tool_call(r),
            Response::StreamUnifiedChatResponse(r) => {
                if !r.text.as_str().is_empty() {
                    Some(StreamMessage::Content(r.text))
                } else if let Some(thinking) = r.thinking {
                    Some(StreamMessage::Thinking(thinking))
                } else if let Some(references) = r.web_citation {
                    Some(StreamMessage::WebReference(references))
                } else {
                    None
                }
            },
        }
    }
}

/// The decoder of one response stream.
pub struct StreamDecoder {
    buffer: Buffer,
    first_result: Option<Vec<StreamMessage>>,
    content_delays: Option<(String, Vec<(u32, u64)>)>,
    thinking_content: Option<String>,
    context: Context,
    empty_stream_count: usize,
    last_content_time: u64,
    first_result_ready: bool,
    first_result_taken: bool,
    has_seen_content: bool,
}

/// The state of a decoder.
pub struct DecoderView {
    /// The bytes that were not read yet.
    pub buffer: Seq<u8>,
    /// The messages that are held back until there is content among them.
    pub first_result: Option<Seq<MessageView>>,
    /// All text of the answer, and for each piece its length and the time since the one before.
    pub content_delays: Option<(Seq<char>, Seq<(u32, u64)>)>,
    /// All text of the reasoning.
    pub thinking_content: Option<Seq<char>>,
    pub context: ContextView,
    pub empty_stream_count: usize,
    pub last_content_time: u64,
    pub first_result_ready: bool,
    pub first_result_taken: bool,
    pub has_seen_content: bool,
}

impl View for StreamDecoder {
    type V = DecoderView;

    closed spec fn view(&self) -> DecoderView {
        DecoderView {
            buffer: self.buffer@,
            first_result: match self.first_result {
                Some(v) => Some(message::message_views(v@)),
                None => None,
            },
            content_delays: match self.content_delays {
                Some((s, v)) => Some((s@, v@)),
                None => None,
            },
            thinking_content: text::opt(self.thinking_content),
            context: self.context@,
            empty_stream_count: self.empty_stream_count,
            last_content_time: self.last_content_time,
            first_result_ready: self.first_result_ready,
            first_result_taken: self.first_result_taken,
            has_seen_content: self.has_seen_content,
        }
    }
}

/// The time from one instant to a later one.
pub open spec fn elapsed(from: u64, to: u64) -> u64 {
    if to >= from {
        (to - from) as u64
    } else {
        0
    }
}

/// The decoder after a message was noted.
pub open spec fn noted(d: DecoderView, m: MessageView, at: u64) -> DecoderView {
    let seen = DecoderView { has_seen_content: d.has_seen_content || m.any_content(), ..d };
    match m {
        MessageView::Content(s) => {
            let (all, delays) = d.content_delays->0;
            DecoderView {
                content_delays: Some(
                    (all + s, delays.push((s.len() as u32, elapsed(d.last_content_time, at)))),
                ),
                last_content_time: at,
                ..seen
            }
        },
        MessageView::Thinking(ThinkingView::Text(t)) => DecoderView {
            thinking_content: Some(
                match d.thinking_content {
                    Some(all) => all + t,
                    None => t,
                },
            ),
            ..seen
        },
        _ => seen,
    }
}

/// The message as it is handed out.
pub open spec fn handed_out(m: MessageView, convert_web_ref: bool) -> MessageView {
    if convert_web_ref {
        m.with_references_as_text()
    } else {
        m
    }
}

/// The decoder after a parsed payload, the messages that it gives, and the error that it reports.
pub open spec fn step(d: DecoderView, item: DecodedView, convert_web_ref: bool) -> (
    DecoderView,
    Seq<MessageView>,
    Option<CursorError>,
) {
    match item {
        DecodedView::Skip => (d, Seq::empty(), None),
        DecodedView::End => (d, seq![MessageView::StreamEnd], None),
        DecodedView::Json(None) => (d, Seq::empty(), None),
        DecodedView::Json(Some(e)) => if e.user_aborted_request {
            (d, seq![MessageView::StreamEnd], None)
        } else {
            (d, Seq::empty(), Some(e))
        },
        DecodedView::Text(None, _) => (d, Seq::empty(), None),
        DecodedView::Text(Some(r), at) => {
            let (c, m) = respond(d.context, r);
            let next = DecoderView { context: c, ..d };
            match m {
                Some(m) => (noted(next, m, at), seq![handed_out(m, convert_web_ref)], None),
                None => (next, Seq::empty(), None),
            }
        },
    }
}

/// The decoder after parsed payloads, up to the first one that reports an error.
pub open spec fn run(d: DecoderView, items: Seq<DecodedView>, convert_web_ref: bool) -> (
    DecoderView,
    Seq<MessageView>,
    Option<CursorError>,
)
    decreases items.len(),
{
    if items.len() == 0 {
        (d, Seq::empty(), None)
    } else {
        let (d1, m1, e1) = run(d, items.drop_last(), convert_web_ref);
        if e1 is Some {
            (d1, m1, e1)
        } else {
            let (d2, m2, e2) = step(d1, items.last(), convert_web_ref);
            (d2, m1 + m2, e2)
        }
    }
}

/// The decoder after all frames were read, and the messages that are handed out now: until the
/// first result was taken, messages are held back.
pub open spec fn settled(d: DecoderView, messages: Seq<MessageView>) -> (
    DecoderView,
    Seq<MessageView>,
) {
    let holds = !d.first_result_taken && messages.len() > 0 && (d.first_result is None
        || !d.first_result_ready);
    let first = if !holds {
        d.first_result
    } else if d.first_result is None {
        Some(messages)
    } else {
        Some(d.first_result->0 + messages)
    };
    (
        DecoderView {
            buffer: d.buffer.skip(frame::frames_end(d.buffer, 0)),
            first_result: first,
            first_result_ready: d.first_result_ready || (first is Some && !d.first_result_taken
                && d.has_seen_content),
            ..d
        },
        if holds {
            Seq::empty()
        } else {
            messages
        },
    )
}

/// The decoder after bytes that do not even complete the head of a frame.
pub open spec fn starved(d: DecoderView, data: Seq<u8>) -> DecoderView {
    DecoderView {
        buffer: d.buffer + data,
        empty_stream_count: if d.empty_stream_count == usize::MAX {
            0
        } else {
            (d.empty_stream_count + 1) as usize
        },
        ..d
    }
}

/// The bytes do not even complete the head of a frame.
pub open spec fn starves(d: DecoderView, data: Seq<u8>) -> bool {
    data.len() == 0 || d.buffer.len() + data.len() < frame::HEAD
}

/// The decoder after bytes that can be read.
pub open spec fn fed(d: DecoderView, data: Seq<u8>) -> DecoderView {
    DecoderView {
        buffer: d.buffer + data,
        empty_stream_count: 0,
        content_delays: if d.content_delays is None {
            Some((Seq::empty(), Seq::empty()))
        } else {
            d.content_delays
        },
        ..d
    }
}

/// The answer of the decoder, as characters.
pub open spec fn answer(r: Result<Vec<StreamMessage>, StreamError>) -> Result<
    Seq<MessageView>,
    StreamError,
> {
    match r {
        Ok(v) => Ok(message::message_views(v@)),
        Err(e) => Err(e),
    }
}

/// The decoder after parsed payloads, and its answer: the messages that are handed out, or the
/// first error of the service.
pub open spec fn finished(d: DecoderView, items: Seq<DecodedView>, convert_web_ref: bool) -> (
    DecoderView,
    Result<Seq<MessageView>, StreamError>,
) {
    let (d1, m, e) = run(d, items, convert_web_ref);
    match e {
        Some(e) => (d1, Err(StreamError::Upstream(e))),
        None => {
            let (d2, m2) = settled(d1, m);
            (d2, Ok(m2))
        },
    }
}

/// The decoder after bytes whose frames were parsed to the payloads, and its answer.
pub open spec fn decoded(
    d: DecoderView,
    data: Seq<u8>,
    items: Seq<DecodedView>,
    convert_web_ref: bool,
) -> (DecoderView, Result<Seq<MessageView>, StreamError>) {
    if starves(d, data) {
        (starved(d, data), Err(StreamError::EmptyStream))
    } else {
        finished(fed(d, data), items, convert_web_ref)
    }
}

impl StreamDecoder {
    /// Creates a decoder at the given time, in nanoseconds.
    pub fn new(now: u64) -> (d: StreamDecoder)
        ensures
            d@ == initial(None, now),
    {
        Self::with_model_call_id(None, now)
    }

    /// Creates a decoder that attributes all tool calls to the given model call, if there is one.
    pub fn with_model_call_id(model_call_id: Option<String>, now: u64) -> (d: StreamDecoder)
        ensures
            d@ == initial(text::opt(model_call_id), now),
    {
        StreamDecoder {
            buffer: Buffer::new(),
            first_result: None,
            content_delays: None,
            thinking_content: None,
            context: Context {
                raw_args_len: 0,
                processed: 0,
                saved_model_call_id: model_call_id,
            },
            empty_stream_count: 0,
            last_content_time: now,
            first_result_ready: false,
            first_result_taken: false,
            has_seen_content: false,
        }
    }

    /// Returns how many times in a row there was nothing to read.
    pub fn get_empty_stream_count(&self) -> (r: usize)
        ensures
            r == self@.empty_stream_count,
    {
        self.empty_stream_count
    }

    /// Forgets how many times there was nothing to read.
    pub fn reset_empty_stream_count(&mut self)
        ensures
            final(self)@ == (DecoderView { empty_stream_count: 0, ..old(self)@ }),
    {
        self.empty_stream_count = 0;
    }

    /// Returns the saved model call.
    pub fn get_saved_model_call_id(&self) -> (r: Option<String>)
        ensures
            text::opt(r) == self@.context.saved_model_call_id,
    {
        match &self.context.saved_model_call_id {
            Some(s) => Some(s.clone()),
            None => None,
        }
    }

    /// Takes the messages that were held back, once all that was received has been read.
    pub fn take_first_result(&mut self) -> (r: Option<Vec<StreamMessage>>)
        ensures
            if old(self)@.buffer.len() > 0 {
                r is None && final(self)@ == old(self)@
            } else {
                &&& old(self)@.first_result == match r {
                    Some(v) => Some(message::message_views(v@)),
                    None => None,
                }
                &&& final(self)@ == (DecoderView {
                    first_result: None,
                    first_result_taken: old(self)@.first_result_taken || r is Some,
                    ..old(self)@
                })
            },
    {
        if !self.buffer.is_empty() {
            return None;
        }
        if self.first_result.is_some() {
            self.first_result_taken = true;
        }
        self.first_result.take()
    }

    /// Returns `true` if not all that was received has been read.
    pub fn is_incomplete(&self) -> (r: bool)
        ensures
            r == (self@.buffer.len() > 0),
    {
        !self.buffer.is_empty()
    }

    /// Returns `true` if there is content among the messages that were held back.
    pub fn is_first_result_ready(&self) -> (r: bool)
        ensures
            r == self@.first_result_ready,
    {
        self.first_result_ready
    }

    /// Returns the number of finished tool calls.
    pub fn tool_processed(&self) -> (r: u32)
        ensures
            r == self@.context.processed,
    {
        self.context.processed
    }

    /// Takes the text of the answer, with the length and delay of each piece.
    pub fn take_content_delays(&mut self) -> (r: Option<(String, Vec<(u32, u64)>)>)
        ensures
            old(self)@.content_delays == match r {
                Some((s, v)) => Some((s@, v@)),
                None => None,
            },
            final(self)@ == (DecoderView { content_delays: None, ..old(self)@ }),
    {
        self.content_delays.take()
    }

    /// Takes the text of the reasoning.
    pub fn take_thinking_content(&mut self) -> (r: Option<String>)
        ensures
            old(self)@.thinking_content == text::opt(r),
            final(self)@ == (DecoderView { thinking_content: None, ..old(self)@ }),
    {
        self.thinking_content.take()
    }

    /// Holds no messages back.
    pub fn no_first_cache(self) -> (r: StreamDecoder)
        ensures
            r@ == (DecoderView {
                first_result_ready: true,
                first_result_taken: true,
                ..self@
            }),
    {
        let mut r = self;
        r.first_result_ready = true;
        r.first_result_taken = true;
        r
    }

    /// Receives bytes, and returns the payloads of the complete frames.
    pub fn accept(&mut self, data: &[u8]) -> (r: Result<Vec<Pending>, StreamError>)
        ensures
            if starves(old(self)@, data@) {
                r == Err::<Vec<Pending>, StreamError>(StreamError::EmptyStream) && final(self)@
                    == starved(old(self)@, data@)
            } else {
                &&& final(self)@ == fed(old(self)@, data@)
                &&& r is Ok
                &&& pending_views((r->Ok_0)@) == all_pending(
                    frame::frames_from(old(self)@.buffer + data@, 0),
                )
            },
    {
        self.buffer.extend_from_slice(data);
        if data.len() == 0 || self.buffer.len() < frame::HEAD {
            self.empty_stream_count = self.empty_stream_count.wrapping_add(1);
            return Err(StreamError::EmptyStream);
        }
        self.reset_empty_stream_count();
        if self.content_delays.is_none() {
            let delays: Vec<(u32, u64)> = Vec::new();
            self.content_delays = Some((String::new(), delays));
        }
        let (frames, _) = self.buffer.frames();
        let ghost fs = frame::raw_views(frames@);
        let mut out: Vec<Pending> = Vec::new();
        for f in it: frames.into_iter()
            invariant
                it.seq() == frames@,
                fs == frame::raw_views(frames@),
                out@.len() == it.index(),
                forall|i: int|
                    0 <= i < out@.len() ==> (#[trigger] out@[i])@ == pending(
                        fs[i].0,
                        fs[i].1,
                        codec::gunzipped(fs[i].1),
                    ),
        {
            assert(fs[it.index() as int] == (f.kind, f.data@));
            out.push(process_message(f));
        }
        assert(pending_views(out@) =~= all_pending(fs));
        Ok(out)
    }

    /// Notes a message.
    fn note(&mut self, msg: &StreamMessage, at: u64)
        requires
            old(self)@.content_delays is Some,
        ensures
            final(self)@ == noted(old(self)@, msg@, at),
            final(self)@.content_delays is Some,
    {
        if !self.has_seen_content && msg.any_content() {
            self.has_seen_content = true;
        }
        match msg {
            StreamMessage::Content(content) => {
                let delay: u64 = if at >= self.last_content_time {
                    at - self.last_content_time
                } else {
                    0
                };
                self.last_content_time = at;
                match &mut self.content_delays {
                    Some(delays) => {
                        delays.0.append(content.as_str());
                        delays.1.push((content.as_str().unicode_len() as u32, delay));
                    },
                    None => {},
                }
            },
            StreamMessage::Thinking(Thinking::Text(text)) => {
                match &mut self.thinking_content {
                    Some(all) => {
                        all.append(text.as_str());
                    },
                    None => {
                        self.thinking_content = Some(text.clone());
                    },
                }
            },
            _ => {},
        }
    }

    /// Turns a parsed payload into messages.
    fn take_in(
        &mut self,
        item: Decoded,
        convert_web_ref: bool,
        messages: &mut Vec<StreamMessage>,
    ) -> (r: Option<CursorError>)
        requires
            old(self)@.content_delays is Some,
        ensures
            ({
                let (d, m, e) = step(old(self)@, item@, convert_web_ref);
                &&& final(self)@ == d
                &&& final(self)@.content_delays is Some
                &&& message::message_views(final(messages)@) == message::message_views(
                    old(messages)@,
                ) + m
                &&& r == e
            }),
    {
        let ghost before = message::message_views(messages@);
        match item {
            Decoded::Skip => {
                assert(message::message_views(messages@) =~= before + Seq::empty());
                None
            },
            Decoded::End => {
                messages.push(StreamMessage::StreamEnd);
                assert(message::message_views(messages@) =~= before + seq![MessageView::StreamEnd]);
                None
            },
            Decoded::Json(e) => match e {
                Some(e) => {
                    if e.user_aborted_request {
                        messages.push(StreamMessage::StreamEnd);
                        assert(message::message_views(messages@) =~= before + seq![
                            MessageView::StreamEnd,
                        ]);
                        None
                    } else {
                        assert(message::message_views(messages@) =~= before + Seq::empty());
                        Some(e)
                    }
                },
                None => {
                    assert(message::message_views(messages@) =~= before + Seq::empty());
                    None
                },
            },
            Decoded::Text(r, at) => {
                match r {
                    Some(r) => match self.context.handle_text_message(r) {
                        Some(msg) => {
                            self.note(&msg, at);
                            let msg = if convert_web_ref {
                                msg.convert_web_ref_to_content()
                            } else {
                                msg
                            };
                            let ghost m = msg@;
                            messages.push(msg);
                            assert(message::message_views(messages@) =~= before + seq![m]);
                        },
                        None => {
                            assert(message::message_views(messages@) =~= before + Seq::empty());
                        },
                    },
                    None => {
                        assert(message::message_views(messages@) =~= before + Seq::empty());
                    },
                }
                None
            },
        }
    }

    /// Turns parsed payloads into messages.
    ///
    /// # Errors
    ///
    /// Returns the first error of the service; the frames are then not given up, and will be read
    /// again.
    pub fn finish(&mut self, decoded: Vec<Decoded>, convert_web_ref: bool) -> (r: Result<
        Vec<StreamMessage>,
        StreamError,
    >)
        requires
            old(self)@.content_delays is Some,
        ensures
            (final(self)@, answer(r)) == finished(
                old(self)@,
                decoded_views(decoded@),
                convert_web_ref,
            ),
    {
        let ghost items = decoded_views(decoded@);
        let ghost n = items.len() as int;
        let mut messages: Vec<StreamMessage> = Vec::new();
        proof {
            assert(items.take(0) =~= Seq::empty());
            assert(message::message_views(messages@) =~= Seq::empty());
        }
        for item in it: decoded.into_iter()
            invariant
                it.seq() == decoded@,
                n == items.len(),
                items == decoded_views(decoded@),
                self@.content_delays is Some,
                ({
                    let (d, m, e) = run(
                        old(self)@,
                        items.take(it.index() as int),
                        convert_web_ref,
                    );
                    &&& e is None
                    &&& self@ == d
                    &&& message::message_views(messages@) == m
                }),
        {
            let ghost k = it.index() as int;
            proof {
                assert(items[k] == item@);
                assert(items.take(k + 1).drop_last() =~= items.take(k));
                assert(items.take(k + 1).last() == items[k]);
            }
            if let Some(e) = self.take_in(item, convert_web_ref, &mut messages) {
                proof {
                    lemma_run_stops(old(self)@, items, convert_web_ref, k + 1);
                }
                return Err(StreamError::Upstream(e));
            }
        }
        proof {
            assert(items.take(n) =~= items);
        }
        let ghost d = self@;
        let ghost m = message::message_views(messages@);
        let (_, end) = self.buffer.frames();
        self.buffer.advance(end);
        if !self.first_result_taken && messages.len() > 0 {
            if self.first_result.is_none() {
                self.first_result = Some(messages);
                messages = Vec::new();
                proof {
                    assert(message::message_views(messages@) =~= Seq::empty());
                }
            } else if !self.first_result_ready {
                match &mut self.first_result {
                    Some(first_result) => {
                        let ghost f = first_result@;
                        let ghost g = messages@;
                        first_result.append(&mut messages);
                        proof {
                            assert(message::message_views(f + g) =~= message::message_views(f)
                                + message::message_views(g));
                            assert(message::message_views(messages@) =~= Seq::empty());
                        }
                    },
                    None => {},
                }
            }
        }
        if !self.first_result_ready {
            self.first_result_ready = self.first_result.is_some() && !self.first_result_taken
                && self.has_seen_content;
        }
        Ok(messages)
    }

    /// Receives bytes and turns the complete frames into messages.
    ///
    /// `parse` reads a response, `parse_error` an error of the service, and `clock` the time.
    pub fn decode<
        F: Fn(&Vec<u8>) -> Option<Response>,
        G: Fn(&Vec<u8>) -> Option<CursorError>,
        C: Fn() -> u64,
    >(
        &mut self,
        data: &[u8],
        convert_web_ref: bool,
        parse: &F,
        parse_error: &G,
        clock: &C,
    ) -> (r: Result<Vec<StreamMessage>, StreamError>)
        requires
            forall|b: &Vec<u8>| #[trigger] call_requires(*parse, (b,)),
            forall|b: &Vec<u8>| #[trigger] call_requires(*parse_error, (b,)),
            call_requires(*clock, ()),
        ensures
            exists|items: Seq<Decoded>|
                {
                    &&& !starves(old(self)@, data@) ==> parsed(
                        all_pending(frame::frames_from(old(self)@.buffer + data@, 0)),
                        items,
                        *parse,
                        *parse_error,
                        *clock,
                    )
                    &&& (final(self)@, answer(r)) == decoded(
                        old(self)@,
                        data@,
                        #[trigger] decoded_views(items),
                        convert_web_ref,
                    )
                },
    {
        let pendings = match self.accept(data) {
            Ok(v) => v,
            Err(e) => {
                assert(decoded_views(Seq::<Decoded>::empty()).len() == 0);
                return Err(e);
            },
        };
        let ghost ps = pending_views(pendings@);
        let mut items: Vec<Decoded> = Vec::new();
        let mut i: usize = 0;
        while i < pendings.len()
            invariant
                forall|b: &Vec<u8>| #[trigger] call_requires(*parse, (b,)),
                forall|b: &Vec<u8>| #[trigger] call_requires(*parse_error, (b,)),
                call_requires(*clock, ()),
                ps == pending_views(pendings@),
                i == items@.len() <= pendings@.len(),
                forall|k: int|
                    0 <= k < i ==> parsed_one(
                        ps[k],
                        #[trigger] items@[k],
                        *parse,
                        *parse_error,
                        *clock,
                    ),
            decreases pendings@.len() - i,
        {
            let item = match &pendings[i] {
                Pending::Skip => Decoded::Skip,
                Pending::End => Decoded::End,
                Pending::Text(b) => {
                    let r = parse(b);
                    let at: u64 = clock();
                    Decoded::Text(r, at)
                },
                Pending::Json(b) => Decoded::Json(parse_error(b)),
            };
            proof {
                assert(ps[i as int] == pendings@[i as int]@);
            }
            items.push(item);
            i += 1;
        }
        assert(parsed(ps, items@, *parse, *parse_error, *clock));
        let ghost all = items@;
        assert(decoded_views(all) == decoded_views(items@));
        self.finish(items, convert_web_ref)
    }
}

/// A new decoder.
pub open spec fn initial(model_call_id: Option<Seq<char>>, now: u64) -> DecoderView {
    DecoderView {
        buffer: Seq::empty(),
        first_result: None,
        content_delays: None,
        thinking_content: None,
        context: ContextView {
            raw_args_len: 0,
            processed: 0,
            saved_model_call_id: model_call_id,
        },
        empty_stream_count: 0,
        last_content_time: now,
        first_result_ready: false,
        first_result_taken: false,
        has_seen_content: false,
    }
}

/// What parsing made of a payload, and when.
pub open spec fn parsed_one<
    F: Fn(&Vec<u8>) -> Option<Response>,
    G: Fn(&Vec<u8>) -> Option<CursorError>,
    C: Fn() -> u64,
>(p: PendingView, item: Decoded, parse: F, parse_error: G, clock: C) -> bool {
    match (p, item) {
        (PendingView::Skip, Decoded::Skip) => true,
        (PendingView::End, Decoded::End) => true,
        (PendingView::Text(b), Decoded::Text(r, at)) => call_ensures(clock, (), at) && exists|
            v: Vec<u8>,
        |
            v@ == b && #[trigger] call_ensures(parse, (&v,), r),
        (PendingView::Json(b), Decoded::Json(e)) => exists|v: Vec<u8>|
            v@ == b && #[trigger] call_ensures(parse_error, (&v,), e),
        _ => false,
    }
}

/// What parsing made of the payloads, and when.
pub open spec fn parsed<
    F: Fn(&Vec<u8>) -> Option<Response>,
    G: Fn(&Vec<u8>) -> Option<CursorError>,
    C: Fn() -> u64,
>(p: Seq<PendingView>, items: Seq<Decoded>, parse: F, parse_error: G, clock: C) -> bool {
    &&& items.len() == p.len()
    &&& forall|k: int|
        0 <= k < items.len() ==> parsed_one(p[k], #[trigger] items[k], parse, parse_error, clock)
}

/// An error ends a run: what follows it is not taken in.
pub proof fn lemma_run_stops(
    d: DecoderView,
    items: Seq<DecodedView>,
    convert_web_ref: bool,
    k: int,
)
    requires
        0 <= k <= items.len(),
        run(d, items.take(k), convert_web_ref).2 is Some,
    ensures
        run(d, items, convert_web_ref) == run(d, items.take(k), convert_web_ref),
    decreases items.len(),
{
    if k == items.len() {
        assert(items.take(k) =~= items);
    } else {
        assert(items.drop_last().take(k) =~= items.take(k));
        lemma_run_stops(d, items.drop_last(), convert_web_ref, k);
    }
}

} // verus!
