use std::io::Write;

use cursor_api::decoder::{gather, show, split_messages, DecoderError, StreamDecoder as ChunkDecoder};
use cursor_api::stream::decoder::{
    classify, process_message, ChatResponse, CursorError, Decoded, McpTool, Pending, Response,
    StreamDecoder, StreamError, ToolCallResponse,
};
use cursor_api::stream::frame::{Buffer, RawMessage};
use cursor_api::stream::message::{StreamMessage, Thinking, ToolCall, WebReference};

fn frame(kind: u8, payload: &[u8]) -> Vec<u8> {
    let mut out = vec![kind];
    out.extend_from_slice(&(payload.len() as u32).to_be_bytes());
    out.extend_from_slice(payload);
    out
}

fn gzip(data: &[u8]) -> Vec<u8> {
    let mut encoder = flate2::write::GzEncoder::new(Vec::new(), flate2::Compression::default());
    encoder.write_all(data).unwrap();
    encoder.finish().unwrap()
}

fn brotli(data: &[u8]) -> Vec<u8> {
    let mut out = Vec::new();
    {
        let mut writer = brotli::CompressorWriter::new(&mut out, 4096, 5, 22);
        writer.write_all(data).unwrap();
    }
    out
}

fn content(text: &str) -> Response {
    Response::StreamUnifiedChatResponse(ChatResponse {
        text: text.to_owned(),
        thinking: None,
        web_citation: None,
    })
}

fn call(id: &str, model: Option<&str>, args: &str, streaming: bool, last: bool) -> ToolCallResponse {
    ToolCallResponse {
        tool_call_id: id.to_owned(),
        model_call_id: model.map(|m| m.to_owned()),
        raw_args: args.to_owned(),
        separator_spaced: true,
        is_streaming: streaming,
        is_last_message: last,
        tools: vec![McpTool {
            server_name: "custom".to_owned(),
            name: "read".to_owned(),
        }],
    }
}

fn text_of(bytes: &Vec<u8>) -> Option<Response> {
    String::from_utf8(bytes.clone()).ok().map(|s| content(&s))
}

fn error_of(bytes: &Vec<u8>) -> Option<CursorError> {
    let text = String::from_utf8(bytes.clone()).ok()?;
    Some(CursorError {
        user_aborted_request: text == "aborted",
        detail: text,
    })
}

fn decode(decoder: &mut StreamDecoder, data: &[u8]) -> Result<Vec<StreamMessage>, StreamError> {
    decoder.decode(data, false, &text_of, &error_of, &|| 50)
}

fn finish(decoder: &mut StreamDecoder, items: Vec<Decoded>) -> Vec<StreamMessage> {
    decoder.accept(&frame(0, b"x")).unwrap();
    decoder.finish(items, false).unwrap()
}

fn tools(messages: &[StreamMessage]) -> Vec<ToolCall> {
    messages
        .iter()
        .filter_map(|m| match m {
            StreamMessage::ToolCall(t) => Some(t.clone()),
            _ => None,
        })
        .collect()
}

#[test]
fn frames_are_cut_from_the_buffer() {
    let mut buffer = Buffer::new();
    assert!(buffer.is_empty());
    let mut bytes = frame(0, b"one");
    bytes.extend_from_slice(&frame(2, b""));
    bytes.extend_from_slice(&[0, 0, 0]);
    buffer.extend_from_slice(&bytes);
    let (frames, end) = buffer.frames();
    assert_eq!(frames.len(), 2);
    assert_eq!((frames[0].kind, frames[0].data.as_slice()), (0, &b"one"[..]));
    assert_eq!((frames[1].kind, frames[1].data.len()), (2, 0));
    assert_eq!(end, 13);
    buffer.advance(end);
    assert_eq!(buffer.len(), 3);
}

#[test]
fn payloads_are_classified() {
    assert_eq!(classify(0, vec![1], None), Pending::Text(vec![1]));
    assert_eq!(classify(1, vec![1], Some(vec![9])), Pending::Text(vec![9]));
    assert_eq!(classify(1, vec![1], None), Pending::Skip);
    assert_eq!(classify(2, vec![1, 2], None), Pending::End);
    assert_eq!(classify(2, vec![1, 2, 3], None), Pending::Json(vec![1, 2, 3]));
    assert_eq!(classify(4, vec![1], None), Pending::Skip);
    assert_eq!(classify(0, vec![], None), Pending::Skip);
}

#[test]
fn compressed_payloads_are_unpacked() {
    let data = gzip(b"hello");
    let pending = process_message(RawMessage {
        kind: 1,
        data: data.clone(),
    });
    assert_eq!(pending, Pending::Text(b"hello".to_vec()));
    let pending = process_message(RawMessage { kind: 0, data });
    assert!(matches!(pending, Pending::Text(d) if d != b"hello"));
    let pending = process_message(RawMessage {
        kind: 1,
        data: b"not gzip".to_vec(),
    });
    assert_eq!(pending, Pending::Skip);
}

#[test]
fn short_data_is_an_empty_stream() {
    let mut decoder = StreamDecoder::new(0);
    assert_eq!(decode(&mut decoder, &[]), Err(StreamError::EmptyStream));
    assert_eq!(decode(&mut decoder, &[0, 0]), Err(StreamError::EmptyStream));
    assert_eq!(decoder.get_empty_stream_count(), 2);
    assert!(decoder.is_incomplete());
    assert_eq!(decode(&mut decoder, &[0, 0, 0]), Ok(vec![]));
    assert_eq!(decoder.get_empty_stream_count(), 0);
    assert!(!decoder.is_incomplete());
}

#[test]
fn first_messages_are_held_back() {
    let mut decoder = StreamDecoder::new(10);
    assert!(!decoder.is_first_result_ready());
    assert_eq!(decode(&mut decoder, &frame(0, b"Hi")), Ok(vec![]));
    assert!(decoder.is_first_result_ready());
    assert_eq!(
        decoder.take_first_result(),
        Some(vec![StreamMessage::Content("Hi".to_owned())])
    );
    assert_eq!(decoder.take_first_result(), None);
    assert_eq!(
        decode(&mut decoder, &frame(0, b"!")),
        Ok(vec![StreamMessage::Content("!".to_owned())])
    );
    assert_eq!(
        decoder.take_content_delays(),
        Some(("Hi!".to_owned(), vec![(2, 40), (1, 0)]))
    );
    assert_eq!(decoder.take_content_delays(), None);
}

#[test]
fn first_result_waits_for_whole_frames() {
    let mut decoder = StreamDecoder::new(0);
    let mut bytes = frame(0, b"Hi");
    bytes.push(0);
    assert_eq!(decode(&mut decoder, &bytes), Ok(vec![]));
    assert_eq!(decoder.take_first_result(), None);
    assert!(decoder.is_incomplete());
}

#[test]
fn nothing_is_held_back_without_first_cache() {
    let mut decoder = StreamDecoder::new(0).no_first_cache();
    let mut bytes = frame(0, b"a");
    bytes.extend_from_slice(&frame(2, b"{}"));
    assert_eq!(
        decode(&mut decoder, &bytes),
        Ok(vec![
            StreamMessage::Content("a".to_owned()),
            StreamMessage::StreamEnd
        ])
    );
}

#[test]
fn split_data_gives_the_same_messages() {
    let mut bytes = frame(0, b"one");
    bytes.extend_from_slice(&frame(0, b"two"));
    bytes.extend_from_slice(&frame(2, b"{}"));
    let mut whole = StreamDecoder::new(0).no_first_cache();
    let expected = decode(&mut whole, &bytes).unwrap();
    for cut in 5..bytes.len() - 1 {
        let mut decoder = StreamDecoder::new(0).no_first_cache();
        let mut messages = decode(&mut decoder, &bytes[..cut]).unwrap();
        messages.extend(decode(&mut decoder, &bytes[cut..]).unwrap());
        assert_eq!(messages, expected);
    }
}

#[test]
fn errors_of_the_service() {
    let mut decoder = StreamDecoder::new(0).no_first_cache();
    assert_eq!(
        decode(&mut decoder, &frame(2, b"aborted")),
        Ok(vec![StreamMessage::StreamEnd])
    );
    let error = CursorError {
        user_aborted_request: false,
        detail: "limit".to_owned(),
    };
    assert_eq!(
        decode(&mut decoder, &frame(2, b"limit")),
        Err(StreamError::Upstream(error))
    );
    assert!(decoder.is_incomplete());
}

#[test]
fn reasoning_and_references() {
    let mut decoder = StreamDecoder::new(0).no_first_cache();
    let refs = vec![WebReference {
        title: "T".to_owned(),
        url: "https://t".to_owned(),
        chunk: "c".to_owned(),
    }];
    let thinking = Decoded::Text(
        Some(Response::StreamUnifiedChatResponse(ChatResponse {
            text: String::new(),
            thinking: Some(Thinking::Text("hm".to_owned())),
            web_citation: Some(refs.clone()),
        })),
        1,
    );
    let cited = Decoded::Text(
        Some(Response::StreamUnifiedChatResponse(ChatResponse {
            text: String::new(),
            thinking: None,
            web_citation: Some(refs.clone()),
        })),
        2,
    );
    let empty = Decoded::Text(Some(content("")), 3);
    decoder.accept(&frame(0, b"x")).unwrap();
    let messages = decoder
        .finish(vec![thinking, cited, empty, Decoded::Text(None, 4)], true)
        .unwrap();
    assert_eq!(
        messages,
        vec![
            StreamMessage::Thinking(Thinking::Text("hm".to_owned())),
            StreamMessage::Content("WebReferences:\n1. [T](https://t)\n\n".to_owned()),
        ]
    );
    assert_eq!(decoder.take_thinking_content(), Some("hm".to_owned()));
    assert_eq!(
        StreamMessage::WebReference(vec![]).convert_web_ref_to_content(),
        StreamMessage::Content(String::new())
    );
    assert!(!StreamMessage::StreamEnd.any_content());
    assert!(StreamMessage::Thinking(Thinking::Signature("s".to_owned())).any_content());
    assert!(!StreamMessage::Thinking(Thinking::RedactedThinking("s".to_owned())).any_content());
}

#[test]
fn tool_calls_share_the_first_model_call() {
    let mut decoder = StreamDecoder::new(0).no_first_cache();
    let items = vec![
        Decoded::Text(
            Some(Response::ClientSideToolV2Call(call("a", Some("m1"), "{}", false, true))),
            0,
        ),
        Decoded::Text(
            Some(Response::ClientSideToolV2Call(call("b", Some("m2"), "{}", false, true))),
            0,
        ),
        Decoded::Text(
            Some(Response::ClientSideToolV2Call(call("c", None, "{}", false, true))),
            0,
        ),
    ];
    let found = tools(&finish(&mut decoder, items));
    let ids: Vec<&str> = found.iter().map(|t| t.id.as_str()).collect();
    assert_eq!(ids, vec!["a\nmc_m1", "b\nmc_m1", "c"]);
    assert_eq!(decoder.get_saved_model_call_id(), Some("m1".to_owned()));
    assert_eq!(decoder.tool_processed(), 3);
}

#[test]
fn saved_model_call_is_used_from_the_start() {
    let mut decoder =
        StreamDecoder::with_model_call_id(Some("kept".to_owned()), 0).no_first_cache();
    let items = vec![Decoded::Text(
        Some(Response::ClientSideToolV2Call(call("a", Some("m1"), "{}", false, true))),
        0,
    )];
    assert_eq!(tools(&finish(&mut decoder, items))[0].id, "a\nmc_kept");
}

#[test]
fn streamed_arguments_are_passed_on_in_pieces() {
    let mut decoder = StreamDecoder::new(0).no_first_cache();
    let long = format!("{{\"a\": \"{}\"", "x".repeat(100));
    let whole = format!("{}}}", long);
    let mut hidden = call("a", None, "{\"a", true, false);
    hidden.separator_spaced = false;
    let items = vec![
        Decoded::Text(Some(Response::ClientSideToolV2Call(hidden)), 0),
        Decoded::Text(
            Some(Response::ClientSideToolV2Call(call("a", None, "{\"a\": ", true, false))),
            0,
        ),
        Decoded::Text(
            Some(Response::ClientSideToolV2Call(call("a", None, "{\"a\": ", true, false))),
            0,
        ),
        Decoded::Text(
            Some(Response::ClientSideToolV2Call(call("a", None, &long, true, false))),
            0,
        ),
        Decoded::Text(
            Some(Response::ClientSideToolV2Call(call("a", None, "{", true, false))),
            0,
        ),
        Decoded::Text(
            Some(Response::ClientSideToolV2Call(call("a", None, &whole, true, true))),
            0,
        ),
    ];
    let found = tools(&finish(&mut decoder, items));
    assert_eq!(found.len(), 3);
    let joined: String = found.iter().map(|t| t.input.as_str()).collect();
    assert_eq!(joined, whole);
    assert_eq!(
        found.iter().map(|t| t.is_last).collect::<Vec<bool>>(),
        vec![false, false, true]
    );
    assert_eq!(found[0].name, "read");
    assert_eq!(decoder.tool_processed(), 1);
}

#[test]
fn growing_arguments_are_passed_on_once() {
    let mut decoder = StreamDecoder::new(0).no_first_cache();
    let parts = ["{\"a\": ", "{\"a\": \"é", "{\"a\": \"éß\"}"];
    let items = parts
        .iter()
        .enumerate()
        .map(|(i, args)| {
            Decoded::Text(
                Some(Response::ClientSideToolV2Call(call("a", None, args, true, i == 2))),
                0,
            )
        })
        .collect();
    let found = tools(&finish(&mut decoder, items));
    assert_eq!(
        found.iter().map(|t| (t.input.as_str(), t.is_last)).collect::<Vec<(&str, bool)>>(),
        vec![("{\"a\": ", false), ("\"é", false), ("ß\"}", true)]
    );
    assert_eq!(decoder.tool_processed(), 1);
}

#[test]
fn chunks_of_whole_frames_give_the_same_messages() {
    let chunks = vec![
        frame(0, b"one"),
        [frame(1, &gzip(b"two")), frame(0, b"")].concat(),
        [frame(0, b"three"), frame(2, b"{}")].concat(),
    ];
    let mut whole = StreamDecoder::new(0).no_first_cache();
    let expected = decode(&mut whole, &chunks.concat()).unwrap();
    assert_eq!(expected.len(), 4);
    let mut decoder = StreamDecoder::new(0).no_first_cache();
    let mut messages = Vec::new();
    for chunk in &chunks {
        messages.extend(decode(&mut decoder, chunk).unwrap());
        assert!(!decoder.is_incomplete());
    }
    assert_eq!(messages, expected);
}

#[test]
fn names_of_tools_carry_their_server() {
    let mut response = call("a", None, "{}", false, true);
    response.tools[0].server_name = "files".to_owned();
    let mut unnamed = call("b", None, "{}", false, true);
    unnamed.tools = vec![];
    let mut decoder = StreamDecoder::new(0).no_first_cache();
    let items = vec![
        Decoded::Text(Some(Response::ClientSideToolV2Call(response)), 0),
        Decoded::Text(Some(Response::ClientSideToolV2Call(unnamed)), 0),
    ];
    let found = tools(&finish(&mut decoder, items));
    assert_eq!(found[0].name, "mcp__files__read");
    assert_eq!(found[1].name, "");
}

fn message(text: &str) -> Vec<u8> {
    let mut body = vec![0x0a, text.len() as u8];
    body.extend_from_slice(text.as_bytes());
    let mut out = vec![0, 0, 0, 0, body.len() as u8];
    out.extend_from_slice(&body);
    out
}

#[test]
fn chunks_of_messages() {
    let decoder = ChunkDecoder::new();
    let mut data = message("Hello, ");
    data.extend_from_slice(&message("world"));
    data.extend_from_slice(&[0, 0, 0]);
    assert_eq!(split_messages(&data).len(), 2);
    assert_eq!(decoder.process_chunk(&data), Ok("Hello, world".to_owned()));
    assert_eq!(decoder.process_chunk(&[]), Ok(String::new()));
    assert_eq!(decoder.process_chunk(&[0, 0, 0, 0, 9, 1]), Ok(String::new()));
}

#[test]
fn chunks_of_compressed_text() {
    let decoder = ChunkDecoder::new();
    let mut data = vec![0x1f, 0xff, 0xff, 0xff, 0xff];
    data.extend_from_slice(&gzip("grüße".as_bytes()));
    assert_eq!(decoder.process_chunk(&data), Ok("grüße".to_owned()));
    let mut data = vec![0x0b, 0xff, 0xff, 0xff, 0xff];
    data.extend_from_slice(&brotli(b"compressed"));
    assert_eq!(decoder.process_chunk(&data), Ok("compressed".to_owned()));
    let mut data = vec![0x1f, 0xff, 0xff, 0xff, 0xff];
    data.extend_from_slice(&gzip(b"<|BEGIN_SYSTEM|> secret"));
    assert_eq!(decoder.process_chunk(&data), Ok(String::new()));
    let mut data = vec![0x1f, 0xff, 0xff, 0xff, 0xff];
    data.extend_from_slice(b"no gzip");
    assert_eq!(decoder.process_chunk(&data), Ok(String::new()));
}

#[test]
fn texts_are_gathered_and_shown() {
    assert_eq!(gather(&vec![None, None]), None);
    assert_eq!(
        gather(&vec![Some("a".to_owned()), None, Some("b".to_owned())]),
        Some("ab".to_owned())
    );
    assert_eq!(gather(&vec![Some(String::new())]), Some(String::new()));
    assert_eq!(show(Some(b"ok".to_vec())), "ok");
    assert_eq!(show(Some(vec![0xff])), "");
    assert_eq!(show(None), "");
}

#[test]
fn messages_of_decoder_errors() {
    assert_eq!(DecoderError::InvalidLength.message(), "Invalid message length");
    assert_eq!(DecoderError::HexDecode("x".to_owned()).message(), "Hex decode error: x");
    assert_eq!(DecoderError::ProtoDecode("x".to_owned()).message(), "Proto decode error: x");
    assert_eq!(DecoderError::Decompress("x".to_owned()).message(), "Decompression error: x");
    assert_eq!(DecoderError::Utf8("x".to_owned()).message(), "UTF-8 decode error: x");
}
