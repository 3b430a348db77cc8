use cursor_api::adapter::anthropic::{
    add_to, download_urls, encode_tool_result, image_sources, instructions, outline,
    process_base64_image, process_message_params, size_hint, with_format,
};
use cursor_api::adapter::content::{
    AdapterError, ContentBlockParam, DocumentSource, Image, ImageFormat, ImageSource,
    ImageSourceBase64, MediaType, MessageContent, MessageParam, MessageType, RawContent, Role,
    SystemContent, Tool, ToolResultContent, ToolResultContentBlock, UnifiedMode,
};
use cursor_api::adapter::tool_id::ToolId;
use cursor_api::adapter::tool_name::ToolName;
use cursor_api::stream::message::WebReference;

fn base64(data: &str) -> ImageSource {
    ImageSource::Base64(ImageSourceBase64 {
        media_type: MediaType::ImagePng,
        data: data.to_owned(),
    })
}

fn url(text: &str) -> ImageSource {
    ImageSource::Url {
        url: text.to_owned(),
    }
}

fn text(text: &str) -> ContentBlockParam {
    ContentBlockParam::Text {
        text: text.to_owned(),
    }
}

fn user(content: MessageContent) -> MessageParam {
    MessageParam {
        role: Role::User,
        content,
    }
}

fn assistant(content: MessageContent) -> MessageParam {
    MessageParam {
        role: Role::Assistant,
        content,
    }
}

fn plain(s: &str) -> MessageContent {
    MessageContent::Text(s.to_owned())
}

fn image() -> Image {
    Image {
        data: vec![1, 2, 3],
        width: 4,
        height: 5,
    }
}

fn no_links(_: &str) -> Vec<String> {
    vec![]
}

fn links(text: &str) -> Vec<String> {
    text.split(' ')
        .filter_map(|w| w.strip_prefix('@'))
        .map(|w| w.to_owned())
        .collect()
}

fn references(text: String) -> (String, Vec<WebReference>, bool) {
    match text.strip_prefix("web:") {
        Some(rest) => (
            rest.to_owned(),
            vec![WebReference {
                title: "t".to_owned(),
                url: "u".to_owned(),
                chunk: String::new(),
            }],
            true,
        ),
        None => (text, vec![], false),
    }
}

#[test]
fn tool_ids_are_joined_and_taken_apart() {
    let id = ToolId::format("tool_1".to_owned(), Some("session".to_owned()));
    assert_eq!(id, "tool_1\nmc_session");
    let parsed = ToolId::parse(&id);
    assert_eq!(parsed.tool_call_id, "tool_1");
    assert_eq!(parsed.model_call_id, Some("session".to_owned()));
    let parsed = ToolId::parse("tool_1");
    assert_eq!(parsed.tool_call_id, "tool_1");
    assert_eq!(parsed.model_call_id, None);
    assert_eq!(ToolId::format("x".to_owned(), None), "x");
    let id = ToolId::format("a\nmc".to_owned(), Some("b".to_owned()));
    let parsed = ToolId::parse(&id);
    assert_eq!(parsed.tool_call_id, "a\nmc");
    assert_eq!(parsed.model_call_id, Some("b".to_owned()));
}

#[test]
fn tool_names_are_taken_apart() {
    let name = ToolName::parse("mcp__files__read_all");
    assert_eq!(name.server_name, "files");
    assert_eq!(name.name, "read_all");
    assert_eq!(name.tool_name, "mcp_files_read_all");
    let name = ToolName::parse("read");
    assert_eq!(name.server_name, "custom");
    assert_eq!(name.name, "read");
    assert_eq!(name.tool_name, "mcp_custom_read");
    let name = ToolName::parse("mcp__read");
    assert_eq!(name.server_name, "custom");
    assert_eq!(name.name, "read");
}

#[test]
fn base64_images_are_decoded() {
    let source = ImageSourceBase64 {
        media_type: MediaType::ImageWebp,
        data: "aGVsbG8=".to_owned(),
    };
    assert_eq!(
        process_base64_image(&source),
        Ok((b"hello".to_vec(), ImageFormat::WebP))
    );
    let broken = ImageSourceBase64 {
        media_type: MediaType::ImagePng,
        data: "aGVsbG8".to_owned(),
    };
    assert_eq!(
        process_base64_image(&broken),
        Err(AdapterError::Base64DecodeFailed)
    );
    assert_eq!(
        with_format(Some(vec![7]), MediaType::ImageGif),
        Ok((vec![7], ImageFormat::Gif))
    );
    assert_eq!(
        with_format(Some(vec![7]), MediaType::ImageJpeg),
        Ok((vec![7], ImageFormat::Jpeg))
    );
    assert_eq!(base64("x").extract().unwrap().data, "x");
    assert_eq!(url("https://x").extract(), Err("https://x"));
}

#[test]
fn results_of_tools() {
    let none: Option<ToolResultContent> = None;
    assert_eq!(size_hint(&none), None);
    assert_eq!(add_to(&none, &vec![], 0), Ok((vec![], 0)));
    let one = Some(ToolResultContent::Text("done".to_owned()));
    assert_eq!(size_hint(&one), Some(1));
    assert_eq!(
        add_to(&one, &vec![], 0),
        Ok((vec![RawContent::Text("done".to_owned())], 0))
    );
    let fetched = RawContent::Image {
        data: "AAAA".to_owned(),
        mime_type: "image/gif".to_owned(),
    };
    let blocks = Some(ToolResultContent::Blocks(vec![
        ToolResultContentBlock::Text {
            text: "a".to_owned(),
        },
        ToolResultContentBlock::Image {
            source: base64("aGVsbG8="),
        },
        ToolResultContentBlock::Image {
            source: url("https://example.com/i.gif"),
        },
    ]));
    assert_eq!(size_hint(&blocks), Some(3));
    assert_eq!(
        add_to(&blocks, &vec![Ok(fetched.clone())], 0),
        Ok((
            vec![
                RawContent::Text("a".to_owned()),
                RawContent::Image {
                    data: "aGVsbG8=".to_owned(),
                    mime_type: "image/png".to_owned(),
                },
                fetched,
            ],
            1
        ))
    );
    assert_eq!(
        add_to(&blocks, &vec![Err(AdapterError::ImageUnavailable)], 0),
        Err(AdapterError::ImageUnavailable)
    );
    assert_eq!(
        add_to(&blocks, &vec![], 0),
        Err(AdapterError::ImageUnavailable)
    );
}

#[test]
fn broken_results_of_tools() {
    let broken = Some(ToolResultContent::Blocks(vec![ToolResultContentBlock::Image {
        source: base64("???"),
    }]));
    assert_eq!(
        add_to(&broken, &vec![], 0),
        Err(AdapterError::Base64DecodeFailed)
    );
    let nowhere = Some(ToolResultContent::Blocks(vec![ToolResultContentBlock::Image {
        source: url("not a url"),
    }]));
    assert_eq!(
        add_to(&nowhere, &vec![], 0),
        Err(AdapterError::UrlParseFailed)
    );
    assert_eq!(
        encode_tool_result(&nowhere, true, "a", "t".to_owned(), &vec![]),
        Err(AdapterError::UrlParseFailed)
    );
}

#[test]
fn result_of_a_tool_goes_upstream_by_itself() {
    let result = Some(ToolResultContent::Text("ok".to_owned()));
    let message =
        encode_tool_result(&result, false, "call_1\nmc_m", "read".to_owned(), &vec![]).unwrap();
    assert_eq!(message.tool_call_id, "call_1");
    assert_eq!(message.model_call_id, Some("m".to_owned()));
    assert_eq!(message.tool_index, None);
    assert_eq!(message.selected_tool, "read");
    assert_eq!(message.contents, vec![RawContent::Text("ok".to_owned())]);
    assert!(!message.is_error);
}

#[test]
fn instructions_come_from_the_request() {
    assert_eq!(instructions(None, "default".to_owned()), "default");
    assert_eq!(
        instructions(Some(SystemContent::Text("own".to_owned())), "default".to_owned()),
        "own"
    );
    assert_eq!(
        instructions(
            Some(SystemContent::Blocks(vec!["a".to_owned(), "b".to_owned()])),
            "default".to_owned()
        ),
        "a\nb"
    );
    assert_eq!(
        instructions(Some(SystemContent::Blocks(vec![])), "default".to_owned()),
        ""
    );
}

#[test]
fn request_without_messages() {
    let (instructions, messages, found) = process_message_params(
        &vec![],
        None,
        "default".to_owned(),
        vec![19],
        true,
        &vec![],
        &vec![],
        &no_links,
        &references,
        true,
    )
    .unwrap();
    assert_eq!(instructions, "default");
    assert_eq!(messages.len(), 1);
    assert_eq!(messages[0].message_type, MessageType::Human);
    assert_eq!(messages[0].unified_mode, UnifiedMode::Chat);
    assert!(messages[0].supported_tools.is_empty());
    assert!(found.is_empty());
}

#[test]
fn first_message_of_the_assistant_gets_one_of_the_user_before_it() {
    let params = vec![assistant(plain("web:hello"))];
    let (_, messages, _) = process_message_params(
        &params,
        None,
        String::new(),
        vec![19],
        true,
        &vec![],
        &vec![],
        &no_links,
        &references,
        true,
    )
    .unwrap();
    assert_eq!(messages.len(), 2);
    assert_eq!(messages[0].message_type, MessageType::Human);
    assert_eq!(messages[0].text, "");
    assert!(messages[0].is_agentic);
    assert_eq!(messages[1].message_type, MessageType::Ai);
    assert_eq!(messages[1].text, "hello");
    assert_eq!(messages[1].use_web, Some(true));
    assert_eq!(messages[1].web_references.len(), 1);
    assert!(messages[1].has_server_bubble);
    assert!(!messages[1].is_agentic);
    assert_eq!(messages[1].supported_tools, vec![19]);
    assert_eq!(messages[1].unified_mode, UnifiedMode::Agent);
}

#[test]
fn images_documents_and_links_are_numbered() {
    let params = vec![
        user(MessageContent::Blocks(vec![
            text("see @https://a"),
            ContentBlockParam::Image {
                source: base64("x"),
            },
            ContentBlockParam::Document {
                source: DocumentSource::Base64 {
                    data: "pdf".to_owned(),
                },
            },
            text("and @https://b"),
        ])),
        user(MessageContent::Blocks(vec![
            ContentBlockParam::Document {
                source: DocumentSource::Url {
                    url: "https://doc".to_owned(),
                },
            },
            text("@https://c"),
        ])),
    ];
    assert_eq!(image_sources(&params, true), vec![&base64("x")]);
    assert!(image_sources(&params, false).is_empty());
    let (_, messages, found) = process_message_params(
        &params,
        None,
        String::new(),
        vec![],
        true,
        &vec![Ok(image())],
        &vec![],
        &links,
        &references,
        false,
    )
    .unwrap();
    assert_eq!(messages.len(), 2);
    assert_eq!(messages[0].text, "see @https://a\nand @https://b");
    assert_eq!(messages[0].images, vec![(image(), 0)]);
    let numbers: Vec<(u64, &str)> = messages[0]
        .external_links
        .iter()
        .map(|l| (l.number, l.url.as_str()))
        .collect();
    assert_eq!(numbers, vec![(1, ""), (2, "https://a\nand"), (3, "https://b")]);
    assert!(messages[0].external_links[0].is_pdf);
    assert_eq!(messages[0].external_links[0].pdf_content, "pdf");
    assert_eq!(messages[0].external_links[0].filename, "document.pdf");
    let numbers: Vec<(u64, &str)> = found.iter().map(|l| (l.number, l.url.as_str())).collect();
    assert_eq!(numbers, vec![(4, "https://doc"), (5, "https://c")]);
}

#[test]
fn images_are_left_out_without_support() {
    let params = vec![user(MessageContent::Blocks(vec![
        ContentBlockParam::Image {
            source: base64("x"),
        },
        text("hi"),
    ]))];
    let drafts = outline(&params, false, &vec![], &vec![]).unwrap();
    assert!(drafts[0].images.is_empty());
    assert_eq!(drafts[0].text, "hi");
    assert!(matches!(
        outline(&params, true, &vec![], &vec![]),
        Err(AdapterError::ImageUnavailable)
    ));
    assert!(matches!(
        outline(&params, true, &vec![Err(AdapterError::Base64DecodeFailed)], &vec![]),
        Err(AdapterError::Base64DecodeFailed)
    ));
}

fn tool_use(id: &str) -> ContentBlockParam {
    ContentBlockParam::ToolUse {
        id: id.to_owned(),
        name: "read".to_owned(),
        input: "{\"path\":\"a\"}".to_owned(),
    }
}

fn tool_result(id: &str) -> ContentBlockParam {
    ContentBlockParam::ToolResult {
        tool_use_id: id.to_owned(),
        content: Some(ToolResultContent::Blocks(vec![ToolResultContentBlock::Image {
            source: url("https://example.com/i.png"),
        }])),
        is_error: true,
    }
}

#[test]
fn call_and_result_of_a_tool_become_one_message() {
    let id = "call_1\nmc_session";
    let params = vec![
        user(plain("go")),
        assistant(MessageContent::Blocks(vec![text("reading"), tool_use(id)])),
        user(MessageContent::Blocks(vec![tool_result(id)])),
    ];
    assert_eq!(download_urls(&params), vec!["https://example.com/i.png".to_owned()]);
    let fetched = RawContent::Image {
        data: "AAAA".to_owned(),
        mime_type: "image/png".to_owned(),
    };
    let (_, messages, _) = process_message_params(
        &params,
        None,
        String::new(),
        vec![1, 2],
        true,
        &vec![],
        &vec![Ok(fetched.clone())],
        &no_links,
        &references,
        true,
    )
    .unwrap();
    assert_eq!(messages.len(), 3);
    assert_eq!(messages[1].text, "reading");
    assert!(messages[1].tool_results.is_empty());
    let record = &messages[2].tool_results[0];
    assert_eq!(record.tool_call_id, "call_1");
    assert_eq!(record.model_call_id, Some("session".to_owned()));
    assert_eq!(record.tool_name, "mcp_custom_read");
    assert_eq!(record.name, "read");
    assert_eq!(record.server_name, "custom");
    assert_eq!(record.tool_index, 1);
    assert_eq!(record.raw_args, "{\"path\":\"a\"}");
    assert_eq!(record.contents, vec![fetched]);
    assert!(record.is_error);
    assert_eq!(messages[2].message_type, MessageType::Ai);
    assert_eq!(messages[2].supported_tools, vec![1, 2]);
}

#[test]
fn call_without_its_result_is_left_out() {
    let params = vec![
        assistant(MessageContent::Blocks(vec![tool_use("a")])),
        user(MessageContent::Blocks(vec![tool_result("b")])),
    ];
    assert!(download_urls(&params).is_empty());
    let drafts = outline(&params, true, &vec![], &vec![]).unwrap();
    assert_eq!(drafts.len(), 3);
    assert!(drafts.iter().all(|d| d.tool.is_none()));
    let params = vec![
        assistant(MessageContent::Blocks(vec![tool_use("a")])),
        user(MessageContent::Blocks(vec![tool_result("a"), text("more")])),
    ];
    let drafts = outline(&params, true, &vec![], &vec![]).unwrap();
    assert!(drafts.iter().all(|d| d.tool.is_none()));
}

#[test]
fn reasoning_is_merged() {
    let thinking = |s: &str| ContentBlockParam::Thinking {
        thinking: s.to_owned(),
        signature: "sig".to_owned(),
    };
    let redacted = ContentBlockParam::RedactedThinking {
        data: "hidden".to_owned(),
    };
    let one = vec![assistant(MessageContent::Blocks(vec![redacted.clone(), text("x")]))];
    let drafts = outline(&one, true, &vec![], &vec![]).unwrap();
    let block = drafts[1].thinking.clone().unwrap();
    assert_eq!(block.redacted_thinking, "hidden");
    assert_eq!(block.text, "");
    let single = vec![assistant(MessageContent::Blocks(vec![thinking("a")]))];
    let drafts = outline(&single, true, &vec![], &vec![]).unwrap();
    assert_eq!(drafts[1].thinking.clone().unwrap().signature, "sig");
    let many = vec![assistant(MessageContent::Blocks(vec![
        thinking("a"),
        redacted,
        thinking("b"),
    ]))];
    let drafts = outline(&many, true, &vec![], &vec![]).unwrap();
    let block = drafts[1].thinking.clone().unwrap();
    assert_eq!(block.text, "ab");
    assert_eq!(block.signature, "");
    assert_eq!(block.redacted_thinking, "");
    let none = vec![assistant(MessageContent::Blocks(vec![text("x"), text("y")]))];
    let drafts = outline(&none, true, &vec![], &vec![]).unwrap();
    assert!(drafts[1].thinking.is_none());
    assert_eq!(drafts[1].text, "x\ny");
}

#[test]
fn names_of_called_tools_are_read_back() {
    let name = ToolName::parse("mcp__files__read__all");
    assert_eq!((name.server_name.as_str(), name.name.as_str()), ("files", "read__all"));
    let name = ToolName::parse("mcp__my_files__read");
    assert_eq!((name.server_name.as_str(), name.name.as_str()), ("my_files", "read"));
    let tool = Tool {
        name: "n".to_owned(),
        description: None,
        input_schema: "{}".to_owned(),
    };
    assert_eq!(tool.extract(), ("n".to_owned(), None, "{}".to_owned()));
}
