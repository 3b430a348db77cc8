//! Requests of the Anthropic interface.
//!
//! A request is converted in two steps. [`outline`] takes the messages apart and leaves one draft
//! for each; [`assemble`] makes the messages that go upstream of the drafts and of what was found
//! in their texts. Images that have to be read or fetched are handed in, in the order in which
//! [`image_sources`] and [`download_urls`] list them.

use vstd::prelude::*;
use crate::adapter::content;
use crate::adapter::content::{
    AdapterError, ComposerExternalLink, ContentBlockParam, ConversationMessage, DocumentSource,
    Image, ImageFormat, ImageSource, ImageSourceBase64, MediaType, MessageContent, MessageParam,
    MessageType, RawContent, Role, SystemContent, ThinkingBlock, ToolRecord, ToolResultContent,
    ToolResultContentBlock, UnifiedMode,
};
use crate::adapter::tool_id;
use crate::adapter::tool_id::ToolId;
use crate::codec;
use crate::stream::message;
use crate::stream::message::WebReference;
use crate::text;

verus! {

/// The format of an image of the type.
pub open spec fn format_of(media_type: MediaType) -> ImageFormat {
    match media_type {
        MediaType::ImagePng => ImageFormat::Png,
        MediaType::ImageJpeg => ImageFormat::Jpeg,
        MediaType::ImageGif => ImageFormat::Gif,
        MediaType::ImageWebp => ImageFormat::WebP,
    }
}

/// Returns the bytes and the format of an image in base64.
///
/// # Errors
///
/// Returns an error if the data is not valid base64.
pub fn process_base64_image(params: &ImageSourceBase64) -> (r: Result<
    (Vec<u8>, ImageFormat),
    AdapterError,
>)
    ensures
        match codec::base64_decoded(params.data@) {
            Some(data) => r matches Ok(image) && image.0@ == data && image.1 == format_of(
                params.media_type,
            ),
            None => r == Err::<(Vec<u8>, ImageFormat), AdapterError>(
                AdapterError::Base64DecodeFailed,
            ),
        },
{
    with_format(codec::decode_base64(params.data.as_str()), params.media_type)
}

/// Returns decoded data with the format of an image of the type.
///
/// # Errors
///
/// Returns an error if there is no data.
pub fn with_format(data: Option<Vec<u8>>, media_type: MediaType) -> (r: Result<
    (Vec<u8>, ImageFormat),
    AdapterError,
>)
    ensures
        match data {
            Some(d) => r == Ok::<(Vec<u8>, ImageFormat), AdapterError>((d, format_of(media_type))),
            None => r == Err::<(Vec<u8>, ImageFormat), AdapterError>(
                AdapterError::Base64DecodeFailed,
            ),
        },
{
    let image_data = match data {
        Some(d) => d,
        None => return Err(AdapterError::Base64DecodeFailed),
    };
    let format = match media_type {
        MediaType::ImagePng => ImageFormat::Png,
        MediaType::ImageJpeg => ImageFormat::Jpeg,
        MediaType::ImageGif => ImageFormat::Gif,
        MediaType::ImageWebp => ImageFormat::WebP,
    };
    Ok((image_data, format))
}

/// How many pieces the result of a tool has; nothing where there is no result.
pub fn size_hint(content: &Option<ToolResultContent>) -> (r: Option<usize>)
    ensures
        r == (match *content {
            None => None,
            Some(ToolResultContent::Text(_)) => Some(1usize),
            Some(ToolResultContent::Blocks(blocks)) => Some(blocks@.len() as usize),
        }),
{
    match content {
        None => None,
        Some(ToolResultContent::Text(_)) => Some(1),
        Some(ToolResultContent::Blocks(blocks)) => Some(blocks.len()),
    }
}

/// The download with the number; one that was not made failed.
pub open spec fn download_at(
    downloads: Seq<Result<RawContent, AdapterError>>,
    k: nat,
) -> Result<content::RawView, AdapterError> {
    if k < downloads.len() {
        match downloads[k as int] {
            Ok(raw) => Ok(raw@),
            Err(e) => Err(e),
        }
    } else {
        Err(AdapterError::ImageUnavailable)
    }
}

/// The piece that a block of a result becomes, where the next download is number `used`.
pub open spec fn raw_of(
    block: ToolResultContentBlock,
    downloads: Seq<Result<RawContent, AdapterError>>,
    used: nat,
) -> Result<content::RawView, AdapterError> {
    match block {
        ToolResultContentBlock::Text { text } => Ok(content::RawView::Text(text@)),
        ToolResultContentBlock::Image { source: ImageSource::Base64(b) } => if codec::base64_valid(
            b.data@,
        ) {
            Ok(content::RawView::Image { data: b.data@, mime_type: b.media_type.mime() })
        } else {
            Err(AdapterError::Base64DecodeFailed)
        },
        ToolResultContentBlock::Image { source: ImageSource::Url { url } } => if codec::is_url(
            url@,
        ) {
            download_at(downloads, used)
        } else {
            Err(AdapterError::UrlParseFailed)
        },
    }
}

/// The block is an image that has to be downloaded.
pub open spec fn needs_download(block: ToolResultContentBlock) -> bool {
    block matches ToolResultContentBlock::Image { source: ImageSource::Url { .. } }
}

/// The pieces that the blocks from `k` on become, behind those before, and the number of the next
/// download.
pub open spec fn raws_from(
    blocks: Seq<ToolResultContentBlock>,
    downloads: Seq<Result<RawContent, AdapterError>>,
    k: int,
    raws: Seq<content::RawView>,
    used: nat,
) -> Result<(Seq<content::RawView>, nat), AdapterError>
    decreases blocks.len() - k,
{
    if 0 <= k < blocks.len() {
        match raw_of(blocks[k], downloads, used) {
            Ok(raw) => raws_from(
                blocks,
                downloads,
                k + 1,
                raws.push(raw),
                if needs_download(blocks[k]) {
                    used + 1
                } else {
                    used
                },
            ),
            Err(e) => Err(e),
        }
    } else {
        Ok((raws, used))
    }
}

/// The pieces of the result of a tool, and the number of the next download.
pub open spec fn result_of(
    result: Option<ToolResultContent>,
    downloads: Seq<Result<RawContent, AdapterError>>,
    used: nat,
) -> Result<(Seq<content::RawView>, nat), AdapterError> {
    match result {
        None => Ok((Seq::empty(), used)),
        Some(ToolResultContent::Text(s)) => Ok((seq![content::RawView::Text(s@)], used)),
        Some(ToolResultContent::Blocks(blocks)) => raws_from(
            blocks@,
            downloads,
            0,
            Seq::empty(),
            used,
        ),
    }
}

fn take_download(downloads: &Vec<Result<RawContent, AdapterError>>, k: usize) -> (r: Result<
    RawContent,
    AdapterError,
>)
    ensures
        match download_at(downloads@, k as nat) {
            Ok(raw) => r matches Ok(x) && x@ == raw,
            Err(e) => r == Err::<RawContent, AdapterError>(e),
        },
{
    if k < downloads.len() {
        match &downloads[k] {
            Ok(raw) => Ok(raw.copy()),
            Err(e) => Err(*e),
        }
    } else {
        Err(AdapterError::ImageUnavailable)
    }
}

/// Converts the result of a tool to pieces, and returns the number of the next download.
///
/// # Errors
///
/// Returns an error if an image is not valid base64 or has no valid address, or could not be
/// downloaded: the first that fails decides.
pub fn add_to(
    result: &Option<ToolResultContent>,
    downloads: &Vec<Result<RawContent, AdapterError>>,
    first: usize,
) -> (r: Result<(Vec<RawContent>, usize), AdapterError>)
    requires
        first <= downloads@.len(),
    ensures
        match result_of(*result, downloads@, first as nat) {
            Ok((raws, used)) => r matches Ok(x) && content::raw_views(x.0@) == raws && x.1 == used
                && used <= downloads@.len(),
            Err(e) => r == Err::<(Vec<RawContent>, usize), AdapterError>(e),
        },
{
    let mut raws: Vec<RawContent> = Vec::new();
    let mut used: usize = first;
    assert(content::raw_views(raws@) =~= Seq::empty());
    match result {
        None => {},
        Some(ToolResultContent::Text(s)) => {
            raws.push(RawContent::Text(s.clone()));
            assert(content::raw_views(raws@) =~= seq![content::RawView::Text(s@)]);
        },
        Some(ToolResultContent::Blocks(blocks)) => {
            let mut k: usize = 0;
            while k < blocks.len()
                invariant
                    k <= blocks@.len(),
                    used <= downloads@.len(),
                    raws_from(
                        blocks@,
                        downloads@,
                        k as int,
                        content::raw_views(raws@),
                        used as nat,
                    ) == result_of(*result, downloads@, first as nat),
                decreases blocks@.len() - k,
            {
                let ghost before = content::raw_views(raws@);
                let raw = match &blocks[k] {
                    ToolResultContentBlock::Text { text } => RawContent::Text(text.clone()),
                    ToolResultContentBlock::Image { source: ImageSource::Base64(b) } => {
                        if !codec::check_base64(b.data.as_str()) {
                            return Err(AdapterError::Base64DecodeFailed);
                        }
                        RawContent::Image {
                            data: b.data.clone(),
                            mime_type: b.media_type.as_mime().to_owned(),
                        }
                    },
                    ToolResultContentBlock::Image { source: ImageSource::Url { url } } => {
                        if !codec::parses_as_url(url.as_str()) {
                            return Err(AdapterError::UrlParseFailed);
                        }
                        match take_download(downloads, used) {
                            Ok(raw) => {
                                assert(used < downloads.len());
                                used += 1;
                                raw
                            },
                            Err(e) => return Err(e),
                        }
                    },
                };
                raws.push(raw);
                assert(content::raw_views(raws@) =~= before.push(raw@));
                k += 1;
            }
        },
    }
    Ok((raws, used))
}

/// The result of a tool, as it goes upstream by itself.
#[derive(Debug, Clone, PartialEq)]
pub struct ToolResultMessage {
    pub tool_call_id: String,
    pub model_call_id: Option<String>,
    pub tool_index: Option<u32>,
    pub selected_tool: String,
    pub contents: Vec<RawContent>,
    pub is_error: bool,
}

/// Converts the result of a tool to what goes upstream by itself.
///
/// # Errors
///
/// Returns an error if an image in the result cannot be converted.
pub fn encode_tool_result(
    result: &Option<ToolResultContent>,
    is_error: bool,
    tool_use_id: &str,
    tool_name: String,
    downloads: &Vec<Result<RawContent, AdapterError>>,
) -> (r: Result<ToolResultMessage, AdapterError>)
    ensures
        match result_of(*result, downloads@, 0) {
            Ok((contents, _)) => {
                &&& r matches Ok(m)
                &&& (m.tool_call_id@, text::opt(m.model_call_id)) == tool_id::parsed(tool_use_id@)
                &&& m.tool_index is None
                &&& m.selected_tool == tool_name
                &&& content::raw_views(m.contents@) == contents
                &&& m.is_error == is_error
            },
            Err(e) => r == Err::<ToolResultMessage, AdapterError>(e),
        },
{
    let (contents, _) = match add_to(result, downloads, 0) {
        Ok(x) => x,
        Err(e) => return Err(e),
    };
    let parsed = ToolId::parse(tool_use_id);
    Ok(
        ToolResultMessage {
            tool_call_id: parsed.tool_call_id,
            model_call_id: parsed.model_call_id,
            tool_index: None,
            selected_tool: tool_name,
            contents,
            is_error,
        },
    )
}

/// The prepared image with the number; one that was not prepared failed.
pub open spec fn image_at(images: Seq<Result<Image, AdapterError>>, k: nat) -> Result<
    content::ImageView,
    AdapterError,
> {
    if k < images.len() {
        match images[k as int] {
            Ok(image) => Ok(image@),
            Err(e) => Err(e),
        }
    } else {
        Err(AdapterError::ImageUnavailable)
    }
}

fn take_image(images: &Vec<Result<Image, AdapterError>>, k: usize) -> (r: Result<
    Image,
    AdapterError,
>)
    ensures
        match image_at(images@, k as nat) {
            Ok(image) => r matches Ok(x) && x@ == image,
            Err(e) => r == Err::<Image, AdapterError>(e),
        },
{
    if k < images.len() {
        match &images[k] {
            Ok(image) => Ok(image.copy()),
            Err(e) => Err(*e),
        }
    } else {
        Err(AdapterError::ImageUnavailable)
    }
}

/// What the blocks of a user's message amount to.
///
/// Images and links share one numbering, which starts anew with each message.
pub struct UserParts {
    pub texts: Seq<Seq<char>>,
    pub images: Seq<(content::ImageView, nat)>,
    pub links: Seq<content::LinkView>,
    /// The next number.
    pub numbers: nat,
    /// The number of the next prepared image.
    pub used: nat,
}

/// The link of a document.
pub open spec fn document_link(source: DocumentSource, number: nat) -> content::LinkView {
    match source {
        DocumentSource::Base64 { data } => content::LinkView {
            url: Seq::empty(),
            number,
            pdf_content: data@,
            is_pdf: true,
            filename: "document.pdf"@,
        },
        DocumentSource::Url { url } => content::LinkView {
            url: url@,
            number,
            pdf_content: Seq::empty(),
            is_pdf: false,
            filename: Seq::empty(),
        },
    }
}

/// The parts with one more block.
pub open spec fn user_step(
    block: ContentBlockParam,
    image_support: bool,
    images: Seq<Result<Image, AdapterError>>,
    p: UserParts,
) -> Result<UserParts, AdapterError> {
    match block {
        ContentBlockParam::Text { text } => Ok(UserParts { texts: p.texts.push(text@), ..p }),
        ContentBlockParam::Image { .. } => if image_support {
            match image_at(images, p.used) {
                Ok(image) => Ok(
                    UserParts {
                        images: p.images.push((image, p.numbers)),
                        numbers: p.numbers + 1,
                        used: p.used + 1,
                        ..p
                    },
                ),
                Err(e) => Err(e),
            }
        } else {
            Ok(p)
        },
        ContentBlockParam::Document { source } => Ok(
            UserParts {
                links: p.links.push(document_link(source, p.numbers)),
                numbers: p.numbers + 1,
                ..p
            },
        ),
        _ => Ok(p),
    }
}

/// The parts with the blocks from `k` on.
pub open spec fn user_from(
    blocks: Seq<ContentBlockParam>,
    image_support: bool,
    images: Seq<Result<Image, AdapterError>>,
    k: int,
    p: UserParts,
) -> Result<UserParts, AdapterError>
    decreases blocks.len() - k,
{
    if 0 <= k < blocks.len() {
        match user_step(blocks[k], image_support, images, p) {
            Ok(q) => user_from(blocks, image_support, images, k + 1, q),
            Err(e) => Err(e),
        }
    } else {
        Ok(p)
    }
}

/// The parts of a user's message whose first prepared image has the number.
pub open spec fn user_parts(
    blocks: Seq<ContentBlockParam>,
    image_support: bool,
    images: Seq<Result<Image, AdapterError>>,
    used: nat,
) -> Result<UserParts, AdapterError> {
    user_from(
        blocks,
        image_support,
        images,
        0,
        UserParts {
            texts: Seq::empty(),
            images: Seq::empty(),
            links: Seq::empty(),
            numbers: 0,
            used,
        },
    )
}

/// What stands between the texts of a message.
pub open spec fn newline() -> Seq<char> {
    "\n"@
}

/// A message taken apart.
pub struct Draft {
    pub role: Role,
    pub text: String,
    pub images: Vec<(Image, u64)>,
    pub links: Vec<ComposerExternalLink>,
    /// How many images and links there are.
    pub numbers: u64,
    pub thinking: Option<ThinkingBlock>,
    /// A call of a tool, with the result that the next message gave.
    pub tool: Option<ToolRecord>,
}

/// [`Draft`] as characters.
pub struct DraftView {
    pub role: Role,
    pub text: Seq<char>,
    pub images: Seq<(content::ImageView, nat)>,
    pub links: Seq<content::LinkView>,
    pub numbers: nat,
    pub thinking: Option<content::ThinkingBlockView>,
    pub tool: Option<content::RecordView>,
}

impl View for Draft {
    type V = DraftView;

    open spec fn view(&self) -> DraftView {
        DraftView {
            role: self.role,
            text: self.text@,
            images: content::image_views(self.images@),
            links: content::link_views(self.links@),
            numbers: self.numbers as nat,
            thinking: content::thinking_opt(self.thinking),
            tool: content::record_opt(self.tool),
        }
    }
}

/// The views of drafts.
pub open spec fn draft_views(v: Seq<Draft>) -> Seq<DraftView> {
    Seq::new(v.len(), |i: int| v[i]@)
}

/// The draft of a message that is only text.
pub open spec fn text_draft(role: Role, text: Seq<char>) -> DraftView {
    DraftView {
        role,
        text,
        images: Seq::empty(),
        links: Seq::empty(),
        numbers: 0,
        thinking: None,
        tool: None,
    }
}

/// The draft of a user's message with the parts.
pub open spec fn user_draft(p: UserParts) -> DraftView {
    DraftView {
        role: Role::User,
        text: text::joined(p.texts, newline()),
        images: p.images,
        links: p.links,
        numbers: p.numbers,
        thinking: None,
        tool: None,
    }
}

fn draft_of_text(role: Role, text: String) -> (r: Draft)
    ensures
        r@ == text_draft(role, text@),
{
    let r = Draft {
        role,
        text,
        images: Vec::new(),
        links: Vec::new(),
        numbers: 0,
        thinking: None,
        tool: None,
    };
    assert(r@.images =~= Seq::empty());
    assert(r@.links =~= Seq::empty());
    r
}

fn draft_of_user(
    blocks: &Vec<ContentBlockParam>,
    image_support: bool,
    images: &Vec<Result<Image, AdapterError>>,
    first: usize,
) -> (r: Result<(Draft, usize), AdapterError>)
    requires
        first <= images@.len(),
    ensures
        match user_parts(blocks@, image_support, images@, first as nat) {
            Ok(p) => r matches Ok(x) && x.0@ == user_draft(p) && x.1 == p.used && p.used
                <= images@.len(),
            Err(e) => r == Err::<(Draft, usize), AdapterError>(e),
        },
{
    let mut texts: Vec<String> = Vec::new();
    let mut shown: Vec<(Image, u64)> = Vec::new();
    let mut links: Vec<ComposerExternalLink> = Vec::new();
    let mut numbers: u64 = 0;
    let mut used: usize = first;
    let mut k: usize = 0;
    let ghost mut p = UserParts {
        texts: Seq::empty(),
        images: Seq::empty(),
        links: Seq::empty(),
        numbers: 0,
        used: first as nat,
    };
    assert(text::views(texts@) =~= p.texts);
    assert(content::image_views(shown@) =~= p.images);
    assert(content::link_views(links@) =~= p.links);
    while k < blocks.len()
        invariant
            k <= blocks@.len(),
            numbers <= k,
            used <= images@.len(),
            text::views(texts@) == p.texts,
            content::image_views(shown@) == p.images,
            content::link_views(links@) == p.links,
            numbers == p.numbers,
            used == p.used,
            user_from(blocks@, image_support, images@, k as int, p) == user_parts(
                blocks@,
                image_support,
                images@,
                first as nat,
            ),
        decreases blocks@.len() - k,
    {
        let ghost q = p;
        match &blocks[k] {
            ContentBlockParam::Text { text } => {
                texts.push(text.clone());
                proof {
                    p = UserParts { texts: q.texts.push(text@), ..q };
                    assert(text::views(texts@) =~= p.texts);
                }
            },
            ContentBlockParam::Image { source } => {
                if image_support {
                    match take_image(images, used) {
                        Ok(image) => {
                            shown.push((image, numbers));
                            proof {
                                p = UserParts {
                                    images: q.images.push((image@, q.numbers)),
                                    numbers: q.numbers + 1,
                                    used: q.used + 1,
                                    ..q
                                };
                                assert(content::image_views(shown@) =~= p.images);
                            }
                            assert(used < images.len());
                            numbers += 1;
                            used += 1;
                        },
                        Err(e) => return Err(e),
                    }
                }
            },
            ContentBlockParam::Document { source } => {
                let link = match source {
                    DocumentSource::Base64 { data } => ComposerExternalLink {
                        url: String::new(),
                        number: numbers,
                        pdf_content: data.clone(),
                        is_pdf: true,
                        filename: "document.pdf".to_owned(),
                    },
                    DocumentSource::Url { url } => ComposerExternalLink {
                        url: url.clone(),
                        number: numbers,
                        pdf_content: String::new(),
                        is_pdf: false,
                        filename: String::new(),
                    },
                };
                links.push(link);
                proof {
                    assert(link@ == document_link(*source, q.numbers));
                    p = UserParts {
                        links: q.links.push(link@),
                        numbers: q.numbers + 1,
                        ..q
                    };
                    assert(content::link_views(links@) =~= p.links);
                }
                numbers += 1;
            },
            _ => {},
        }
        k += 1;
    }
    let text = text::join(&texts, "\n");
    let draft = Draft {
        role: Role::User,
        text,
        images: shown,
        links,
        numbers,
        thinking: None,
        tool: None,
    };
    Ok((draft, used))
}

/// The texts of the first `n` blocks.
pub open spec fn texts_of(blocks: Seq<ContentBlockParam>, n: int) -> Seq<Seq<char>>
    decreases n,
{
    if n <= 0 {
        Seq::empty()
    } else {
        match blocks[n - 1] {
            ContentBlockParam::Text { text } => texts_of(blocks, n - 1).push(text@),
            _ => texts_of(blocks, n - 1),
        }
    }
}

/// The reasoning in the first `n` blocks.
pub open spec fn thinking_of(blocks: Seq<ContentBlockParam>, n: int) -> Seq<
    content::ThinkingBlockView,
>
    decreases n,
{
    if n <= 0 {
        Seq::empty()
    } else {
        match blocks[n - 1] {
            ContentBlockParam::Thinking { thinking, signature } => thinking_of(blocks, n - 1).push(
                content::ThinkingBlockView {
                    text: thinking@,
                    signature: signature@,
                    redacted_thinking: Seq::empty(),
                },
            ),
            ContentBlockParam::RedactedThinking { data } => thinking_of(blocks, n - 1).push(
                content::ThinkingBlockView {
                    text: Seq::empty(),
                    signature: Seq::empty(),
                    redacted_thinking: data@,
                },
            ),
            _ => thinking_of(blocks, n - 1),
        }
    }
}

/// The texts of the first `n` pieces of reasoning, one behind the other.
pub open spec fn thinking_text(blocks: Seq<content::ThinkingBlockView>, n: int) -> Seq<char>
    decreases n,
{
    if n <= 0 {
        Seq::empty()
    } else {
        thinking_text(blocks, n - 1) + blocks[n - 1].text
    }
}

/// The reasoning of a message: a single piece as it is, the texts of more than one in one piece.
pub open spec fn merged(blocks: Seq<content::ThinkingBlockView>) -> Option<
    content::ThinkingBlockView,
> {
    if blocks.len() == 0 {
        None
    } else if blocks.len() == 1 {
        Some(blocks[0])
    } else {
        Some(
            content::ThinkingBlockView {
                text: thinking_text(blocks, blocks.len() as int),
                signature: Seq::empty(),
                redacted_thinking: Seq::empty(),
            },
        )
    }
}

fn merge_thinking(blocks: Vec<ThinkingBlock>) -> (r: Option<ThinkingBlock>)
    ensures
        content::thinking_opt(r) == merged(content::thinking_views(blocks@)),
{
    let mut blocks = blocks;
    let ghost all = content::thinking_views(blocks@);
    if blocks.len() == 0 {
        None
    } else if blocks.len() == 1 {
        blocks.pop()
    } else {
        let mut text = String::new();
        let mut k: usize = 0;
        while k < blocks.len()
            invariant
                k <= blocks@.len(),
                all == content::thinking_views(blocks@),
                text@ == thinking_text(all, k as int),
            decreases blocks@.len() - k,
        {
            text.append(blocks[k].text.as_str());
            k += 1;
        }
        Some(ThinkingBlock { text, signature: String::new(), redacted_thinking: String::new() })
    }
}

/// The call of a tool that a message ends with: its identifier, name and input.
pub open spec fn last_call(param: MessageParam) -> Option<(Seq<char>, Seq<char>, Seq<char>)> {
    if param.role != Role::Assistant {
        None
    } else {
        match param.content {
            MessageContent::Blocks(blocks) => if blocks@.len() == 0 {
                None
            } else {
                match blocks@.last() {
                    ContentBlockParam::ToolUse { id, name, input } => Some((id@, name@, input@)),
                    _ => None,
                }
            },
            _ => None,
        }
    }
}

/// The result that is all that a user's message holds: the identifier of its call, its content and
/// whether it is an error.
pub open spec fn only_result(param: MessageParam) -> Option<
    (Seq<char>, Option<ToolResultContent>, bool),
> {
    if param.role != Role::User {
        None
    } else {
        match param.content {
            MessageContent::Blocks(blocks) => if blocks@.len() != 1 {
                None
            } else {
                match blocks@[0] {
                    ContentBlockParam::ToolResult { tool_use_id, content, is_error } => Some(
                        (tool_use_id@, content, is_error),
                    ),
                    _ => None,
                }
            },
            _ => None,
        }
    }
}

/// The message ends with a call of a tool, and the next message is its result and nothing else.
pub open spec fn answered(params: Seq<MessageParam>, i: int) -> bool {
    &&& 0 <= i
    &&& i + 1 < params.len()
    &&& last_call(params[i]) is Some
    &&& only_result(params[i + 1]) is Some
    &&& (last_call(params[i])->0).0 == (only_result(params[i + 1])->0).0
}

/// The call of a tool with its result.
pub open spec fn record_of(
    tool_use_id: Seq<char>,
    name: Seq<char>,
    input: Seq<char>,
    contents: Seq<content::RawView>,
    is_error: bool,
) -> content::RecordView {
    let (tool_call_id, model_call_id) = tool_id::parsed(tool_use_id);
    content::RecordView {
        tool_call_id,
        model_call_id,
        tool_name: "mcp_custom_"@ + name,
        name,
        server_name: "custom"@,
        tool_index: 1,
        raw_args: input,
        contents,
        is_error,
    }
}

/// The call of a tool that the message ends with and its result in the next message, and the
/// number of the next download.
pub open spec fn answer_of(
    params: Seq<MessageParam>,
    i: int,
    downloads: Seq<Result<RawContent, AdapterError>>,
    used: nat,
) -> Result<(content::RecordView, nat), AdapterError> {
    let (_, name, input) = last_call(params[i])->0;
    let (id, result, is_error) = only_result(params[i + 1])->0;
    match result_of(result, downloads, used) {
        Ok((contents, next)) => Ok((record_of(id, name, input, contents, is_error), next)),
        Err(e) => Err(e),
    }
}

/// What is handed in with a request.
pub struct Outside {
    pub image_support: bool,
    pub images: Seq<Result<Image, AdapterError>>,
    pub downloads: Seq<Result<RawContent, AdapterError>>,
}

/// The drafts of the messages before, and the numbers of the next image and download.
pub struct Outlined {
    pub drafts: Seq<DraftView>,
    pub images: nat,
    pub downloads: nat,
}

/// The drafts with that of the message, and the position of the next message.
pub open spec fn outline_step(params: Seq<MessageParam>, o: Outside, i: int, st: Outlined) -> Result<
    (Outlined, int),
    AdapterError,
> {
    match params[i].content {
        MessageContent::Text(s) => Ok(
            (Outlined { drafts: st.drafts.push(text_draft(params[i].role, s@)), ..st }, i + 1),
        ),
        MessageContent::Blocks(blocks) => match params[i].role {
            Role::User => match user_parts(blocks@, o.image_support, o.images, st.images) {
                Ok(p) => Ok(
                    (
                        Outlined { drafts: st.drafts.push(user_draft(p)), images: p.used, ..st },
                        i + 1,
                    ),
                ),
                Err(e) => Err(e),
            },
            Role::Assistant => {
                let n = blocks@.len() as int;
                let plain = DraftView {
                    thinking: merged(thinking_of(blocks@, n)),
                    ..text_draft(Role::Assistant, text::joined(texts_of(blocks@, n), newline()))
                };
                if answered(params, i) {
                    match answer_of(params, i, o.downloads, st.downloads) {
                        Ok((record, next)) => Ok(
                            (
                                Outlined {
                                    drafts: st.drafts.push(
                                        DraftView { tool: Some(record), ..plain },
                                    ),
                                    downloads: next,
                                    ..st
                                },
                                i + 2,
                            ),
                        ),
                        Err(e) => Err(e),
                    }
                } else {
                    Ok((Outlined { drafts: st.drafts.push(plain), ..st }, i + 1))
                }
            },
        },
    }
}

/// The drafts with those of the messages from `i` on.
pub open spec fn outlined_from(params: Seq<MessageParam>, o: Outside, i: int, st: Outlined) -> Result<
    Seq<DraftView>,
    AdapterError,
>
    decreases params.len() - i,
{
    if 0 <= i < params.len() {
        match outline_step(params, o, i, st) {
            Ok((next, j)) => if j > i {
                outlined_from(params, o, j, next)
            } else {
                Ok(next.drafts)
            },
            Err(e) => Err(e),
        }
    } else {
        Ok(st.drafts)
    }
}

/// The drafts of the messages; before a first message of the assistant stands an empty one of the
/// user.
pub open spec fn outlined(params: Seq<MessageParam>, o: Outside) -> Result<
    Seq<DraftView>,
    AdapterError,
> {
    let first = if params.len() > 0 && params[0].role == Role::Assistant {
        seq![text_draft(Role::User, Seq::empty())]
    } else {
        Seq::empty()
    };
    outlined_from(params, o, 0, Outlined { drafts: first, images: 0, downloads: 0 })
}

fn draft_of_assistant(blocks: &Vec<ContentBlockParam>) -> (r: Draft)
    ensures
        r@ == (DraftView {
            thinking: merged(thinking_of(blocks@, blocks@.len() as int)),
            ..text_draft(
                Role::Assistant,
                text::joined(texts_of(blocks@, blocks@.len() as int), newline()),
            )
        }),
{
    let mut texts: Vec<String> = Vec::new();
    let mut thoughts: Vec<ThinkingBlock> = Vec::new();
    let mut k: usize = 0;
    assert(text::views(texts@) =~= Seq::empty());
    assert(content::thinking_views(thoughts@) =~= Seq::empty());
    while k < blocks.len()
        invariant
            k <= blocks@.len(),
            text::views(texts@) == texts_of(blocks@, k as int),
            content::thinking_views(thoughts@) == thinking_of(blocks@, k as int),
        decreases blocks@.len() - k,
    {
        let ghost said = text::views(texts@);
        let ghost thought = content::thinking_views(thoughts@);
        match &blocks[k] {
            ContentBlockParam::Text { text } => {
                texts.push(text.clone());
                assert(text::views(texts@) =~= said.push(text@));
            },
            ContentBlockParam::Thinking { thinking, signature } => {
                let t = ThinkingBlock {
                    text: thinking.clone(),
                    signature: signature.clone(),
                    redacted_thinking: String::new(),
                };
                thoughts.push(t);
                assert(content::thinking_views(thoughts@) =~= thought.push(t@));
            },
            ContentBlockParam::RedactedThinking { data } => {
                let t = ThinkingBlock {
                    text: String::new(),
                    signature: String::new(),
                    redacted_thinking: data.clone(),
                };
                thoughts.push(t);
                assert(content::thinking_views(thoughts@) =~= thought.push(t@));
            },
            _ => {},
        }
        k += 1;
    }
    let mut draft = draft_of_text(Role::Assistant, text::join(&texts, "\n"));
    draft.thinking = merge_thinking(thoughts);
    draft
}

fn is_answered(params: &Vec<MessageParam>, i: usize) -> (r: bool)
    requires
        i < params@.len(),
    ensures
        r == answered(params@, i as int),
{
    if params.len() - i < 2 || params[i].role != Role::Assistant || params[i + 1].role
        != Role::User {
        return false;
    }
    match (&params[i].content, &params[i + 1].content) {
        (MessageContent::Blocks(calls), MessageContent::Blocks(results)) => {
            if calls.len() == 0 || results.len() != 1 {
                return false;
            }
            match (&calls[calls.len() - 1], &results[0]) {
                (
                    ContentBlockParam::ToolUse { id, name, input },
                    ContentBlockParam::ToolResult { tool_use_id, content, is_error },
                ) => text::equal(id.as_str(), tool_use_id.as_str()),
                _ => false,
            }
        },
        _ => false,
    }
}

fn record_answer(
    params: &Vec<MessageParam>,
    i: usize,
    downloads: &Vec<Result<RawContent, AdapterError>>,
    first: usize,
) -> (r: Result<(ToolRecord, usize), AdapterError>)
    requires
        answered(params@, i as int),
        first <= downloads@.len(),
    ensures
        match answer_of(params@, i as int, downloads@, first as nat) {
            Ok((record, used)) => r matches Ok(x) && x.0@ == record && x.1 == used && used
                <= downloads@.len(),
            Err(e) => r == Err::<(ToolRecord, usize), AdapterError>(e),
        },
{
    assert(i + 1 < params.len());
    match (&params[i].content, &params[i + 1].content) {
        (MessageContent::Blocks(calls), MessageContent::Blocks(results)) => {
            match (&calls[calls.len() - 1], &results[0]) {
                (
                    ContentBlockParam::ToolUse { id, name, input },
                    ContentBlockParam::ToolResult { tool_use_id, content, is_error },
                ) => {
                    let (contents, used) = match add_to(content, downloads, first) {
                        Ok(x) => x,
                        Err(e) => return Err(e),
                    };
                    let parsed = ToolId::parse(tool_use_id.as_str());
                    let record = ToolRecord {
                        tool_call_id: parsed.tool_call_id,
                        model_call_id: parsed.model_call_id,
                        tool_name: "mcp_custom_".to_owned().concat(name.as_str()),
                        name: name.clone(),
                        server_name: "custom".to_owned(),
                        tool_index: 1,
                        raw_args: input.clone(),
                        contents,
                        is_error: *is_error,
                    };
                    Ok((record, used))
                },
                _ => vstd::pervasive::unreached(),
            }
        },
        _ => vstd::pervasive::unreached(),
    }
}

/// Takes the messages of a request apart.
///
/// # Errors
///
/// Returns an error if an image or the result of a tool cannot be converted: the first that fails
/// decides.
pub fn outline(
    params: &Vec<MessageParam>,
    image_support: bool,
    images: &Vec<Result<Image, AdapterError>>,
    downloads: &Vec<Result<RawContent, AdapterError>>,
) -> (r: Result<Vec<Draft>, AdapterError>)
    ensures
        match outlined(
            params@,
            Outside { image_support, images: images@, downloads: downloads@ },
        ) {
            Ok(drafts) => r matches Ok(x) && draft_views(x@) == drafts,
            Err(e) => r == Err::<Vec<Draft>, AdapterError>(e),
        },
{
    let ghost o = Outside { image_support, images: images@, downloads: downloads@ };
    let mut drafts: Vec<Draft> = Vec::new();
    assert(draft_views(drafts@) =~= Seq::empty());
    if params.len() > 0 && params[0].role == Role::Assistant {
        drafts.push(draft_of_text(Role::User, String::new()));
        assert(draft_views(drafts@) =~= seq![text_draft(Role::User, Seq::empty())]);
    }
    let mut i: usize = 0;
    let mut shown: usize = 0;
    let mut fetched: usize = 0;
    while i < params.len()
        invariant
            i <= params@.len(),
            shown <= images@.len(),
            fetched <= downloads@.len(),
            o == (Outside { image_support, images: images@, downloads: downloads@ }),
            outlined_from(
                params@,
                o,
                i as int,
                Outlined {
                    drafts: draft_views(drafts@),
                    images: shown as nat,
                    downloads: fetched as nat,
                },
            ) == outlined(params@, o),
        decreases params@.len() - i,
    {
        let ghost before = draft_views(drafts@);
        let mut next: usize = i + 1;
        let draft = match &params[i].content {
            MessageContent::Text(s) => draft_of_text(params[i].role, s.clone()),
            MessageContent::Blocks(blocks) => match params[i].role {
                Role::User => match draft_of_user(blocks, image_support, images, shown) {
                    Ok((draft, used)) => {
                        shown = used;
                        draft
                    },
                    Err(e) => return Err(e),
                },
                Role::Assistant => {
                    let mut draft = draft_of_assistant(blocks);
                    if is_answered(params, i) {
                        match record_answer(params, i, downloads, fetched) {
                            Ok((record, used)) => {
                                draft.tool = Some(record);
                                fetched = used;
                                next = i + 2;
                            },
                            Err(e) => return Err(e),
                        }
                    }
                    draft
                },
            },
        };
        drafts.push(draft);
        assert(draft_views(drafts@) =~= before.push(draft@));
        i = next;
    }
    Ok(drafts)
}

/// What was found in the text of a draft.
pub struct Found {
    /// In a message of the assistant: its text without the list of references.
    pub text: String,
    /// In a message of the assistant: the references.
    pub references: Vec<WebReference>,
    /// In a message of the assistant: whether it used the web.
    pub uses_web: bool,
    /// In a message of the user: the links.
    pub links: Vec<String>,
}

/// [`Found`] as characters.
pub struct FoundView {
    pub text: Seq<char>,
    pub references: Seq<message::WebReferenceView>,
    pub uses_web: bool,
    pub links: Seq<Seq<char>>,
}

impl View for Found {
    type V = FoundView;

    open spec fn view(&self) -> FoundView {
        FoundView {
            text: self.text@,
            references: message::ref_views(self.references@),
            uses_web: self.uses_web,
            links: text::views(self.links@),
        }
    }
}

/// The views of drafts with what was found in them.
pub open spec fn pair_views(v: Seq<(Draft, Found)>) -> Seq<(DraftView, FoundView)> {
    Seq::new(v.len(), |i: int| (v[i].0@, v[i].1@))
}

/// The number that lies `n` behind the base; numbers start anew behind the last one.
pub open spec fn number_after(base: u64, n: u64) -> u64 {
    if base + n > u64::MAX {
        (base + n - u64::MAX - 1) as u64
    } else {
        (base + n) as u64
    }
}

/// The images with the numbers behind the base.
pub open spec fn numbered_images(images: Seq<(content::ImageView, nat)>, base: u64) -> Seq<
    (content::ImageView, nat),
> {
    Seq::new(images.len(), |i: int| (images[i].0, number_after(base, images[i].1 as u64) as nat))
}

/// The links with the numbers behind the base.
pub open spec fn numbered_links(links: Seq<content::LinkView>, base: u64) -> Seq<
    content::LinkView,
> {
    Seq::new(
        links.len(),
        |i: int|
            content::LinkView {
                number: number_after(base, links[i].number as u64) as nat,
                ..links[i]
            },
    )
}

/// Links that were found, numbered from the base on.
pub open spec fn found_links(urls: Seq<Seq<char>>, base: u64) -> Seq<content::LinkView> {
    Seq::new(
        urls.len(),
        |i: int|
            content::LinkView {
                url: urls[i],
                number: number_after(base, i as u64) as nat,
                pdf_content: Seq::empty(),
                is_pdf: false,
                filename: Seq::empty(),
            },
    )
}

/// The mode of a conversation.
pub open spec fn mode_of(is_agentic: bool) -> UnifiedMode {
    if is_agentic {
        UnifiedMode::Agent
    } else {
        UnifiedMode::Chat
    }
}

/// The message of a draft.
pub open spec fn message_of(d: DraftView, f: FoundView, base: u64, is_agentic: bool) ->
    content::ConversationView {
    let is_user = d.role == Role::User;
    content::ConversationView {
        text: if is_user {
            d.text
        } else {
            f.text
        },
        message_type: if is_user {
            MessageType::Human
        } else {
            MessageType::Ai
        },
        images: numbered_images(d.images, base),
        has_server_bubble: !is_user,
        tool_results: Seq::empty(),
        is_agentic: is_agentic && is_user,
        web_references: if is_user {
            Seq::empty()
        } else {
            f.references
        },
        thinking: d.thinking,
        unified_mode: mode_of(is_agentic),
        supported_tools: Seq::empty(),
        external_links: numbered_links(d.links, base) + if is_user {
            found_links(f.links, number_after(base, d.numbers as u64))
        } else {
            Seq::empty()
        },
        use_web: if !is_user && f.uses_web {
            Some(true)
        } else {
            None
        },
    }
}

/// The message with the call of a tool and its result.
pub open spec fn tool_message(record: content::RecordView, is_agentic: bool) ->
    content::ConversationView {
    content::ConversationView {
        text: Seq::empty(),
        message_type: MessageType::Ai,
        images: Seq::empty(),
        has_server_bubble: true,
        tool_results: seq![record],
        is_agentic: false,
        web_references: Seq::empty(),
        thinking: None,
        unified_mode: mode_of(is_agentic),
        supported_tools: Seq::empty(),
        external_links: Seq::empty(),
        use_web: None,
    }
}

/// The messages of a draft.
pub open spec fn messages_of(d: DraftView, f: FoundView, base: u64, is_agentic: bool) -> Seq<
    content::ConversationView,
> {
    match d.tool {
        Some(record) => seq![
            message_of(d, f, base, is_agentic),
            tool_message(record, is_agentic),
        ],
        None => seq![message_of(d, f, base, is_agentic)],
    }
}

/// The base behind the numbers of a draft and of what was found in it.
pub open spec fn base_after(d: DraftView, f: FoundView, base: u64) -> u64 {
    let next = number_after(base, d.numbers as u64);
    if d.role == Role::User {
        number_after(next, f.links.len() as u64)
    } else {
        next
    }
}

/// The base of the draft at position `k`.
pub open spec fn base_at(pairs: Seq<(DraftView, FoundView)>, k: int) -> u64
    decreases k,
{
    if k <= 0 {
        0
    } else {
        base_after(pairs[k - 1].0, pairs[k - 1].1, base_at(pairs, k - 1))
    }
}

/// The messages of the first `k` drafts.
pub open spec fn assembled(pairs: Seq<(DraftView, FoundView)>, is_agentic: bool, k: int) -> Seq<
    content::ConversationView,
>
    decreases k,
{
    if k <= 0 {
        Seq::empty()
    } else {
        assembled(pairs, is_agentic, k - 1) + messages_of(
            pairs[k - 1].0,
            pairs[k - 1].1,
            base_at(pairs, k - 1),
            is_agentic,
        )
    }
}

/// The messages, the last one with the tools that can be used.
pub open spec fn with_tools(messages: Seq<content::ConversationView>, tools: Seq<i32>) -> Seq<
    content::ConversationView,
> {
    if messages.len() == 0 {
        messages
    } else {
        messages.update(
            messages.len() - 1,
            content::ConversationView { supported_tools: tools, ..messages.last() },
        )
    }
}

/// The links of the last message.
pub open spec fn last_links(messages: Seq<content::ConversationView>) -> Seq<content::LinkView> {
    if messages.len() == 0 {
        Seq::empty()
    } else {
        messages.last().external_links
    }
}

fn number_images(images: Vec<(Image, u64)>, base: u64) -> (r: Vec<(Image, u64)>)
    ensures
        content::image_views(r@) == numbered_images(content::image_views(images@), base),
{
    let mut out: Vec<(Image, u64)> = Vec::new();
    let ghost all = images@;
    for pair in it: images.into_iter()
        invariant
            it.seq() == all,
            out@.len() == it.index(),
            forall|j: int|
                0 <= j < out@.len() ==> (#[trigger] out@[j]).0@ == all[j].0@ && out@[j].1
                    == number_after(base, all[j].1),
    {
        out.push((pair.0, base.wrapping_add(pair.1)));
    }
    assert(content::image_views(out@) =~= numbered_images(content::image_views(all), base));
    out
}

fn number_links(links: Vec<ComposerExternalLink>, base: u64) -> (r: Vec<ComposerExternalLink>)
    ensures
        content::link_views(r@) == numbered_links(content::link_views(links@), base),
{
    let mut out: Vec<ComposerExternalLink> = Vec::new();
    let ghost all = links@;
    for link in it: links.into_iter()
        invariant
            it.seq() == all,
            out@.len() == it.index(),
            forall|j: int|
                0 <= j < out@.len() ==> (#[trigger] out@[j])@ == (content::LinkView {
                    number: number_after(base, all[j].number) as nat,
                    ..all[j]@
                }),
    {
        out.push(
            ComposerExternalLink {
                url: link.url,
                number: base.wrapping_add(link.number),
                pdf_content: link.pdf_content,
                is_pdf: link.is_pdf,
                filename: link.filename,
            },
        );
    }
    assert(content::link_views(out@) =~= numbered_links(content::link_views(all), base));
    out
}

fn add_found(links: Vec<ComposerExternalLink>, urls: &Vec<String>, base: u64) -> (r: Vec<
    ComposerExternalLink,
>)
    ensures
        content::link_views(r@) == content::link_views(links@) + found_links(
            text::views(urls@),
            base,
        ),
{
    let mut out = links;
    let ghost before = content::link_views(out@);
    let ghost found = found_links(text::views(urls@), base);
    let mut k: usize = 0;
    assert(content::link_views(out@) =~= before + found.take(0));
    while k < urls.len()
        invariant
            k <= urls@.len(),
            found == found_links(text::views(urls@), base),
            content::link_views(out@) == before + found.take(k as int),
        decreases urls@.len() - k,
    {
        let ghost so_far = content::link_views(out@);
        let link = ComposerExternalLink {
            url: urls[k].clone(),
            number: base.wrapping_add(k as u64),
            pdf_content: String::new(),
            is_pdf: false,
            filename: String::new(),
        };
        out.push(link);
        proof {
            assert(content::link_views(out@) =~= so_far.push(link@));
            assert(link@ == found[k as int]);
            assert(found.take(k as int + 1) =~= found.take(k as int).push(found[k as int]));
            assert(content::link_views(out@) =~= before + found.take(k as int + 1));
        }
        k += 1;
    }
    assert(found.take(found.len() as int) =~= found);
    out
}

fn make_message(draft: Draft, found: Found, base: u64, is_agentic: bool) -> (r: (
    ConversationMessage,
    Option<ToolRecord>,
    u64,
))
    ensures
        r.0@ == message_of(draft@, found@, base, is_agentic),
        content::record_opt(r.1) == draft@.tool,
        r.2 == base_after(draft@, found@, base),
{
    let ghost d = draft@;
    let ghost f = found@;
    let Draft { role, text, images, links, numbers, thinking, tool } = draft;
    let Found { text: without_references, references, uses_web, links: urls } = found;
    let is_user = role == Role::User;
    let next: u64 = base.wrapping_add(numbers);
    let unified_mode = if is_agentic {
        UnifiedMode::Agent
    } else {
        UnifiedMode::Chat
    };
    let own = number_links(links, base);
    let shown = number_images(images, base);
    if is_user {
        let external_links = add_found(own, &urls, next);
        let message = ConversationMessage {
            text,
            message_type: MessageType::Human,
            images: shown,
            has_server_bubble: false,
            tool_results: Vec::new(),
            is_agentic,
            web_references: Vec::new(),
            thinking,
            unified_mode,
            supported_tools: Vec::new(),
            external_links,
            use_web: None,
        };
        proof {
            assert(message@.tool_results =~= Seq::empty());
            assert(message@.web_references =~= Seq::empty());
        }
        (message, tool, next.wrapping_add(urls.len() as u64))
    } else {
        let message = ConversationMessage {
            text: without_references,
            message_type: MessageType::Ai,
            images: shown,
            has_server_bubble: true,
            tool_results: Vec::new(),
            is_agentic: false,
            web_references: references,
            thinking,
            unified_mode,
            supported_tools: Vec::new(),
            external_links: own,
            use_web: if uses_web {
                Some(true)
            } else {
                None
            },
        };
        proof {
            assert(message@.tool_results =~= Seq::empty());
            assert(message@.external_links =~= message_of(d, f, base, is_agentic).external_links);
        }
        (message, tool, next)
    }
}

fn make_tool_message(record: ToolRecord, is_agentic: bool) -> (r: ConversationMessage)
    ensures
        r@ == tool_message(record@, is_agentic),
{
    let ghost view = record@;
    let mut tool_results: Vec<ToolRecord> = Vec::new();
    tool_results.push(record);
    let r = ConversationMessage {
        text: String::new(),
        message_type: MessageType::Ai,
        images: Vec::new(),
        has_server_bubble: true,
        tool_results,
        is_agentic: false,
        web_references: Vec::new(),
        thinking: None,
        unified_mode: if is_agentic {
            UnifiedMode::Agent
        } else {
            UnifiedMode::Chat
        },
        supported_tools: Vec::new(),
        external_links: Vec::new(),
        use_web: None,
    };
    proof {
        assert(r@.images =~= Seq::empty());
        assert(r@.tool_results =~= seq![view]);
        assert(r@.web_references =~= Seq::empty());
        assert(r@.external_links =~= Seq::empty());
    }
    r
}

fn copy_links(links: &Vec<ComposerExternalLink>) -> (r: Vec<ComposerExternalLink>)
    ensures
        content::link_views(r@) == content::link_views(links@),
{
    let mut out: Vec<ComposerExternalLink> = Vec::new();
    let mut k: usize = 0;
    while k < links.len()
        invariant
            k == out@.len() <= links@.len(),
            forall|j: int| 0 <= j < k ==> (#[trigger] out@[j])@ == links@[j]@,
        decreases links@.len() - k,
    {
        out.push(links[k].copy());
        k += 1;
    }
    assert(content::link_views(out@) =~= content::link_views(links@));
    out
}

/// Makes the messages that go upstream, the last one with the tools that can be used, and returns
/// the links of the last one.
pub fn assemble(pairs: Vec<(Draft, Found)>, supported_tools: Vec<i32>, is_agentic: bool) -> (r: (
    Vec<ConversationMessage>,
    Vec<ComposerExternalLink>,
))
    ensures
        ({
            let messages = assembled(pair_views(pairs@), is_agentic, pairs@.len() as int);
            &&& content::conversation_views(r.0@) == with_tools(messages, supported_tools@)
            &&& content::link_views(r.1@) == last_links(messages)
        }),
{
    let ghost all = pair_views(pairs@);
    let mut messages: Vec<ConversationMessage> = Vec::new();
    let mut base: u64 = 0;
    assert(content::conversation_views(messages@) =~= Seq::empty());
    for pair in it: pairs.into_iter()
        invariant
            it.seq() == pairs@,
            all == pair_views(pairs@),
            base == base_at(all, it.index() as int),
            content::conversation_views(messages@) == assembled(
                all,
                is_agentic,
                it.index() as int,
            ),
    {
        let ghost k = it.index() as int;
        let ghost before = content::conversation_views(messages@);
        let ghost d = pair.0@;
        let ghost f = pair.1@;
        assert(all[k] == (d, f));
        let (message, tool, next) = make_message(pair.0, pair.1, base, is_agentic);
        messages.push(message);
        let ghost one = before.push(message@);
        assert(content::conversation_views(messages@) =~= one);
        if let Some(record) = tool {
            let result = make_tool_message(record, is_agentic);
            messages.push(result);
            assert(content::conversation_views(messages@) =~= one.push(result@));
        }
        proof {
            assert(content::conversation_views(messages@) =~= before + messages_of(
                d,
                f,
                base,
                is_agentic,
            ));
            assert(base_at(all, k + 1) == base_after(all[k].0, all[k].1, base_at(all, k)));
        }
        base = next;
    }
    let ghost done = content::conversation_views(messages@);
    let n: usize = messages.len();
    let links = if n > 0 {
        copy_links(&messages[n - 1].external_links)
    } else {
        Vec::new()
    };
    if n > 0 {
        let last = messages.remove(n - 1);
        messages.push(
            ConversationMessage {
                text: last.text,
                message_type: last.message_type,
                images: last.images,
                has_server_bubble: last.has_server_bubble,
                tool_results: last.tool_results,
                is_agentic: last.is_agentic,
                web_references: last.web_references,
                thinking: last.thinking,
                unified_mode: last.unified_mode,
                supported_tools,
                external_links: last.external_links,
                use_web: last.use_web,
            },
        );
    }
    proof {
        assert(content::conversation_views(messages@) =~= with_tools(done, supported_tools@));
        assert(content::link_views(links@) =~= last_links(done));
    }
    (messages, links)
}

/// The instructions of a request.
pub open spec fn instructions_of(system: Option<SystemContent>, default: Seq<char>) -> Seq<char> {
    match system {
        Some(SystemContent::Text(s)) => s@,
        Some(SystemContent::Blocks(texts)) => text::joined(text::views(texts@), newline()),
        None => default,
    }
}

/// Returns the instructions of a request, or the default.
pub fn instructions(system: Option<SystemContent>, default: String) -> (r: String)
    ensures
        r@ == instructions_of(system, default@),
{
    match system {
        Some(SystemContent::Text(s)) => s,
        Some(SystemContent::Blocks(texts)) => text::join(&texts, "\n"),
        None => default,
    }
}

/// The message that stands for a request without messages.
pub open spec fn no_message() -> content::ConversationView {
    content::ConversationView {
        text: Seq::empty(),
        message_type: MessageType::Human,
        images: Seq::empty(),
        has_server_bubble: false,
        tool_results: Seq::empty(),
        is_agentic: false,
        web_references: Seq::empty(),
        thinking: None,
        unified_mode: UnifiedMode::Chat,
        supported_tools: Seq::empty(),
        external_links: Seq::empty(),
        use_web: None,
    }
}

fn make_no_message() -> (r: ConversationMessage)
    ensures
        r@ == no_message(),
{
    let r = ConversationMessage {
        text: String::new(),
        message_type: MessageType::Human,
        images: Vec::new(),
        has_server_bubble: false,
        tool_results: Vec::new(),
        is_agentic: false,
        web_references: Vec::new(),
        thinking: None,
        unified_mode: UnifiedMode::Chat,
        supported_tools: Vec::new(),
        external_links: Vec::new(),
        use_web: None,
    };
    proof {
        assert(r@.images =~= Seq::empty());
        assert(r@.tool_results =~= Seq::empty());
        assert(r@.web_references =~= Seq::empty());
        assert(r@.external_links =~= Seq::empty());
    }
    r
}

/// What the functions find in the text of a draft.
pub open spec fn finds<
    F: Fn(&str) -> Vec<String>,
    G: Fn(String) -> (String, Vec<WebReference>, bool),
>(d: DraftView, f: FoundView, find_links: F, find_references: G) -> bool {
    match d.role {
        Role::User => exists|s: &str, links: Vec<String>|
            s@ == d.text && #[trigger] call_ensures(find_links, (s,), links) && f.links
                == text::views(links@),
        Role::Assistant => exists|s: String, r: (String, Vec<WebReference>, bool)|
            s@ == d.text && #[trigger] call_ensures(find_references, (s,), r) && f.text == r.0@
                && f.references == message::ref_views(r.1@) && f.uses_web == r.2,
    }
}

/// What the functions find in the texts of the drafts.
pub open spec fn all_found<
    F: Fn(&str) -> Vec<String>,
    G: Fn(String) -> (String, Vec<WebReference>, bool),
>(drafts: Seq<DraftView>, found: Seq<FoundView>, find_links: F, find_references: G) -> bool {
    &&& found.len() == drafts.len()
    &&& forall|k: int|
        0 <= k < drafts.len() ==> finds(
            drafts[k],
            #[trigger] found[k],
            find_links,
            find_references,
        )
}

/// The messages of the drafts.
pub open spec fn conversation(
    drafts: Seq<DraftView>,
    found: Seq<FoundView>,
    is_agentic: bool,
) -> Seq<content::ConversationView> {
    assembled(drafts.zip_with(found), is_agentic, drafts.len() as int)
}

fn look_into<
    F: Fn(&str) -> Vec<String>,
    G: Fn(String) -> (String, Vec<WebReference>, bool),
>(draft: &Draft, find_links: &F, find_references: &G) -> (r: Found)
    requires
        forall|s: &str| #[trigger] call_requires(*find_links, (s,)),
        forall|s: String| #[trigger] call_requires(*find_references, (s,)),
    ensures
        finds(draft@, r@, *find_links, *find_references),
{
    match draft.role {
        Role::User => {
            let links = find_links(draft.text.as_str());
            Found { text: String::new(), references: Vec::new(), uses_web: false, links }
        },
        Role::Assistant => {
            let s = draft.text.clone();
            let (text, references, uses_web) = find_references(s);
            let r = Found { text, references, uses_web, links: Vec::new() };
            assert(call_ensures(*find_references, (s,), (text, references, uses_web)));
            r
        },
    }
}

/// Converts a request: returns its instructions, its messages and the links of the last message.
///
/// `find_links` finds the links in a user's text; `find_references` takes the list of references
/// out of a text of the assistant, and says whether it used the web.
///
/// # Errors
///
/// Returns an error if an image or the result of a tool cannot be converted.
pub fn process_message_params<
    F: Fn(&str) -> Vec<String>,
    G: Fn(String) -> (String, Vec<WebReference>, bool),
>(
    params: &Vec<MessageParam>,
    system: Option<SystemContent>,
    default_instructions: String,
    supported_tools: Vec<i32>,
    image_support: bool,
    images: &Vec<Result<Image, AdapterError>>,
    downloads: &Vec<Result<RawContent, AdapterError>>,
    find_links: &F,
    find_references: &G,
    is_agentic: bool,
) -> (r: Result<(String, Vec<ConversationMessage>, Vec<ComposerExternalLink>), AdapterError>)
    requires
        forall|s: &str| #[trigger] call_requires(*find_links, (s,)),
        forall|s: String| #[trigger] call_requires(*find_references, (s,)),
    ensures
        match outlined(
            params@,
            Outside { image_support, images: images@, downloads: downloads@ },
        ) {
            Ok(drafts) => {
                &&& r matches Ok(x)
                &&& x.0@ == instructions_of(system, default_instructions@)
                &&& if params@.len() == 0 {
                    &&& content::conversation_views(x.1@) == seq![no_message()]
                    &&& x.2@.len() == 0
                } else {
                    exists|found: Seq<FoundView>|
                        #[trigger] all_found(drafts, found, *find_links, *find_references)
                            && content::conversation_views(x.1@) == with_tools(
                            conversation(drafts, found, is_agentic),
                            supported_tools@,
                        ) && content::link_views(x.2@) == last_links(
                            conversation(drafts, found, is_agentic),
                        )
                }
            },
            Err(e) => r == Err::<
                (String, Vec<ConversationMessage>, Vec<ComposerExternalLink>),
                AdapterError,
            >(e),
        },
{
    let text = instructions(system, default_instructions);
    if params.len() == 0 {
        let mut messages: Vec<ConversationMessage> = Vec::new();
        messages.push(make_no_message());
        assert(content::conversation_views(messages@) =~= seq![no_message()]);
        return Ok((text, messages, Vec::new()));
    }
    let drafts = match outline(params, image_support, images, downloads) {
        Ok(drafts) => drafts,
        Err(e) => return Err(e),
    };
    let ghost all = draft_views(drafts@);
    let ghost mut found: Seq<FoundView> = Seq::empty();
    let mut pairs: Vec<(Draft, Found)> = Vec::new();
    for draft in it: drafts.into_iter()
        invariant
            it.seq() == drafts@,
            all == draft_views(drafts@),
            forall|s: &str| #[trigger] call_requires(*find_links, (s,)),
            forall|s: String| #[trigger] call_requires(*find_references, (s,)),
            pairs@.len() == found.len() == it.index(),
            forall|k: int|
                0 <= k < found.len() ==> (#[trigger] pairs@[k]).0@ == all[k] && pairs@[k].1@
                    == found[k],
            forall|k: int|
                0 <= k < found.len() ==> finds(
                    all[k],
                    #[trigger] found[k],
                    *find_links,
                    *find_references,
                ),
    {
        let f = look_into(&draft, find_links, find_references);
        proof {
            found = found.push(f@);
        }
        pairs.push((draft, f));
    }
    assert(pair_views(pairs@) =~= all.zip_with(found));
    let (messages, links) = assemble(pairs, supported_tools, is_agentic);
    assert(all_found(all, found, *find_links, *find_references));
    Ok((text, messages, links))
}

/// The images among the first `n` blocks.
pub open spec fn sources_in(blocks: Seq<ContentBlockParam>, n: int) -> Seq<ImageSource>
    decreases n,
{
    if n <= 0 {
        Seq::empty()
    } else {
        match blocks[n - 1] {
            ContentBlockParam::Image { source } => sources_in(blocks, n - 1).push(source),
            _ => sources_in(blocks, n - 1),
        }
    }
}

/// The images in the user's messages among the first `n`.
pub open spec fn sources_of(params: Seq<MessageParam>, n: int) -> Seq<ImageSource>
    decreases n,
{
    if n <= 0 {
        Seq::empty()
    } else {
        sources_of(params, n - 1) + match (params[n - 1].role, params[n - 1].content) {
            (Role::User, MessageContent::Blocks(blocks)) => sources_in(
                blocks@,
                blocks@.len() as int,
            ),
            _ => Seq::empty(),
        }
    }
}

/// Returns the images that have to be prepared, in order.
pub fn image_sources<'a>(params: &'a Vec<MessageParam>, image_support: bool) -> (r: Vec<
    &'a ImageSource,
>)
    ensures
        Seq::new(r@.len(), |k: int| *r@[k]) == (if image_support {
            sources_of(params@, params@.len() as int)
        } else {
            Seq::empty()
        }),
{
    let mut out: Vec<&'a ImageSource> = Vec::new();
    if !image_support {
        assert(Seq::new(out@.len(), |k: int| *out@[k]) =~= Seq::empty());
        return out;
    }
    let mut i: usize = 0;
    assert(Seq::new(out@.len(), |k: int| *out@[k]) =~= sources_of(params@, 0));
    while i < params.len()
        invariant
            i <= params@.len(),
            Seq::new(out@.len(), |k: int| *out@[k]) == sources_of(params@, i as int),
        decreases params@.len() - i,
    {
        let ghost before = sources_of(params@, i as int);
        match (params[i].role, &params[i].content) {
            (Role::User, MessageContent::Blocks(blocks)) => {
                let mut k: usize = 0;
                assert(before + sources_in(blocks@, 0) =~= before);
                while k < blocks.len()
                    invariant
                        k <= blocks@.len(),
                        Seq::new(out@.len(), |k: int| *out@[k]) == before + sources_in(
                            blocks@,
                            k as int,
                        ),
                    decreases blocks@.len() - k,
                {
                    let ghost so_far = Seq::new(out@.len(), |k: int| *out@[k]);
                    match &blocks[k] {
                        ContentBlockParam::Image { source } => {
                            out.push(source);
                            assert(Seq::new(out@.len(), |k: int| *out@[k]) =~= so_far.push(
                                *source,
                            ));
                            assert(so_far.push(*source) =~= before + sources_in(
                                blocks@,
                                k as int,
                            ).push(*source));
                        },
                        _ => {},
                    }
                    k += 1;
                }
            },
            _ => {
                assert(before + Seq::empty() =~= before);
            },
        }
        i += 1;
    }
    out
}

/// The addresses of images among the first `n` blocks.
pub open spec fn urls_in(blocks: Seq<ToolResultContentBlock>, n: int) -> Seq<Seq<char>>
    decreases n,
{
    if n <= 0 {
        Seq::empty()
    } else {
        match blocks[n - 1] {
            ToolResultContentBlock::Image { source: ImageSource::Url { url } } => urls_in(
                blocks,
                n - 1,
            ).push(url@),
            _ => urls_in(blocks, n - 1),
        }
    }
}

/// The addresses of images in the results of tools among the first `n` messages.
pub open spec fn urls_of(params: Seq<MessageParam>, n: int) -> Seq<Seq<char>>
    decreases n,
{
    if n <= 0 {
        Seq::empty()
    } else {
        urls_of(params, n - 1) + if answered(params, n - 1) {
            match (only_result(params[n])->0).1 {
                Some(ToolResultContent::Blocks(blocks)) => urls_in(blocks@, blocks@.len() as int),
                _ => Seq::empty(),
            }
        } else {
            Seq::empty()
        }
    }
}

fn result_urls(result: &Option<ToolResultContent>, out: &mut Vec<String>)
    ensures
        text::views(final(out)@) == text::views(old(out)@) + match *result {
            Some(ToolResultContent::Blocks(blocks)) => urls_in(blocks@, blocks@.len() as int),
            _ => Seq::empty(),
        },
{
    let ghost before = text::views(out@);
    assert(before + Seq::empty() =~= before);
    match result {
        Some(ToolResultContent::Blocks(blocks)) => {
            let mut k: usize = 0;
            assert(before + urls_in(blocks@, 0) =~= before);
            while k < blocks.len()
                invariant
                    k <= blocks@.len(),
                    text::views(out@) == before + urls_in(blocks@, k as int),
                decreases blocks@.len() - k,
            {
                let ghost so_far = text::views(out@);
                match &blocks[k] {
                    ToolResultContentBlock::Image { source: ImageSource::Url { url } } => {
                        out.push(url.clone());
                        assert(text::views(out@) =~= so_far.push(url@));
                        assert(so_far.push(url@) =~= before + urls_in(blocks@, k as int).push(
                            url@,
                        ));
                    },
                    _ => {},
                }
                k += 1;
            }
        },
        _ => {},
    }
}

/// Returns the addresses of the images that have to be downloaded, in order.
pub fn download_urls(params: &Vec<MessageParam>) -> (r: Vec<String>)
    ensures
        text::views(r@) == urls_of(params@, params@.len() as int),
{
    let mut out: Vec<String> = Vec::new();
    let mut i: usize = 0;
    assert(text::views(out@) =~= urls_of(params@, 0));
    while i < params.len()
        invariant
            i <= params@.len(),
            text::views(out@) == urls_of(params@, i as int),
        decreases params@.len() - i,
    {
        assert(text::views(out@) + Seq::empty() =~= text::views(out@));
        if is_answered(params, i) {
            assert(i + 1 < params.len());
            match &params[i + 1].content {
                MessageContent::Blocks(results) => match &results[0] {
                    ContentBlockParam::ToolResult { tool_use_id, content, is_error } => {
                        result_urls(content, &mut out);
                    },
                    _ => {
                        assert(false);
                    },
                },
                _ => {
                    assert(false);
                },
            }
        }
        i += 1;
    }
    out
}

} // verus!
