//! What clients send, and what goes upstream.

use vstd::prelude::*;
use crate::stream::message;
use crate::stream::message::WebReference;
use crate::text;

verus! {

/// Who speaks.
#[derive(Debug, Clone, Copy, PartialEq, Eq, Structural)]
pub enum Role {
    User,
    Assistant,
}

/// The type of an image.
#[derive(Debug, Clone, Copy, PartialEq, Eq, Structural)]
pub enum MediaType {
    ImagePng,
    ImageJpeg,
    ImageGif,
    ImageWebp,
}

impl MediaType {
    /// The name of the type.
    pub open spec fn mime(self) -> Seq<char> {
        match self {
            MediaType::ImagePng => "image/png"@,
            MediaType::ImageJpeg => "image/jpeg"@,
            MediaType::ImageGif => "image/gif"@,
            MediaType::ImageWebp => "image/webp"@,
        }
    }

    /// Returns the name of the type.
    pub fn as_mime(self) -> (r: &'static str)
        ensures
            r@ == self.mime(),
    {
        match self {
            MediaType::ImagePng => "image/png",
            MediaType::ImageJpeg => "image/jpeg",
            MediaType::ImageGif => "image/gif",
            MediaType::ImageWebp => "image/webp",
        }
    }
}

/// The format of an image.
#[derive(Debug, Clone, Copy, PartialEq, Eq, Structural)]
pub enum ImageFormat {
    Png,
    Jpeg,
    Gif,
    WebP,
}

/// An image in base64.
#[derive(Debug, Clone, PartialEq)]
pub struct ImageSourceBase64 {
    pub media_type: MediaType,
    pub data: String,
}

/// Where an image comes from.
#[derive(Debug, Clone, PartialEq)]
pub enum ImageSource {
    Base64(ImageSourceBase64),
    Url { url: String },
}

impl ImageSource {
    /// Returns the image, or its address.
    pub fn extract(&self) -> (r: Result<&ImageSourceBase64, &str>)
        ensures
            match *self {
                ImageSource::Base64(b) => r == Ok::<&ImageSourceBase64, &str>(&b),
                ImageSource::Url { url } => r matches Err(u) && u@ == url@,
            },
    {
        match self {
            ImageSource::Base64(base64) => Ok(base64),
            ImageSource::Url { url } => Err(url.as_str()),
        }
    }
}

/// Where a document comes from.
#[derive(Debug, Clone, PartialEq)]
pub enum DocumentSource {
    Base64 { data: String },
    Url { url: String },
}

/// A block of the result of a tool.
#[derive(Debug, Clone, PartialEq)]
pub enum ToolResultContentBlock {
    Text { text: String },
    Image { source: ImageSource },
}

/// The result of a tool.
#[derive(Debug, Clone, PartialEq)]
pub enum ToolResultContent {
    Text(String),
    Blocks(Vec<ToolResultContentBlock>),
}

/// A block of a message.
#[derive(Debug, Clone, PartialEq)]
pub enum ContentBlockParam {
    Text { text: String },
    Image { source: ImageSource },
    Document { source: DocumentSource },
    /// A call of a tool; its input is JSON.
    ToolUse { id: String, name: String, input: String },
    ToolResult { tool_use_id: String, content: Option<ToolResultContent>, is_error: bool },
    Thinking { thinking: String, signature: String },
    RedactedThinking { data: String },
}

/// What a message says.
#[derive(Debug, Clone, PartialEq)]
pub enum MessageContent {
    Text(String),
    Blocks(Vec<ContentBlockParam>),
}

/// A message.
#[derive(Debug, Clone, PartialEq)]
pub struct MessageParam {
    pub role: Role,
    pub content: MessageContent,
}

/// The instructions of a request.
#[derive(Debug, Clone, PartialEq)]
pub enum SystemContent {
    Text(String),
    Blocks(Vec<String>),
}

/// A tool that the client offers; its schema is JSON.
#[derive(Debug, Clone, PartialEq)]
pub struct Tool {
    pub name: String,
    pub description: Option<String>,
    pub input_schema: String,
}

impl Tool {
    /// Takes the tool apart.
    pub fn extract(self) -> (r: (String, Option<String>, String))
        ensures
            r == (self.name, self.description, self.input_schema),
    {
        (self.name, self.description, self.input_schema)
    }
}

/// Why a request cannot be converted.
#[derive(Debug, Clone, Copy, PartialEq, Eq, Structural)]
pub enum AdapterError {
    /// An image is not valid base64.
    Base64DecodeFailed,
    /// The address of an image is not valid.
    UrlParseFailed,
    /// An image could not be had.
    ImageUnavailable,
}

/// An image that was read.
#[derive(Debug, Clone, PartialEq)]
pub struct Image {
    pub data: Vec<u8>,
    pub width: i32,
    pub height: i32,
}

/// [`Image`] as bytes.
pub struct ImageView {
    pub data: Seq<u8>,
    pub width: i32,
    pub height: i32,
}

impl View for Image {
    type V = ImageView;

    open spec fn view(&self) -> ImageView {
        ImageView { data: self.data@, width: self.width, height: self.height }
    }
}

impl Image {
    /// Returns a copy.
    pub fn copy(&self) -> (r: Image)
        ensures
            r@ == self@,
    {
        let data = self.data.clone();
        assert(data@ =~= self.data@);
        Image { data, width: self.width, height: self.height }
    }
}

/// A piece of the result of a tool.
#[derive(Debug, Clone, PartialEq)]
pub enum RawContent {
    Text(String),
    /// An image in base64, and its type.
    Image { data: String, mime_type: String },
}

/// [`RawContent`] as characters.
pub enum RawView {
    Text(Seq<char>),
    Image { data: Seq<char>, mime_type: Seq<char> },
}

impl View for RawContent {
    type V = RawView;

    open spec fn view(&self) -> RawView {
        match *self {
            RawContent::Text(s) => RawView::Text(s@),
            RawContent::Image { data, mime_type } => RawView::Image {
                data: data@,
                mime_type: mime_type@,
            },
        }
    }
}

impl RawContent {
    /// Returns a copy.
    pub fn copy(&self) -> (r: RawContent)
        ensures
            r@ == self@,
    {
        match self {
            RawContent::Text(s) => RawContent::Text(s.clone()),
            RawContent::Image { data, mime_type } => RawContent::Image {
                data: data.clone(),
                mime_type: mime_type.clone(),
            },
        }
    }
}

/// The views of pieces.
pub open spec fn raw_views(v: Seq<RawContent>) -> Seq<RawView> {
    Seq::new(v.len(), |i: int| v[i]@)
}

/// A link that goes upstream.
///
/// Links and images are numbered through the request; the number stands for their identifier.
#[derive(Debug, Clone, PartialEq)]
pub struct ComposerExternalLink {
    pub url: String,
    pub number: u64,
    pub pdf_content: String,
    pub is_pdf: bool,
    pub filename: String,
}

/// [`ComposerExternalLink`] as characters.
pub struct LinkView {
    pub url: Seq<char>,
    pub number: nat,
    pub pdf_content: Seq<char>,
    pub is_pdf: bool,
    pub filename: Seq<char>,
}

impl View for ComposerExternalLink {
    type V = LinkView;

    open spec fn view(&self) -> LinkView {
        LinkView {
            url: self.url@,
            number: self.number as nat,
            pdf_content: self.pdf_content@,
            is_pdf: self.is_pdf,
            filename: self.filename@,
        }
    }
}

impl ComposerExternalLink {
    /// Returns a copy.
    pub fn copy(&self) -> (r: ComposerExternalLink)
        ensures
            r@ == self@,
    {
        ComposerExternalLink {
            url: self.url.clone(),
            number: self.number,
            pdf_content: self.pdf_content.clone(),
            is_pdf: self.is_pdf,
            filename: self.filename.clone(),
        }
    }
}

/// The views of links.
pub open spec fn link_views(v: Seq<ComposerExternalLink>) -> Seq<LinkView> {
    Seq::new(v.len(), |i: int| v[i]@)
}

/// The views of numbered images.
pub open spec fn image_views(v: Seq<(Image, u64)>) -> Seq<(ImageView, nat)> {
    Seq::new(v.len(), |i: int| (v[i].0@, v[i].1 as nat))
}

/// Reasoning that goes upstream.
#[derive(Debug, Clone, PartialEq)]
pub struct ThinkingBlock {
    pub text: String,
    pub signature: String,
    pub redacted_thinking: String,
}

/// [`ThinkingBlock`] as characters.
pub struct ThinkingBlockView {
    pub text: Seq<char>,
    pub signature: Seq<char>,
    pub redacted_thinking: Seq<char>,
}

impl View for ThinkingBlock {
    type V = ThinkingBlockView;

    open spec fn view(&self) -> ThinkingBlockView {
        ThinkingBlockView {
            text: self.text@,
            signature: self.signature@,
            redacted_thinking: self.redacted_thinking@,
        }
    }
}

/// The views of reasoning.
pub open spec fn thinking_views(v: Seq<ThinkingBlock>) -> Seq<ThinkingBlockView> {
    Seq::new(v.len(), |i: int| v[i]@)
}

/// The view of optional reasoning.
pub open spec fn thinking_opt(o: Option<ThinkingBlock>) -> Option<ThinkingBlockView> {
    match o {
        Some(t) => Some(t@),
        None => None,
    }
}

/// A call of a tool with its result, as it goes upstream.
#[derive(Debug, Clone, PartialEq)]
pub struct ToolRecord {
    pub tool_call_id: String,
    pub model_call_id: Option<String>,
    /// The name of the tool with that of its server.
    pub tool_name: String,
    /// The name of the tool.
    pub name: String,
    pub server_name: String,
    pub tool_index: u32,
    pub raw_args: String,
    pub contents: Vec<RawContent>,
    pub is_error: bool,
}

/// [`ToolRecord`] as characters.
pub struct RecordView {
    pub tool_call_id: Seq<char>,
    pub model_call_id: Option<Seq<char>>,
    pub tool_name: Seq<char>,
    pub name: Seq<char>,
    pub server_name: Seq<char>,
    pub tool_index: u32,
    pub raw_args: Seq<char>,
    pub contents: Seq<RawView>,
    pub is_error: bool,
}

impl View for ToolRecord {
    type V = RecordView;

    open spec fn view(&self) -> RecordView {
        RecordView {
            tool_call_id: self.tool_call_id@,
            model_call_id: text::opt(self.model_call_id),
            tool_name: self.tool_name@,
            name: self.name@,
            server_name: self.server_name@,
            tool_index: self.tool_index,
            raw_args: self.raw_args@,
            contents: raw_views(self.contents@),
            is_error: self.is_error,
        }
    }
}

/// The views of records.
pub open spec fn record_views(v: Seq<ToolRecord>) -> Seq<RecordView> {
    Seq::new(v.len(), |i: int| v[i]@)
}

/// The view of an optional record.
pub open spec fn record_opt(o: Option<ToolRecord>) -> Option<RecordView> {
    match o {
        Some(r) => Some(r@),
        None => None,
    }
}

/// Who speaks in a message that goes upstream.
#[derive(Debug, Clone, Copy, PartialEq, Eq, Structural)]
pub enum MessageType {
    Human,
    Ai,
}

/// The mode of a conversation.
#[derive(Debug, Clone, Copy, PartialEq, Eq, Structural)]
pub enum UnifiedMode {
    Chat,
    Agent,
}

/// A message that goes upstream.
#[derive(Debug, Clone, PartialEq)]
pub struct ConversationMessage {
    pub text: String,
    pub message_type: MessageType,
    pub images: Vec<(Image, u64)>,
    /// The message carries an identifier that the server gave it.
    pub has_server_bubble: bool,
    pub tool_results: Vec<ToolRecord>,
    pub is_agentic: bool,
    pub web_references: Vec<WebReference>,
    pub thinking: Option<ThinkingBlock>,
    pub unified_mode: UnifiedMode,
    pub supported_tools: Vec<i32>,
    pub external_links: Vec<ComposerExternalLink>,
    pub use_web: Option<bool>,
}

/// [`ConversationMessage`] as characters.
pub struct ConversationView {
    pub text: Seq<char>,
    pub message_type: MessageType,
    pub images: Seq<(ImageView, nat)>,
    pub has_server_bubble: bool,
    pub tool_results: Seq<RecordView>,
    pub is_agentic: bool,
    pub web_references: Seq<message::WebReferenceView>,
    pub thinking: Option<ThinkingBlockView>,
    pub unified_mode: UnifiedMode,
    pub supported_tools: Seq<i32>,
    pub external_links: Seq<LinkView>,
    pub use_web: Option<bool>,
}

impl View for ConversationMessage {
    type V = ConversationView;

    open spec fn view(&self) -> ConversationView {
        ConversationView {
            text: self.text@,
            message_type: self.message_type,
            images: image_views(self.images@),
            has_server_bubble: self.has_server_bubble,
            tool_results: record_views(self.tool_results@),
            is_agentic: self.is_agentic,
            web_references: message::ref_views(self.web_references@),
            thinking: thinking_opt(self.thinking),
            unified_mode: self.unified_mode,
            supported_tools: self.supported_tools@,
            external_links: link_views(self.external_links@),
            use_web: self.use_web,
        }
    }
}

/// The views of messages.
pub open spec fn conversation_views(v: Seq<ConversationMessage>) -> Seq<ConversationView> {
    Seq::new(v.len(), |i: int| v[i]@)
}

} // verus!
