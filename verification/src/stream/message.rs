//! What the stream carries, decoded.

use vstd::prelude::*;
use crate::codec;
use crate::text;

verus! {

/// A piece of the model's reasoning.
#[derive(Debug, Clone, PartialEq)]
pub enum Thinking {
    Text(String),
    Signature(String),
    RedactedThinking(String),
}

/// A page that an answer refers to.
#[derive(Debug, Clone, PartialEq)]
pub struct WebReference {
    pub title: String,
    pub url: String,
    pub chunk: String,
}

/// A call of a tool.
#[derive(Debug, Clone, PartialEq)]
pub struct ToolCall {
    pub id: String,
    pub name: String,
    pub input: String,
    pub is_last: bool,
}

/// A message of the stream.
#[derive(Debug, Clone, PartialEq)]
pub enum StreamMessage {
    /// Pages that the answer refers to.
    WebReference(Vec<WebReference>),
    /// Reasoning.
    Thinking(Thinking),
    /// Text of the answer.
    Content(String),
    /// A call of a tool.
    ToolCall(ToolCall),
    /// The end of the stream.
    StreamEnd,
}

/// [`Thinking`] as characters.
pub enum ThinkingView {
    Text(Seq<char>),
    Signature(Seq<char>),
    RedactedThinking(Seq<char>),
}

/// [`WebReference`] as characters.
pub struct WebReferenceView {
    pub title: Seq<char>,
    pub url: Seq<char>,
    pub chunk: Seq<char>,
}

/// [`ToolCall`] as characters.
pub struct ToolCallView {
    pub id: Seq<char>,
    pub name: Seq<char>,
    pub input: Seq<char>,
    pub is_last: bool,
}

/// [`StreamMessage`] as characters.
pub enum MessageView {
    WebReference(Seq<WebReferenceView>),
    Thinking(ThinkingView),
    Content(Seq<char>),
    ToolCall(ToolCallView),
    StreamEnd,
}

impl View for Thinking {
    type V = ThinkingView;

    open spec fn view(&self) -> ThinkingView {
        match *self {
            Thinking::Text(s) => ThinkingView::Text(s@),
            Thinking::Signature(s) => ThinkingView::Signature(s@),
            Thinking::RedactedThinking(s) => ThinkingView::RedactedThinking(s@),
        }
    }
}

impl View for WebReference {
    type V = WebReferenceView;

    open spec fn view(&self) -> WebReferenceView {
        WebReferenceView { title: self.title@, url: self.url@, chunk: self.chunk@ }
    }
}

/// The views of references.
pub open spec fn ref_views(v: Seq<WebReference>) -> Seq<WebReferenceView> {
    Seq::new(v.len(), |i: int| v[i]@)
}

impl View for ToolCall {
    type V = ToolCallView;

    open spec fn view(&self) -> ToolCallView {
        ToolCallView {
            id: self.id@,
            name: self.name@,
            input: self.input@,
            is_last: self.is_last,
        }
    }
}

impl View for StreamMessage {
    type V = MessageView;

    open spec fn view(&self) -> MessageView {
        match *self {
            StreamMessage::WebReference(refs) => MessageView::WebReference(ref_views(refs@)),
            StreamMessage::Thinking(t) => MessageView::Thinking(t@),
            StreamMessage::Content(s) => MessageView::Content(s@),
            StreamMessage::ToolCall(c) => MessageView::ToolCall(c@),
            StreamMessage::StreamEnd => MessageView::StreamEnd,
        }
    }
}

/// The views of messages.
pub open spec fn message_views(v: Seq<StreamMessage>) -> Seq<MessageView> {
    Seq::new(v.len(), |i: int| v[i]@)
}

/// A line of the list of references.
pub open spec fn reference_line(i: int, r: WebReferenceView) -> Seq<char> {
    codec::decimal((i + 1) as nat) + ". ["@ + r.title + "]("@ + r.url + ")\n"@
}

/// The lines of the first `n` references.
pub open spec fn reference_lines(refs: Seq<WebReferenceView>, n: int) -> Seq<char>
    decreases n,
{
    if n <= 0 {
        Seq::empty()
    } else {
        reference_lines(refs, n - 1) + reference_line(n - 1, refs[n - 1])
    }
}

impl MessageView {
    /// References as text: a heading, a numbered line for each and an empty line. Any other
    /// message stays as it is.
    pub open spec fn with_references_as_text(self) -> MessageView {
        match self {
            MessageView::WebReference(refs) => MessageView::Content(
                if refs.len() == 0 {
                    Seq::empty()
                } else {
                    "WebReferences:\n"@ + reference_lines(refs, refs.len() as int) + "\n"@
                },
            ),
            other => other,
        }
    }

    /// The message carries text that is not empty.
    pub open spec fn any_content(self) -> bool {
        match self {
            MessageView::Content(s) => s.len() > 0,
            MessageView::Thinking(ThinkingView::Text(s)) => s.len() > 0,
            MessageView::Thinking(ThinkingView::Signature(s)) => s.len() > 0,
            MessageView::ToolCall(c) => c.input.len() > 0,
            _ => false,
        }
    }
}

impl StreamMessage {
    /// Turns references into text.
    pub fn convert_web_ref_to_content(self) -> (r: StreamMessage)
        ensures
            r@ == self@.with_references_as_text(),
    {
        match self {
            StreamMessage::WebReference(refs) => {
                if refs.len() == 0 {
                    return StreamMessage::Content(String::new());
                }
                let mut string = "WebReferences:\n".to_owned();
                let mut i: usize = 0;
                let ghost v = ref_views(refs@);
                let ghost head = string@;
                assert(string@ =~= head + reference_lines(v, 0));
                while i < refs.len()
                    invariant
                        i <= refs@.len(),
                        v == ref_views(refs@),
                        string@ == head + reference_lines(v, i as int),
                    decreases refs@.len() - i,
                {
                    let ghost before = string@;
                    let number = codec::format_decimal(i as u64 + 1);
                    string.append(number.as_str());
                    string.append(". [");
                    string.append(refs[i].title.as_str());
                    string.append("](");
                    string.append(refs[i].url.as_str());
                    string.append(")\n");
                    proof {
                        assert(v[i as int] == refs@[i as int]@);
                        assert(string@ =~= before + reference_line(i as int, v[i as int]));
                        assert(before + reference_line(i as int, v[i as int]) =~= head + (
                        reference_lines(v, i as int) + reference_line(i as int, v[i as int])));
                    }
                    i += 1;
                }
                string.append("\n");
                StreamMessage::Content(string)
            },
            other => other,
        }
    }

    /// Returns `true` if the message carries text that is not empty.
    pub fn any_content(&self) -> (r: bool)
        ensures
            r == self@.any_content(),
    {
        match self {
            StreamMessage::Content(s) => !s.as_str().is_empty(),
            StreamMessage::Thinking(Thinking::Text(s)) => !s.as_str().is_empty(),
            StreamMessage::Thinking(Thinking::Signature(s)) => !s.as_str().is_empty(),
            StreamMessage::ToolCall(c) => !c.input.as_str().is_empty(),
            _ => false,
        }
    }
}

} // verus!
