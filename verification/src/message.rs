//! Messages of the chat completion interface.

use vstd::prelude::*;

verus! {

/// What a message says.
#[derive(Debug, Clone, PartialEq)]
pub enum MessageContent {
    Text(String),
}

/// A message.
#[derive(Debug, Clone, PartialEq)]
pub struct Message {
    pub role: String,
    pub content: MessageContent,
}

/// A piece of an answer.
#[derive(Debug, Clone, PartialEq)]
pub struct Delta {
    pub content: Option<String>,
}

/// An answer, whole or a piece of it.
#[derive(Debug, Clone, PartialEq)]
pub struct Choice {
    pub index: i32,
    pub message: Option<Message>,
    pub delta: Option<Delta>,
    pub finish_reason: Option<String>,
}

/// What an answer cost.
#[derive(Debug, Clone, PartialEq)]
pub struct Usage {
    pub prompt_tokens: i32,
    pub completion_tokens: i32,
    pub total_tokens: i32,
}

/// The response to a chat request.
#[derive(Debug, Clone, PartialEq)]
pub struct ChatResponse {
    pub id: String,
    pub object: String,
    pub created: i64,
    pub model: Option<String>,
    pub choices: Vec<Choice>,
    pub usage: Option<Usage>,
}

} // verus!
