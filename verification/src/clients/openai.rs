//! The chat-completion response shape.

use vstd::prelude::*;

verus! {

/// A chat completion: the choices the model returned.
pub struct ChatResponse {
    pub choices: Vec<Choice>,
}

/// One returned choice.
pub struct Choice {
    pub message: MessageContent,
}

/// The message of a choice: who spoke and what was said.
pub struct MessageContent {
    pub role: String,
    pub content: String,
}

} // verus!
