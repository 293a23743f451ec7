use vstd::prelude::*;

verus! {

/// Role of a chat message.
#[derive(Clone, Copy, PartialEq, Eq, Structural, Debug)]
pub enum Role {
    /// System / instruction message.
    System,
    /// End-user message.
    User,
    /// Model reply.
    Assistant,
}

/// One message in a chat conversation.
#[derive(Clone, PartialEq, Eq, Debug)]
pub struct ChatMessage {
    /// Who authored the message.
    pub role: Role,
    /// Message text.
    pub content: String,
}

/// Abstract view of a [`ChatMessage`].
pub struct MessageView {
    pub role: Role,
    pub content: Seq<char>,
}

impl View for ChatMessage {
    type V = MessageView;

    open spec fn view(&self) -> MessageView {
        MessageView { role: self.role, content: self.content@ }
    }
}

impl ChatMessage {
    /// Convenience constructor.
    pub fn new(role: Role, content: String) -> (r: ChatMessage)
        ensures
            r@ == (MessageView { role, content: content@ }),
    {
        ChatMessage { role, content }
    }

    /// A copy of this message.
    pub fn duplicate(&self) -> (r: ChatMessage)
        ensures
            r@ == self@,
    {
        ChatMessage { role: self.role, content: self.content.clone() }
    }
}

/// Metadata about a model offered by a provider.
#[derive(Clone, PartialEq, Eq, Debug)]
pub struct ModelInfo {
    /// Model identifier.
    pub id: String,
    /// Context window in tokens, when known.
    pub context_window: Option<usize>,
}

} // verus!
