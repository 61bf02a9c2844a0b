//! Assembling sequences of chat messages.

use crate::text::owned;
use vstd::prelude::*;

verus! {

/// A single message in a chat conversation.
pub struct ChatMessage {
    /// Conversation role: `system`, `user` or `assistant`.
    pub role: String,
    /// Text of the message.
    pub content: String,
}

/// Model of [`ChatMessage`]: role and content.
pub type MessageView = (Seq<char>, Seq<char>);

impl View for ChatMessage {
    type V = MessageView;

    open spec fn view(&self) -> MessageView {
        (self.role@, self.content@)
    }
}

/// The models of a list of messages.
pub open spec fn message_views(messages: Seq<ChatMessage>) -> Seq<MessageView> {
    messages.map_values(|m: ChatMessage| m@)
}

/// Builder for a sequence of chat messages.
pub struct PromptBuilder {
    messages: Vec<ChatMessage>,
}

impl View for PromptBuilder {
    type V = Seq<MessageView>;

    closed spec fn view(&self) -> Seq<MessageView> {
        message_views(self.messages@)
    }
}

impl Default for PromptBuilder {
    fn default() -> (r: Self)
        ensures
            r@ == Seq::<MessageView>::empty(),
    {
        Self::new()
    }
}

impl PromptBuilder {
    /// A builder without messages.
    pub fn new() -> (r: Self)
        ensures
            r@ == Seq::<MessageView>::empty(),
    {
        let r = PromptBuilder { messages: Vec::new() };
        assert(r@ =~= Seq::<MessageView>::empty());
        r
    }

    fn with(self, role: &str, content: String) -> (r: Self)
        ensures
            r@ == self@.push((role@, content@)),
    {
        let mut messages = self.messages;
        let ghost before = messages@;
        messages.push(ChatMessage { role: owned(role), content });
        let r = PromptBuilder { messages };
        assert(r@ =~= message_views(before).push((role@, content@)));
        r
    }

    /// Appends a message of the system role.
    pub fn system(self, content: String) -> (r: Self)
        ensures
            r@ == self@.push(("system"@, content@)),
    {
        self.with("system", content)
    }

    /// Appends a message of the user role.
    pub fn user(self, content: String) -> (r: Self)
        ensures
            r@ == self@.push(("user"@, content@)),
    {
        self.with("user", content)
    }

    /// Appends a message of the assistant role, useful for few-shot examples.
    pub fn assistant(self, content: String) -> (r: Self)
        ensures
            r@ == self@.push(("assistant"@, content@)),
    {
        self.with("assistant", content)
    }

    /// All messages in the order they were appended.
    pub fn build(&self) -> (r: &[ChatMessage])
        ensures
            message_views(r@) == self@,
    {
        self.messages.as_slice()
    }
}

} // verus!
