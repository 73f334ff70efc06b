//! Distribution keys: which events must be handled in order relative to each other.
use vstd::prelude::*;

verus! {

/// Identifier of a chat (a conversation) on the platform.
#[derive(Clone, Copy, Debug, PartialEq, Eq, Hash, Structural)]
pub struct ChatId(pub i64);

/// Default distribution key for dispatching.
#[derive(Clone, Copy, Debug, PartialEq, Eq, Hash, Structural)]
pub struct DefaultKey(pub ChatId);

/// An inbound event. The dispatcher reads its chat, if any, to order it; the
/// pipeline's filters read its kind and payload; everything else about it is
/// opaque here.
#[derive(Clone, Copy, Debug, PartialEq, Eq, Hash, Structural)]
pub struct Update {
    pub id: u64,
    pub kind: u8,
    pub chat: Option<ChatId>,
    pub payload: i64,
}

impl Update {
    /// The chat this event belongs to, if it has one.
    pub fn chat(&self) -> (r: Option<ChatId>)
        ensures
            r == self.chat,
    {
        self.chat
    }
}

/// The key of an event: its chat, or none for events of no conversation.
pub open spec fn key_of(update: Update) -> Option<DefaultKey> {
    match update.chat {
        Some(c) => Some(DefaultKey(c)),
        None => None,
    }
}

/// Maps an event to its ordering partition, the chat it belongs to.
pub fn default_distribution_function(update: &Update) -> (r: Option<DefaultKey>)
    ensures
        r == key_of(*update),
{
    match update.chat() {
        Some(c) => Some(DefaultKey(c)),
        None => None,
    }
}

} // verus!
