//! The generic message envelope exchanged between nodes.
use vstd::prelude::*;

verus! {

/// Stable identifier of a network participant.
pub type ActorID = String;

/// Message IDs are unique only on the node which assigned them; each node
/// uses a monotonically increasing integer as its source of message IDs.
pub type MessageID = u64;

/// An envelope carrying a body of type `T` from `src` to `dest`.
#[derive(Debug)]
pub struct Message<T> {
    /// Source of the message.
    pub src: ActorID,
    /// Destination of the message.
    pub dest: ActorID,
    /// The payload.
    pub body: T,
}

impl<T> Message<T> {
    /// Build a reply to `msg`: source and destination are swapped and the
    /// given body is attached.
    pub fn new_reply_to<U>(msg: &Message<T>, body: U) -> (r: Message<U>)
        ensures
            r.src == msg.dest,
            r.dest == msg.src,
            r.body == body,
    {
        Message { src: msg.dest.clone(), dest: msg.src.clone(), body }
    }
}

} // verus!
