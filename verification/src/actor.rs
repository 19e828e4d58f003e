//! The actor interface: the pluggable unit of behavior that a runtime
//! drives with one serialized stream of messages.
use crate::errors::Error;
use crate::message::{ActorID, Message};
use vstd::prelude::*;

verus! {

/// The pluggable unit of behavior of a node.  A runtime calls `init`
/// exactly once, before any `receive`, and never overlaps two calls:
/// every state transition happens inside exactly one call at a time.
/// Each implementation states its own contract through the four spec
/// functions.
pub trait Actor: Sized {
    /// The closed message vocabulary this actor understands.
    type MessagePayload;

    /// What the actor requires of the initialization call.
    spec fn init_req(self, node_id: ActorID, peers: Seq<ActorID>) -> bool;

    /// How the state after `init` relates to the assigned identity and
    /// peer list.
    spec fn init_post(
        pre: Self,
        post: Self,
        node_id: ActorID,
        peers: Seq<ActorID>,
        r: Result<(), Error>,
    ) -> bool;

    /// What the actor requires of a message handed to `receive`.
    spec fn receive_req(self, request: Message<Self::MessagePayload>) -> bool;

    /// How the state after `receive` and the produced envelopes relate
    /// to the state before and the consumed message.
    spec fn receive_post(
        pre: Self,
        post: Self,
        request: Message<Self::MessagePayload>,
        r: Result<Vec<Message<Self::MessagePayload>>, Error>,
    ) -> bool;

    /// Give the actor its identity and its peer list.
    fn init(&mut self, node_id: ActorID, peers: Vec<ActorID>) -> (r: Result<(), Error>)
        requires
            old(self).init_req(node_id, peers@),
        ensures
            Self::init_post(*old(self), *final(self), node_id, peers@, r),
    ;

    /// Consume one message; may mutate state; returns the envelopes to
    /// transmit, in order.
    fn receive(&mut self, request: &Message<Self::MessagePayload>) -> (r: Result<
        Vec<Message<Self::MessagePayload>>,
        Error,
    >)
        requires
            old(self).receive_req(*request),
        ensures
            Self::receive_post(*old(self), *final(self), *request, r),
    ;
}

} // verus!
