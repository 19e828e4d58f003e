//! The unique-id actor: every request is answered with a freshly drawn
//! globally unique identifier.
use crate::actor::Actor;
use crate::errors::Error;
use crate::message::{ActorID, Message, MessageID};
use vstd::prelude::*;

verus! {

/// The id actor's message vocabulary.  The kind tag travels as a field,
/// so an unexpected tag is representable and refused explicitly.
#[derive(Debug)]
pub enum Payload {
    /// A client asks for a fresh globally unique id.
    Generate { message_type: String, msg_id: MessageID },
    /// The reply carrying the generated id.
    GenerateAck { message_type: String, in_reply_to: MessageID, id: String },
}

/// An id-generating node: no state beyond its identity.
pub struct IDActor {
    /// Identity assigned at initialization.
    pub node_id: Option<ActorID>,
}

impl Default for IDActor {
    /// An id node before initialization.
    fn default() -> (r: Self)
        ensures
            r.node_id is None,
    {
        IDActor { node_id: None }
    }
}

/// Relies on `uuid::Uuid::new_v4` and its `Display` impl: a freshly
/// drawn random version-4 UUID, rendered in the 36-character hyphenated
/// form.  The draw is random, so nothing relates two calls; only the
/// rendered length is stated.
#[verifier::external_body]
fn fresh_uuid_string() -> (r: String)
    ensures
        r@.len() == 36,
{
    uuid::Uuid::new_v4().to_string()
}

/// Build the acknowledgement for a generate request around an id the
/// caller obtained elsewhere.
pub fn generate_reply(request: &Message<Payload>, msg_id: MessageID, id: String) -> (r: Message<
    Payload,
>)
    ensures
        r.src == request.dest,
        r.dest == request.src,
        (r.body matches Payload::GenerateAck { message_type: mt, in_reply_to, id: i }
            && mt@ == "generate_ok"@ && in_reply_to == msg_id && i == id),
{
    Message::new_reply_to(
        request,
        Payload::GenerateAck {
            message_type: "generate_ok".to_owned(),
            in_reply_to: msg_id,
            id,
        },
    )
}

impl Actor for IDActor {
    type MessagePayload = Payload;

    open spec fn init_req(self, node_id: ActorID, peers: Seq<ActorID>) -> bool {
        true
    }

    open spec fn init_post(
        pre: Self,
        post: Self,
        node_id: ActorID,
        peers: Seq<ActorID>,
        r: Result<(), Error>,
    ) -> bool {
        &&& r is Ok
        &&& post.node_id == Some(node_id)
    }

    open spec fn receive_req(self, request: Message<Self::MessagePayload>) -> bool {
        true
    }

    open spec fn receive_post(
        pre: Self,
        post: Self,
        request: Message<Self::MessagePayload>,
        r: Result<Vec<Message<Self::MessagePayload>>, Error>,
    ) -> bool {
        &&& post == pre
        &&& match request.body {
            Payload::Generate { message_type, msg_id } => {
                if message_type@ == "generate"@ {
                    r matches Ok(v) && v@.len() == 1 && v@[0].src == request.dest
                        && v@[0].dest == request.src && (v@[0].body
                        matches Payload::GenerateAck { message_type: mt, in_reply_to, id }
                        && mt@ == "generate_ok"@ && in_reply_to == msg_id && id@.len() == 36)
                } else {
                    r matches Err(x) && x == Error::NotSupported
                }
            },
            Payload::GenerateAck { .. } => r matches Ok(v) && v@.len() == 0,
        }
    }

    fn init(&mut self, node_id: ActorID, peers: Vec<ActorID>) -> (r: Result<(), Error>) {
        self.node_id = Some(node_id);
        Ok(())
    }

    fn receive(&mut self, request: &Message<Self::MessagePayload>) -> (r: Result<
        Vec<Message<Self::MessagePayload>>,
        Error,
    >) {
        match &request.body {
            Payload::Generate { message_type, msg_id } => {
                if *message_type == "generate".to_owned() {
                    let fresh = fresh_uuid_string();
                    let mut v: Vec<Message<Self::MessagePayload>> = Vec::new();
                    v.push(generate_reply(request, *msg_id, fresh));
                    Ok(v)
                } else {
                    Err(Error::NotSupported)
                }
            },
            Payload::GenerateAck { .. } => Ok(Vec::new()),
        }
    }
}

} // verus!
