//! The echo actor: a stateless request/response mapping that returns
//! whatever a client sent.
use crate::actor::Actor;
use crate::errors::Error;
use crate::message::{ActorID, Message, MessageID};
use vstd::prelude::*;

verus! {

/// The echo actor's message vocabulary.  The kind tag travels as a
/// field, so an unexpected tag is representable and refused explicitly.
#[derive(Debug)]
pub enum Payload {
    /// A client asks for its text back.
    Echo { message_type: String, msg_id: MessageID, echo: String },
    /// The reply carrying the same text.
    EchoAck { message_type: String, in_reply_to: MessageID, echo: String },
}

/// An echo node: no state beyond its identity.
pub struct EchoActor {
    /// Identity assigned at initialization.
    pub node_id: Option<ActorID>,
}

impl Default for EchoActor {
    /// An echo node before initialization.
    fn default() -> (r: Self)
        ensures
            r.node_id is None,
    {
        EchoActor { node_id: None }
    }
}

impl Actor for EchoActor {
    type MessagePayload = Payload;

    open spec fn init_req(self, node_id: ActorID, peers: Seq<ActorID>) -> bool {
        true
    }

    open spec fn init_post(
        pre: Self,
        post: Self,
        node_id: ActorID,
        peers: Seq<ActorID>,
        r: Result<(), Error>,
    ) -> bool {
        &&& r is Ok
        &&& post.node_id == Some(node_id)
    }

    open spec fn receive_req(self, request: Message<Self::MessagePayload>) -> bool {
        true
    }

    open spec fn receive_post(
        pre: Self,
        post: Self,
        request: Message<Self::MessagePayload>,
        r: Result<Vec<Message<Self::MessagePayload>>, Error>,
    ) -> bool {
        &&& post == pre
        &&& match request.body {
            Payload::Echo { message_type, msg_id, echo } => {
                if message_type@ == "echo"@ {
                    r matches Ok(v) && v@.len() == 1 && v@[0].src == request.dest
                        && v@[0].dest == request.src && (v@[0].body matches Payload::EchoAck {
                        message_type: mt,
                        in_reply_to,
                        echo: e,
                    } && mt@ == "echo_ok"@ && in_reply_to == msg_id && e == echo)
                } else {
                    r matches Err(x) && x == Error::NotSupported
                }
            },
            Payload::EchoAck { .. } => r matches Ok(v) && v@.len() == 0,
        }
    }

    fn init(&mut self, node_id: ActorID, peers: Vec<ActorID>) -> (r: Result<(), Error>) {
        self.node_id = Some(node_id);
        Ok(())
    }

    fn receive(&mut self, request: &Message<Self::MessagePayload>) -> (r: Result<
        Vec<Message<Self::MessagePayload>>,
        Error,
    >) {
        match &request.body {
            Payload::Echo { message_type, msg_id, echo } => {
                if *message_type == "echo".to_owned() {
                    let ack = Payload::EchoAck {
                        message_type: "echo_ok".to_owned(),
                        in_reply_to: *msg_id,
                        echo: echo.clone(),
                    };
                    let mut v: Vec<Message<Self::MessagePayload>> = Vec::new();
                    v.push(Message::new_reply_to(request, ack));
                    Ok(v)
                } else {
                    Err(Error::NotSupported)
                }
            },
            Payload::EchoAck { .. } => Ok(Vec::new()),
        }
    }
}

} // verus!
