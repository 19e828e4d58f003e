//! The grow-only counter actor: clients add non-negative deltas, deltas
//! replicate to every peer through gossip, and a read answers with the
//! sum of every delta observed so far.
use crate::actor::Actor;
use crate::crdt::{
    merge_known, merge_store, payload_view, CrdtBase, CrdtMessageResponse, Payload,
};
use crate::errors::Error;
use crate::message::{ActorID, Message};
use vstd::prelude::*;

verus! {

/// The sum of every delta in a store.
pub open spec fn sum_of(s: Seq<((Seq<char>, u64), u64)>) -> int
    decreases s.len(),
{
    if s.len() == 0 {
        0
    } else {
        sum_of(s.drop_last()) + s.last().1
    }
}

/// Deltas are non-negative, so a prefix never sums to more than the
/// whole store.
proof fn lemma_sum_take(s: Seq<((Seq<char>, u64), u64)>, i: int)
    requires
        0 <= i <= s.len(),
    ensures
        sum_of(s.take(i)) <= sum_of(s),
    decreases s.len() - i,
{
    if i == s.len() {
        assert(s.take(i) =~= s);
    } else {
        assert(s.take(i + 1).drop_last() =~= s.take(i));
        assert(s.take(i + 1).last() == s[i]);
        lemma_sum_take(s, i + 1);
    }
}

/// A grow-only counter node, a thin shell over the gossip engine with
/// `u64` deltas and the sum as its read projection.
pub struct GCounter(pub CrdtBase<u64>);

impl GCounter {
    /// The counter's current value as the model sees it.
    pub open spec fn total(self) -> int {
        sum_of(self.0.store())
    }

    /// The counter's value when it fits in a `u64`, `None` when the
    /// deltas sum past `u64::MAX`.
    pub fn read_value(&self) -> (r: Option<u64>)
        ensures
            match r {
                Some(v) => v == self.total() && self.total() <= u64::MAX,
                None => self.total() > u64::MAX,
            },
    {
        let mut acc: u64 = 0;
        let mut i: usize = 0;
        while i < self.0.messages.len()
            invariant
                i <= self.0.messages@.len(),
                acc == sum_of(self.0.store().take(i as int)),
            decreases self.0.messages@.len() - i,
        {
            proof {
                assert(self.0.store().take(i as int + 1).drop_last() =~= self.0.store().take(
                    i as int,
                ));
                assert(self.0.store().take(i as int + 1).last() == self.0.store()[i as int]);
            }
            let d = self.0.messages[i].1;
            match acc.checked_add(d) {
                Some(n) => {
                    acc = n;
                },
                None => {
                    proof {
                        lemma_sum_take(self.0.store(), i as int + 1);
                    }
                    return None;
                },
            }
            i += 1;
        }
        proof {
            assert(self.0.store().take(self.0.messages@.len() as int) =~= self.0.store());
        }
        Some(acc)
    }
}

impl Default for GCounter {
    /// A counter before initialization: empty store, no knowledge.
    fn default() -> (r: Self)
        ensures
            r.0.node_id is None,
            r.0.peers@.len() == 0,
            r.0.messages@.len() == 0,
            r.0.known@.len() == 0,
    {
        GCounter(Default::default())
    }
}

impl Actor for GCounter {
    type MessagePayload = Payload<u64>;

    /// Initialization expects the freshly constructed state.
    open spec fn init_req(self, node_id: ActorID, peers: Seq<ActorID>) -> bool {
        &&& self.0.messages@.len() == 0
        &&& self.0.known@.len() == 0
    }

    open spec fn init_post(
        pre: Self,
        post: Self,
        node_id: ActorID,
        peers: Seq<ActorID>,
        r: Result<(), Error>,
    ) -> bool {
        &&& r is Ok
        &&& post.0.node_id == Some(node_id)
        &&& post.0.peers@ == peers
        &&& post.0.messages@.len() == 0
        &&& post.0.known@.len() == 0
        &&& post.0.wf()
        &&& post.0.ids_coherent()
    }

    /// A message is acceptable once the node has its identity, a read
    /// only while the counter still fits in a `u64`, and a knowledge
    /// report never comes from the node itself.
    open spec fn receive_req(self, request: Message<Self::MessagePayload>) -> bool {
        &&& self.0.wf()
        &&& self.0.node_id is Some
        &&& (request.body matches Payload::Read { msg_id } ==> self.total() <= u64::MAX)
        &&& (request.body matches Payload::Add { msg_id, delta } ==> self.0.next_seq
            < u64::MAX)
        &&& (request.body matches Payload::GossipOk { seen } ==> request.src@ != self.0.id())
    }

    open spec fn receive_post(
        pre: Self,
        post: Self,
        request: Message<Self::MessagePayload>,
        r: Result<Vec<Message<Self::MessagePayload>>, Error>,
    ) -> bool {
        &&& r is Ok
        &&& post.0.wf()
        &&& post.0.node_id == pre.0.node_id
        &&& post.0.peers == pre.0.peers
        &&& forall|p: Seq<char>|
            pre.0.known_of(p).subset_of(#[trigger] post.0.known_of(p))
        &&& (pre.0.ids_coherent() && (request.body matches Payload::Gossip { payload }
            ==> pre.0.payload_honest(payload@))) ==> post.0.ids_coherent()
        &&& match request.body {
            Payload::Add { msg_id, delta } => {
                &&& post.0.store() == pre.0.store().push(
                    ((pre.0.id(), pre.0.next_seq), delta),
                )
                &&& post.0.next_seq == pre.0.next_seq + 1
                &&& post.0.known_of(pre.0.id()) == pre.0.known_of(pre.0.id()).insert(
                    (pre.0.id(), pre.0.next_seq),
                )
                &&& post.0.store_ids().contains((pre.0.id(), pre.0.next_seq))
                &&& (r matches Ok(v) && v@.len() == 1 && v@[0].src == request.dest
                    && v@[0].dest == request.src && (v@[0].body matches Payload::AddOk {
                    in_reply_to,
                } && in_reply_to == msg_id))
            },
            Payload::Read { msg_id } => {
                &&& post == pre
                &&& (r matches Ok(v) && v@.len() == 1 && v@[0].src == request.dest
                    && v@[0].dest == request.src && (v@[0].body matches Payload::ReadOk {
                    in_reply_to,
                    value,
                } && in_reply_to == msg_id && value == pre.total()))
            },
            Payload::StartGossip => {
                &&& post == pre
                &&& (r matches Ok(v) && v@.len() == pre.0.gossip_plan().len() && forall|k: int|
                    0 <= k < v@.len() ==> (#[trigger] v@[k]).src@ == pre.0.id()
                        && v@[k].dest@ == pre.0.gossip_plan()[k].0 && (v@[k].body
                        matches Payload::Gossip { payload: pl } && payload_view(pl@)
                        == pre.0.gossip_plan()[k].1))
            },
            Payload::Gossip { payload } => {
                &&& post.0.store() == merge_store(
                    pre.0.store(),
                    pre.0.known_of(pre.0.id()),
                    payload_view(payload@),
                )
                &&& post.0.known_of(pre.0.id()) == merge_known(
                    pre.0.known_of(pre.0.id()),
                    payload_view(payload@),
                )
                &&& (r matches Ok(v) && v@.len() == 1 && v@[0].src == request.dest
                    && v@[0].dest == request.src && (v@[0].body matches Payload::GossipOk {
                    seen,
                } && crate::crdt::id_set(seen@) == post.0.known_of(pre.0.id())))
            },
            Payload::GossipOk { seen } => {
                &&& post.0.store() == pre.0.store()
                &&& post.0.known_of(request.src@) == pre.0.known_of(request.src@).union(
                    crate::crdt::id_set(seen@),
                )
                &&& (r matches Ok(v) && v@.len() == 0)
            },
            _ => {
                &&& post == pre
                &&& (r matches Ok(v) && v@.len() == 0)
            },
        }
    }

    fn init(&mut self, node_id: ActorID, peers: Vec<ActorID>) -> (r: Result<(), Error>) {
        self.0.node_id = Some(node_id);
        self.0.peers = peers;
        proof {
            assert(self.0.store().len() == 0);
            assert(self.0.store_ids() =~= Set::<(Seq<char>, u64)>::empty());
            assert(self.0.wf());
            assert(self.0.ids_coherent());
        }
        Ok(())
    }

    fn receive(&mut self, request: &Message<Self::MessagePayload>) -> (r: Result<
        Vec<Message<Self::MessagePayload>>,
        Error,
    >) {
        match self.0.process_crdt_payload(request) {
            CrdtMessageResponse::Responses(responses) => Ok(responses),
            CrdtMessageResponse::ReadRequest(seq) => {
                proof {
                    assert(request.body matches Payload::Read { .. });
                }
                let val = match self.read_value() {
                    Some(v) => v,
                    None => {
                        proof {
                            assert(false);
                        }
                        0
                    },
                };
                let mut v: Vec<Message<Self::MessagePayload>> = Vec::new();
                v.push(
                    Message::new_reply_to(
                        request,
                        Payload::ReadOk { in_reply_to: seq, value: val },
                    ),
                );
                Ok(v)
            },
        }
    }
}

} // verus!
