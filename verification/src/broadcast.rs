//! The broadcast actor: clients hand a node an arbitrary value, values
//! replicate to every peer through gossip, and a read answers with every
//! value observed so far.  Values are carried opaquely as text; the
//! engine never inspects them.
use crate::actor::Actor;
use crate::crdt::{
    batches_view, distinct_ids, id_set, lemma_append_fresh, lemma_emit_batch_step,
    lemma_merge_keeps_coherence, lemma_merge_store_entries_from, merge_known, merge_store,
    payload_view, CrdtBase, UniqueMessageId,
};
use crate::errors::Error;
use crate::message::{ActorID, Message, MessageID};
use vstd::prelude::*;

verus! {

/// The broadcast actor's message vocabulary, discriminated by an
/// explicit kind tag on the wire.
#[derive(Debug)]
pub enum Payload {
    /// The harness assigns this node its peer list.
    Topology { msg_id: MessageID, topology: Vec<(ActorID, Vec<ActorID>)> },
    /// Acknowledgement of a `Topology`.
    TopologyOk { in_reply_to: MessageID },
    /// A client introduces a value.
    Broadcast { msg_id: MessageID, message: String },
    /// Acknowledgement of a `Broadcast`.
    BroadcastOk { in_reply_to: MessageID },
    /// Internally generated tick: gossip unsent entries to every peer.
    StartGossip,
    /// Entries a peer believes this node has not observed.
    Gossip { payload: Vec<(UniqueMessageId, String)> },
    /// Reply to `Gossip`: the replier's entire current knowledge.
    GossipOk { seen: Vec<UniqueMessageId> },
    /// A client asks for every observed value.
    Read { msg_id: MessageID },
    /// Reply to `Read`: the observed values, in store order.
    ReadOk { messages: Vec<String>, in_reply_to: MessageID },
}

/// A broadcast node: the gossip engine with opaque text values.
pub struct BroadcastActor(pub CrdtBase<String>);

impl BroadcastActor {
    /// This node's id, cloned out of the state.
    pub fn node_id(&self) -> (r: ActorID)
        requires
            self.0.node_id is Some,
        ensures
            r@ == self.0.id(),
    {
        self.0.node_id()
    }
}

impl Default for BroadcastActor {
    /// A broadcast node before initialization: empty store, no knowledge.
    fn default() -> (r: Self)
        ensures
            r.0.node_id is None,
            r.0.peers@.len() == 0,
            r.0.messages@.len() == 0,
            r.0.known@.len() == 0,
    {
        BroadcastActor(Default::default())
    }
}

/// The first row of `t` keyed by `me`, if any.
fn topo_find(t: &Vec<(ActorID, Vec<ActorID>)>, me: &ActorID) -> (r: Option<usize>)
    ensures
        match r {
            Some(i) => i < t@.len() && t@[i as int].0@ == me@ && forall|k: int|
                0 <= k < i ==> t@[k].0@ != me@,
            None => forall|k: int| 0 <= k < t@.len() ==> t@[k].0@ != me@,
        },
{
    let mut i: usize = 0;
    while i < t.len()
        invariant
            i <= t@.len(),
            forall|k: int| 0 <= k < i ==> t@[k].0@ != me@,
        decreases t@.len() - i,
    {
        if t[i].0 == *me {
            return Some(i);
        }
        i += 1;
    }
    None
}

/// An equal copy of a peer list.
fn clone_actor_list(l: &Vec<ActorID>) -> (r: Vec<ActorID>)
    ensures
        r@ == l@,
{
    let mut r: Vec<ActorID> = Vec::new();
    let mut i: usize = 0;
    while i < l.len()
        invariant
            i <= l@.len(),
            r@ == l@.take(i as int),
        decreases l@.len() - i,
    {
        r.push(l[i].clone());
        proof {
            assert(l@.take(i as int + 1) =~= l@.take(i as int).push(l@[i as int]));
        }
        i += 1;
    }
    proof {
        assert(l@.take(l@.len() as int) =~= l@);
    }
    r
}

impl Actor for BroadcastActor {
    type MessagePayload = Payload;

    /// Initialization expects the freshly constructed state.  The peer
    /// list is ignored here: broadcast peers come from `Topology`.
    open spec fn init_req(self, node_id: ActorID, peers: Seq<ActorID>) -> bool {
        &&& self.0.messages@.len() == 0
        &&& self.0.known@.len() == 0
    }

    open spec fn init_post(
        pre: Self,
        post: Self,
        node_id: ActorID,
        peers: Seq<ActorID>,
        r: Result<(), Error>,
    ) -> bool {
        &&& r is Ok
        &&& post.0.node_id == Some(node_id)
        &&& post.0.peers == pre.0.peers
        &&& post.0.messages@.len() == 0
        &&& post.0.known@.len() == 0
        &&& post.0.wf()
        &&& post.0.ids_coherent()
    }

    /// A message is acceptable once the node has its identity, a
    /// topology must mention this node, and a knowledge report never
    /// comes from the node itself.
    open spec fn receive_req(self, request: Message<Self::MessagePayload>) -> bool {
        &&& self.0.wf()
        &&& self.0.node_id is Some
        &&& (request.body matches Payload::Topology { msg_id, topology } ==> exists|i: int|
            0 <= i < topology@.len() && (#[trigger] topology@[i]).0@ == self.0.id())
        &&& (request.body matches Payload::Broadcast { msg_id, message } ==> self.0.next_seq
            < u64::MAX)
        &&& (request.body matches Payload::GossipOk { seen } ==> request.src@ != self.0.id())
    }

    open spec fn receive_post(
        pre: Self,
        post: Self,
        request: Message<Self::MessagePayload>,
        r: Result<Vec<Message<Self::MessagePayload>>, Error>,
    ) -> bool {
        &&& r is Ok
        &&& post.0.wf()
        &&& post.0.node_id == pre.0.node_id
        &&& forall|p: Seq<char>|
            pre.0.known_of(p).subset_of(#[trigger] post.0.known_of(p))
        &&& (pre.0.ids_coherent() && (request.body matches Payload::Gossip { payload }
            ==> pre.0.payload_honest(payload@))) ==> post.0.ids_coherent()
        &&& match request.body {
            Payload::Topology { msg_id, topology } => {
                &&& (exists|i: int|
                    0 <= i < topology@.len() && (#[trigger] topology@[i]).0@ == pre.0.id()
                        && (forall|k: int| 0 <= k < i ==> topology@[k].0@ != pre.0.id())
                        && post.0.peers@ == topology@[i].1@)
                &&& post.0.messages == pre.0.messages
                &&& post.0.known == pre.0.known
                &&& (r matches Ok(v) && v@.len() == 1 && v@[0].src == request.dest
                    && v@[0].dest == request.src && (v@[0].body matches Payload::TopologyOk {
                    in_reply_to,
                } && in_reply_to == msg_id))
            },
            Payload::Broadcast { msg_id, message } => {
                &&& post.0.store() == pre.0.store().push(
                    ((pre.0.id(), pre.0.next_seq), message),
                )
                &&& post.0.next_seq == pre.0.next_seq + 1
                &&& post.0.known_of(pre.0.id()) == pre.0.known_of(pre.0.id()).insert(
                    (pre.0.id(), pre.0.next_seq),
                )
                &&& forall|p: Seq<char>|
                    p != pre.0.id() ==> post.0.known_of(p) == pre.0.known_of(p)
                &&& post.0.store_ids().contains((pre.0.id(), pre.0.next_seq))
                &&& post.0.peers == pre.0.peers
                &&& (r matches Ok(v) && v@.len() == 1 && v@[0].src == request.dest
                    && v@[0].dest == request.src && (v@[0].body
                    matches Payload::BroadcastOk { in_reply_to } && in_reply_to == msg_id))
            },
            Payload::StartGossip => {
                &&& post == pre
                &&& (r matches Ok(v) && v@.len() == pre.0.gossip_plan().len() && forall|k: int|
                    0 <= k < v@.len() ==> (#[trigger] v@[k]).src@ == pre.0.id()
                        && v@[k].dest@ == pre.0.gossip_plan()[k].0 && (v@[k].body
                        matches Payload::Gossip { payload: pl } && payload_view(pl@)
                        == pre.0.gossip_plan()[k].1))
            },
            Payload::Gossip { payload } => {
                &&& post.0.next_seq == pre.0.next_seq
                &&& post.0.store() == merge_store(
                    pre.0.store(),
                    pre.0.known_of(pre.0.id()),
                    payload_view(payload@),
                )
                &&& post.0.known_of(pre.0.id()) == merge_known(
                    pre.0.known_of(pre.0.id()),
                    payload_view(payload@),
                )
                &&& post.0.peers == pre.0.peers
                &&& (r matches Ok(v) && v@.len() == 1 && v@[0].src == request.dest
                    && v@[0].dest == request.src && (v@[0].body matches Payload::GossipOk {
                    seen,
                } && id_set(seen@) == post.0.known_of(pre.0.id()) && distinct_ids(seen@)))
            },
            Payload::GossipOk { seen } => {
                &&& post.0.store() == pre.0.store()
                &&& post.0.next_seq == pre.0.next_seq
                &&& post.0.known_of(request.src@) == pre.0.known_of(request.src@).union(
                    id_set(seen@),
                )
                &&& post.0.peers == pre.0.peers
                &&& (r matches Ok(v) && v@.len() == 0)
            },
            Payload::Read { msg_id } => {
                &&& post == pre
                &&& (r matches Ok(v) && v@.len() == 1 && v@[0].src == request.dest
                    && v@[0].dest == request.src && (v@[0].body matches Payload::ReadOk {
                    messages: ms,
                    in_reply_to,
                } && in_reply_to == msg_id && ms@.len() == pre.0.store().len() && forall|
                    i: int,
                |
                    0 <= i < ms@.len() ==> ms@[i] == pre.0.store()[i].1))
            },
            _ => {
                &&& post == pre
                &&& (r matches Ok(v) && v@.len() == 0)
            },
        }
    }

    fn init(&mut self, node_id: ActorID, peers: Vec<ActorID>) -> (r: Result<(), Error>) {
        self.0.node_id = Some(node_id);
        proof {
            assert(self.0.store().len() == 0);
            assert(self.0.store_ids() =~= Set::<(Seq<char>, u64)>::empty());
            assert(self.0.wf());
            assert(self.0.ids_coherent());
        }
        Ok(())
    }

    fn receive(&mut self, request: &Message<Self::MessagePayload>) -> (r: Result<
        Vec<Message<Self::MessagePayload>>,
        Error,
    >) {
        let ghost pre = *self;
        match &request.body {
            Payload::Topology { msg_id, topology } => {
                let me = self.0.node_id();
                let idx = match topo_find(topology, &me) {
                    Some(i) => i,
                    None => {
                        proof {
                            assert(false);
                        }
                        0
                    },
                };
                self.0.peers = clone_actor_list(&topology[idx].1);
                proof {
                    assert(self.0.store() == pre.0.store());
                    assert forall|p: Seq<char>| #[trigger] self.0.known_of(p)
                        == pre.0.known_of(p) by {
                        self.0.lemma_known_same(pre.0, p);
                    }
                }
                let mut v: Vec<Message<Self::MessagePayload>> = Vec::new();
                v.push(
                    Message::new_reply_to(
                        request,
                        Payload::TopologyOk { in_reply_to: *msg_id },
                    ),
                );
                Ok(v)
            },
            Payload::Broadcast { msg_id, message } => {
                let me = self.0.node_id();
                let seq = self.0.next_seq;
                self.0.next_seq = self.0.next_seq + 1;
                proof {
                    assert forall|p: Seq<char>| #[trigger] self.0.known_of(p)
                        == pre.0.known_of(p) by {
                        self.0.lemma_known_same(pre.0, p);
                    }
                    assert(self.0.wf());
                }
                self.0.add_value(me, seq, message.clone());
                proof {
                    if pre.0.ids_coherent() {
                        let idv = (pre.0.id(), seq as u64);
                        let e = self.0.store().last();
                        assert(self.0.store() =~= pre.0.store().push(e));
                        assert(e.0 == idv);
                        assert(!pre.0.store_ids().contains(idv)) by {
                            if pre.0.store_ids().contains(idv) {
                                let a = choose|a: int|
                                    0 <= a < pre.0.store().len() && pre.0.store()[a].0 == idv;
                                assert(pre.0.store()[a].0.1 < pre.0.next_seq);
                            }
                        }
                        lemma_append_fresh(pre.0.store(), e);
                        assert(self.0.known_of(pre.0.id()) =~= self.0.store_ids());
                        assert forall|i: int| 0 <= i < self.0.store().len() implies ((
                        #[trigger] self.0.store()[i]).0.0 == self.0.id()
                            ==> self.0.store()[i].0.1 < self.0.next_seq) by {
                            if i < pre.0.store().len() {
                                assert(self.0.store()[i] == pre.0.store()[i]);
                            }
                        }
                        assert(self.0.ids_coherent());
                    }
                }
                let mut v: Vec<Message<Self::MessagePayload>> = Vec::new();
                v.push(
                    Message::new_reply_to(
                        request,
                        Payload::BroadcastOk { in_reply_to: *msg_id },
                    ),
                );
                Ok(v)
            },
            Payload::StartGossip => {
                let ghost plan = self.0.gossip_plan();
                let ghost mev = self.0.id();
                let me = self.0.node_id();
                let mut batches = self.0.unsent_batches();
                let mut v: Vec<Message<Self::MessagePayload>> = Vec::new();
                while batches.len() > 0
                    invariant
                        batches_view(batches@) == plan.skip(v@.len() as int),
                        v@.len() <= plan.len(),
                        me@ == mev,
                        forall|k: int|
                            0 <= k < v@.len() ==> (#[trigger] v@[k]).src@ == mev
                                && v@[k].dest@ == plan[k].0 && (v@[k].body
                                matches Payload::Gossip { payload: pl } && payload_view(
                                pl@,
                            ) == plan[k].1),
                    decreases batches@.len(),
                {
                    let ghost t = v@.len() as int;
                    let ghost oldb = batches@;
                    let b = batches.remove(0);
                    proof {
                        lemma_emit_batch_step(oldb, plan, t);
                        assert(batches_view(oldb)[0] == (b.0@, payload_view(b.1@)));
                        assert(batches@ == oldb.remove(0));
                    }
                    v.push(
                        Message {
                            src: me.clone(),
                            dest: b.0,
                            body: Payload::Gossip { payload: b.1 },
                        },
                    );
                }
                proof {
                    assert(plan.skip(v@.len() as int).len() == 0);
                    assert(v@.len() == plan.len());
                }
                Ok(v)
            },
            Payload::Gossip { payload } => {
                self.0.merge_gossip(payload);
                proof {
                    if pre.0.ids_coherent() && pre.0.payload_honest(payload@) {
                        let pv = payload_view(payload@);
                        lemma_merge_keeps_coherence(
                            pre.0.store(),
                            pre.0.known_of(pre.0.id()),
                            pv,
                        );
                        lemma_merge_store_entries_from(
                            pre.0.store(),
                            pre.0.known_of(pre.0.id()),
                            pv,
                        );
                        assert forall|i: int| 0 <= i < self.0.store().len() implies ((
                        #[trigger] self.0.store()[i]).0.0 == self.0.id()
                            ==> self.0.store()[i].0.1 < self.0.next_seq) by {
                            let x = self.0.store()[i];
                            if pre.0.store().contains(x) {
                                let a = choose|a: int|
                                    0 <= a < pre.0.store().len() && pre.0.store()[a] == x;
                            } else {
                                assert(pv.contains(x));
                                let j = choose|j: int| 0 <= j < pv.len() && pv[j] == x;
                                assert(pv[j].0 == payload@[j].0@);
                            }
                        }
                        assert(self.0.ids_coherent());
                    }
                }
                let seen = self.0.seen_by_self();
                let mut v: Vec<Message<Self::MessagePayload>> = Vec::new();
                v.push(Message::new_reply_to(request, Payload::GossipOk { seen }));
                Ok(v)
            },
            Payload::GossipOk { seen } => {
                self.0.record_seen(&request.src, seen);
                proof {
                    assert(self.0.store() == pre.0.store());
                    assert(self.0.known_of(pre.0.id()) == pre.0.known_of(pre.0.id()));
                }
                Ok(Vec::new())
            },
            Payload::Read { msg_id } => {
                let values = self.0.all_values();
                let mut v: Vec<Message<Self::MessagePayload>> = Vec::new();
                v.push(
                    Message::new_reply_to(
                        request,
                        Payload::ReadOk { messages: values, in_reply_to: *msg_id },
                    ),
                );
                Ok(v)
            },
            Payload::TopologyOk { .. } => Ok(Vec::new()),
            Payload::BroadcastOk { .. } => Ok(Vec::new()),
            Payload::ReadOk { .. } => Ok(Vec::new()),
        }
    }
}

} // verus!
