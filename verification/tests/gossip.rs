use maelstrom::actor::Actor;
use maelstrom::broadcast::{BroadcastActor, Payload};
use maelstrom::crdt::UniqueMessageId;
use maelstrom::message::Message;

fn envelope(src: &str, dest: &str, body: Payload) -> Message<Payload> {
    Message { src: src.to_string(), dest: dest.to_string(), body }
}

fn node(name: &str, peers: &[&str]) -> BroadcastActor {
    let mut a = BroadcastActor::default();
    a.init(name.to_string(), vec![]).unwrap();
    let topo = Payload::Topology {
        msg_id: 0,
        topology: vec![(name.to_string(), peers.iter().map(|p| p.to_string()).collect())],
    };
    let replies = a.receive(&envelope("h0", name, topo)).unwrap();
    assert_eq!(replies.len(), 1);
    assert!(matches!(replies[0].body, Payload::TopologyOk { in_reply_to: 0 }));
    a
}

fn store_ids(a: &BroadcastActor) -> Vec<(String, u64)> {
    a.0.messages.iter().map(|e| (e.0.origin.clone(), e.0.seq)).collect()
}

fn store_values(a: &BroadcastActor) -> Vec<String> {
    a.0.messages.iter().map(|e| e.1.clone()).collect()
}

fn tick(a: &mut BroadcastActor, name: &str) -> Vec<Message<Payload>> {
    a.receive(&envelope(name, name, Payload::StartGossip)).unwrap()
}

fn read(a: &mut BroadcastActor, name: &str, msg_id: u64) -> Vec<String> {
    let replies = a.receive(&envelope("c9", name, Payload::Read { msg_id })).unwrap();
    assert_eq!(replies.len(), 1);
    match &replies[0].body {
        Payload::ReadOk { messages, in_reply_to } => {
            assert_eq!(*in_reply_to, msg_id);
            messages.clone()
        }
        _ => panic!("expected a read reply"),
    }
}

fn seen_contains(seen: &[UniqueMessageId], origin: &str, seq: u64) -> bool {
    seen.iter().any(|s| s.origin == origin && s.seq == seq)
}

#[test]
fn scenario_broadcast_three_nodes() {
    let mut a = node("A", &["B", "C"]);
    let mut b = node("B", &["A", "C"]);
    let mut c = node("C", &["A", "B"]);

    // a client hands A the value 5
    let replies = a
        .receive(&envelope("c1", "A", Payload::Broadcast { msg_id: 1, message: "5".to_string() }))
        .unwrap();
    assert_eq!(replies.len(), 1);
    assert!(matches!(replies[0].body, Payload::BroadcastOk { in_reply_to: 1 }));
    assert_eq!(store_ids(&a), vec![("A".to_string(), 1)]);
    assert_eq!(store_values(&a), vec!["5".to_string()]);

    // on the next tick A gossips the entry to B and C
    let out = tick(&mut a, "A");
    assert_eq!(out.len(), 2);
    assert_eq!(out[0].dest, "B");
    assert_eq!(out[1].dest, "C");
    for msg in &out {
        assert_eq!(msg.src, "A");
        match &msg.body {
            Payload::Gossip { payload } => {
                assert_eq!(payload.len(), 1);
                assert_eq!(payload[0].0.origin, "A");
                assert_eq!(payload[0].0.seq, 1);
                assert_eq!(payload[0].1, "5");
            }
            _ => panic!("expected gossip"),
        }
    }

    // B and C merge and acknowledge with their whole knowledge
    for (peer, msg) in [(&mut b, &out[0]), (&mut c, &out[1])] {
        let acks = peer.receive(msg).unwrap();
        assert_eq!(acks.len(), 1);
        assert_eq!(acks[0].dest, "A");
        match &acks[0].body {
            Payload::GossipOk { seen } => assert!(seen_contains(seen, "A", 1)),
            _ => panic!("expected a gossip acknowledgement"),
        }
    }

    // every node now reads the same single value
    assert_eq!(read(&mut a, "A", 7), vec!["5".to_string()]);
    assert_eq!(read(&mut b, "B", 8), vec!["5".to_string()]);
    assert_eq!(read(&mut c, "C", 9), vec!["5".to_string()]);
}

#[test]
fn scenario_duplicate_gossip_suppressed() {
    let mut c = node("C", &["A"]);
    let gossip = || {
        envelope(
            "A",
            "C",
            Payload::Gossip {
                payload: vec![(
                    UniqueMessageId { origin: "A".to_string(), seq: 1 },
                    "41".to_string(),
                )],
            },
        )
    };
    c.receive(&gossip()).unwrap();
    c.receive(&gossip()).unwrap();
    assert_eq!(store_ids(&c), vec![("A".to_string(), 1)]);
}

#[test]
fn merge_is_idempotent_on_state() {
    let mut b = node("B", &["A"]);
    let payload = || {
        vec![
            (UniqueMessageId { origin: "A".to_string(), seq: 1 }, "x".to_string()),
            (UniqueMessageId { origin: "A".to_string(), seq: 2 }, "y".to_string()),
        ]
    };
    b.receive(&envelope("A", "B", Payload::Gossip { payload: payload() })).unwrap();
    let once = store_ids(&b);
    b.receive(&envelope("A", "B", Payload::Gossip { payload: payload() })).unwrap();
    assert_eq!(store_ids(&b), once);
    assert_eq!(store_values(&b), vec!["x".to_string(), "y".to_string()]);
}

#[test]
fn merge_is_commutative_up_to_order() {
    let p = || vec![(UniqueMessageId { origin: "A".to_string(), seq: 1 }, "x".to_string())];
    let q = || vec![(UniqueMessageId { origin: "B".to_string(), seq: 1 }, "y".to_string())];

    let mut first = node("C", &[]);
    first.receive(&envelope("A", "C", Payload::Gossip { payload: p() })).unwrap();
    first.receive(&envelope("B", "C", Payload::Gossip { payload: q() })).unwrap();

    let mut second = node("C", &[]);
    second.receive(&envelope("B", "C", Payload::Gossip { payload: q() })).unwrap();
    second.receive(&envelope("A", "C", Payload::Gossip { payload: p() })).unwrap();

    let mut ids1 = store_ids(&first);
    let mut ids2 = store_ids(&second);
    ids1.sort();
    ids2.sort();
    assert_eq!(ids1, ids2);
    let mut vs1 = store_values(&first);
    let mut vs2 = store_values(&second);
    vs1.sort();
    vs2.sort();
    assert_eq!(vs1, vs2);
}

#[test]
fn knowledge_only_grows() {
    let mut a = node("A", &["B"]);
    let known_b = |a: &BroadcastActor| -> Vec<(String, u64)> {
        a.0.known
            .iter()
            .find(|r| r.0 == "B")
            .map(|r| r.1.iter().map(|s| (s.origin.clone(), s.seq)).collect())
            .unwrap_or_default()
    };
    assert!(known_b(&a).is_empty());
    let ack = envelope(
        "B",
        "A",
        Payload::GossipOk { seen: vec![UniqueMessageId { origin: "A".to_string(), seq: 1 }] },
    );
    a.receive(&ack).unwrap();
    let after_one = known_b(&a);
    assert!(after_one.contains(&("A".to_string(), 1)));
    let ack2 = envelope(
        "B",
        "A",
        Payload::GossipOk { seen: vec![UniqueMessageId { origin: "A".to_string(), seq: 2 }] },
    );
    a.receive(&ack2).unwrap();
    let after_two = known_b(&a);
    for id in &after_one {
        assert!(after_two.contains(id));
    }
    assert!(after_two.contains(&("A".to_string(), 2)));
}

#[test]
fn originated_value_is_self_included_before_gossip() {
    let mut a = node("A", &["B"]);
    a.receive(&envelope("c1", "A", Payload::Broadcast { msg_id: 3, message: "v".to_string() }))
        .unwrap();
    // the value is in A's own store and self-acknowledged before any tick
    assert_eq!(store_ids(&a), vec![("A".to_string(), 1)]);
    let own = a.0.known.iter().find(|r| r.0 == "A").expect("self entry");
    assert!(seen_contains(&own.1, "A", 1));
}

#[test]
fn each_broadcast_draws_a_fresh_sequence() {
    let mut a = node("A", &["B"]);
    let msg = || envelope("c1", "A", Payload::Broadcast { msg_id: 4, message: "v".to_string() });
    let first = a.receive(&msg()).unwrap();
    assert!(matches!(first[0].body, Payload::BroadcastOk { in_reply_to: 4 }));
    let second = a.receive(&msg()).unwrap();
    assert!(matches!(second[0].body, Payload::BroadcastOk { in_reply_to: 4 }));
    // the node assigns its own local sequence, so the ids never collide
    assert_eq!(store_ids(&a), vec![("A".to_string(), 1), ("A".to_string(), 2)]);
}

#[test]
fn tick_with_empty_store_sends_nothing() {
    let mut a = node("A", &["B", "C"]);
    assert!(tick(&mut a, "A").is_empty());
}

#[test]
fn tick_skips_peers_that_know_everything() {
    let mut a = node("A", &["B", "C"]);
    a.receive(&envelope("c1", "A", Payload::Broadcast { msg_id: 1, message: "5".to_string() }))
        .unwrap();
    // B acknowledges the entry; C stays behind
    a.receive(&envelope(
        "B",
        "A",
        Payload::GossipOk { seen: vec![UniqueMessageId { origin: "A".to_string(), seq: 1 }] },
    ))
    .unwrap();
    let out = tick(&mut a, "A");
    assert_eq!(out.len(), 1);
    assert_eq!(out[0].dest, "C");
    // re-sending to C is unconditional on the next tick as well
    let again = tick(&mut a, "A");
    assert_eq!(again.len(), 1);
    assert_eq!(again[0].dest, "C");
}

#[test]
fn connected_line_converges_after_enough_rounds() {
    // A - B - C in a line: A's value must cross B to reach C
    let mut a = node("A", &["B"]);
    let mut b = node("B", &["A", "C"]);
    let mut c = node("C", &["B"]);
    a.receive(&envelope("c1", "A", Payload::Broadcast { msg_id: 1, message: "9".to_string() }))
        .unwrap();

    for _round in 0..2 {
        for name in ["A", "B", "C"] {
            let out = {
                let sender: &mut BroadcastActor = match name {
                    "A" => &mut a,
                    "B" => &mut b,
                    _ => &mut c,
                };
                sender.receive(&envelope(name, name, Payload::StartGossip)).unwrap()
            };
            for msg in out {
                let acks = {
                    let receiver: &mut BroadcastActor = match msg.dest.as_str() {
                        "A" => &mut a,
                        "B" => &mut b,
                        _ => &mut c,
                    };
                    receiver.receive(&msg).unwrap()
                };
                for ack in acks {
                    let back: &mut BroadcastActor = match ack.dest.as_str() {
                        "A" => &mut a,
                        "B" => &mut b,
                        _ => &mut c,
                    };
                    back.receive(&ack).unwrap();
                }
            }
        }
    }
    assert_eq!(read(&mut a, "A", 1), vec!["9".to_string()]);
    assert_eq!(read(&mut b, "B", 2), vec!["9".to_string()]);
    assert_eq!(read(&mut c, "C", 3), vec!["9".to_string()]);
}
