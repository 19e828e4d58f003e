use maelstrom::actor::Actor;
use maelstrom::crdt::{Payload, UniqueMessageId};
use maelstrom::echo;
use maelstrom::errors::Error;
use maelstrom::g_counter::GCounter;
use maelstrom::id;
use maelstrom::message::Message;

fn counter_envelope(src: &str, dest: &str, body: Payload<u64>) -> Message<Payload<u64>> {
    Message { src: src.to_string(), dest: dest.to_string(), body }
}

fn counter(name: &str, peers: &[&str]) -> GCounter {
    let mut a = GCounter::default();
    a.init(name.to_string(), peers.iter().map(|p| p.to_string()).collect()).unwrap();
    a
}

fn counter_read(a: &mut GCounter, name: &str, msg_id: u64) -> u64 {
    let replies = a.receive(&counter_envelope("c9", name, Payload::Read { msg_id })).unwrap();
    assert_eq!(replies.len(), 1);
    match replies[0].body {
        Payload::ReadOk { in_reply_to, value } => {
            assert_eq!(in_reply_to, msg_id);
            value
        }
        _ => panic!("expected a read reply"),
    }
}

#[test]
fn scenario_counter_two_nodes_sum() {
    let mut a = counter("A", &["B"]);
    let mut b = counter("B", &["A"]);

    let acks = a.receive(&counter_envelope("c1", "A", Payload::Add { msg_id: 1, delta: 3 })).unwrap();
    assert_eq!(acks.len(), 1);
    assert!(matches!(acks[0].body, Payload::AddOk { in_reply_to: 1 }));
    b.receive(&counter_envelope("c2", "B", Payload::Add { msg_id: 1, delta: 4 })).unwrap();

    // one tick in each direction converges both stores
    let from_a = a.receive(&counter_envelope("A", "A", Payload::StartGossip)).unwrap();
    assert_eq!(from_a.len(), 1);
    assert_eq!(from_a[0].dest, "B");
    let ack_b = b.receive(&from_a[0]).unwrap();
    assert_eq!(ack_b.len(), 1);
    a.receive(&ack_b[0]).unwrap();

    let from_b = b.receive(&counter_envelope("B", "B", Payload::StartGossip)).unwrap();
    assert_eq!(from_b.len(), 1);
    assert_eq!(from_b[0].dest, "A");
    let ack_a = a.receive(&from_b[0]).unwrap();
    b.receive(&ack_a[0]).unwrap();

    assert_eq!(counter_read(&mut a, "A", 5), 7);
    assert_eq!(counter_read(&mut b, "B", 6), 7);
}

#[test]
fn counter_add_is_acknowledged_and_summed() {
    let mut a = counter("A", &[]);
    a.receive(&counter_envelope("c1", "A", Payload::Add { msg_id: 1, delta: 10 })).unwrap();
    a.receive(&counter_envelope("c1", "A", Payload::Add { msg_id: 2, delta: 32 })).unwrap();
    assert_eq!(counter_read(&mut a, "A", 3), 42);
    assert_eq!(a.read_value(), Some(42));
}

#[test]
fn counter_read_value_reports_overflow() {
    let mut a = counter("A", &[]);
    a.receive(&counter_envelope("c1", "A", Payload::Add { msg_id: 1, delta: u64::MAX })).unwrap();
    assert_eq!(a.read_value(), Some(u64::MAX));
    a.receive(&counter_envelope("c1", "A", Payload::Add { msg_id: 2, delta: 1 })).unwrap();
    assert_eq!(a.read_value(), None);
}

#[test]
fn each_add_draws_a_fresh_sequence() {
    let mut a = counter("A", &[]);
    let add = || counter_envelope("c1", "A", Payload::Add { msg_id: 1, delta: 3 });
    let first = a.receive(&add()).unwrap();
    assert!(matches!(first[0].body, Payload::AddOk { in_reply_to: 1 }));
    let second = a.receive(&add()).unwrap();
    assert!(matches!(second[0].body, Payload::AddOk { in_reply_to: 1 }));
    // the node assigns its own local sequence, so both deltas count
    let ids: Vec<(String, u64)> = a.0.messages.iter().map(|e| (e.0.origin.clone(), e.0.seq)).collect();
    assert_eq!(ids, vec![("A".to_string(), 1), ("A".to_string(), 2)]);
    assert_eq!(counter_read(&mut a, "A", 2), 6);
}

#[test]
fn counter_duplicate_gossip_counts_once() {
    let mut a = counter("A", &[]);
    let gossip = || {
        counter_envelope(
            "B",
            "A",
            Payload::Gossip {
                payload: vec![(UniqueMessageId { origin: "B".to_string(), seq: 1 }, 5)],
            },
        )
    };
    a.receive(&gossip()).unwrap();
    a.receive(&gossip()).unwrap();
    assert_eq!(counter_read(&mut a, "A", 2), 5);
}

#[test]
fn echo_replies_with_same_text() {
    let mut e = maelstrom::echo::EchoActor::default();
    e.init("n1".to_string(), vec![]).unwrap();
    let req = Message {
        src: "c1".to_string(),
        dest: "n1".to_string(),
        body: echo::Payload::Echo {
            message_type: "echo".to_string(),
            msg_id: 7,
            echo: "hello there".to_string(),
        },
    };
    let replies = e.receive(&req).unwrap();
    assert_eq!(replies.len(), 1);
    assert_eq!(replies[0].src, "n1");
    assert_eq!(replies[0].dest, "c1");
    match &replies[0].body {
        echo::Payload::EchoAck { message_type, in_reply_to, echo } => {
            assert_eq!(message_type, "echo_ok");
            assert_eq!(*in_reply_to, 7);
            assert_eq!(echo, "hello there");
        }
        _ => panic!("expected an echo acknowledgement"),
    }
}

#[test]
fn echo_refuses_unknown_kind() {
    let mut e = maelstrom::echo::EchoActor::default();
    e.init("n1".to_string(), vec![]).unwrap();
    let req = Message {
        src: "c1".to_string(),
        dest: "n1".to_string(),
        body: echo::Payload::Echo {
            message_type: "shout".to_string(),
            msg_id: 7,
            echo: "hello".to_string(),
        },
    };
    assert_eq!(e.receive(&req).unwrap_err(), Error::NotSupported);
}

#[test]
fn generate_reply_is_exact() {
    let req = Message {
        src: "c1".to_string(),
        dest: "n2".to_string(),
        body: id::Payload::Generate { message_type: "generate".to_string(), msg_id: 11 },
    };
    let reply = id::generate_reply(&req, 11, "fixed-id".to_string());
    assert_eq!(reply.src, "n2");
    assert_eq!(reply.dest, "c1");
    match reply.body {
        id::Payload::GenerateAck { message_type, in_reply_to, id } => {
            assert_eq!(message_type, "generate_ok");
            assert_eq!(in_reply_to, 11);
            assert_eq!(id, "fixed-id");
        }
        _ => panic!("expected a generate acknowledgement"),
    }
}

#[test]
fn generate_draws_fresh_hyphenated_ids() {
    let mut g = maelstrom::id::IDActor::default();
    g.init("n2".to_string(), vec![]).unwrap();
    let req = Message {
        src: "c1".to_string(),
        dest: "n2".to_string(),
        body: id::Payload::Generate { message_type: "generate".to_string(), msg_id: 1 },
    };
    let first = match g.receive(&req).unwrap().remove(0).body {
        id::Payload::GenerateAck { id, .. } => id,
        _ => panic!("expected an acknowledgement"),
    };
    let second = match g.receive(&req).unwrap().remove(0).body {
        id::Payload::GenerateAck { id, .. } => id,
        _ => panic!("expected an acknowledgement"),
    };
    assert_eq!(first.len(), 36);
    assert_eq!(second.len(), 36);
    assert_eq!(first.matches('-').count(), 4);
    assert_ne!(first, second);
}

#[test]
fn generate_refuses_unknown_kind() {
    let mut g = maelstrom::id::IDActor::default();
    g.init("n2".to_string(), vec![]).unwrap();
    let req = Message {
        src: "c1".to_string(),
        dest: "n2".to_string(),
        body: id::Payload::Generate { message_type: "mint".to_string(), msg_id: 1 },
    };
    assert_eq!(g.receive(&req).unwrap_err(), Error::NotSupported);
}

#[test]
fn reply_swaps_source_and_destination() {
    let msg = Message { src: "a".to_string(), dest: "b".to_string(), body: 1u8 };
    let reply = Message::new_reply_to(&msg, "payload");
    assert_eq!(reply.src, "b");
    assert_eq!(reply.dest, "a");
    assert_eq!(reply.body, "payload");
}
