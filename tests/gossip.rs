use gossip_node::codec::{decode, encode, DecodeError};
use gossip_node::message::GossipMessage;
use gossip_node::overlay::{Action, NetworkEvent, Overlay, PublishError, Received};

fn msg(id: u64, payload: &[u8]) -> GossipMessage {
    GossipMessage::new(id, payload.to_vec())
}

fn topic() -> String {
    "gossip-topic".to_string()
}

fn sorted(mut v: Vec<Vec<u8>>) -> Vec<Vec<u8>> {
    v.sort();
    v
}

#[test]
fn encode_writes_json_object() {
    let bytes = encode(&msg(1, b"hello"));
    assert_eq!(bytes, br#"{"id":1,"payload":[104,101,108,108,111]}"#.to_vec());
    let empty = encode(&msg(0, b""));
    assert_eq!(empty, br#"{"id":0,"payload":[]}"#.to_vec());
    let big = encode(&msg(u64::MAX, &[0, 9, 10, 255]));
    assert_eq!(big, br#"{"id":18446744073709551615,"payload":[0,9,10,255]}"#.to_vec());
}

#[test]
fn round_trip_keeps_id_and_payload() {
    let cases: Vec<GossipMessage> = vec![
        msg(0, b""),
        msg(1, b"hello"),
        msg(42, &[0]),
        msg(u64::MAX, &[255, 0, 128, 7, 99, 100]),
        msg(1234567890123, b"Hello from the network!"),
    ];
    for m in cases {
        let back = decode(&encode(&m)).expect("an encoding decodes");
        assert_eq!(back.id, m.id);
        assert_eq!(back.payload, m.payload);
    }
}

#[test]
fn decode_reads_hand_written_encoding() {
    let m = decode(br#"{"id":7,"payload":[104,105]}"#).unwrap();
    assert_eq!(m.id, 7);
    assert_eq!(m.payload, b"hi".to_vec());
}

#[test]
fn decode_rejects_malformed_bytes() {
    let full = encode(&msg(1, b"hello"));
    for cut in 0..full.len() {
        assert_eq!(decode(&full[..cut]).unwrap_err(), DecodeError::Malformed);
    }
    let bad: Vec<&str> = vec![
        "",
        "not json",
        r#"{"id":01,"payload":[]}"#,
        r#"{"id":1,"payload":[256]}"#,
        r#"{"id":1,"payload":[007]}"#,
        r#"{"id":18446744073709551616,"payload":[]}"#,
        r#"{"id":1,"payload":[1,]}"#,
        r#"{"id":1,"payload":[,1]}"#,
        r#"{"id": 1,"payload":[]}"#,
        r#"{"id":1,"payload":[]} "#,
        r#"{"payload":[],"id":1}"#,
        r#"{"id":,"payload":[]}"#,
    ];
    for b in bad {
        assert_eq!(decode(b.as_bytes()).unwrap_err(), DecodeError::Malformed);
    }
}

#[test]
fn publish_without_subscription_is_refused() {
    let mut a = Overlay::new(16);
    let r = a.publish(&topic(), &msg(1, b"hello"));
    assert!(matches!(r, Err(PublishError::NotSubscribed)));
}

#[test]
fn publish_with_empty_mesh_sends_to_nobody() {
    let mut a = Overlay::new(16);
    assert!(a.subscribe(topic()));
    let out = a.publish(&topic(), &msg(1, b"hello")).unwrap();
    assert!(out.recipients.is_empty());
    assert_eq!(out.data, encode(&msg(1, b"hello")));
    assert!(a.has_seen(1));
}

#[test]
fn subscribe_twice_reports_existing() {
    let mut a = Overlay::new(4);
    assert!(a.subscribe(topic()));
    assert!(!a.subscribe(topic()));
    assert!(a.is_subscribed(&topic()));
    assert!(!a.is_subscribed(&"other".to_string()));
}

#[test]
fn discovery_dials_peers_not_connected() {
    let mut a = Overlay::new(4);
    assert!(a.on_peer_discovered(b"peer-b".to_vec(), "/ip4/10.0.0.2/tcp/4001".to_string()));
    a.on_peer_connected(&b"peer-b".to_vec());
    assert!(!a.on_peer_discovered(b"peer-b".to_vec(), "/ip4/10.0.0.2/tcp/4001".to_string()));
    assert!(!a.on_peer_discovered(b"peer-b".to_vec(), "/ip4/10.0.0.3/tcp/4001".to_string()));
    assert!(a.on_peer_discovered(b"peer-c".to_vec(), "/ip4/10.0.0.4/tcp/4001".to_string()));
}

#[test]
fn connected_peer_joins_mesh_of_subscribed_topics() {
    let mut a = Overlay::new(4);
    a.subscribe(topic());
    a.on_peer_connected(&b"peer-b".to_vec());
    let out = a.publish(&topic(), &msg(3, b"x")).unwrap();
    assert_eq!(out.recipients, vec![b"peer-b".to_vec()]);
    a.subscribe("later".to_string());
    let later = a.publish(&"later".to_string(), &msg(4, b"y")).unwrap();
    assert!(later.recipients.is_empty());
}

#[test]
fn duplicate_is_not_delivered_twice() {
    let mut b = Overlay::new(16);
    b.subscribe(topic());
    let data = encode(&msg(5, b"once"));
    let first = b.on_message_received(&topic(), &b"peer-a".to_vec(), &data);
    match first {
        Received::Deliver { message, .. } => {
            assert_eq!(message.id, 5);
            assert_eq!(message.payload, b"once".to_vec());
        }
        _ => panic!("first receipt must be delivered"),
    }
    let second = b.on_message_received(&topic(), &b"peer-c".to_vec(), &data);
    assert!(matches!(second, Received::Duplicate(5)));
}

#[test]
fn malformed_payload_is_dropped_and_later_messages_arrive() {
    let mut b = Overlay::new(16);
    b.subscribe(topic());
    let full = encode(&msg(9, b"ok"));
    let r = b.on_message_received(&topic(), &b"peer-a".to_vec(), &full[..full.len() - 3]);
    assert!(matches!(r, Received::Malformed));
    let r = b.on_message_received(&topic(), &b"peer-a".to_vec(), &full);
    assert!(matches!(r, Received::Deliver { .. }));
}

#[test]
fn message_on_unsubscribed_topic_is_dropped() {
    let mut b = Overlay::new(16);
    let data = encode(&msg(2, b"z"));
    let r = b.on_message_received(&topic(), &b"peer-a".to_vec(), &data);
    assert!(matches!(r, Received::NotSubscribed));
    assert!(!b.has_seen(2));
}

#[test]
fn full_cache_evicts_oldest() {
    let mut b = Overlay::new(1);
    b.subscribe(topic());
    let one = encode(&msg(1, b"a"));
    let two = encode(&msg(2, b"b"));
    let src = b"peer-a".to_vec();
    assert!(matches!(b.on_message_received(&topic(), &src, &one), Received::Deliver { .. }));
    assert!(matches!(b.on_message_received(&topic(), &src, &one), Received::Duplicate(1)));
    assert!(matches!(b.on_message_received(&topic(), &src, &two), Received::Deliver { .. }));
    assert!(!b.has_seen(1));
    assert!(matches!(b.on_message_received(&topic(), &src, &one), Received::Deliver { .. }));
}

#[test]
fn three_node_mesh_delivers_once_each() {
    let (ia, ib, ic) = (b"node-a".to_vec(), b"node-b".to_vec(), b"node-c".to_vec());
    let mut a = Overlay::new(64);
    let mut b = Overlay::new(64);
    let mut c = Overlay::new(64);
    for n in [&mut a, &mut b, &mut c] {
        n.subscribe(topic());
    }
    a.on_peer_connected(&ib);
    a.on_peer_connected(&ic);
    b.on_peer_connected(&ia);
    b.on_peer_connected(&ic);
    c.on_peer_connected(&ia);
    c.on_peer_connected(&ib);

    let hello = msg(1, b"hello");
    let out = a.publish(&topic(), &hello).unwrap();
    assert_eq!(sorted(out.recipients.clone()), vec![ib.clone(), ic.clone()]);

    let mut delivered = 0;
    match b.on_message_received(&topic(), &ia, &out.data) {
        Received::Deliver { message, relay_to } => {
            assert_eq!(message.id, 1);
            assert_eq!(message.payload, b"hello".to_vec());
            assert_eq!(relay_to, vec![ic.clone()]);
            delivered += 1;
            assert!(matches!(c.on_message_received(&topic(), &ib, &out.data), Received::Deliver { .. }));
            delivered += 1;
        }
        _ => panic!("B must deliver"),
    }
    assert!(matches!(c.on_message_received(&topic(), &ia, &out.data), Received::Duplicate(1)));
    assert!(matches!(a.on_message_received(&topic(), &ic, &out.data), Received::Duplicate(1)));
    assert_eq!(delivered, 2);

    let again = a.publish(&topic(), &hello).unwrap();
    assert!(matches!(b.on_message_received(&topic(), &ia, &again.data), Received::Duplicate(1)));
    assert!(matches!(c.on_message_received(&topic(), &ia, &again.data), Received::Duplicate(1)));
}

#[test]
fn encoding_is_read_by_a_json_parser() {
    let bytes = encode(&msg(77, b"hey"));
    let v: serde_json::Value = serde_json::from_slice(&bytes).unwrap();
    assert_eq!(v["id"].as_u64(), Some(77));
    let payload: Vec<u64> = v["payload"]
        .as_array()
        .unwrap()
        .iter()
        .map(|b| b.as_u64().unwrap())
        .collect();
    assert_eq!(payload, vec![104, 101, 121]);
}

#[test]
fn json_writer_output_is_decoded() {
    let mut obj = serde_json::Map::new();
    obj.insert("id".to_string(), serde_json::Value::from(12345u64));
    obj.insert(
        "payload".to_string(),
        serde_json::Value::Array(vec![serde_json::Value::from(0u64), serde_json::Value::from(200u64)]),
    );
    let bytes = serde_json::to_vec(&serde_json::Value::Object(obj)).unwrap();
    let m = decode(&bytes).unwrap();
    assert_eq!(m.id, 12345);
    assert_eq!(m.payload, vec![0, 200]);
}

#[test]
fn handle_dispatches_events() {
    let mut a = Overlay::new(8);
    a.subscribe(topic());
    let first = a.handle(NetworkEvent::Discovered {
        peer: b"peer-b".to_vec(),
        address: "/ip4/10.0.0.2/tcp/4001".to_string(),
    });
    match first {
        Action::Dial(p) => assert_eq!(p, b"peer-b".to_vec()),
        _ => panic!("a new peer is dialled"),
    }
    assert!(matches!(a.handle(NetworkEvent::Connected { peer: b"peer-b".to_vec() }), Action::Idle));
    let again = a.handle(NetworkEvent::Discovered {
        peer: b"peer-b".to_vec(),
        address: "/ip4/10.0.0.2/tcp/4001".to_string(),
    });
    assert!(matches!(again, Action::Idle));
    let out = a.publish(&topic(), &msg(1, b"hi")).unwrap();
    assert_eq!(out.recipients, vec![b"peer-b".to_vec()]);
    let inbound = a.handle(NetworkEvent::Message {
        topic: topic(),
        source: b"peer-b".to_vec(),
        data: encode(&msg(2, b"yo")),
    });
    match inbound {
        Action::Inbound(Received::Deliver { message, relay_to }) => {
            assert_eq!(message.id, 2);
            assert!(relay_to.is_empty());
        }
        _ => panic!("a first-seen message is delivered"),
    }
    let bad = a.handle(NetworkEvent::Message {
        topic: topic(),
        source: b"peer-b".to_vec(),
        data: b"{\"id\":".to_vec(),
    });
    assert!(matches!(bad, Action::Inbound(Received::Malformed)));
}

#[test]
fn known_peer_is_dialled_again_until_connected() {
    let mut a = Overlay::new(4);
    let b = b"peer-b".to_vec();
    let addr = "/ip4/10.0.0.2/tcp/4001".to_string();
    assert!(a.on_peer_discovered(b.clone(), addr.clone()));
    // The first dial failed: discovery reports the peer again.
    assert!(a.on_peer_discovered(b.clone(), addr.clone()));
    a.on_peer_connected(&b);
    assert!(a.is_connected(&b));
    assert!(!a.on_peer_discovered(b.clone(), addr.clone()));
    a.on_peer_disconnected(&b);
    assert!(!a.is_connected(&b));
    assert!(matches!(
        a.handle(NetworkEvent::Discovered { peer: b.clone(), address: addr }),
        Action::Dial(_)
    ));
}

#[test]
fn reconnected_peer_is_listed_once() {
    let mut a = Overlay::new(4);
    a.subscribe(topic());
    let b = b"peer-b".to_vec();
    a.on_peer_connected(&b);
    a.on_peer_disconnected(&b);
    a.on_peer_connected(&b);
    a.on_peer_connected(&b);
    assert!(a.has_link(&topic(), &b));
    let out = a.publish(&topic(), &msg(8, b"q")).unwrap();
    assert_eq!(out.recipients, vec![b.clone()]);
    let mut c = Overlay::new(4);
    c.subscribe(topic());
    c.on_peer_connected(&b);
    c.on_peer_connected(&b"peer-d".to_vec());
    c.on_peer_connected(&b"peer-d".to_vec());
    match c.on_message_received(&topic(), &b, &encode(&msg(9, b"r"))) {
        Received::Deliver { relay_to, .. } => assert_eq!(relay_to, vec![b"peer-d".to_vec()]),
        _ => panic!("first receipt is delivered"),
    }
}

#[test]
fn disconnect_takes_peer_out_of_mesh() {
    let mut a = Overlay::new(4);
    a.subscribe(topic());
    a.subscribe("other".to_string());
    let b = b"peer-b".to_vec();
    let c = b"peer-c".to_vec();
    assert!(matches!(a.handle(NetworkEvent::Connected { peer: b.clone() }), Action::Idle));
    a.on_peer_connected(&c);
    assert!(matches!(a.handle(NetworkEvent::Disconnected { peer: b.clone() }), Action::Idle));
    assert!(!a.has_link(&topic(), &b));
    assert!(!a.has_link(&"other".to_string(), &b));
    assert!(a.has_link(&topic(), &c));
    assert!(!a.is_connected(&b));
    let out = a.publish(&topic(), &msg(4, b"z")).unwrap();
    assert_eq!(out.recipients, vec![c.clone()]);
    a.on_peer_disconnected(&c);
    let none = a.publish(&topic(), &msg(5, b"z")).unwrap();
    assert!(none.recipients.is_empty());
}
