use gnostr_db::node::{announcement, answer, fan_out, handle_request, needs_write, on_datagram};
use gnostr_db::registry::Registry;
use gnostr_db::store::KeyValueStore;
use gnostr_db::wire::{decode, encode, Message, ServiceAddr};

fn addr(host: &str, port: u16) -> ServiceAddr {
    ServiceAddr::new(host.to_string(), port)
}

/// One node's state, driven without a network.
struct Node {
    id: String,
    addr: ServiceAddr,
    store: KeyValueStore,
    registry: Registry,
}

impl Node {
    fn new(id: &str, port: u16) -> Node {
        Node {
            id: id.to_string(),
            addr: addr("127.0.0.1", port),
            store: KeyValueStore::new(),
            registry: Registry::new(),
        }
    }

    fn hear(&mut self, from: &Node, now: u64) {
        let wire = encode(&announcement(&from.id, &from.addr));
        let m = decode(&wire).unwrap();
        on_datagram(&self.id, &mut self.registry, m, now);
    }

    fn request(&mut self, m: Message) -> (Option<Message>, Vec<(ServiceAddr, Message)>) {
        let m = decode(&encode(&m)).unwrap();
        let peers = self.registry.snapshot();
        let out = handle_request(&mut self.store, &peers, m);
        (out.reply, out.pushes.into_iter().map(|o| (o.to, o.message)).collect())
    }
}

#[test]
fn two_nodes_replicate_a_write() {
    let mut a = Node::new("node-a", 9001);
    let mut b = Node::new("node-b", 9002);
    a.hear(&b, 1);
    b.hear(&a, 1);
    let (reply, pushes) = a.request(Message::SetValue { key: "x".to_string(), value: "1".to_string() });
    assert_eq!(
        reply,
        Some(Message::ValueResponse { value: Some("Value set successfully.".to_string()) })
    );
    assert_eq!(pushes.len(), 1);
    for (to, m) in pushes {
        assert_eq!(to, b.addr);
        let (reply, further) = b.request(m);
        assert_eq!(reply, None);
        assert!(further.is_empty());
    }
    let (reply, _) = b.request(Message::GetValue { key: "x".to_string() });
    assert_eq!(reply, Some(Message::ValueResponse { value: Some("1".to_string()) }));
}

#[test]
fn read_of_missing_key_is_absent() {
    let mut n = Node::new("n", 9000);
    let (reply, pushes) = n.request(Message::GetValue { key: "missing".to_string() });
    assert_eq!(reply, Some(Message::ValueResponse { value: None }));
    assert!(pushes.is_empty());
}

#[test]
fn heartbeat_gets_one_response() {
    let mut n = Node::new("n", 9000);
    let m = Node::new("m", 9001);
    n.hear(&m, 3);
    let (reply, pushes) = n.request(Message::Heartbeat);
    assert_eq!(reply, Some(Message::HeartbeatResponse));
    assert!(pushes.is_empty());
}

#[test]
fn sync_is_stored_without_reply_or_fan_out() {
    let mut n = Node::new("n", 9000);
    let m = Node::new("m", 9001);
    n.hear(&m, 3);
    let (reply, pushes) = n.request(Message::Sync { key: "k".to_string(), value: "v".to_string() });
    assert_eq!(reply, None);
    assert!(pushes.is_empty());
    assert_eq!(n.store.get(&"k".to_string()), Some("v".to_string()));
}

#[test]
fn unexpected_requests_are_ignored() {
    let mut n = Node::new("n", 9000);
    for m in [Message::Greeting, Message::HeartbeatResponse, Message::ValueResponse { value: None }] {
        let (reply, pushes) = n.request(m);
        assert_eq!(reply, None);
        assert!(pushes.is_empty());
    }
}

#[test]
fn write_fans_out_to_every_peer() {
    let mut a = Node::new("a", 9000);
    let peers = [Node::new("b", 9001), Node::new("c", 9002), Node::new("d", 9003)];
    for p in peers.iter() {
        a.hear(p, 5);
    }
    let (_, pushes) = a.request(Message::SetValue { key: "k".to_string(), value: "v".to_string() });
    assert_eq!(pushes.len(), 3);
    for p in peers.iter() {
        assert!(pushes.contains(&(
            p.addr.clone(),
            Message::Sync { key: "k".to_string(), value: "v".to_string() }
        )));
    }
}

#[test]
fn fan_out_keeps_peer_order() {
    let mut r = Registry::new();
    r.upsert("b".to_string(), addr("10.0.0.2", 1), 0);
    r.upsert("c".to_string(), addr("10.0.0.3", 2), 0);
    let peers = r.snapshot();
    let out = fan_out(&peers, &"k".to_string(), &"v".to_string());
    assert_eq!(out.len(), 2);
    for (o, p) in out.iter().zip(peers.iter()) {
        assert_eq!(o.to, p.service_addr);
        assert_eq!(o.message, Message::Sync { key: "k".to_string(), value: "v".to_string() });
    }
}

#[test]
fn handshake_registers_the_peer() {
    let mut b = Node::new("node-b", 9002);
    let a = Node::new("node-a", 9001);
    b.hear(&a, 42);
    let snapshot = b.registry.snapshot();
    assert_eq!(snapshot.len(), 1);
    assert_eq!(snapshot[0].node_id, "node-a");
    assert_eq!(snapshot[0].service_addr, a.addr);
    assert_eq!(snapshot[0].last_seen, 42);
}

#[test]
fn own_handshake_is_not_registered() {
    let mut r = Registry::new();
    let me = "me".to_string();
    let out = on_datagram(&me, &mut r, announcement(&me, &addr("0.0.0.0", 9005)), 1);
    assert_eq!(out.reply, None);
    assert_eq!(out.monitor, None);
    assert!(!r.contains(&me));
    assert!(r.snapshot().is_empty());
}

#[test]
fn handshake_is_greeted_and_first_one_starts_monitoring() {
    let mut r = Registry::new();
    let me = "me".to_string();
    let first = on_datagram(&me, &mut r, announcement(&"p".to_string(), &addr("10.0.0.9", 1)), 1);
    assert_eq!(first.reply, Some(Message::Greeting));
    assert_eq!(first.monitor, Some("p".to_string()));
    let again = on_datagram(&me, &mut r, announcement(&"p".to_string(), &addr("10.0.0.9", 2)), 7);
    assert_eq!(again.reply, Some(Message::Greeting));
    assert_eq!(again.monitor, None);
    let rec = r.get(&"p".to_string()).unwrap();
    assert_eq!(rec.service_addr, addr("10.0.0.9", 2));
    assert_eq!(rec.last_seen, 7);
    assert_eq!(r.snapshot().len(), 1);
}

#[test]
fn non_handshake_datagrams_change_nothing() {
    let mut r = Registry::new();
    let out = on_datagram(&"me".to_string(), &mut r, Message::Greeting, 1);
    assert_eq!(out.reply, None);
    assert_eq!(out.monitor, None);
    assert!(r.snapshot().is_empty());
}

#[test]
fn writes_need_the_store_exclusively() {
    assert!(needs_write(&Message::SetValue { key: String::new(), value: String::new() }));
    assert!(needs_write(&Message::Sync { key: String::new(), value: String::new() }));
    assert!(!needs_write(&Message::GetValue { key: String::new() }));
    assert!(!needs_write(&Message::Heartbeat));
}

#[test]
fn answer_reads_the_store() {
    let mut s = KeyValueStore::new();
    s.set("k".to_string(), "v".to_string());
    assert_eq!(
        answer(&s, &Message::GetValue { key: "k".to_string() }),
        Some(Message::ValueResponse { value: Some("v".to_string()) })
    );
    assert_eq!(answer(&s, &Message::Sync { key: "k".to_string(), value: "w".to_string() }), None);
}
