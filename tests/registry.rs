use gnostr_db::registry::Registry;
use gnostr_db::wire::ServiceAddr;

fn addr(host: &str, port: u16) -> ServiceAddr {
    ServiceAddr::new(host.to_string(), port)
}

#[test]
fn fresh_registry_knows_nobody() {
    let r = Registry::new();
    assert!(!r.contains(&"a".to_string()));
    assert_eq!(r.get(&"a".to_string()), None);
    assert!(r.snapshot().is_empty());
}

#[test]
fn upsert_inserts_then_overwrites() {
    let mut r = Registry::new();
    r.upsert("a".to_string(), addr("10.0.0.1", 9004), 10);
    r.upsert("b".to_string(), addr("10.0.0.2", 9004), 11);
    r.upsert("a".to_string(), addr("10.0.0.3", 9005), 12);
    let a = r.get(&"a".to_string()).unwrap();
    assert_eq!(a.node_id, "a");
    assert_eq!(a.service_addr, addr("10.0.0.3", 9005));
    assert_eq!(a.last_seen, 12);
    assert!(r.contains(&"b".to_string()));
    assert_eq!(r.snapshot().len(), 2);
}

#[test]
fn snapshot_lists_each_peer_once() {
    let mut r = Registry::new();
    for (i, id) in ["a", "b", "c", "b", "a"].iter().enumerate() {
        r.upsert(id.to_string(), addr("10.0.0.1", i as u16), i as u64);
    }
    let mut ids: Vec<String> = r.snapshot().into_iter().map(|p| p.node_id).collect();
    ids.sort();
    assert_eq!(ids, vec!["a".to_string(), "b".to_string(), "c".to_string()]);
}
