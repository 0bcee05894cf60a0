use gnostr_db::store::KeyValueStore;

#[test]
fn get_after_set_returns_the_value() {
    let mut s = KeyValueStore::new();
    s.set("k".to_string(), "v".to_string());
    assert_eq!(s.get(&"k".to_string()), Some("v".to_string()));
}

#[test]
fn repeated_set_is_idempotent() {
    let mut s = KeyValueStore::new();
    s.set("k".to_string(), "v".to_string());
    s.set("k".to_string(), "v".to_string());
    s.set("k".to_string(), "v".to_string());
    assert_eq!(s.get(&"k".to_string()), Some("v".to_string()));
}

#[test]
fn set_of_one_key_leaves_another_absent() {
    let mut s = KeyValueStore::new();
    s.set("k".to_string(), "v".to_string());
    assert_eq!(s.get(&"other".to_string()), None);
}

#[test]
fn later_write_wins() {
    let mut s = KeyValueStore::new();
    s.set("k".to_string(), "first".to_string());
    s.set("j".to_string(), "other".to_string());
    s.set("k".to_string(), "second".to_string());
    assert_eq!(s.get(&"k".to_string()), Some("second".to_string()));
    assert_eq!(s.get(&"j".to_string()), Some("other".to_string()));
}

#[test]
fn empty_value_is_stored_not_absent() {
    let mut s = KeyValueStore::new();
    s.set("k".to_string(), String::new());
    assert_eq!(s.get(&"k".to_string()), Some(String::new()));
}

#[test]
fn fresh_store_is_empty() {
    let s = KeyValueStore::new();
    assert_eq!(s.get(&String::new()), None);
}
