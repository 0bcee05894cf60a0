use gnostr_db::wire::{decode, encode, MalformedMessage, Message, ServiceAddr};

fn addr(host: &str, port: u16) -> ServiceAddr {
    ServiceAddr::new(host.to_string(), port)
}

fn all_variants() -> Vec<Message> {
    vec![
        Message::Handshake {
            node_id: "AA:BB:CC:DD:EE:FF".to_string(),
            service_addr: addr("0.0.0.0", 9005),
        },
        Message::Handshake { node_id: String::new(), service_addr: addr("[::1]", 0) },
        Message::Greeting,
        Message::Heartbeat,
        Message::HeartbeatResponse,
        Message::SetValue { key: "x".to_string(), value: "1".to_string() },
        Message::SetValue { key: String::new(), value: String::new() },
        Message::GetValue { key: "missing".to_string() },
        Message::ValueResponse { value: None },
        Message::ValueResponse { value: Some(String::new()) },
        Message::ValueResponse { value: Some("Value set successfully.".to_string()) },
        Message::Sync { key: "ключ".to_string(), value: "värde ✓".to_string() },
    ]
}

#[test]
fn every_variant_round_trips() {
    for m in all_variants() {
        let bytes = encode(&m);
        assert_eq!(decode(&bytes), Ok(m));
    }
}

#[test]
fn absent_and_empty_values_stay_distinct() {
    let none = encode(&Message::ValueResponse { value: None });
    let empty = encode(&Message::ValueResponse { value: Some(String::new()) });
    assert_ne!(none, empty);
    assert_eq!(decode(&none), Ok(Message::ValueResponse { value: None }));
    assert_eq!(decode(&empty), Ok(Message::ValueResponse { value: Some(String::new()) }));
}

#[test]
fn exact_bytes_of_a_read_request() {
    let bytes = encode(&Message::GetValue { key: "k".to_string() });
    assert_eq!(bytes, vec![5, 0, 0, 0, 0, 0, 0, 0, 1, b'k']);
}

#[test]
fn exact_bytes_of_payload_free_messages() {
    assert_eq!(encode(&Message::Greeting), vec![1]);
    assert_eq!(encode(&Message::Heartbeat), vec![2]);
    assert_eq!(encode(&Message::HeartbeatResponse), vec![3]);
}

#[test]
fn exact_bytes_of_a_handshake() {
    let m = Message::Handshake { node_id: "n".to_string(), service_addr: addr("h", 0x2345) };
    assert_eq!(
        encode(&m),
        vec![0, 0, 0, 0, 0, 0, 0, 0, 1, b'n', 0, 0, 0, 0, 0, 0, 0, 1, b'h', 0x23, 0x45]
    );
}

#[test]
fn exact_bytes_of_replies() {
    assert_eq!(encode(&Message::ValueResponse { value: None }), vec![6, 0]);
    assert_eq!(
        encode(&Message::ValueResponse { value: Some("ok".to_string()) }),
        vec![6, 1, 0, 0, 0, 0, 0, 0, 0, 2, b'o', b'k']
    );
}

#[test]
fn empty_input_is_malformed() {
    assert_eq!(decode(&Vec::new()), Err(MalformedMessage));
}

#[test]
fn unknown_tag_is_malformed() {
    assert_eq!(decode(&vec![8]), Err(MalformedMessage));
    assert_eq!(decode(&vec![255, 0]), Err(MalformedMessage));
}

#[test]
fn truncated_input_is_malformed() {
    let bytes = encode(&Message::SetValue { key: "key".to_string(), value: "value".to_string() });
    for cut in 0..bytes.len() {
        assert_eq!(decode(&bytes[..cut].to_vec()), Err(MalformedMessage));
    }
}

#[test]
fn trailing_bytes_are_malformed() {
    let mut bytes = encode(&Message::Heartbeat);
    bytes.push(0);
    assert_eq!(decode(&bytes), Err(MalformedMessage));
    let mut bytes = encode(&Message::GetValue { key: "a".to_string() });
    bytes.push(7);
    assert_eq!(decode(&bytes), Err(MalformedMessage));
}

#[test]
fn invalid_utf8_is_malformed() {
    assert_eq!(decode(&vec![5, 0, 0, 0, 0, 0, 0, 0, 1, 0xff]), Err(MalformedMessage));
}

#[test]
fn bad_presence_byte_is_malformed() {
    assert_eq!(decode(&vec![6, 2]), Err(MalformedMessage));
}

#[test]
fn oversized_length_is_malformed() {
    assert_eq!(
        decode(&vec![5, 0xff, 0xff, 0xff, 0xff, 0xff, 0xff, 0xff, 0xff, b'k']),
        Err(MalformedMessage)
    );
}
