use gnostr_db::identity::{node_identity, IdentityUnavailable};

#[test]
fn identity_is_the_hardware_address_in_hex() {
    assert_eq!(
        node_identity(Some([0x00, 0x1b, 0xaf, 0x0e, 0xf6, 0xff])),
        Ok("00:1B:AF:0E:F6:FF".to_string())
    );
}

#[test]
fn identity_without_hardware_address_is_unavailable() {
    assert_eq!(node_identity(None), Err(IdentityUnavailable));
}
