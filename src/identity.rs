//! The node's identity, taken from the hardware address of the host.
use vstd::prelude::*;

verus! {

/// The upper-case hexadecimal digit of `n`, for `n < 16`.
pub open spec fn hex_digit(n: u8) -> char {
    seq!['0', '1', '2', '3', '4', '5', '6', '7', '8', '9', 'A', 'B', 'C', 'D', 'E', 'F'][n as int]
}

pub open spec fn hex_pair(b: u8) -> Seq<char> {
    seq![hex_digit(b / 16), hex_digit(b % 16)]
}

/// Six bytes as `XX:XX:XX:XX:XX:XX`, two upper-case hexadecimal digits each.
pub open spec fn mac_text(b: Seq<u8>) -> Seq<char> {
    hex_pair(b[0]) + seq![':'] + hex_pair(b[1]) + seq![':'] + hex_pair(b[2]) + seq![':']
        + hex_pair(b[3]) + seq![':'] + hex_pair(b[4]) + seq![':'] + hex_pair(b[5])
}

/// The host has no hardware address to derive an identity from.
#[derive(Clone, Copy, Debug, PartialEq, Eq)]
pub struct IdentityUnavailable;

/// Relies on the `Display` of `mac_address::MacAddress`, which writes each of
/// the six bytes as two upper-case hexadecimal digits, separated by colons.
#[verifier::external_body]
fn mac_to_text(bytes: [u8; 6]) -> (r: String)
    ensures
        r@ == mac_text(bytes@),
{
    mac_address::MacAddress::new(bytes).to_string()
}

/// The node identity for the host's hardware address, if the host has one.
pub fn node_identity(mac: Option<[u8; 6]>) -> (r: Result<String, IdentityUnavailable>)
    ensures
        match mac {
            Some(b) => r matches Ok(s) && s@ == mac_text(b@),
            None => r is Err,
        },
{
    match mac {
        Some(b) => Ok(mac_to_text(b)),
        None => Err(IdentityUnavailable),
    }
}

} // verus!
