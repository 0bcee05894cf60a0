//! The wire protocol: every value a node puts on the network is a [`Message`],
//! written as one tag byte followed by the variant's fields.
//!
//! A string is written as its length in bytes (eight bytes, most significant
//! first) followed by its UTF-8 bytes; a port as two bytes, most significant
//! first; an optional string as a presence byte (0 or 1) and, when present,
//! the string.
use vstd::prelude::*;
use vstd::utf8::*;

verus! {

broadcast use vstd::seq_lib::group_seq_properties;

pub const TAG_HANDSHAKE: u8 = 0;
pub const TAG_GREETING: u8 = 1;
pub const TAG_HEARTBEAT: u8 = 2;
pub const TAG_HEARTBEAT_RESPONSE: u8 = 3;
pub const TAG_SET_VALUE: u8 = 4;
pub const TAG_GET_VALUE: u8 = 5;
pub const TAG_VALUE_RESPONSE: u8 = 6;
pub const TAG_SYNC: u8 = 7;

/// A node's TCP service address: a host (an IP address in text) and a port.
#[derive(Clone, Debug, PartialEq, Eq)]
pub struct ServiceAddr {
    pub host: String,
    pub port: u16,
}

/// The mathematical value of a [`ServiceAddr`].
pub struct AddrView {
    pub host: Seq<char>,
    pub port: u16,
}

impl View for ServiceAddr {
    type V = AddrView;

    open spec fn view(&self) -> AddrView {
        AddrView { host: self.host@, port: self.port }
    }
}

impl ServiceAddr {
    pub fn new(host: String, port: u16) -> (r: ServiceAddr)
        ensures
            r@ == (AddrView { host: host@, port: port }),
    {
        ServiceAddr { host, port }
    }

    pub fn duplicate(&self) -> (r: ServiceAddr)
        ensures
            r@ == self@,
    {
        ServiceAddr { host: self.host.clone(), port: self.port }
    }
}

/// Every value that a node sends or receives.
#[derive(Clone, Debug, PartialEq, Eq)]
#[allow(inconsistent_fields)]
pub enum Message {
    /// Discovery announcement of a node and of the address of its request server.
    Handshake { node_id: String, service_addr: ServiceAddr },
    /// Acknowledgment of a handshake.
    Greeting,
    /// Liveness probe.
    Heartbeat,
    /// Reply to a liveness probe.
    HeartbeatResponse,
    /// Client write.
    SetValue { key: String, value: String },
    /// Client read.
    GetValue { key: String },
    /// Reply to a read or a write.
    ValueResponse { value: Option<String> },
    /// Replication push; it is stored without a further fan-out.
    Sync { key: String, value: String },
}

/// The mathematical value of a [`Message`].
#[allow(inconsistent_fields)]
pub enum MessageView {
    Handshake { node_id: Seq<char>, service_addr: AddrView },
    Greeting,
    Heartbeat,
    HeartbeatResponse,
    SetValue { key: Seq<char>, value: Seq<char> },
    GetValue { key: Seq<char> },
    ValueResponse { value: Option<Seq<char>> },
    Sync { key: Seq<char>, value: Seq<char> },
}

/// The mathematical value of an optional string.
pub open spec fn optional_view(o: &Option<String>) -> Option<Seq<char>> {
    match o {
        Some(s) => Some(s@),
        None => None,
    }
}

impl View for Message {
    type V = MessageView;

    open spec fn view(&self) -> MessageView {
        match self {
            Message::Handshake { node_id, service_addr } => MessageView::Handshake {
                node_id: node_id@,
                service_addr: service_addr@,
            },
            Message::Greeting => MessageView::Greeting,
            Message::Heartbeat => MessageView::Heartbeat,
            Message::HeartbeatResponse => MessageView::HeartbeatResponse,
            Message::SetValue { key, value } => MessageView::SetValue {
                key: key@,
                value: value@,
            },
            Message::GetValue { key } => MessageView::GetValue { key: key@ },
            Message::ValueResponse { value } => MessageView::ValueResponse {
                value: optional_view(value),
            },
            Message::Sync { key, value } => MessageView::Sync { key: key@, value: value@ },
        }
    }
}

/// The eight bytes of `n`, most significant first.
pub open spec fn be64(n: u64) -> Seq<u8> {
    seq![
        (n >> 56u64) as u8,
        (n >> 48u64) as u8,
        (n >> 40u64) as u8,
        (n >> 32u64) as u8,
        (n >> 24u64) as u8,
        (n >> 16u64) as u8,
        (n >> 8u64) as u8,
        n as u8,
    ]
}

/// The number that eight bytes, most significant first, stand for.
pub open spec fn be64_value(s: Seq<u8>) -> u64 {
    (s[0] as u64) << 56u64 | (s[1] as u64) << 48u64 | (s[2] as u64) << 40u64 | (s[3] as u64)
        << 32u64 | (s[4] as u64) << 24u64 | (s[5] as u64) << 16u64 | (s[6] as u64) << 8u64 | (
    s[7] as u64)
}

/// The two bytes of a port, most significant first.
pub open spec fn be16(n: u16) -> Seq<u8> {
    seq![(n >> 8u16) as u8, n as u8]
}

pub open spec fn be16_value(s: Seq<u8>) -> u16 {
    (s[0] as u16) << 8u16 | (s[1] as u16)
}

/// A string on the wire: its byte length, then its UTF-8 bytes.
pub open spec fn field(s: Seq<char>) -> Seq<u8> {
    be64(encode_utf8(s).len() as u64) + encode_utf8(s)
}

pub open spec fn addr_field(a: AddrView) -> Seq<u8> {
    field(a.host) + be16(a.port)
}

pub open spec fn optional_field(o: Option<Seq<char>>) -> Seq<u8> {
    match o {
        Some(s) => seq![1u8] + field(s),
        None => seq![0u8],
    }
}

/// The bytes that stand for a message on the wire.
pub open spec fn encoding(m: MessageView) -> Seq<u8> {
    match m {
        MessageView::Handshake { node_id, service_addr } => seq![TAG_HANDSHAKE] + field(node_id)
            + addr_field(service_addr),
        MessageView::Greeting => seq![TAG_GREETING],
        MessageView::Heartbeat => seq![TAG_HEARTBEAT],
        MessageView::HeartbeatResponse => seq![TAG_HEARTBEAT_RESPONSE],
        MessageView::SetValue { key, value } => seq![TAG_SET_VALUE] + field(key) + field(value),
        MessageView::GetValue { key } => seq![TAG_GET_VALUE] + field(key),
        MessageView::ValueResponse { value } => seq![TAG_VALUE_RESPONSE] + optional_field(value),
        MessageView::Sync { key, value } => seq![TAG_SYNC] + field(key) + field(value),
    }
}

proof fn lemma_be64_round_trip(n: u64)
    ensures
        be64_value(be64(n)) == n,
{
    let s = be64(n);
    assert(((n >> 56u64) as u8 as u64) << 56u64 | ((n >> 48u64) as u8 as u64) << 48u64 | ((n
        >> 40u64) as u8 as u64) << 40u64 | ((n >> 32u64) as u8 as u64) << 32u64 | ((n
        >> 24u64) as u8 as u64) << 24u64 | ((n >> 16u64) as u8 as u64) << 16u64 | ((n
        >> 8u64) as u8 as u64) << 8u64 | (n as u8 as u64) == n) by (bit_vector);
}

proof fn lemma_be16_round_trip(n: u16)
    ensures
        be16_value(be16(n)) == n,
{
    assert(((n >> 8u16) as u8 as u16) << 8u16 | (n as u8 as u16) == n) by (bit_vector);
}

/// `x` stands in `b` from position `pos` on.
pub open spec fn prefix_at(b: Seq<u8>, pos: int, x: Seq<u8>) -> bool {
    0 <= pos && pos + x.len() <= b.len() && b.subrange(pos, pos + x.len()) == x
}

proof fn lemma_prefix_split(b: Seq<u8>, pos: int, x: Seq<u8>, y: Seq<u8>)
    requires
        prefix_at(b, pos, x + y),
    ensures
        prefix_at(b, pos, x),
        prefix_at(b, pos + x.len(), y),
{
    let w = b.subrange(pos, pos + (x + y).len());
    assert(b.subrange(pos, pos + x.len()) =~= w.subrange(0, x.len() as int));
    assert(w.subrange(0, x.len() as int) =~= x);
    assert(b.subrange(pos + x.len(), pos + x.len() + y.len()) =~= w.subrange(
        x.len() as int,
        w.len() as int,
    ));
    assert(w.subrange(x.len() as int, w.len() as int) =~= y);
}

proof fn lemma_prefix_join(b: Seq<u8>, pos: int, x: Seq<u8>, y: Seq<u8>)
    requires
        prefix_at(b, pos, x),
        prefix_at(b, pos + x.len(), y),
    ensures
        prefix_at(b, pos, x + y),
{
    assert(b.subrange(pos, pos + x.len() + y.len()) =~= x + y);
}

proof fn lemma_be64_bytes(s: Seq<u8>)
    requires
        s.len() == 8,
    ensures
        be64(be64_value(s)) == s,
{
    let (b0, b1, b2, b3, b4, b5, b6, b7) = (s[0], s[1], s[2], s[3], s[4], s[5], s[6], s[7]);
    let v = be64_value(s);
    assert(v == (b0 as u64) << 56u64 | (b1 as u64) << 48u64 | (b2 as u64) << 40u64 | (b3 as u64)
        << 32u64 | (b4 as u64) << 24u64 | (b5 as u64) << 16u64 | (b6 as u64) << 8u64 | (
    b7 as u64));
    assert((v >> 56u64) as u8 == b0 && (v >> 48u64) as u8 == b1 && (v >> 40u64) as u8 == b2 && (v
        >> 32u64) as u8 == b3 && (v >> 24u64) as u8 == b4 && (v >> 16u64) as u8 == b5 && (v
        >> 8u64) as u8 == b6 && v as u8 == b7) by (bit_vector)
        requires
            v == (b0 as u64) << 56u64 | (b1 as u64) << 48u64 | (b2 as u64) << 40u64 | (
            b3 as u64) << 32u64 | (b4 as u64) << 24u64 | (b5 as u64) << 16u64 | (b6 as u64)
                << 8u64 | (b7 as u64),
    ;
    assert(be64(v) =~= s);
}

proof fn lemma_be16_bytes(s: Seq<u8>)
    requires
        s.len() == 2,
    ensures
        be16(be16_value(s)) == s,
{
    let (b0, b1) = (s[0], s[1]);
    let v = be16_value(s);
    assert((v >> 8u16) as u8 == b0 && v as u8 == b1) by (bit_vector)
        requires
            v == (b0 as u16) << 8u16 | (b1 as u16),
    ;
    assert(be16(v) =~= s);
}

/// Two strings whose wire forms both stand at one position are the same.
proof fn lemma_field_unique(b: Seq<u8>, pos: int, s1: Seq<char>, s2: Seq<char>)
    requires
        b.len() <= u64::MAX,
        prefix_at(b, pos, field(s1)),
        prefix_at(b, pos, field(s2)),
    ensures
        s1 == s2,
{
    let e1 = encode_utf8(s1);
    let e2 = encode_utf8(s2);
    lemma_prefix_split(b, pos, be64(e1.len() as u64), e1);
    lemma_prefix_split(b, pos, be64(e2.len() as u64), e2);
    lemma_be64_round_trip(e1.len() as u64);
    lemma_be64_round_trip(e2.len() as u64);
    assert(e1 == e2);
    encode_utf8_decode_utf8(s1);
    encode_utf8_decode_utf8(s2);
}

proof fn lemma_addr_unique(b: Seq<u8>, pos: int, a1: AddrView, a2: AddrView)
    requires
        b.len() <= u64::MAX,
        prefix_at(b, pos, addr_field(a1)),
        prefix_at(b, pos, addr_field(a2)),
    ensures
        a1 == a2,
{
    lemma_prefix_split(b, pos, field(a1.host), be16(a1.port));
    lemma_prefix_split(b, pos, field(a2.host), be16(a2.port));
    lemma_field_unique(b, pos, a1.host, a2.host);
    lemma_be16_round_trip(a1.port);
    lemma_be16_round_trip(a2.port);
}

proof fn lemma_optional_unique(b: Seq<u8>, pos: int, o1: Option<Seq<char>>, o2: Option<Seq<char>>)
    requires
        b.len() <= u64::MAX,
        prefix_at(b, pos, optional_field(o1)),
        prefix_at(b, pos, optional_field(o2)),
    ensures
        o1 == o2,
{
    assert(b[pos] == optional_field(o1)[0]);
    assert(b[pos] == optional_field(o2)[0]);
    if let Some(s1) = o1 {
        if let Some(s2) = o2 {
            lemma_prefix_split(b, pos, seq![1u8], field(s1));
            lemma_prefix_split(b, pos, seq![1u8], field(s2));
            lemma_field_unique(b, pos + 1, s1, s2);
        }
    }
}

/// No two messages share a wire form.
pub proof fn lemma_encoding_injective(m1: MessageView, m2: MessageView)
    requires
        encoding(m1).len() <= u64::MAX,
        encoding(m1) == encoding(m2),
    ensures
        m1 == m2,
{
    let b = encoding(m1);
    assert(b.subrange(0, b.len() as int) =~= b);
    assert(b[0] == encoding(m2)[0]);
    match m1 {
        MessageView::Handshake { node_id, service_addr } => {
            if let MessageView::Handshake { node_id: i2, service_addr: a2 } = m2 {
                lemma_prefix_split(b, 0, seq![TAG_HANDSHAKE] + field(node_id), addr_field(service_addr));
                lemma_prefix_split(b, 0, seq![TAG_HANDSHAKE], field(node_id));
                lemma_prefix_split(b, 0, seq![TAG_HANDSHAKE] + field(i2), addr_field(a2));
                lemma_prefix_split(b, 0, seq![TAG_HANDSHAKE], field(i2));
                lemma_field_unique(b, 1, node_id, i2);
                lemma_addr_unique(b, 1 + field(node_id).len() as int, service_addr, a2);
            }
        },
        MessageView::SetValue { key, value } => {
            if let MessageView::SetValue { key: k2, value: v2 } = m2 {
                lemma_prefix_split(b, 0, seq![TAG_SET_VALUE] + field(key), field(value));
                lemma_prefix_split(b, 0, seq![TAG_SET_VALUE], field(key));
                lemma_prefix_split(b, 0, seq![TAG_SET_VALUE] + field(k2), field(v2));
                lemma_prefix_split(b, 0, seq![TAG_SET_VALUE], field(k2));
                lemma_field_unique(b, 1, key, k2);
                lemma_field_unique(b, 1 + field(key).len() as int, value, v2);
            }
        },
        MessageView::Sync { key, value } => {
            if let MessageView::Sync { key: k2, value: v2 } = m2 {
                lemma_prefix_split(b, 0, seq![TAG_SYNC] + field(key), field(value));
                lemma_prefix_split(b, 0, seq![TAG_SYNC], field(key));
                lemma_prefix_split(b, 0, seq![TAG_SYNC] + field(k2), field(v2));
                lemma_prefix_split(b, 0, seq![TAG_SYNC], field(k2));
                lemma_field_unique(b, 1, key, k2);
                lemma_field_unique(b, 1 + field(key).len() as int, value, v2);
            }
        },
        MessageView::GetValue { key } => {
            if let MessageView::GetValue { key: k2 } = m2 {
                lemma_prefix_split(b, 0, seq![TAG_GET_VALUE], field(key));
                lemma_prefix_split(b, 0, seq![TAG_GET_VALUE], field(k2));
                lemma_field_unique(b, 1, key, k2);
            }
        },
        MessageView::ValueResponse { value } => {
            if let MessageView::ValueResponse { value: v2 } = m2 {
                lemma_prefix_split(b, 0, seq![TAG_VALUE_RESPONSE], optional_field(value));
                lemma_prefix_split(b, 0, seq![TAG_VALUE_RESPONSE], optional_field(v2));
                lemma_optional_unique(b, 1, value, v2);
            }
        },
        _ => {},
    }
}

/// A message could not be read from bytes: they were cut short, held an
/// unknown tag, a string that is not UTF-8, or bytes after the message.
#[derive(Clone, Copy, Debug, PartialEq, Eq)]
pub struct MalformedMessage;

/// Relies on `String::from_utf8`: it succeeds exactly on valid UTF-8 and then
/// holds the characters that the bytes encode.
#[verifier::external_body]
fn utf8_string(bytes: Vec<u8>) -> (r: Option<String>)
    ensures
        match r {
            Some(s) => valid_utf8(bytes@) && s@ == decode_utf8(bytes@),
            None => !valid_utf8(bytes@),
        },
{
    String::from_utf8(bytes).ok()
}

fn put_u64(out: &mut Vec<u8>, n: u64)
    ensures
        final(out)@ == old(out)@ + be64(n),
{
    out.push((n >> 56u64) as u8);
    out.push((n >> 48u64) as u8);
    out.push((n >> 40u64) as u8);
    out.push((n >> 32u64) as u8);
    out.push((n >> 24u64) as u8);
    out.push((n >> 16u64) as u8);
    out.push((n >> 8u64) as u8);
    out.push(n as u8);
    assert(final(out)@ =~= old(out)@ + be64(n));
}

fn put_string(out: &mut Vec<u8>, s: &String)
    ensures
        final(out)@ == old(out)@ + field(s@),
{
    let bytes = s.as_str().as_bytes();
    put_u64(out, bytes.len() as u64);
    let mut tail = vstd::slice::slice_to_vec(bytes);
    out.append(&mut tail);
    assert(final(out)@ =~= old(out)@ + field(s@));
}

fn put_addr(out: &mut Vec<u8>, a: &ServiceAddr)
    ensures
        final(out)@ == old(out)@ + addr_field(a@),
{
    put_string(out, &a.host);
    out.push((a.port >> 8u16) as u8);
    out.push(a.port as u8);
    assert(final(out)@ =~= old(out)@ + addr_field(a@));
}

/// The wire form of `m`.
pub fn encode(m: &Message) -> (r: Vec<u8>)
    ensures
        r@ == encoding(m@),
{
    let mut out: Vec<u8> = Vec::new();
    match m {
        Message::Handshake { node_id, service_addr } => {
            out.push(TAG_HANDSHAKE);
            put_string(&mut out, node_id);
            put_addr(&mut out, service_addr);
        },
        Message::Greeting => {
            out.push(TAG_GREETING);
        },
        Message::Heartbeat => {
            out.push(TAG_HEARTBEAT);
        },
        Message::HeartbeatResponse => {
            out.push(TAG_HEARTBEAT_RESPONSE);
        },
        Message::SetValue { key, value } => {
            out.push(TAG_SET_VALUE);
            put_string(&mut out, key);
            put_string(&mut out, value);
        },
        Message::GetValue { key } => {
            out.push(TAG_GET_VALUE);
            put_string(&mut out, key);
        },
        Message::ValueResponse { value } => {
            out.push(TAG_VALUE_RESPONSE);
            match value {
                Some(v) => {
                    out.push(1u8);
                    put_string(&mut out, v);
                },
                None => {
                    out.push(0u8);
                },
            }
        },
        Message::Sync { key, value } => {
            out.push(TAG_SYNC);
            put_string(&mut out, key);
            put_string(&mut out, value);
        },
    }
    assert(out@ =~= encoding(m@));
    out
}

fn read_u64(b: &Vec<u8>, pos: usize) -> (r: u64)
    requires
        pos + 8 <= b@.len(),
    ensures
        r == be64_value(b@.subrange(pos as int, pos + 8)),
{
    // A vector's length fits in a usize, so no index below overflows.
    let _ = b.len();
    (b[pos] as u64) << 56u64 | (b[pos + 1] as u64) << 48u64 | (b[pos + 2] as u64) << 40u64 | (b[pos
        + 3] as u64) << 32u64 | (b[pos + 4] as u64) << 24u64 | (b[pos + 5] as u64) << 16u64 | (b[pos
        + 6] as u64) << 8u64 | (b[pos + 7] as u64)
}

/// Reads the string whose wire form starts at `pos`, and the position after it.
fn read_string(b: &Vec<u8>, pos: usize) -> (r: Option<(String, usize)>)
    requires
        pos <= b@.len(),
    ensures
        match r {
            Some((s, e)) => e == pos + field(s@).len() && prefix_at(b@, pos as int, field(s@)),
            None => forall|s: Seq<char>| !prefix_at(b@, pos as int, #[trigger] field(s)),
        },
{
    if b.len() - pos < 8 {
        return None;
    }
    let n = read_u64(b, pos);
    let start = pos + 8;
    proof {
        lemma_be64_bytes(b@.subrange(pos as int, pos + 8));
        assert forall|s: Seq<char>| prefix_at(b@, pos as int, #[trigger] field(s)) implies n
            == encode_utf8(s).len() && prefix_at(b@, start as int, encode_utf8(s)) by {
            lemma_prefix_split(b@, pos as int, be64(encode_utf8(s).len() as u64), encode_utf8(s));
            lemma_be64_round_trip(encode_utf8(s).len() as u64);
        }
    }
    if n > (b.len() - start) as u64 {
        return None;
    }
    let end = start + n as usize;
    let bytes = vstd::slice::slice_to_vec(vstd::slice::slice_subrange(b.as_slice(), start, end));
    let ghost raw = bytes@;
    match utf8_string(bytes) {
        Some(s) => {
            proof {
                decode_utf8_encode_utf8(raw);
                assert(b@.subrange(pos as int, pos + 8) == be64(encode_utf8(s@).len() as u64));
                assert(prefix_at(b@, start as int, encode_utf8(s@)));
                lemma_prefix_join(b@, pos as int, be64(encode_utf8(s@).len() as u64), encode_utf8(s@));
            }
            Some((s, end))
        },
        None => {
            proof {
                assert forall|s: Seq<char>| !prefix_at(b@, pos as int, #[trigger] field(s)) by {
                    if prefix_at(b@, pos as int, field(s)) {
                        encode_utf8_valid_utf8(s);
                        assert(raw == encode_utf8(s));
                    }
                }
            }
            None
        },
    }
}

proof fn lemma_whole(b: Seq<u8>, x: Seq<u8>)
    requires
        prefix_at(b, 0, x),
        x.len() == b.len(),
    ensures
        b == x,
{
    assert(b.subrange(0, b.len() as int) =~= b);
}

proof fn lemma_tag(b: Seq<u8>)
    requires
        b.len() >= 1,
    ensures
        prefix_at(b, 0, seq![b[0]]),
{
    assert(b.subrange(0, 1) =~= seq![b[0]]);
}

proof fn lemma_whole_prefix(b: Seq<u8>)
    ensures
        prefix_at(b, 0, b),
{
    assert(b.subrange(0, b.len() as int) =~= b);
}

/// Reads the address whose wire form starts at `pos`, and the position after it.
fn read_addr(b: &Vec<u8>, pos: usize) -> (r: Option<(ServiceAddr, usize)>)
    requires
        pos <= b@.len(),
    ensures
        match r {
            Some((a, e)) => e == pos + addr_field(a@).len() && prefix_at(
                b@,
                pos as int,
                addr_field(a@),
            ),
            None => forall|a: AddrView| !prefix_at(b@, pos as int, #[trigger] addr_field(a)),
        },
{
    let len = b.len();
    match read_string(b, pos) {
        None => {
            proof {
                assert forall|a: AddrView| !prefix_at(b@, pos as int, #[trigger] addr_field(a)) by {
                    if prefix_at(b@, pos as int, addr_field(a)) {
                        lemma_prefix_split(b@, pos as int, field(a.host), be16(a.port));
                    }
                }
            }
            None
        },
        Some((host, p)) => {
            proof {
                assert forall|a: AddrView| prefix_at(b@, pos as int, #[trigger] addr_field(a))
                    implies a.host == host@ && prefix_at(b@, p as int, be16(a.port)) by {
                    lemma_prefix_split(b@, pos as int, field(a.host), be16(a.port));
                    lemma_field_unique(b@, pos as int, a.host, host@);
                }
            }
            if len - p < 2 {
                return None;
            }
            let port = (b[p] as u16) << 8u16 | (b[p + 1] as u16);
            let ghost bytes = b@.subrange(p as int, p + 2);
            proof {
                assert(port == be16_value(bytes));
                lemma_be16_bytes(bytes);
                lemma_prefix_join(b@, pos as int, field(host@), be16(port));
            }
            Some((ServiceAddr { host, port }, p + 2))
        },
    }
}

/// Reads the optional string whose wire form starts at `pos`, and the position after it.
fn read_optional(b: &Vec<u8>, pos: usize) -> (r: Option<(Option<String>, usize)>)
    requires
        pos <= b@.len(),
    ensures
        match r {
            Some((o, e)) => e == pos + optional_field(optional_view(&o)).len() && prefix_at(
                b@,
                pos as int,
                optional_field(optional_view(&o)),
            ),
            None => forall|o: Option<Seq<char>>|
                !prefix_at(b@, pos as int, #[trigger] optional_field(o)),
        },
{
    let len = b.len();
    if pos >= len {
        return None;
    }
    let flag = b[pos];
    proof {
        assert(b@.subrange(pos as int, pos + 1) =~= seq![flag]);
    }
    if flag == 0 {
        Some((None, pos + 1))
    } else if flag == 1 {
        match read_string(b, pos + 1) {
            Some((s, e)) => {
                proof {
                    lemma_prefix_join(b@, pos as int, seq![1u8], field(s@));
                }
                Some((Some(s), e))
            },
            None => {
                proof {
                    assert forall|o: Option<Seq<char>>|
                        !prefix_at(b@, pos as int, #[trigger] optional_field(o)) by {
                        if prefix_at(b@, pos as int, optional_field(o)) {
                            assert(b@[pos as int] == optional_field(o)[0]);
                            if let Some(t) = o {
                                lemma_prefix_split(b@, pos as int, seq![1u8], field(t));
                            }
                        }
                    }
                }
                None
            },
        }
    } else {
        proof {
            assert forall|o: Option<Seq<char>>|
                !prefix_at(b@, pos as int, #[trigger] optional_field(o)) by {
                if prefix_at(b@, pos as int, optional_field(o)) {
                    assert(b@[pos as int] == optional_field(o)[0]);
                }
            }
        }
        None
    }
}

/// Reads two strings after the tag byte, which must end the bytes.
fn read_pair(b: &Vec<u8>) -> (r: Option<(String, String)>)
    requires
        b@.len() >= 1,
    ensures
        match r {
            Some((k, v)) => b@ == seq![b@[0]] + field(k@) + field(v@),
            None => forall|k: Seq<char>, v: Seq<char>|
                b@ != #[trigger] (seq![b@[0]] + field(k) + field(v)),
        },
{
    let len = b.len();
    let ghost t = seq![b@[0]];
    proof {
        lemma_tag(b@);
        assert forall|k: Seq<char>, v: Seq<char>| b@ == #[trigger] (t + field(k) + field(v))
            implies prefix_at(b@, 1, field(k)) && prefix_at(b@, 1 + field(k).len() as int, field(v)) by {
            lemma_whole_prefix(b@);
            lemma_prefix_split(b@, 0, t + field(k), field(v));
            lemma_prefix_split(b@, 0, t, field(k));
        }
    }
    match read_string(b, 1) {
        None => None,
        Some((k, p)) => {
            proof {
                assert forall|k2: Seq<char>, v2: Seq<char>| b@ == #[trigger] (t + field(k2) + field(
                    v2,
                )) implies k2 == k@ by {
                    lemma_field_unique(b@, 1, k2, k@);
                }
            }
            match read_string(b, p) {
                None => None,
                Some((v, q)) => {
                    proof {
                        assert forall|k2: Seq<char>, v2: Seq<char>| b@ == #[trigger] (t + field(k2)
                            + field(v2)) implies v2 == v@ by {
                            lemma_field_unique(b@, p as int, v2, v@);
                        }
                    }
                    if q == len {
                        proof {
                            lemma_prefix_join(b@, 0, t, field(k@));
                            lemma_prefix_join(b@, 0, t + field(k@), field(v@));
                            lemma_whole(b@, t + field(k@) + field(v@));
                        }
                        Some((k, v))
                    } else {
                        None
                    }
                },
            }
        },
    }
}

/// Reads one string after the tag byte, which must end the bytes.
fn read_single(b: &Vec<u8>) -> (r: Option<String>)
    requires
        b@.len() >= 1,
    ensures
        match r {
            Some(k) => b@ == seq![b@[0]] + field(k@),
            None => forall|k: Seq<char>| b@ != #[trigger] (seq![b@[0]] + field(k)),
        },
{
    let len = b.len();
    let ghost t = seq![b@[0]];
    proof {
        lemma_tag(b@);
        assert forall|k: Seq<char>| b@ == #[trigger] (t + field(k)) implies prefix_at(
            b@,
            1,
            field(k),
        ) by {
            lemma_whole_prefix(b@);
            lemma_prefix_split(b@, 0, t, field(k));
        }
    }
    match read_string(b, 1) {
        None => None,
        Some((k, p)) => {
            proof {
                assert forall|k2: Seq<char>| b@ == #[trigger] (t + field(k2)) implies k2 == k@ by {
                    lemma_field_unique(b@, 1, k2, k@);
                }
            }
            if p == len {
                proof {
                    lemma_prefix_join(b@, 0, t, field(k@));
                    lemma_whole(b@, t + field(k@));
                }
                Some(k)
            } else {
                None
            }
        },
    }
}

/// Reads a string and an address after the tag byte, which must end the bytes.
fn read_announcement(b: &Vec<u8>) -> (r: Option<(String, ServiceAddr)>)
    requires
        b@.len() >= 1,
    ensures
        match r {
            Some((k, a)) => b@ == seq![b@[0]] + field(k@) + addr_field(a@),
            None => forall|k: Seq<char>, a: AddrView|
                b@ != #[trigger] (seq![b@[0]] + field(k) + addr_field(a)),
        },
{
    let len = b.len();
    let ghost t = seq![b@[0]];
    proof {
        lemma_tag(b@);
        assert forall|k: Seq<char>, a: AddrView| b@ == #[trigger] (t + field(k) + addr_field(a))
            implies prefix_at(b@, 1, field(k)) && prefix_at(
            b@,
            1 + field(k).len() as int,
            addr_field(a),
        ) by {
            lemma_whole_prefix(b@);
            lemma_prefix_split(b@, 0, t + field(k), addr_field(a));
            lemma_prefix_split(b@, 0, t, field(k));
        }
    }
    match read_string(b, 1) {
        None => None,
        Some((k, p)) => {
            proof {
                assert forall|k2: Seq<char>, a2: AddrView| b@ == #[trigger] (t + field(k2)
                    + addr_field(a2)) implies k2 == k@ by {
                    lemma_field_unique(b@, 1, k2, k@);
                }
            }
            match read_addr(b, p) {
                None => None,
                Some((a, q)) => {
                    proof {
                        assert forall|k2: Seq<char>, a2: AddrView| b@ == #[trigger] (t + field(k2)
                            + addr_field(a2)) implies a2 == a@ by {
                            lemma_addr_unique(b@, p as int, a2, a@);
                        }
                    }
                    if q == len {
                        proof {
                            lemma_prefix_join(b@, 0, t, field(k@));
                            lemma_prefix_join(b@, 0, t + field(k@), addr_field(a@));
                            lemma_whole(b@, t + field(k@) + addr_field(a@));
                        }
                        Some((k, a))
                    } else {
                        None
                    }
                },
            }
        },
    }
}

/// Reads an optional string after the tag byte, which must end the bytes.
fn read_reply(b: &Vec<u8>) -> (r: Option<Option<String>>)
    requires
        b@.len() >= 1,
    ensures
        match r {
            Some(o) => b@ == seq![b@[0]] + optional_field(optional_view(&o)),
            None => forall|o: Option<Seq<char>>|
                b@ != #[trigger] (seq![b@[0]] + optional_field(o)),
        },
{
    let len = b.len();
    let ghost t = seq![b@[0]];
    proof {
        lemma_tag(b@);
        assert forall|o: Option<Seq<char>>| b@ == #[trigger] (t + optional_field(o))
            implies prefix_at(b@, 1, optional_field(o)) by {
            lemma_whole_prefix(b@);
            lemma_prefix_split(b@, 0, t, optional_field(o));
        }
    }
    match read_optional(b, 1) {
        None => None,
        Some((o, p)) => {
            proof {
                assert forall|o2: Option<Seq<char>>| b@ == #[trigger] (t + optional_field(o2))
                    implies o2 == optional_view(&o) by {
                    lemma_optional_unique(b@, 1, o2, optional_view(&o));
                }
            }
            if p == len {
                proof {
                    lemma_prefix_join(b@, 0, t, optional_field(optional_view(&o)));
                    lemma_whole(b@, t + optional_field(optional_view(&o)));
                }
                Some(o)
            } else {
                None
            }
        },
    }
}

/// The message whose wire form is `b`.
///
/// Decoding undoes encoding: the bytes of any message decode to that message.
/// Anything that is not the wire form of a message is malformed.
pub fn decode(b: &Vec<u8>) -> (r: Result<Message, MalformedMessage>)
    ensures
        match r {
            Ok(m) => encoding(m@) == b@,
            Err(_) => forall|v: MessageView| encoding(v) != b@,
        },
        forall|v: MessageView| encoding(v) == b@ ==> (r matches Ok(m) && m@ == v),
{
    // A vector's length fits in a usize, so every field length fits in eight bytes.
    let _ = b.len();
    let r = decode_message(b);
    proof {
        assert forall|v: MessageView| encoding(v) == b@ implies (r matches Ok(m) && m@ == v) by {
            let m = r->Ok_0;
            lemma_encoding_injective(v, m@);
        }
    }
    r
}

fn decode_message(b: &Vec<u8>) -> (r: Result<Message, MalformedMessage>)
    ensures
        match r {
            Ok(m) => encoding(m@) == b@,
            Err(_) => forall|v: MessageView| encoding(v) != b@,
        },
{
    let len = b.len();
    if len == 0 {
        return Err(MalformedMessage);
    }
    let tag = b[0];
    proof {
        assert forall|v: MessageView| #[trigger] encoding(v) == b@ implies encoding(v)[0] == tag by {}
    }
    if tag == TAG_GREETING || tag == TAG_HEARTBEAT || tag == TAG_HEARTBEAT_RESPONSE {
        if len != 1 {
            return Err(MalformedMessage);
        }
        proof {
            assert(b@ =~= seq![tag]);
        }
        if tag == TAG_GREETING {
            Ok(Message::Greeting)
        } else if tag == TAG_HEARTBEAT {
            Ok(Message::Heartbeat)
        } else {
            Ok(Message::HeartbeatResponse)
        }
    } else if tag == TAG_HANDSHAKE {
        match read_announcement(b) {
            Some((node_id, service_addr)) => Ok(Message::Handshake { node_id, service_addr }),
            None => Err(MalformedMessage),
        }
    } else if tag == TAG_SET_VALUE || tag == TAG_SYNC {
        match read_pair(b) {
            Some((key, value)) => if tag == TAG_SET_VALUE {
                Ok(Message::SetValue { key, value })
            } else {
                Ok(Message::Sync { key, value })
            },
            None => Err(MalformedMessage),
        }
    } else if tag == TAG_GET_VALUE {
        match read_single(b) {
            Some(key) => Ok(Message::GetValue { key }),
            None => Err(MalformedMessage),
        }
    } else if tag == TAG_VALUE_RESPONSE {
        match read_reply(b) {
            Some(value) => Ok(Message::ValueResponse { value }),
            None => Err(MalformedMessage),
        }
    } else {
        Err(MalformedMessage)
    }
}

} // verus!
