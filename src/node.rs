//! What a node decides on each request and each discovery datagram.
//!
//! Each function takes the node's state and one incoming message and returns
//! what is to be sent; the caller does the sending.
use crate::registry::{lists_exactly, PeerRecord, PeerView, Registry};
use crate::store::KeyValueStore;
use crate::wire::{AddrView, Message, MessageView, ServiceAddr};
use vstd::prelude::*;

verus! {

/// The value with which a write is acknowledged.
pub open spec fn write_ack_text() -> Seq<char> {
    "Value set successfully."@
}

/// Whether a request changes the store.
pub open spec fn is_write(m: MessageView) -> bool {
    m is SetValue || m is Sync
}

/// The store after a request.
pub open spec fn store_after(s: Map<Seq<char>, Seq<char>>, m: MessageView) -> Map<
    Seq<char>,
    Seq<char>,
> {
    match m {
        MessageView::SetValue { key, value } => s.insert(key, value),
        MessageView::Sync { key, value } => s.insert(key, value),
        _ => s,
    }
}

/// The reply to a request, given the store as it was when the request came.
pub open spec fn reply_to(s: Map<Seq<char>, Seq<char>>, m: MessageView) -> Option<MessageView> {
    match m {
        MessageView::Heartbeat => Some(MessageView::HeartbeatResponse),
        MessageView::SetValue { .. } => Some(
            MessageView::ValueResponse { value: Some(write_ack_text()) },
        ),
        MessageView::GetValue { key } => Some(
            MessageView::ValueResponse {
                value: if s.contains_key(key) {
                    Some(s[key])
                } else {
                    None
                },
            },
        ),
        _ => None,
    }
}

/// A message and the peer it goes to.
#[derive(Clone, Debug, PartialEq, Eq)]
pub struct Outgoing {
    pub to: ServiceAddr,
    pub message: Message,
}

/// The replication pushes of a request to the peers `peers`: a client write
/// goes to every peer as a `Sync`; nothing else goes anywhere.
pub open spec fn pushes_of(peers: Seq<PeerRecord>, m: MessageView) -> Seq<(AddrView, MessageView)> {
    match m {
        MessageView::SetValue { key, value } => Seq::new(
            peers.len(),
            |i: int| (peers[i].service_addr@, MessageView::Sync { key, value }),
        ),
        _ => Seq::empty(),
    }
}

pub open spec fn outgoing_view(o: Seq<Outgoing>) -> Seq<(AddrView, MessageView)> {
    Seq::new(o.len(), |i: int| (o[i].to@, o[i].message@))
}

pub open spec fn optional_message(o: Option<Message>) -> Option<MessageView> {
    match o {
        Some(m) => Some(m@),
        None => None,
    }
}

/// What the request server does with one request.
#[derive(Debug)]
pub struct RequestOutcome {
    /// The message to write back on the connection, if any.
    pub reply: Option<Message>,
    /// The messages to send to other nodes.
    pub pushes: Vec<Outgoing>,
}

/// Whether `m` changes the store, so that handling it needs the store exclusively.
pub fn needs_write(m: &Message) -> (r: bool)
    ensures
        r == is_write(m@),
{
    match m {
        Message::SetValue { .. } | Message::Sync { .. } => true,
        _ => false,
    }
}

/// The reply to `m` on a store that `m` leaves unchanged or has not yet changed.
pub fn answer(store: &KeyValueStore, m: &Message) -> (r: Option<Message>)
    requires
        store.wf(),
    ensures
        optional_message(r) == reply_to(store@, m@),
{
    match m {
        Message::Heartbeat => Some(Message::HeartbeatResponse),
        Message::SetValue { .. } => {
            let ack = "Value set successfully.".to_owned();
            Some(Message::ValueResponse { value: Some(ack) })
        },
        Message::GetValue { key } => Some(Message::ValueResponse { value: store.get(key) }),
        _ => None,
    }
}

/// One `Sync` of `key` and `value` to each of `peers`, in their order.
pub fn fan_out(peers: &Vec<PeerRecord>, key: &String, value: &String) -> (r: Vec<Outgoing>)
    ensures
        outgoing_view(r@) == pushes_of(
            peers@,
            MessageView::SetValue { key: key@, value: value@ },
        ),
{
    let mut out: Vec<Outgoing> = Vec::new();
    let mut i: usize = 0;
    while i < peers.len()
        invariant
            i <= peers@.len(),
            out@.len() == i,
            forall|j: int|
                0 <= j < i ==> (#[trigger] out@[j]).to@ == peers@[j].service_addr@
                    && out@[j].message@ == (MessageView::Sync { key: key@, value: value@ }),
        decreases peers@.len() - i,
    {
        let message = Message::Sync { key: key.clone(), value: value.clone() };
        out.push(Outgoing { to: peers[i].service_addr.duplicate(), message });
        i = i + 1;
    }
    assert(outgoing_view(out@) =~= pushes_of(
        peers@,
        MessageView::SetValue { key: key@, value: value@ },
    ));
    out
}

/// Handles one request: applies a write to the store, and says what to reply
/// and which replication pushes to send to `peers`, a snapshot of the registry.
///
/// A client write is acknowledged and pushed to every peer; a replication
/// push is stored and neither answered nor pushed further; a read is
/// answered from the store; a heartbeat is answered; anything else is ignored.
pub fn handle_request(store: &mut KeyValueStore, peers: &Vec<PeerRecord>, m: Message) -> (r:
    RequestOutcome)
    requires
        old(store).wf(),
    ensures
        final(store).wf(),
        final(store)@ == store_after(old(store)@, m@),
        optional_message(r.reply) == reply_to(old(store)@, m@),
        outgoing_view(r.pushes@) == pushes_of(peers@, m@),
{
    let reply = answer(store, &m);
    match m {
        Message::SetValue { key, value } => {
            let pushes = fan_out(peers, &key, &value);
            store.set(key, value);
            RequestOutcome { reply, pushes }
        },
        Message::Sync { key, value } => {
            store.set(key, value);
            let pushes: Vec<Outgoing> = Vec::new();
            assert(outgoing_view(pushes@) =~= Seq::empty());
            RequestOutcome { reply, pushes }
        },
        _ => {
            let pushes: Vec<Outgoing> = Vec::new();
            assert(outgoing_view(pushes@) =~= Seq::empty());
            RequestOutcome { reply, pushes }
        },
    }
}

/// Whether a datagram is a handshake from another node than `local_id`.
pub open spec fn from_peer(local_id: Seq<char>, m: MessageView) -> bool {
    m matches MessageView::Handshake { node_id, .. } && node_id != local_id
}

/// The registry after a discovery datagram arrives at time `now`.
pub open spec fn registry_after(
    r: Map<Seq<char>, PeerView>,
    local_id: Seq<char>,
    m: MessageView,
    now: u64,
) -> Map<Seq<char>, PeerView> {
    match m {
        MessageView::Handshake { node_id, service_addr } => if node_id != local_id {
            r.insert(node_id, PeerView { service_addr, last_seen: now })
        } else {
            r
        },
        _ => r,
    }
}

/// The peer whose liveness the node starts to probe on a datagram: a peer
/// that it did not know before.
pub open spec fn newly_known(r: Map<Seq<char>, PeerView>, local_id: Seq<char>, m: MessageView) -> Option<
    Seq<char>,
> {
    match m {
        MessageView::Handshake { node_id, .. } => if node_id != local_id && !r.contains_key(
            node_id,
        ) {
            Some(node_id)
        } else {
            None
        },
        _ => None,
    }
}

/// What the discovery listener does with one datagram.
#[derive(Debug)]
pub struct DiscoveryOutcome {
    /// The message to send back to the datagram's sender, if any.
    pub reply: Option<Message>,
    /// A peer to start probing for liveness, if any.
    pub monitor: Option<String>,
}

/// Handles one discovery datagram received at time `now` by the node `local_id`.
///
/// A handshake from another node records it and is answered with a greeting;
/// the first one from a node also starts its liveness probe. A node's own
/// handshake and every other message change nothing and get no answer.
pub fn on_datagram(local_id: &String, registry: &mut Registry, m: Message, now: u64) -> (r:
    DiscoveryOutcome)
    requires
        old(registry).wf(),
    ensures
        final(registry).wf(),
        final(registry)@ == registry_after(old(registry)@, local_id@, m@, now),
        optional_message(r.reply) == if from_peer(local_id@, m@) {
            Some(MessageView::Greeting)
        } else {
            None
        },
        match r.monitor {
            Some(id) => newly_known(old(registry)@, local_id@, m@) == Some(id@),
            None => newly_known(old(registry)@, local_id@, m@) is None,
        },
{
    match m {
        Message::Handshake { node_id, service_addr } => {
            if node_id == *local_id {
                return DiscoveryOutcome { reply: None, monitor: None };
            }
            let known = registry.contains(&node_id);
            let monitor = if known {
                None
            } else {
                Some(node_id.clone())
            };
            registry.upsert(node_id, service_addr, now);
            DiscoveryOutcome { reply: Some(Message::Greeting), monitor }
        },
        _ => DiscoveryOutcome { reply: None, monitor: None },
    }
}

/// The handshake with which the node `local_id` announces its request server.
pub fn announcement(local_id: &String, service_addr: &ServiceAddr) -> (r: Message)
    ensures
        r@ == (MessageView::Handshake { node_id: local_id@, service_addr: service_addr@ }),
{
    Message::Handshake { node_id: local_id.clone(), service_addr: service_addr.duplicate() }
}

/// After a node processes the handshake of another node, its registry, and
/// every snapshot of it, holds that node's identity with its service address.
pub proof fn lemma_handshake_registers(
    r: Map<Seq<char>, PeerView>,
    local_id: Seq<char>,
    node_id: Seq<char>,
    service_addr: AddrView,
    now: u64,
    snapshot: Seq<PeerRecord>,
)
    requires
        node_id != local_id,
        lists_exactly(
            snapshot,
            registry_after(
                r,
                local_id,
                MessageView::Handshake { node_id, service_addr },
                now,
            ),
        ),
    ensures
        registry_after(
            r,
            local_id,
            MessageView::Handshake { node_id, service_addr },
            now,
        ).contains_key(node_id),
        registry_after(
            r,
            local_id,
            MessageView::Handshake { node_id, service_addr },
            now,
        )[node_id].service_addr == service_addr,
        exists|i: int|
            0 <= i < snapshot.len() && snapshot[i].node_id@ == node_id
                && snapshot[i].service_addr@ == service_addr,
{
    let after = registry_after(r, local_id, MessageView::Handshake { node_id, service_addr }, now);
    assert(after.contains_key(node_id));
    let i = choose|i: int| 0 <= i < snapshot.len() && snapshot[i].node_id@ == node_id;
    assert(after.contains_key(snapshot[i].node_id@));
}

/// A node that receives its own handshake neither records itself nor starts
/// probing itself.
pub proof fn lemma_no_self_registration(
    r: Map<Seq<char>, PeerView>,
    local_id: Seq<char>,
    service_addr: AddrView,
    now: u64,
)
    ensures
        registry_after(
            r,
            local_id,
            MessageView::Handshake { node_id: local_id, service_addr },
            now,
        ) == r,
        newly_known(r, local_id, MessageView::Handshake { node_id: local_id, service_addr })
            is None,
        !from_peer(local_id, MessageView::Handshake { node_id: local_id, service_addr }),
{
}

/// A client write accepted by a node that knows a peer at `peer_addr` is pushed
/// to that peer as a `Sync`; the peer stores it and pushes it no further.
pub proof fn lemma_write_replicates(
    peers: Seq<PeerRecord>,
    peer_addr: AddrView,
    key: Seq<char>,
    value: Seq<char>,
    peer_store: Map<Seq<char>, Seq<char>>,
    peer_peers: Seq<PeerRecord>,
)
    requires
        exists|i: int| 0 <= i < peers.len() && peers[i].service_addr@ == peer_addr,
    ensures
        exists|j: int|
            0 <= j < pushes_of(peers, MessageView::SetValue { key, value }).len() && pushes_of(
                peers,
                MessageView::SetValue { key, value },
            )[j] == (peer_addr, MessageView::Sync { key, value }),
        store_after(peer_store, MessageView::Sync { key, value }) == peer_store.insert(key, value),
        reply_to(peer_store, MessageView::Sync { key, value }) is None,
        pushes_of(peer_peers, MessageView::Sync { key, value }) == Seq::<
            (AddrView, MessageView),
        >::empty(),
{
    let i = choose|i: int| 0 <= i < peers.len() && peers[i].service_addr@ == peer_addr;
    assert(pushes_of(peers, MessageView::SetValue { key, value })[i] == (
        peer_addr,
        MessageView::Sync { key, value },
    ));
}

} // verus!
