//! The peer registry: what a node knows of the other nodes it has heard from.
use crate::wire::{AddrView, ServiceAddr};
use vstd::prelude::*;

verus! {

/// A known peer: its identity, the address of its request server, and the
/// time at which its latest handshake was recorded.
#[derive(Clone, Debug, PartialEq, Eq)]
pub struct PeerRecord {
    pub node_id: String,
    pub service_addr: ServiceAddr,
    pub last_seen: u64,
}

/// What the registry holds for one peer.
pub struct PeerView {
    pub service_addr: AddrView,
    pub last_seen: u64,
}

impl PeerRecord {
    pub open spec fn peer_view(&self) -> PeerView {
        PeerView { service_addr: self.service_addr@, last_seen: self.last_seen }
    }

    pub fn duplicate(&self) -> (r: PeerRecord)
        ensures
            r.node_id@ == self.node_id@,
            r.peer_view() == self.peer_view(),
    {
        PeerRecord {
            node_id: self.node_id.clone(),
            service_addr: self.service_addr.duplicate(),
            last_seen: self.last_seen,
        }
    }
}

/// A map from node identity to peer record; identities are unique.
pub struct Registry {
    records: Vec<PeerRecord>,
    peers: Ghost<Map<Seq<char>, PeerView>>,
}

impl View for Registry {
    type V = Map<Seq<char>, PeerView>;

    closed spec fn view(&self) -> Map<Seq<char>, PeerView> {
        self.peers@
    }
}

/// `records` lists the entries of `peers`, each exactly once.
pub open spec fn lists_exactly(records: Seq<PeerRecord>, peers: Map<Seq<char>, PeerView>) -> bool {
    &&& forall|i: int|
        0 <= i < records.len() ==> #[trigger] peers.contains_key(records[i].node_id@)
            && peers[records[i].node_id@] == records[i].peer_view()
    &&& forall|k: Seq<char>|
        #[trigger] peers.contains_key(k) ==> exists|i: int|
            0 <= i < records.len() && records[i].node_id@ == k
    &&& forall|i: int, j: int|
        0 <= i < records.len() && 0 <= j < records.len() && i != j ==> #[trigger] records[i].node_id@
            != #[trigger] records[j].node_id@
}

impl Registry {
    pub closed spec fn wf(&self) -> bool {
        lists_exactly(self.records@, self.peers@)
    }

    /// A registry that knows no peer.
    pub fn new() -> (r: Registry)
        ensures
            r.wf(),
            r@ == Map::<Seq<char>, PeerView>::empty(),
    {
        Registry { records: Vec::new(), peers: Ghost(Map::empty()) }
    }

    fn find(&self, node_id: &String) -> (r: Option<usize>)
        requires
            self.wf(),
        ensures
            match r {
                Some(i) => i < self.records@.len() && self.records@[i as int].node_id@ == node_id@,
                None => !self@.contains_key(node_id@),
            },
    {
        let mut i: usize = 0;
        while i < self.records.len()
            invariant
                self.wf(),
                i <= self.records@.len(),
                forall|j: int| 0 <= j < i ==> self.records@[j].node_id@ != node_id@,
            decreases self.records@.len() - i,
        {
            if self.records[i].node_id == *node_id {
                return Some(i);
            }
            i = i + 1;
        }
        None
    }

    /// Records `node_id` at `service_addr`, seen at time `now`, in place of
    /// whatever was recorded for it.
    pub fn upsert(&mut self, node_id: String, service_addr: ServiceAddr, now: u64)
        requires
            old(self).wf(),
        ensures
            final(self).wf(),
            final(self)@ == old(self)@.insert(
                node_id@,
                PeerView { service_addr: service_addr@, last_seen: now },
            ),
    {
        let ghost k = node_id@;
        let ghost v = PeerView { service_addr: service_addr@, last_seen: now };
        let record = PeerRecord { node_id, service_addr, last_seen: now };
        match self.find(&record.node_id) {
            Some(i) => {
                self.records.set(i, record);
                self.peers = Ghost(self.peers@.insert(k, v));
                assert forall|j: int| 0 <= j < self.records@.len() && j != i implies
                    self.records@[j].node_id@ != k by {
                    assert(old(self).records@[j].node_id@ != old(self).records@[i as int].node_id@);
                }
                assert forall|kk: Seq<char>| #[trigger]
                    self.peers@.contains_key(kk) implies exists|j: int|
                    0 <= j < self.records@.len() && self.records@[j].node_id@ == kk by {
                    if kk != k {
                        let j = choose|j: int|
                            0 <= j < old(self).records@.len() && old(self).records@[j].node_id@ == kk;
                        assert(self.records@[j].node_id@ == kk);
                    } else {
                        assert(self.records@[i as int].node_id@ == kk);
                    }
                }
            },
            None => {
                self.records.push(record);
                self.peers = Ghost(self.peers@.insert(k, v));
                let ghost n: int = self.records@.len() - 1;
                assert forall|kk: Seq<char>| #[trigger]
                    self.peers@.contains_key(kk) implies exists|j: int|
                    0 <= j < self.records@.len() && self.records@[j].node_id@ == kk by {
                    if kk != k {
                        let j = choose|j: int|
                            0 <= j < old(self).records@.len() && old(self).records@[j].node_id@ == kk;
                        assert(self.records@[j].node_id@ == kk);
                    } else {
                        assert(self.records@[n].node_id@ == kk);
                    }
                }
            },
        }
    }

    /// Whether `node_id` is known.
    pub fn contains(&self, node_id: &String) -> (r: bool)
        requires
            self.wf(),
        ensures
            r == self@.contains_key(node_id@),
    {
        match self.find(node_id) {
            Some(i) => {
                assert(self.peers@.contains_key(self.records@[i as int].node_id@));
                true
            },
            None => false,
        }
    }

    /// The record of `node_id`, if it is known.
    pub fn get(&self, node_id: &String) -> (r: Option<PeerRecord>)
        requires
            self.wf(),
        ensures
            match r {
                Some(p) => self@.contains_key(node_id@) && p.node_id@ == node_id@ && p.peer_view()
                    == self@[node_id@],
                None => !self@.contains_key(node_id@),
            },
    {
        match self.find(node_id) {
            Some(i) => {
                assert(self.peers@.contains_key(self.records@[i as int].node_id@));
                Some(self.records[i].duplicate())
            },
            None => None,
        }
    }

    /// A copy of every record, for use after the registry is released.
    pub fn snapshot(&self) -> (r: Vec<PeerRecord>)
        requires
            self.wf(),
        ensures
            lists_exactly(r@, self@),
    {
        let mut out: Vec<PeerRecord> = Vec::new();
        let mut i: usize = 0;
        while i < self.records.len()
            invariant
                self.wf(),
                i <= self.records@.len(),
                out@.len() == i,
                forall|j: int|
                    0 <= j < i ==> (#[trigger] out@[j]).node_id@ == self.records@[j].node_id@
                        && out@[j].peer_view() == self.records@[j].peer_view(),
            decreases self.records@.len() - i,
        {
            out.push(self.records[i].duplicate());
            i = i + 1;
        }
        assert forall|k: Seq<char>| #[trigger] self.peers@.contains_key(k) implies exists|i: int|
            0 <= i < out@.len() && out@[i].node_id@ == k by {
            let j = choose|j: int| 0 <= j < self.records@.len() && self.records@[j].node_id@ == k;
            assert(out@[j].node_id@ == k);
        }
        assert forall|a: int, b: int|
            0 <= a < out@.len() && 0 <= b < out@.len() && a != b implies #[trigger] out@[a].node_id@
            != #[trigger] out@[b].node_id@ by {
            assert(self.records@[a].node_id@ != self.records@[b].node_id@);
        }
        assert forall|j: int| 0 <= j < out@.len() implies #[trigger] self.peers@.contains_key(
            out@[j].node_id@,
        ) && self.peers@[out@[j].node_id@] == out@[j].peer_view() by {
            assert(self.peers@.contains_key(self.records@[j].node_id@));
        }
        out
    }
}

} // verus!
