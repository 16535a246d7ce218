//! The publish/subscribe overlay: topic subscriptions, the mesh of peers per
//! topic, the discovered peers and their addresses, and the cache of recently
//! seen message identifiers that keeps a message from being delivered twice.
use vstd::prelude::*;

use crate::codec::{decode, encode, same_bytes};
use crate::message::GossipMessage;
use crate::wire::{is_wire_format, wire_format};

verus! {

/// A peer seen by discovery, with the set of addresses it was seen at.
pub struct PeerRecord {
    pub peer: Vec<u8>,
    pub addresses: Vec<String>,
}

/// One peer in the dissemination mesh of one topic.
pub struct MeshLink {
    pub topic: String,
    pub peer: Vec<u8>,
}

/// Why a publish was refused.
#[derive(Debug, Clone, Copy, PartialEq, Eq, Structural)]
pub enum PublishError {
    /// The node is not subscribed to the topic, so no mesh is wired for it.
    NotSubscribed,
}

/// A publish that was accepted: the encoded envelope, and the mesh peers to
/// send it to.
pub struct Outgoing {
    pub data: Vec<u8>,
    pub recipients: Vec<Vec<u8>>,
}

/// What became of an inbound message.
pub enum Received {
    /// The bytes are no envelope; the message is dropped.
    Malformed,
    /// The node is not subscribed to the message's topic; it is dropped.
    NotSubscribed,
    /// The identifier is in the recent-message cache; it is dropped.
    Duplicate(u64),
    /// First seen: hand the message to the subscriber, and relay the bytes to
    /// the other mesh peers of the topic.
    Deliver { message: GossipMessage, relay_to: Vec<Vec<u8>> },
}

/// The peers that a list of peer identifiers names.
pub open spec fn peer_set(r: Seq<Vec<u8>>) -> Set<Seq<u8>> {
    Set::new(|p: Seq<u8>| exists|k: int| 0 <= k < r.len() && #[trigger] r[k]@ == p)
}

/// Whether a list of peer identifiers names no peer twice.
pub open spec fn distinct_peers(r: Seq<Vec<u8>>) -> bool {
    forall|a: int, b: int| 0 <= a < b < r.len() ==> #[trigger] r[a]@ != #[trigger] r[b]@
}

/// Whether two mesh links put the same peer in the same topic's mesh.
pub open spec fn same_link(a: MeshLink, b: MeshLink) -> bool {
    a.topic@ == b.topic@ && a.peer@ == b.peer@
}

/// Whether some link of `links` is the same link as `l`.
pub open spec fn listed(links: Seq<MeshLink>, l: MeshLink) -> bool {
    exists|k: int| 0 <= k < links.len() && same_link(#[trigger] links[k], l)
}

/// The cache after `id` is recorded in it: appended, and the oldest entry
/// evicted when the cache is full.
pub open spec fn remember(seen: Seq<u64>, capacity: nat, id: u64) -> Seq<u64> {
    if seen.len() < capacity {
        seen.push(id)
    } else {
        seen.drop_first().push(id)
    }
}

/// Once a message is delivered its identifier is in the cache, which stays
/// within its bound; so the same identifier arriving again is dropped as a
/// duplicate instead of being delivered a second time.
pub proof fn lemma_delivered_once(seen: Seq<u64>, capacity: nat, id: u64)
    requires
        capacity > 0,
        seen.len() <= capacity,
    ensures
        remember(seen, capacity, id).contains(id),
        remember(seen, capacity, id).len() <= capacity,
{
    let r = remember(seen, capacity, id);
    assert(r[r.len() - 1] == id);
}

/// An identifier stays in the cache while fewer identifiers than the cache
/// holds are recorded after it: recording another keeps every entry but the
/// oldest, and keeps them all while the cache has room.
pub proof fn lemma_remember_keeps(seen: Seq<u64>, capacity: nat, id: u64, k: int)
    requires
        seen.len() <= capacity,
        0 < k < seen.len() || (seen.len() < capacity && 0 <= k < seen.len()),
    ensures
        remember(seen, capacity, id).contains(seen[k]),
{
    let r = remember(seen, capacity, id);
    if seen.len() < capacity {
        assert(r[k] == seen[k]);
    } else {
        assert(r[k - 1] == seen[k]);
    }
}

fn copy_bytes(v: &Vec<u8>) -> (r: Vec<u8>)
    ensures
        r@ == v@,
{
    let mut r: Vec<u8> = Vec::new();
    let mut i: usize = 0;
    while i < v.len()
        invariant
            i <= v@.len(),
            r@ == v@.take(i as int),
        decreases v@.len() - i,
    {
        r.push(v[i]);
        assert(v@.take(i + 1) =~= v@.take(i as int).push(v@[i as int]));
        i = i + 1;
    }
    assert(v@.take(i as int) =~= v@);
    r
}

/// What handling the bytes `data` from `source` on `topic` does: bytes that
/// are no envelope are dropped, so is a message on a topic the node is not
/// subscribed to, and one whose identifier is in the cache, all leaving the
/// state as it was. Any other message is delivered with the decoded
/// identifier and payload, relayed to the topic's mesh peers but the source,
/// and its identifier enters the cache.
pub open spec fn received_as(
    pre: Overlay,
    post: Overlay,
    topic: Seq<char>,
    source: Seq<u8>,
    data: Seq<u8>,
    r: Received,
) -> bool {
    &&& !is_wire_format(data) ==> r is Malformed && post == pre
    &&& is_wire_format(data) && !pre.subscribed(topic) ==> r is NotSubscribed && post == pre
    &&& forall|id: u64, p: Seq<u8>|
        data == #[trigger] wire_format(id, p) && pre.subscribed(topic) ==> {
            if pre.recent().contains(id) {
                r == Received::Duplicate(id) && post == pre
            } else {
                &&& r is Deliver
                &&& r->message.id == id
                &&& r->message.payload@ == p
                &&& peer_set(r->relay_to@) == pre.mesh_of(topic).remove(source)
                &&& distinct_peers(r->relay_to@)
                &&& post.recent() == remember(pre.recent(), pre.cache_capacity(), id)
                &&& post.same_membership(&pre)
            }
        }
}

/// What recording that discovery saw `peer` at `address` does: the peer is
/// known and has that address among its others, nothing else changes, and
/// `dial` tells whether no connection to the peer stands.
pub open spec fn discovered_as(
    pre: Overlay,
    post: Overlay,
    peer: Seq<u8>,
    address: Seq<char>,
    dial: bool,
) -> bool {
    &&& dial == !pre.connected(peer)
    &&& forall|q: Seq<u8>| #[trigger] post.known(q) == (pre.known(q) || q == peer)
    &&& forall|q: Seq<u8>, a: Seq<char>| #[trigger]
        post.has_address(q, a) == (pre.has_address(q, a) || (q == peer && a == address))
    &&& forall|t: Seq<char>| #[trigger] post.subscribed(t) == pre.subscribed(t)
    &&& forall|t: Seq<char>, p: Seq<u8>| #[trigger] post.in_mesh(t, p) == pre.in_mesh(t, p)
    &&& forall|q: Seq<u8>| #[trigger] post.connected(q) == pre.connected(q)
    &&& post.recent() == pre.recent()
    &&& post.cache_capacity() == pre.cache_capacity()
}

/// What a connection to `peer` does: the peer counts as connected and joins
/// the mesh of every subscribed topic, and nothing else changes.
pub open spec fn connected_as(pre: Overlay, post: Overlay, peer: Seq<u8>) -> bool {
    &&& forall|q: Seq<u8>| #[trigger] post.connected(q) == (pre.connected(q) || q == peer)
    &&& forall|t: Seq<char>, p: Seq<u8>| #[trigger]
        post.in_mesh(t, p) == (pre.in_mesh(t, p) || (p == peer && pre.subscribed(t)))
    &&& forall|t: Seq<char>| #[trigger] post.subscribed(t) == pre.subscribed(t)
    &&& forall|q: Seq<u8>| #[trigger] post.known(q) == pre.known(q)
    &&& forall|q: Seq<u8>, a: Seq<char>| #[trigger] post.has_address(q, a) == pre.has_address(q, a)
    &&& post.recent() == pre.recent()
    &&& post.cache_capacity() == pre.cache_capacity()
}

/// What the loss of the last connection to `peer` does: the peer no longer
/// counts as connected, so a later discovery dials it again, and it leaves
/// the mesh of every topic. Its discovery record stays.
pub open spec fn disconnected_as(pre: Overlay, post: Overlay, peer: Seq<u8>) -> bool {
    &&& forall|q: Seq<u8>| #[trigger] post.connected(q) == (pre.connected(q) && q != peer)
    &&& forall|t: Seq<char>, p: Seq<u8>| #[trigger]
        post.in_mesh(t, p) == (pre.in_mesh(t, p) && p != peer)
    &&& forall|t: Seq<char>| #[trigger] post.subscribed(t) == pre.subscribed(t)
    &&& forall|q: Seq<u8>| #[trigger] post.known(q) == pre.known(q)
    &&& forall|q: Seq<u8>, a: Seq<char>| #[trigger] post.has_address(q, a) == pre.has_address(q, a)
    &&& post.recent() == pre.recent()
    &&& post.cache_capacity() == pre.cache_capacity()
}

/// An event that the network side of the node reports to the overlay.
pub enum NetworkEvent {
    /// Discovery saw `peer` announce itself at `address`.
    Discovered { peer: Vec<u8>, address: String },
    /// A secure connection to `peer` was established.
    Connected { peer: Vec<u8> },
    /// The last connection to `peer` closed.
    Disconnected { peer: Vec<u8> },
    /// The bytes `data` arrived on `topic`, forwarded by `source`.
    Message { topic: String, source: Vec<u8>, data: Vec<u8> },
}

/// What the network side is to do after an event.
pub enum Action {
    /// Open a connection to this discovered peer, to which none stands.
    Dial(Vec<u8>),
    /// The outcome of an inbound message.
    Inbound(Received),
    /// Nothing.
    Idle,
}

pub struct Overlay {
    topics: Vec<String>,
    peers: Vec<PeerRecord>,
    mesh: Vec<MeshLink>,
    connected: Vec<Vec<u8>>,
    seen: Vec<u64>,
    capacity: usize,
}

impl Overlay {
    /// Whether the node is subscribed to topic `t`.
    pub closed spec fn subscribed(&self, t: Seq<char>) -> bool {
        exists|i: int| 0 <= i < self.topics@.len() && #[trigger] self.topics@[i]@ == t
    }

    /// Whether peer `p` is in the mesh of topic `t`.
    pub closed spec fn in_mesh(&self, t: Seq<char>, p: Seq<u8>) -> bool {
        exists|i: int|
            0 <= i < self.mesh@.len() && #[trigger] self.mesh@[i].topic@ == t && self.mesh@[i].peer@
                == p
    }

    /// The peers in the mesh of topic `t`.
    pub open spec fn mesh_of(&self, t: Seq<char>) -> Set<Seq<u8>> {
        Set::new(|p: Seq<u8>| self.in_mesh(t, p))
    }

    /// Whether a connection to peer `p` stands.
    pub closed spec fn connected(&self, p: Seq<u8>) -> bool {
        exists|i: int| 0 <= i < self.connected@.len() && #[trigger] self.connected@[i]@ == p
    }

    /// Subscriptions, mesh, peer records, connections and the cache's bound
    /// are those of `other`; only the cache's contents may differ.
    pub open spec fn same_membership(&self, other: &Overlay) -> bool {
        &&& forall|t: Seq<char>| #[trigger] self.subscribed(t) == other.subscribed(t)
        &&& forall|t: Seq<char>, p: Seq<u8>| #[trigger] self.in_mesh(t, p) == other.in_mesh(t, p)
        &&& forall|p: Seq<u8>| #[trigger] self.known(p) == other.known(p)
        &&& forall|p: Seq<u8>, a: Seq<char>| #[trigger]
            self.has_address(p, a) == other.has_address(p, a)
        &&& forall|p: Seq<u8>| #[trigger] self.connected(p) == other.connected(p)
        &&& self.cache_capacity() == other.cache_capacity()
    }

    /// Whether discovery has reported peer `p`.
    pub closed spec fn known(&self, p: Seq<u8>) -> bool {
        exists|i: int| 0 <= i < self.peers@.len() && #[trigger] self.peers@[i].peer@ == p
    }

    /// Whether discovery has reported peer `p` at address `a`.
    pub closed spec fn has_address(&self, p: Seq<u8>, a: Seq<char>) -> bool {
        exists|i: int, j: int|
            0 <= i < self.peers@.len() && 0 <= j < self.peers@[i].addresses@.len()
                && #[trigger] self.peers@[i].peer@ == p && #[trigger] self.peers@[i].addresses@[j]@
                == a
    }

    /// The recent-message cache, oldest identifier first.
    pub closed spec fn recent(&self) -> Seq<u64> {
        self.seen@
    }

    /// How many identifiers the cache holds at most.
    pub closed spec fn cache_capacity(&self) -> nat {
        self.capacity as nat
    }

    /// The cache holds at least one identifier and stays within its bound,
    /// each peer has one record, each record lists each address once, no
    /// mesh link is repeated, and no connection is listed twice.
    pub closed spec fn wf(&self) -> bool {
        &&& 0 < self.capacity
        &&& self.seen@.len() <= self.capacity
        &&& forall|i: int, j: int|
            0 <= i < j < self.mesh@.len() ==> !same_link(
                #[trigger] self.mesh@[i],
                #[trigger] self.mesh@[j],
            )
        &&& distinct_peers(self.connected@)
        &&& forall|i: int, j: int|
            0 <= i < j < self.peers@.len() ==> #[trigger] self.peers@[i].peer@
                != #[trigger] self.peers@[j].peer@
        &&& forall|i: int, j: int, k: int|
            0 <= i < self.peers@.len() && 0 <= j < k < self.peers@[i].addresses@.len()
                ==> #[trigger] self.peers@[i].addresses@[j]@
                != #[trigger] self.peers@[i].addresses@[k]@
    }

    /// A node with no subscription, no peer and an empty cache that holds
    /// at most `capacity` identifiers.
    pub fn new(capacity: usize) -> (r: Overlay)
        requires
            capacity > 0,
        ensures
            r.wf(),
            forall|p: Seq<u8>| !r.connected(p),
            r.cache_capacity() == capacity,
            r.recent() == Seq::<u64>::empty(),
            forall|t: Seq<char>| !r.subscribed(t),
            forall|t: Seq<char>, p: Seq<u8>| !r.in_mesh(t, p),
            forall|p: Seq<u8>| !r.known(p),
            forall|p: Seq<u8>, a: Seq<char>| !r.has_address(p, a),
    {
        Overlay {
            topics: Vec::new(),
            peers: Vec::new(),
            mesh: Vec::new(),
            connected: Vec::new(),
            seen: Vec::new(),
            capacity,
        }
    }

    /// Whether `id` is in the recent-message cache.
    pub fn has_seen(&self, id: u64) -> (r: bool)
        ensures
            r == self.recent().contains(id),
    {
        let mut i: usize = 0;
        while i < self.seen.len()
            invariant
                i <= self.seen@.len(),
                forall|j: int| 0 <= j < i ==> self.seen@[j] != id,
            decreases self.seen@.len() - i,
        {
            if self.seen[i] == id {
                return true;
            }
            i = i + 1;
        }
        false
    }

    /// Records `id` in the recent-message cache, evicting the oldest entry
    /// when the cache is full.
    fn remember_id(&mut self, id: u64)
        requires
            old(self).wf(),
        ensures
            final(self).wf(),
            final(self).recent() == remember(old(self).recent(), old(self).cache_capacity(), id),
            final(self).topics == old(self).topics,
            final(self).peers == old(self).peers,
            final(self).mesh == old(self).mesh,
            final(self).connected == old(self).connected,
            final(self).capacity == old(self).capacity,
    {
        if self.seen.len() >= self.capacity {
            self.seen.remove(0);
        }
        self.seen.push(id);
        assert(self.seen@ =~= remember(old(self).recent(), old(self).cache_capacity(), id));
    }

    /// Whether a connection to `peer` stands.
    pub fn is_connected(&self, peer: &Vec<u8>) -> (r: bool)
        ensures
            r == self.connected(peer@),
    {
        let mut i: usize = 0;
        while i < self.connected.len()
            invariant
                i <= self.connected@.len(),
                forall|j: int| 0 <= j < i ==> self.connected@[j]@ != peer@,
            decreases self.connected@.len() - i,
        {
            if same_bytes(self.connected[i].as_slice(), peer.as_slice()) {
                return true;
            }
            i = i + 1;
        }
        false
    }

    /// Whether `peer` is in the mesh of `topic`.
    pub fn has_link(&self, topic: &String, peer: &Vec<u8>) -> (r: bool)
        ensures
            r == self.in_mesh(topic@, peer@),
    {
        let mut i: usize = 0;
        while i < self.mesh.len()
            invariant
                i <= self.mesh@.len(),
                forall|j: int|
                    0 <= j < i ==> !(#[trigger] self.mesh@[j].topic@ == topic@ && self.mesh@[j].peer@
                        == peer@),
            decreases self.mesh@.len() - i,
        {
            if self.mesh[i].topic == *topic && same_bytes(
                self.mesh[i].peer.as_slice(),
                peer.as_slice(),
            ) {
                return true;
            }
            i = i + 1;
        }
        false
    }

    /// Whether the node is subscribed to `topic`.
    pub fn is_subscribed(&self, topic: &String) -> (r: bool)
        ensures
            r == self.subscribed(topic@),
    {
        let mut i: usize = 0;
        while i < self.topics.len()
            invariant
                i <= self.topics@.len(),
                forall|j: int| 0 <= j < i ==> self.topics@[j]@ != topic@,
            decreases self.topics@.len() - i,
        {
            if self.topics[i] == *topic {
                return true;
            }
            i = i + 1;
        }
        false
    }

    /// Adds `topic` to the subscriptions; false where it was there already.
    pub fn subscribe(&mut self, topic: String) -> (r: bool)
        requires
            old(self).wf(),
        ensures
            final(self).wf(),
            r == !old(self).subscribed(topic@),
            forall|t: Seq<char>| #[trigger]
                final(self).subscribed(t) == (old(self).subscribed(t) || t == topic@),
            forall|t: Seq<char>, p: Seq<u8>| #[trigger]
                final(self).in_mesh(t, p) == old(self).in_mesh(t, p),
            forall|p: Seq<u8>| #[trigger] final(self).known(p) == old(self).known(p),
            forall|p: Seq<u8>, a: Seq<char>| #[trigger]
                final(self).has_address(p, a) == old(self).has_address(p, a),
            forall|p: Seq<u8>| #[trigger] final(self).connected(p) == old(self).connected(p),
            final(self).recent() == old(self).recent(),
            final(self).cache_capacity() == old(self).cache_capacity(),
    {
        if self.is_subscribed(&topic) {
            return false;
        }
        let ghost t0 = topic@;
        self.topics.push(topic);
        assert(self.mesh == old(self).mesh);
        assert(self.peers == old(self).peers);
        assert forall|t: Seq<char>| #[trigger]
            self.subscribed(t) == (old(self).subscribed(t) || t == t0) by {
            if old(self).subscribed(t) {
                let i = choose|i: int|
                    0 <= i < old(self).topics@.len() && #[trigger] old(self).topics@[i]@ == t;
                assert(self.topics@[i]@ == t);
            }
            if t == t0 {
                assert(self.topics@[self.topics@.len() - 1]@ == t);
            }
            if self.subscribed(t) {
                let i = choose|i: int| 0 <= i < self.topics@.len() && #[trigger] self.topics@[i]@ == t;
                if i < old(self).topics@.len() {
                    assert(old(self).topics@[i]@ == t);
                }
            }
        }
        true
    }

    /// Whether one of the first `n` mesh links puts `p` in the mesh of `t`.
    closed spec fn linked_before(&self, t: Seq<char>, n: int, p: Seq<u8>) -> bool {
        exists|j: int| 0 <= j < n && #[trigger] self.mesh@[j].topic@ == t && self.mesh@[j].peer@ == p
    }

    /// The mesh peers of `topic`, leaving out `skip` where one is given.
    fn mesh_peers(&self, topic: &String, skip: Option<&Vec<u8>>) -> (r: Vec<Vec<u8>>)
        requires
            self.wf(),
        ensures
            distinct_peers(r@),
            peer_set(r@) == match skip {
                Some(s) => self.mesh_of(topic@).remove(s@),
                None => self.mesh_of(topic@),
            },
    {
        let mut r: Vec<Vec<u8>> = Vec::new();
        let mut i: usize = 0;
        let ghost wanted = |p: Seq<u8>|
            match skip {
                Some(s) => p != s@,
                None => true,
            };
        while i < self.mesh.len()
            invariant
                i <= self.mesh@.len(),
                self.wf(),
                distinct_peers(r@),
                wanted == (|p: Seq<u8>|
                    match skip {
                        Some(s) => p != s@,
                        None => true,
                    }),
                forall|k: int|
                    0 <= k < r@.len() ==> self.linked_before(topic@, i as int, #[trigger] r@[k]@)
                        && wanted(r@[k]@),
                forall|j: int|
                    0 <= j < i && #[trigger] self.mesh@[j].topic@ == topic@ && wanted(
                        self.mesh@[j].peer@,
                    ) ==> peer_set(r@).contains(self.mesh@[j].peer@),
            decreases self.mesh@.len() - i,
        {
            let link = &self.mesh[i];
            let keep = match skip {
                Some(s) => !same_bytes(link.peer.as_slice(), s.as_slice()),
                None => true,
            };
            if link.topic == *topic && keep {
                let ghost old_r = r@;
                r.push(copy_bytes(&link.peer));
                assert forall|a: int, b: int| 0 <= a < b < r@.len() implies #[trigger] r@[a]@
                    != #[trigger] r@[b]@ by {
                    assert(r@[a] == old_r[a]);
                    if b < old_r.len() {
                        assert(r@[b] == old_r[b]);
                    } else if r@[a]@ == r@[b]@ {
                        assert(self.linked_before(topic@, i as int, old_r[a]@));
                        let j = choose|j: int|
                            0 <= j < i && #[trigger] self.mesh@[j].topic@ == topic@
                                && self.mesh@[j].peer@ == old_r[a]@;
                        assert(same_link(self.mesh@[j], self.mesh@[i as int]));
                    }
                }
                assert forall|k: int| 0 <= k < r@.len() implies self.linked_before(
                    topic@,
                    i + 1,
                    #[trigger] r@[k]@,
                ) && wanted(r@[k]@) by {
                    if k < old_r.len() {
                        assert(r@[k] == old_r[k]);
                        assert(self.linked_before(topic@, i as int, old_r[k]@));
                        let j = choose|j: int|
                            0 <= j < i && #[trigger] self.mesh@[j].topic@ == topic@
                                && self.mesh@[j].peer@ == old_r[k]@;
                    } else {
                        assert(self.mesh@[i as int].topic@ == topic@);
                    }
                }
                assert forall|j: int|
                    0 <= j < i + 1 && #[trigger] self.mesh@[j].topic@ == topic@ && wanted(
                        self.mesh@[j].peer@,
                    ) implies peer_set(r@).contains(self.mesh@[j].peer@) by {
                    if j < i {
                        assert(peer_set(old_r).contains(self.mesh@[j].peer@));
                        let k = choose|k: int|
                            0 <= k < old_r.len() && #[trigger] old_r[k]@ == self.mesh@[j].peer@;
                        assert(r@[k] == old_r[k]);
                    } else {
                        assert(r@[r@.len() - 1]@ == self.mesh@[j].peer@);
                    }
                }
            }
            i = i + 1;
        }
        let ghost target = match skip {
            Some(s) => self.mesh_of(topic@).remove(s@),
            None => self.mesh_of(topic@),
        };
        assert forall|p: Seq<u8>| peer_set(r@).contains(p) <==> target.contains(p) by {
            if peer_set(r@).contains(p) {
                let k = choose|k: int| 0 <= k < r@.len() && #[trigger] r@[k]@ == p;
                assert(self.linked_before(topic@, i as int, r@[k]@));
                let j = choose|j: int|
                    0 <= j < i && #[trigger] self.mesh@[j].topic@ == topic@ && self.mesh@[j].peer@
                        == r@[k]@;
                assert(self.in_mesh(topic@, p));
            }
            if target.contains(p) {
                assert(self.in_mesh(topic@, p));
                let j = choose|j: int|
                    0 <= j < self.mesh@.len() && #[trigger] self.mesh@[j].topic@ == topic@
                        && self.mesh@[j].peer@ == p;
                assert(wanted(p));
            }
        }
        assert(peer_set(r@) =~= target);
        r
    }

    /// Broadcasts `msg` on `topic`: its encoding goes to every peer in the
    /// topic's mesh at this moment, none of them when the mesh is empty, and
    /// its identifier enters the cache so that echoes are not delivered here.
    /// Refused where the node is not subscribed to `topic`.
    pub fn publish(&mut self, topic: &String, msg: &GossipMessage) -> (r: Result<
        Outgoing,
        PublishError,
    >)
        requires
            old(self).wf(),
        ensures
            final(self).wf(),
            r is Err <==> !old(self).subscribed(topic@),
            r is Err ==> *final(self) == *old(self),
            r is Ok ==> {
                &&& r->Ok_0.data@ == wire_format(msg.id, msg.payload@)
                &&& peer_set(r->Ok_0.recipients@) == old(self).mesh_of(topic@)
                &&& distinct_peers(r->Ok_0.recipients@)
                &&& final(self).recent() == remember(
                    old(self).recent(),
                    old(self).cache_capacity(),
                    msg.id,
                )
                &&& final(self).same_membership(old(self))
            },
    {
        if !self.is_subscribed(topic) {
            return Err(PublishError::NotSubscribed);
        }
        let recipients = self.mesh_peers(topic, None);
        let data = encode(msg);
        self.remember_id(msg.id);
        Ok(Outgoing { data, recipients })
    }

    /// Handles the bytes `data` that arrived on `topic` from `source`: bytes
    /// that are no envelope are dropped, so is a message on a topic the node
    /// is not subscribed to, and one whose identifier is in the cache. Any
    /// other message is delivered, relayed to the topic's other mesh peers,
    /// and its identifier enters the cache.
    pub fn on_message_received(&mut self, topic: &String, source: &Vec<u8>, data: &[u8]) -> (r:
        Received)
        requires
            old(self).wf(),
        ensures
            final(self).wf(),
            received_as(*old(self), *final(self), topic@, source@, data@, r),
    {
        let message = match decode(data) {
            Ok(m) => m,
            Err(_) => {
                return Received::Malformed;
            },
        };
        if !self.is_subscribed(topic) {
            return Received::NotSubscribed;
        }
        if self.has_seen(message.id) {
            return Received::Duplicate(message.id);
        }
        let relay_to = self.mesh_peers(topic, Some(source));
        self.remember_id(message.id);
        Received::Deliver { message, relay_to }
    }

    /// Records that discovery saw `peer` at `address`. True where no
    /// connection to the peer stands, so that one should be opened.
    pub fn on_peer_discovered(&mut self, peer: Vec<u8>, address: String) -> (r: bool)
        requires
            old(self).wf(),
        ensures
            final(self).wf(),
            discovered_as(*old(self), *final(self), peer@, address@, r),
    {
        let dial = !self.is_connected(&peer);
        let mut i: usize = 0;
        while i < self.peers.len() && !same_bytes(self.peers[i].peer.as_slice(), peer.as_slice())
            invariant
                i <= self.peers@.len(),
                forall|j: int| 0 <= j < i ==> self.peers@[j].peer@ != peer@,
            decreases self.peers@.len() - i,
        {
            i = i + 1;
        }
        if i == self.peers.len() {
            let ghost pv = peer@;
            let ghost av = address@;
            let mut addresses: Vec<String> = Vec::new();
            addresses.push(address);
            self.peers.push(PeerRecord { peer, addresses });
            let ghost n = old(self).peers@.len() as int;
            assert(self.peers@[n].peer@ == pv);
            assert(self.peers@[n].addresses@[0]@ == av);
            assert forall|q: Seq<u8>| #[trigger]
                self.known(q) == (old(self).known(q) || q == pv) by {
                if old(self).known(q) {
                    let j = choose|j: int|
                        0 <= j < old(self).peers@.len() && #[trigger] old(self).peers@[j].peer@ == q;
                    assert(self.peers@[j].peer@ == q);
                }
            }
            assert forall|q: Seq<u8>, a: Seq<char>| #[trigger]
                self.has_address(q, a) == (old(self).has_address(q, a) || (q == pv && a == av)) by {
                if old(self).has_address(q, a) {
                    let (j, k) = choose|j: int, k: int|
                        0 <= j < old(self).peers@.len() && 0 <= k
                            < old(self).peers@[j].addresses@.len()
                            && #[trigger] old(self).peers@[j].peer@ == q
                            && #[trigger] old(self).peers@[j].addresses@[k]@ == a;
                    assert(self.peers@[j] == old(self).peers@[j]);
                }
                if self.has_address(q, a) {
                    let (j, k) = choose|j: int, k: int|
                        0 <= j < self.peers@.len() && 0 <= k < self.peers@[j].addresses@.len()
                            && #[trigger] self.peers@[j].peer@ == q
                            && #[trigger] self.peers@[j].addresses@[k]@ == a;
                    if j < n {
                        assert(self.peers@[j] == old(self).peers@[j]);
                    }
                }
            }
            assert(self.mesh == old(self).mesh);
            assert(self.topics == old(self).topics);
            assert(self.connected == old(self).connected);
            dial
        } else {
            let ghost pv = peer@;
            let ghost av = address@;
            let ghost ii = i as int;
            let mut rec = self.peers.remove(i);
            let mut j: usize = 0;
            while j < rec.addresses.len() && !(rec.addresses[j] == address)
                invariant
                    j <= rec.addresses@.len(),
                    av == address@,
                    forall|k: int| 0 <= k < j ==> rec.addresses@[k]@ != av,
                decreases rec.addresses@.len() - j,
            {
                j = j + 1;
            }
            let ghost old_rec = rec;
            if j == rec.addresses.len() {
                rec.addresses.push(address);
            }
            self.peers.insert(i, rec);
            assert(self.peers@ =~= old(self).peers@.update(ii, rec));
            assert(rec.peer@ == pv);
            assert forall|q: Seq<u8>| #[trigger]
                self.known(q) == (old(self).known(q) || q == pv) by {
                if old(self).known(q) {
                    let k = choose|k: int|
                        0 <= k < old(self).peers@.len() && #[trigger] old(self).peers@[k].peer@ == q;
                    assert(self.peers@[k].peer@ == q);
                }
                if self.known(q) {
                    let k = choose|k: int| 0 <= k < self.peers@.len() && #[trigger] self.peers@[k].peer@ == q;
                    assert(old(self).peers@[k].peer@ == q);
                }
            }
            assert forall|q: Seq<u8>, a: Seq<char>| #[trigger]
                self.has_address(q, a) == (old(self).has_address(q, a) || (q == pv && a == av)) by {
                if old(self).has_address(q, a) {
                    let (x, k) = choose|x: int, k: int|
                        0 <= x < old(self).peers@.len() && 0 <= k
                            < old(self).peers@[x].addresses@.len()
                            && #[trigger] old(self).peers@[x].peer@ == q
                            && #[trigger] old(self).peers@[x].addresses@[k]@ == a;
                    if x == ii {
                        assert(self.peers@[x].addresses@[k] == old(self).peers@[x].addresses@[k]);
                    } else {
                        assert(self.peers@[x] == old(self).peers@[x]);
                    }
                }
                if q == pv && a == av {
                    if j < old_rec.addresses@.len() {
                        assert(self.peers@[ii].addresses@[j as int]@ == a);
                    } else {
                        assert(self.peers@[ii].addresses@[j as int]@ == a);
                    }
                }
                if self.has_address(q, a) {
                    let (x, k) = choose|x: int, k: int|
                        0 <= x < self.peers@.len() && 0 <= k < self.peers@[x].addresses@.len()
                            && #[trigger] self.peers@[x].peer@ == q
                            && #[trigger] self.peers@[x].addresses@[k]@ == a;
                    if x == ii {
                        if k < old_rec.addresses@.len() {
                            assert(old(self).peers@[x].addresses@[k]@ == a);
                        }
                    } else {
                        assert(self.peers@[x] == old(self).peers@[x]);
                    }
                }
            }
            assert(self.mesh == old(self).mesh);
            assert(self.topics == old(self).topics);
            assert(self.connected == old(self).connected);
            dial
        }
    }

    /// Puts `peer`, once a connection to it stands, in the mesh of every
    /// topic the node is subscribed to.
    pub fn on_peer_connected(&mut self, peer: &Vec<u8>)
        requires
            old(self).wf(),
        ensures
            final(self).wf(),
            connected_as(*old(self), *final(self), peer@),
    {
        if !self.is_connected(peer) {
            let ghost before = self.connected@;
            self.connected.push(copy_bytes(peer));
            assert forall|q: Seq<u8>| #[trigger]
                self.connected(q) == (old(self).connected(q) || q == peer@) by {
                if old(self).connected(q) {
                    let k = choose|k: int| 0 <= k < before.len() && #[trigger] before[k]@ == q;
                    assert(self.connected@[k] == before[k]);
                }
                if self.connected(q) {
                    let k = choose|k: int|
                        0 <= k < self.connected@.len() && #[trigger] self.connected@[k]@ == q;
                    if k < before.len() {
                        assert(self.connected@[k] == before[k]);
                    }
                }
                if q == peer@ {
                    assert(self.connected@[before.len() as int]@ == q);
                }
            }
            assert forall|a: int, b: int|
                0 <= a < b < self.connected@.len() implies #[trigger] self.connected@[a]@
                != #[trigger] self.connected@[b]@ by {
                if b == before.len() {
                    assert(self.connected@[a] == before[a]);
                } else {
                    assert(self.connected@[a] == before[a]);
                    assert(self.connected@[b] == before[b]);
                }
            }
        }
        assert(self.mesh == old(self).mesh);
        assert(self.topics == old(self).topics);
        let ghost conn = self.connected;
        let mut i: usize = 0;
        while i < self.topics.len()
            invariant
                i <= self.topics@.len(),
                self.wf(),
                self.topics == old(self).topics,
                self.peers == old(self).peers,
                self.seen == old(self).seen,
                self.capacity == old(self).capacity,
                self.connected == conn,
                forall|q: Seq<u8>| #[trigger]
                    self.connected(q) == (old(self).connected(q) || q == peer@),
                forall|t: Seq<char>, p: Seq<u8>| #[trigger]
                    self.in_mesh(t, p) == (old(self).in_mesh(t, p) || (p == peer@ && exists|j: int|
                        0 <= j < i && #[trigger] self.topics@[j]@ == t)),
            decreases self.topics@.len() - i,
        {
            let ghost tv = self.topics@[i as int]@;
            let ghost before = *self;
            if self.has_link(&self.topics[i], peer) {
                i = i + 1;
                continue;
            }
            let link = MeshLink { topic: self.topics[i].clone(), peer: copy_bytes(peer) };
            self.mesh.push(link);
            assert(self.topics == before.topics);
            assert(self.connected == before.connected);
            assert forall|q: Seq<u8>| #[trigger] self.connected(q) == before.connected(q) by {}
            assert forall|a: int, b: int| 0 <= a < b < self.mesh@.len() implies !same_link(
                #[trigger] self.mesh@[a],
                #[trigger] self.mesh@[b],
            ) by {
                assert(self.mesh@[a] == before.mesh@[a]);
                if b < before.mesh@.len() {
                    assert(self.mesh@[b] == before.mesh@[b]);
                } else if same_link(self.mesh@[a], self.mesh@[b]) {
                    assert(before.in_mesh(tv, peer@));
                }
            }
            let ghost n = before.mesh@.len() as int;
            assert(self.mesh@[n].topic@ == tv);
            assert forall|t: Seq<char>, p: Seq<u8>| #[trigger]
                self.in_mesh(t, p) == (old(self).in_mesh(t, p) || (p == peer@ && exists|j: int|
                    0 <= j < i + 1 && #[trigger] self.topics@[j]@ == t)) by {
                if before.in_mesh(t, p) {
                    let k = choose|k: int|
                        0 <= k < before.mesh@.len() && #[trigger] before.mesh@[k].topic@ == t
                            && before.mesh@[k].peer@ == p;
                    assert(self.mesh@[k] == before.mesh@[k]);
                }
                if self.in_mesh(t, p) {
                    let k = choose|k: int|
                        0 <= k < self.mesh@.len() && #[trigger] self.mesh@[k].topic@ == t
                            && self.mesh@[k].peer@ == p;
                    if k < n {
                        assert(before.mesh@[k] == self.mesh@[k]);
                        assert(before.in_mesh(t, p));
                        if !old(self).in_mesh(t, p) {
                            let j = choose|j: int| 0 <= j < i && #[trigger] self.topics@[j]@ == t;
                            assert(0 <= j < i + 1 && self.topics@[j]@ == t);
                        }
                    } else {
                        assert(self.topics@[i as int]@ == t);
                    }
                }
                if p == peer@ && exists|j: int| 0 <= j < i + 1 && #[trigger] self.topics@[j]@ == t {
                    let j = choose|j: int| 0 <= j < i + 1 && #[trigger] self.topics@[j]@ == t;
                    if j == i {
                        assert(self.mesh@[n].peer@ == p);
                    } else {
                        assert(0 <= j < i && before.topics@[j]@ == t);
                        assert(before.in_mesh(t, p));
                        let k = choose|k: int|
                            0 <= k < before.mesh@.len() && #[trigger] before.mesh@[k].topic@ == t
                                && before.mesh@[k].peer@ == p;
                        assert(self.mesh@[k] == before.mesh@[k]);
                    }
                }
            }
            i = i + 1;
        }
        assert forall|t: Seq<char>| (exists|j: int| 0 <= j < i && #[trigger] self.topics@[j]@ == t)
            == old(self).subscribed(t) by {
        }
    }

    /// Whether one of the first `n` mesh links, not one of `peer`, is the
    /// same link as `l`.
    closed spec fn kept_from(&self, n: int, l: MeshLink, peer: Seq<u8>) -> bool {
        exists|j: int|
            0 <= j < n && same_link(l, #[trigger] self.mesh@[j]) && self.mesh@[j].peer@ != peer
    }

    /// Takes `peer` out of the mesh of every topic.
    fn drop_peer_links(&mut self, peer: &Vec<u8>)
        requires
            old(self).wf(),
        ensures
            final(self).wf(),
            final(self).topics == old(self).topics,
            final(self).peers == old(self).peers,
            final(self).connected == old(self).connected,
            final(self).seen == old(self).seen,
            final(self).capacity == old(self).capacity,
            forall|t: Seq<char>, p: Seq<u8>| #[trigger]
                final(self).in_mesh(t, p) == (old(self).in_mesh(t, p) && p != peer@),
    {
        let mut kept: Vec<MeshLink> = Vec::new();
        let mut i: usize = 0;
        while i < self.mesh.len()
            invariant
                i <= self.mesh@.len(),
                self.wf(),
                forall|k: int| 0 <= k < kept@.len() ==> self.kept_from(i as int, #[trigger] kept@[k], peer@),
                forall|j: int|
                    0 <= j < i && self.mesh@[j].peer@ != peer@ ==> listed(kept@, #[trigger] self.mesh@[j]),
                forall|a: int, b: int|
                    0 <= a < b < kept@.len() ==> !same_link(#[trigger] kept@[a], #[trigger] kept@[b]),
            decreases self.mesh@.len() - i,
        {
            let ghost old_kept = kept@;
            let ghost ii = i as int;
            if !same_bytes(self.mesh[i].peer.as_slice(), peer.as_slice()) {
                let link = MeshLink { topic: self.mesh[i].topic.clone(), peer: copy_bytes(&self.mesh[i].peer) };
                kept.push(link);
                let ghost n = old_kept.len() as int;
                assert(same_link(kept@[n], self.mesh@[ii]));
                assert forall|k: int| 0 <= k < kept@.len() implies self.kept_from(
                    ii + 1,
                    #[trigger] kept@[k],
                    peer@,
                ) by {
                    if k < n {
                        assert(kept@[k] == old_kept[k]);
                        assert(self.kept_from(ii, old_kept[k], peer@));
                        let j = choose|j: int|
                            0 <= j < ii && same_link(old_kept[k], #[trigger] self.mesh@[j])
                                && self.mesh@[j].peer@ != peer@;
                        assert(same_link(kept@[k], self.mesh@[j]));
                    } else {
                        assert(same_link(kept@[k], self.mesh@[ii]));
                    }
                }
                assert forall|j: int|
                    0 <= j < ii + 1 && self.mesh@[j].peer@ != peer@ implies listed(
                    kept@,
                    #[trigger] self.mesh@[j],
                ) by {
                    if j < ii {
                        assert(listed(old_kept, self.mesh@[j]));
                        let k = choose|k: int|
                            0 <= k < old_kept.len() && same_link(#[trigger] old_kept[k], self.mesh@[j]);
                        assert(kept@[k] == old_kept[k]);
                        assert(same_link(kept@[k], self.mesh@[j]));
                    } else {
                        assert(same_link(kept@[n], self.mesh@[j]));
                    }
                }
                assert forall|a: int, b: int|
                    0 <= a < b < kept@.len() implies !same_link(#[trigger] kept@[a], #[trigger] kept@[b]) by {
                    assert(kept@[a] == old_kept[a]);
                    if b < n {
                        assert(kept@[b] == old_kept[b]);
                    } else {
                        assert(self.kept_from(ii, old_kept[a], peer@));
                        let j = choose|j: int|
                            0 <= j < ii && same_link(old_kept[a], #[trigger] self.mesh@[j])
                                && self.mesh@[j].peer@ != peer@;
                        assert(!same_link(self.mesh@[j], self.mesh@[ii]));
                    }
                }
            } else {
                assert forall|k: int| 0 <= k < kept@.len() implies self.kept_from(
                    ii + 1,
                    #[trigger] kept@[k],
                    peer@,
                ) by {
                    assert(self.kept_from(ii, kept@[k], peer@));
                    let j = choose|j: int|
                        0 <= j < ii && same_link(kept@[k], #[trigger] self.mesh@[j])
                            && self.mesh@[j].peer@ != peer@;
                    assert(0 <= j < ii + 1);
                }
            }
            i = i + 1;
        }
        let ghost before = *self;
        self.mesh = kept;
        assert forall|t: Seq<char>, p: Seq<u8>| #[trigger]
            self.in_mesh(t, p) == (before.in_mesh(t, p) && p != peer@) by {
            if self.in_mesh(t, p) {
                let k = choose|k: int|
                    0 <= k < self.mesh@.len() && #[trigger] self.mesh@[k].topic@ == t
                        && self.mesh@[k].peer@ == p;
                assert(before.kept_from(i as int, self.mesh@[k], peer@));
                let j = choose|j: int|
                    0 <= j < i && same_link(self.mesh@[k], #[trigger] before.mesh@[j])
                        && before.mesh@[j].peer@ != peer@;
                assert(before.mesh@[j].topic@ == t);
            }
            if before.in_mesh(t, p) && p != peer@ {
                let j = choose|j: int|
                    0 <= j < before.mesh@.len() && #[trigger] before.mesh@[j].topic@ == t
                        && before.mesh@[j].peer@ == p;
                assert(listed(self.mesh@, before.mesh@[j]));
                let k = choose|k: int|
                    0 <= k < self.mesh@.len() && same_link(#[trigger] self.mesh@[k], before.mesh@[j]);
                assert(self.mesh@[k].topic@ == t);
            }
        }
    }

    /// Records that no connection to `peer` stands any more; the peer leaves
    /// the mesh of every topic.
    pub fn on_peer_disconnected(&mut self, peer: &Vec<u8>)
        requires
            old(self).wf(),
        ensures
            final(self).wf(),
            disconnected_as(*old(self), *final(self), peer@),
    {
        let mut i: usize = 0;
        while i < self.connected.len() && !same_bytes(self.connected[i].as_slice(), peer.as_slice())
            invariant
                i <= self.connected@.len(),
                forall|j: int| 0 <= j < i ==> self.connected@[j]@ != peer@,
            decreases self.connected@.len() - i,
        {
            i = i + 1;
        }
        if i < self.connected.len() {
            let ghost before = self.connected@;
            let ghost ii = i as int;
            self.connected.remove(i);
            assert forall|a: int, b: int|
                0 <= a < b < self.connected@.len() implies #[trigger] self.connected@[a]@
                != #[trigger] self.connected@[b]@ by {
                let a0 = if a < ii { a } else { a + 1 };
                let b0 = if b < ii { b } else { b + 1 };
                assert(self.connected@[a] == before[a0]);
                assert(self.connected@[b] == before[b0]);
            }
            assert forall|q: Seq<u8>| #[trigger]
                self.connected(q) == (old(self).connected(q) && q != peer@) by {
                if self.connected(q) {
                    let k = choose|k: int|
                        0 <= k < self.connected@.len() && #[trigger] self.connected@[k]@ == q;
                    let k0 = if k < ii { k } else { k + 1 };
                    assert(self.connected@[k] == before[k0]);
                    if q == peer@ {
                        if k0 < ii {
                            assert(before[k0]@ != before[ii]@);
                        } else {
                            assert(before[ii]@ != before[k0]@);
                        }
                    }
                }
                if old(self).connected(q) && q != peer@ {
                    let k = choose|k: int| 0 <= k < before.len() && #[trigger] before[k]@ == q;
                    if k < ii {
                        assert(self.connected@[k] == before[k]);
                    } else {
                        assert(k != ii);
                        assert(self.connected@[k - 1] == before[k]);
                    }
                }
            }
        }
        assert(self.mesh == old(self).mesh);
        assert(self.topics == old(self).topics);
        assert(self.peers == old(self).peers);
        let ghost mid = *self;
        assert forall|t: Seq<char>, p: Seq<u8>| #[trigger] mid.in_mesh(t, p) == old(self).in_mesh(t, p) by {}
        self.drop_peer_links(peer);
        assert forall|q: Seq<u8>| #[trigger] self.connected(q) == mid.connected(q) by {}
        assert forall|t: Seq<char>| #[trigger] self.subscribed(t) == mid.subscribed(t) by {}
        assert forall|q: Seq<u8>| #[trigger] self.known(q) == mid.known(q) by {}
        assert forall|q: Seq<u8>, a: Seq<char>| #[trigger]
            self.has_address(q, a) == mid.has_address(q, a) by {}
    }

    /// Takes one event of the event loop and says what to do about it.
    pub fn handle(&mut self, event: NetworkEvent) -> (r: Action)
        requires
            old(self).wf(),
        ensures
            final(self).wf(),
            match event {
                NetworkEvent::Discovered { peer, address } => {
                    &&& discovered_as(*old(self), *final(self), peer@, address@, r is Dial)
                    &&& r is Dial || r is Idle
                    &&& r is Dial ==> r->Dial_0@ == peer@
                },
                NetworkEvent::Connected { peer } => {
                    &&& connected_as(*old(self), *final(self), peer@)
                    &&& r is Idle
                },
                NetworkEvent::Disconnected { peer } => {
                    &&& disconnected_as(*old(self), *final(self), peer@)
                    &&& r is Idle
                },
                NetworkEvent::Message { topic, source, data } => {
                    &&& r is Inbound
                    &&& received_as(*old(self), *final(self), topic@, source@, data@, r->Inbound_0)
                },
            },
    {
        match event {
            NetworkEvent::Discovered { peer, address } => {
                let target = copy_bytes(&peer);
                if self.on_peer_discovered(peer, address) {
                    Action::Dial(target)
                } else {
                    Action::Idle
                }
            },
            NetworkEvent::Connected { peer } => {
                self.on_peer_connected(&peer);
                Action::Idle
            },
            NetworkEvent::Disconnected { peer } => {
                self.on_peer_disconnected(&peer);
                Action::Idle
            },
            NetworkEvent::Message { topic, source, data } => {
                Action::Inbound(self.on_message_received(&topic, &source, data.as_slice()))
            },
        }
    }
}

/// A message that arrives twice at a subscribed node is delivered at most
/// once: after the first receipt its identifier is in the cache, so the
/// second receipt, over whatever path, is dropped as a duplicate.
pub proof fn lemma_second_copy_not_delivered(
    pre: Overlay,
    mid: Overlay,
    post: Overlay,
    topic: Seq<char>,
    first_source: Seq<u8>,
    second_source: Seq<u8>,
    id: u64,
    payload: Seq<u8>,
    first: Received,
    second: Received,
)
    requires
        pre.wf(),
        pre.subscribed(topic),
        received_as(pre, mid, topic, first_source, wire_format(id, payload), first),
        received_as(mid, post, topic, second_source, wire_format(id, payload), second),
    ensures
        second == Received::Duplicate(id),
{
    let data = wire_format(id, payload);
    let w = (id, payload);
    assert(data == wire_format(w.0, w.1));
    assert(is_wire_format(data));
    if !pre.recent().contains(id) {
        lemma_delivered_once(pre.recent(), pre.cache_capacity(), id);
        assert(mid.subscribed(topic));
    }
}

/// A message published by one node and received by a subscribed node that
/// has not seen its identifier is delivered there, with the identifier and
/// payload it was published with.
pub proof fn lemma_published_is_delivered(
    pre: Overlay,
    post: Overlay,
    topic: Seq<char>,
    source: Seq<u8>,
    id: u64,
    payload: Seq<u8>,
    r: Received,
)
    requires
        pre.subscribed(topic),
        !pre.recent().contains(id),
        received_as(pre, post, topic, source, wire_format(id, payload), r),
    ensures
        r is Deliver,
        r->message.id == id,
        r->message.payload@ == payload,
{
    let w = (id, payload);
    assert(wire_format(id, payload) == wire_format(w.0, w.1));
    assert(is_wire_format(wire_format(id, payload)));
}

/// Once node A, subscribed to a topic, has a connection to peer B, a publish
/// from A on that topic names B among its recipients; and B, subscribed too
/// and not having seen the identifier, delivers the envelope as published.
pub proof fn lemma_connected_peer_receives(
    a_pre: Overlay,
    a_post: Overlay,
    b: Seq<u8>,
    topic: Seq<char>,
    recipients: Seq<Vec<u8>>,
    b_pre: Overlay,
    b_post: Overlay,
    source: Seq<u8>,
    id: u64,
    payload: Seq<u8>,
    r: Received,
)
    requires
        a_pre.subscribed(topic),
        connected_as(a_pre, a_post, b),
        peer_set(recipients) == a_post.mesh_of(topic),
        b_pre.subscribed(topic),
        !b_pre.recent().contains(id),
        received_as(b_pre, b_post, topic, source, wire_format(id, payload), r),
    ensures
        peer_set(recipients).contains(b),
        r is Deliver,
        r->message.id == id,
        r->message.payload@ == payload,
{
    assert(a_post.in_mesh(topic, b));
    assert(a_post.mesh_of(topic).contains(b));
    lemma_published_is_delivered(b_pre, b_post, topic, source, id, payload, r);
}

/// A publish to a topic whose mesh is empty sends to nobody.
pub proof fn lemma_empty_mesh_sends_nothing(recipients: Seq<Vec<u8>>)
    requires
        peer_set(recipients) == Set::<Seq<u8>>::empty(),
    ensures
        recipients.len() == 0,
{
    if recipients.len() > 0 {
        assert(peer_set(recipients).contains(recipients[0]@));
    }
}

} // verus!
