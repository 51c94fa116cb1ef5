//! The routing handler: owns the discovered topology, the neighbor
//! channels, the flood suppression set, the send buffer and the monotone
//! counters, and drives discovery, fragmentation, source routing and
//! acknowledgement handling.

use vstd::prelude::*;
use crossbeam_channel::Sender;
use crate::buffer::{Buffer, BufEntryV, has_buf_entry, buf_entry_at, buffered_count};
use crate::network::{has_node, is_path, Network, NetworkError, Node, NodeV};
use crate::packet::{Fragment, NodeEvent, Packet, PacketTypeV, SourceRoutingHeader, NodeType};

verus! {

/// Whether a flood probe with this key must be answered rather than
/// relayed: its key was already recorded, or the node is a leaf with the
/// sender as its only neighbor.
pub open spec fn flood_terminates(seen: Seq<(u64, u8)>, n_neighbors: int, key: (u64, u8)) -> bool {
    seen.contains(key) || n_neighbors == 1
}

/// The neighbor ids a returning trace assigns to position `i`: its
/// predecessor and successor, the successor dropped when it repeats the
/// predecessor.
pub open spec fn trace_neighbors(trace: Seq<(u8, NodeType)>, i: int) -> Seq<u8> {
    if 0 < i && i + 1 < trace.len() {
        if trace[i - 1].0 == trace[i + 1].0 {
            seq![trace[i - 1].0]
        } else {
            seq![trace[i - 1].0, trace[i + 1].0]
        }
    } else if 0 < i {
        seq![trace[i - 1].0]
    } else if i + 1 < trace.len() {
        seq![trace[i + 1].0]
    } else {
        Seq::empty()
    }
}

/// The topology after learning the first `upto` positions of a returning
/// trace: each traced node gains its trace neighbors, updated in place
/// when already present and appended with its traced role otherwise.
pub open spec fn learn_trace(net: Seq<NodeV>, trace: Seq<(u8, NodeType)>, upto: int) -> Seq<NodeV>
    decreases upto,
{
    if upto <= 0 {
        net
    } else {
        let prev = learn_trace(net, trace, upto - 1);
        let nid = trace[upto - 1].0;
        let nbrs = trace_neighbors(trace, upto - 1);
        if has_node(prev, nid) {
            prev.update(
                crate::network::idx_of(prev, nid),
                NodeV {
                    id: nid,
                    node_type: prev[crate::network::idx_of(prev, nid)].node_type,
                    adjacents: crate::network::union_adj(
                        crate::network::adj_of(prev, nid),
                        nbrs,
                    ),
                },
            )
        } else {
            crate::network::add_node_result(
                prev,
                NodeV { id: nid, node_type: trace[upto - 1].1, adjacents: nbrs },
            )
        }
    }
}

/// What every packet buffered for one outbound message looks like: the
/// fragment for its own chunk of the message, not yet acknowledged,
/// under the message's session, on a duplicate free route to the
/// destination that the topology held when the send began.
pub open spec fn outbound_entry_shape(
    e: BufEntryV,
    msg: Seq<u8>,
    net: Seq<NodeV>,
    destination: u8,
    sid2: u64,
) -> bool {
    forall|i: int|
        0 <= i < e.packets.len() ==> ((#[trigger] e.packets[i]).1.pack_type matches
        PacketTypeV::MsgFragment(f) && f.fragment_index == i && f.total_n_fragments
            == crate::assembler::n_fragments_of(msg) && f.wf() && f.payload()
            == crate::assembler::chunk_of(msg, i) && !e.packets[i].0 && e.packets[i].1.session_id
            == sid2 && e.packets[i].1.routing_header.hops.no_duplicates()
            && e.packets[i].1.routing_header.hop_index == 1 && is_path(
            net,
            e.packets[i].1.routing_header.hops,
            destination,
        ))
}

/// Keeping the send buffer while the session counter only grows keeps
/// every buffered session id below the counter.
proof fn lemma_buf_bound(x: RoutingHandler, y: RoutingHandler)
    requires
        forall|i: int|
            0 <= i < x.buf().len() ==> (#[trigger] x.buf()[i]).session_id
                <= x.spec_session_counter(),
        y.buf() == x.buf(),
        y.spec_session_counter() >= x.spec_session_counter(),
    ensures
        forall|i: int|
            0 <= i < y.buf().len() ==> (#[trigger] y.buf()[i]).session_id
                <= y.spec_session_counter(),
{
    assert forall|i: int|
        0 <= i < y.buf().len() implies (#[trigger] y.buf()[i]).session_id
        <= y.spec_session_counter() by {
        assert(y.buf()[i] == x.buf()[i]);
    }
}

/// The routing core of one overlay node.
pub struct RoutingHandler {
    id: u8,
    network_view: Network,
    neighbors: Vec<(u8, Sender<Packet>)>,
    flood_seen: Vec<(u64, u8)>,
    session_counter: u64,
    flood_counter: u64,
    controller_send: Sender<NodeEvent>,
    buffer: Buffer,
}

impl RoutingHandler {
    /// The node's own id.
    pub closed spec fn sid(&self) -> u8 {
        self.id
    }

    /// The ids of the current neighbors, in insertion order.
    pub closed spec fn neighbor_ids(&self) -> Seq<u8> {
        self.neighbors@.map_values(|p: (u8, Sender<Packet>)| p.0)
    }

    /// The recorded flood keys.
    pub closed spec fn seen(&self) -> Seq<(u64, u8)> {
        self.flood_seen@
    }

    pub closed spec fn spec_session_counter(&self) -> u64 {
        self.session_counter
    }

    pub closed spec fn spec_flood_counter(&self) -> u64 {
        self.flood_counter
    }

    /// The discovered topology.
    pub closed spec fn net(&self) -> Seq<NodeV> {
        self.network_view@
    }

    /// The send buffer contents.
    pub closed spec fn buf(&self) -> Seq<BufEntryV> {
        self.buffer@
    }

    /// Well formed: the topology is rooted at this node, neighbor ids and
    /// flood keys are unique, and the send buffer is consistent.
    pub closed spec fn wf(&self) -> bool {
        &&& self.network_view.wf()
        &&& self.net()[0].id == self.id
        &&& self.neighbor_ids().no_duplicates()
        &&& self.seen().no_duplicates()
        &&& self.buffer.wf()
        &&& forall|i: int|
            0 <= i < self.buf().len() ==> (#[trigger] self.buf()[i]).session_id
                <= self.spec_session_counter()
    }

    pub fn get_flood_counter(&self) -> (r: u64)
        ensures
            r == self.spec_flood_counter(),
    {
        self.flood_counter
    }

    pub fn get_session_counter(&self) -> (r: u64)
        ensures
            r == self.spec_session_counter(),
    {
        self.session_counter
    }

    pub fn get_network_view(&self) -> (r: &Network)
        ensures
            r@ == self.net(),
    {
        &self.network_view
    }

    pub fn get_buffer(&self) -> (r: &Buffer)
        ensures
            r@ == self.buf(),
    {
        &self.buffer
    }

    pub fn has_neighbor(&self, node_id: u8) -> (b: bool)
        ensures
            b == self.neighbor_ids().contains(node_id),
    {
        let mut i: usize = 0;
        while i < self.neighbors.len()
            invariant
                i <= self.neighbors@.len(),
                self.neighbor_ids().len() == self.neighbors@.len(),
                forall|k: int| 0 <= k < i ==> self.neighbor_ids()[k] != node_id,
            decreases self.neighbors@.len() - i,
        {
            if self.neighbors[i].0 == node_id {
                proof {
                    assert(self.neighbor_ids()[i as int] == node_id);
                }
                return true;
            }
            proof {
                assert(self.neighbor_ids()[i as int] == self.neighbors@[i as int].0);
            }
            i = i + 1;
        }
        false
    }

    /// The position of a neighbor id in the map, if present.
    fn neighbor_pos(&self, node_id: u8) -> (r: Option<usize>)
        ensures
            match r {
                Some(i) => i < self.neighbor_ids().len() && self.neighbor_ids()[i as int]
                    == node_id && (forall|k: int|
                    0 <= k < i ==> self.neighbor_ids()[k] != node_id),
                None => !self.neighbor_ids().contains(node_id),
            },
    {
        let mut i: usize = 0;
        while i < self.neighbors.len()
            invariant
                i <= self.neighbors@.len(),
                self.neighbor_ids().len() == self.neighbors@.len(),
                forall|k: int| 0 <= k < i ==> self.neighbor_ids()[k] != node_id,
            decreases self.neighbors@.len() - i,
        {
            if self.neighbors[i].0 == node_id {
                proof {
                    assert(self.neighbor_ids()[i as int] == node_id);
                }
                return Some(i);
            }
            proof {
                assert(self.neighbor_ids()[i as int] == self.neighbors@[i as int].0);
            }
            i = i + 1;
        }
        proof {
            if self.neighbor_ids().contains(node_id) {
                let t = choose|t: int|
                    0 <= t < self.neighbor_ids().len() && self.neighbor_ids()[t] == node_id;
                assert(false);
            }
        }
        None
    }

    pub fn new(
        id: u8,
        node_type: NodeType,
        neighbors: Vec<(u8, Sender<Packet>)>,
        controller_send: Sender<NodeEvent>,
    ) -> (r: RoutingHandler)
        requires
            neighbors@.map_values(|p: (u8, Sender<Packet>)| p.0).no_duplicates(),
        ensures
            r.wf(),
            r.sid() == id,
            r.spec_session_counter() == 0,
            r.spec_flood_counter() == 0,
            r.neighbor_ids() == neighbors@.map_values(|p: (u8, Sender<Packet>)| p.0),
            r.seen() == Seq::<(u64, u8)>::empty(),
            r.net() =~= seq![
                (NodeV { id, node_type, adjacents: Seq::<u8>::empty() }),
            ],
            r.buf() =~= Seq::<BufEntryV>::empty(),
    {
        let root = Node::new(id, node_type, Vec::new());
        let r = RoutingHandler {
            id,
            network_view: Network::new(root),
            neighbors,
            session_counter: 0,
            flood_counter: 0,
            flood_seen: Vec::new(),
            controller_send,
            buffer: Buffer::new(),
        };
        proof {
            assert(r.seen() =~= Seq::<(u64, u8)>::empty());
        }
        r
    }

    /// Hands a packet to a neighbor channel and reports it upward.  A
    /// refused neighbor send comes back as a send error the caller can
    /// recover from; a refused report means the controller is gone.
    fn send(&self, neighbor: &Sender<Packet>, packet: &Packet) -> (r: Result<(), NetworkError>)
        ensures
            r matches Err(e) ==> (e is SendError || e is ControllerDisconnected),
    {
        if neighbor.send(packet.duplicate()).is_err() {
            return Err(NetworkError::SendError(String::from_str("neighbor channel closed")));
        }
        if self.controller_send.send(NodeEvent::PacketSent(packet.duplicate())).is_err() {
            return Err(NetworkError::ControllerDisconnected);
        }
        Ok(())
    }

    /// Forgets a neighbor: its channel leaves the map and, unless it is
    /// this node itself, the node leaves the discovered topology.
    pub fn remove_neighbor(&mut self, node_id: u8)
        requires
            old(self).wf(),
        ensures
            final(self).wf(),
            final(self).sid() == old(self).sid(),
            final(self).spec_session_counter() == old(self).spec_session_counter(),
            final(self).spec_flood_counter() == old(self).spec_flood_counter(),
            final(self).seen() == old(self).seen(),
            final(self).buf() == old(self).buf(),
            final(self).neighbor_ids() == old(self).neighbor_ids().remove_value(node_id),
            !final(self).neighbor_ids().contains(node_id),
            final(self).net() == if node_id == old(self).sid() {
                old(self).net()
            } else {
                crate::network::remove_node_result(old(self).net(), node_id)
            },
            forall|x: u8|
                #[trigger] final(self).neighbor_ids().contains(x) ==> old(self).neighbor_ids().contains(x),
            forall|x: u8|
                #[trigger] has_node(final(self).net(), x) ==> has_node(old(self).net(), x),
    {
        let ghost nold = self.neighbor_ids();
        match self.neighbor_pos(node_id) {
            Some(i) => {
                proof {
                    nold.index_of_first_ensures(node_id);
                    assert(nold.index_of_first(node_id) == Some(i as int));
                }
                let ghost vold = self.neighbors@;
                self.neighbors.remove(i);
                proof {
                    assert(self.neighbor_ids() =~= nold.remove(i as int)) by {
                        vold.remove_ensures(i as int);
                        nold.remove_ensures(i as int);
                        assert forall|k: int|
                            0 <= k < self.neighbors@.len() implies (#[trigger] self.neighbors@[k]).0
                            == nold.remove(i as int)[k] by {
                            let k2: int = if k < i { k } else { k + 1 };
                            assert(self.neighbors@[k] == vold[k2]);
                            assert(nold[k2] == vold[k2].0);
                        }
                    }
                    assert(nold.remove(i as int) == nold.remove_value(node_id));
                    assert(self.neighbor_ids().no_duplicates()) by {
                        assert forall|a: int, b: int|
                            0 <= a < b < nold.remove(i as int).len() implies nold.remove(
                            i as int,
                        )[a] != nold.remove(i as int)[b] by {
                            nold.remove_ensures(i as int);
                            let a2: int = if a < i { a } else { a + 1 };
                            let b2: int = if b < i { b } else { b + 1 };
                            assert(nold.remove(i as int)[a] == nold[a2]);
                            assert(nold.remove(i as int)[b] == nold[b2]);
                        }
                    }
                    assert(!self.neighbor_ids().contains(node_id)) by {
                        crate::network::lemma_remove_value_no_dup(nold, node_id);
                    }
                }
            },
            None => {
                proof {
                    nold.index_of_first_ensures(node_id);
                    assert(nold.remove_value(node_id) == nold);
                }
            },
        }
        if node_id != self.id {
            let _ = self.network_view.remove_node(node_id);
        }
        proof {
            lemma_buf_bound(*old(self), *self);
            crate::network::lemma_remove_value_subset(old(self).neighbor_ids(), node_id);
            if node_id != old(self).sid() {
                crate::network::lemma_remove_node_subset(old(self).net(), node_id);
            }
        }
    }

    /// Registers a neighbor channel and declares the link on this node's
    /// own topology entry.  A known id only has its channel replaced.
    pub fn add_neighbor(&mut self, node_id: u8, sender: Sender<Packet>)
        requires
            old(self).wf(),
        ensures
            final(self).wf(),
            final(self).sid() == old(self).sid(),
            final(self).spec_session_counter() == old(self).spec_session_counter(),
            final(self).spec_flood_counter() == old(self).spec_flood_counter(),
            final(self).seen() == old(self).seen(),
            final(self).buf() == old(self).buf(),
            final(self).neighbor_ids() == if old(self).neighbor_ids().contains(node_id) {
                old(self).neighbor_ids()
            } else {
                old(self).neighbor_ids().push(node_id)
            },
            final(self).net() == old(self).net().update(
                0,
                NodeV {
                    id: old(self).sid(),
                    node_type: old(self).net()[0].node_type,
                    adjacents: if old(self).net()[0].adjacents.contains(node_id) {
                        old(self).net()[0].adjacents
                    } else {
                        old(self).net()[0].adjacents.push(node_id)
                    },
                },
            ),
    {
        let ghost nold = self.neighbor_ids();
        let pos = self.neighbor_pos(node_id);
        match pos {
            Some(i) => {
                proof {
                    assert(nold[i as int] == node_id);
                    assert(nold.contains(node_id));
                }
                let ghost vold = self.neighbors@;
                self.neighbors.remove(i);
                self.neighbors.insert(i, (node_id, sender));
                proof {
                    assert(self.neighbor_ids() =~= nold) by {
                        assert forall|k: int|
                            0 <= k < self.neighbors@.len() implies (#[trigger] self.neighbors@[k]).0
                            == nold[k] by {
                            if k < i {
                                assert(self.neighbors@[k] == vold.remove(i as int).insert(
                                    i as int,
                                    (node_id, sender),
                                )[k]);
                                assert(self.neighbors@[k] == vold[k]);
                            } else if k == i {
                                assert(self.neighbors@[k] == (node_id, sender));
                            } else {
                                assert(self.neighbors@[k] == vold.remove(i as int).insert(
                                    i as int,
                                    (node_id, sender),
                                )[k]);
                                assert(vold.remove(i as int).insert(i as int, (node_id, sender))[k]
                                    == vold[k]);
                            }
                        }
                    }
                }
            },
            None => {
                let ghost vold = self.neighbors@;
                self.neighbors.push((node_id, sender));
                proof {
                    assert(self.neighbor_ids() =~= nold.push(node_id)) by {
                        assert forall|k: int|
                            0 <= k < self.neighbors@.len() implies (#[trigger] self.neighbors@[k]).0
                            == nold.push(node_id)[k] by {
                            if k < vold.len() {
                                assert(self.neighbors@[k] == vold[k]);
                            } else {
                                assert(self.neighbors@[k] == (node_id, sender));
                            }
                        }
                    }
                    assert(self.neighbor_ids().no_duplicates()) by {
                        assert forall|a: int, b: int|
                            0 <= a < b < nold.push(node_id).len() implies nold.push(node_id)[a]
                            != nold.push(node_id)[b] by {
                            if b == nold.len() {
                                assert(nold.push(node_id)[a] == nold[a]);
                                assert(nold.push(node_id)[b] == node_id);
                            } else {
                                assert(nold.push(node_id)[a] == nold[a]);
                                assert(nold.push(node_id)[b] == nold[b]);
                            }
                        }
                    }
                }
            },
        }
        let mut adj: Vec<u8> = Vec::new();
        adj.push(node_id);
        proof {
            assert(adj@ =~= seq![node_id]);
            assert(crate::network::idx_of(self.network_view@, self.id) == 0) by {
                assert(self.network_view@[0].id == self.id);
                let j = crate::network::idx_of(self.network_view@, self.id);
                assert(self.network_view@[j].id == self.id);
            }
            assert(has_node(self.network_view@, self.id)) by {
                assert(self.network_view@[0].id == self.id);
            }
        }
        let ghost root_adj = self.network_view@[0].adjacents;
        let res = self.network_view.update_node(self.id, adj);
        proof {
            assert(res is Ok);
            assert(crate::network::union_adj(root_adj, seq![node_id]) == if root_adj.contains(
                node_id,
            ) {
                root_adj
            } else {
                root_adj.push(node_id)
            }) by {
                let s1 = seq![node_id];
                assert(s1.skip(1) =~= Seq::<u8>::empty());
                if root_adj.contains(node_id) {
                    assert(crate::network::union_adj(root_adj, s1) == crate::network::union_adj(
                        root_adj,
                        s1.skip(1),
                    ));
                } else {
                    assert(crate::network::union_adj(root_adj, s1) == crate::network::union_adj(
                        root_adj.push(node_id),
                        s1.skip(1),
                    ));
                }
            }
            assert(crate::network::adj_of(old(self).net(), old(self).sid()) == root_adj);
            lemma_buf_bound(*old(self), *self);
        }
    }

    /// Records a flood key; reports whether it was new.
    fn note_flood_seen(&mut self, key: (u64, u8)) -> (fresh: bool)
        requires
            old(self).wf(),
        ensures
            final(self).wf(),
            fresh == !old(self).seen().contains(key),
            final(self).seen() == if fresh {
                old(self).seen().push(key)
            } else {
                old(self).seen()
            },
            final(self).seen().contains(key),
            final(self).sid() == old(self).sid(),
            final(self).neighbor_ids() == old(self).neighbor_ids(),
            final(self).net() == old(self).net(),
            final(self).buf() == old(self).buf(),
            final(self).spec_session_counter() == old(self).spec_session_counter(),
            final(self).spec_flood_counter() == old(self).spec_flood_counter(),
    {
        let mut i: usize = 0;
        while i < self.flood_seen.len()
            invariant
                i <= self.seen().len(),
                *self == *old(self),
                old(self).wf(),
                forall|k: int| 0 <= k < i ==> (#[trigger] self.seen()[k]) != key,
            decreases self.seen().len() - i,
        {
            if self.flood_seen[i].0 == key.0 && self.flood_seen[i].1 == key.1 {
                proof {
                    assert(self.seen()[i as int] == key);
                    lemma_buf_bound(*old(self), *self);
                }
                return false;
            }
            i = i + 1;
        }
        proof {
            if old(self).seen().contains(key) {
                let t = choose|t: int|
                    0 <= t < old(self).seen().len() && old(self).seen()[t] == key;
                assert(false);
            }
        }
        let ghost sold = self.flood_seen@;
        self.flood_seen.push(key);
        proof {
            assert(final(self).seen().last() == key);
            assert(final(self).seen().contains(key));
            assert(final(self).seen().no_duplicates()) by {
                assert forall|a: int, b: int|
                    0 <= a < b < sold.push(key).len() implies sold.push(key)[a] != sold.push(
                    key,
                )[b] by {
                    if b == sold.len() {
                        assert(sold.push(key)[a] == sold[a]);
                        assert(sold.push(key)[b] == key);
                        if sold[a] == key {
                            assert(sold.contains(key));
                        }
                    } else {
                        assert(sold.push(key)[a] == sold[a]);
                        assert(sold.push(key)[b] == sold[b]);
                    }
                }
            }
            lemma_buf_bound(*old(self), *self);
        }
        true
    }

    /// Starts a discovery round: both counters move up by exactly one,
    /// the controller hears of the flood, and the probe goes to every
    /// neighbor; a neighbor that refuses it is dropped.
    pub fn start_flood(&mut self) -> (r: Result<(), NetworkError>)
        requires
            old(self).wf(),
            old(self).spec_session_counter() < u64::MAX,
            old(self).spec_flood_counter() < u64::MAX,
        ensures
            final(self).wf(),
            final(self).sid() == old(self).sid(),
            final(self).spec_session_counter() == old(self).spec_session_counter() + 1,
            final(self).spec_flood_counter() == old(self).spec_flood_counter() + 1,
            final(self).seen() == old(self).seen(),
            final(self).buf() == old(self).buf(),
            r matches Err(e) ==> e is ControllerDisconnected,
            forall|x: u8|
                #[trigger] final(self).neighbor_ids().contains(x) ==> old(
                self).neighbor_ids().contains(x),
            forall|x: u8|
                #[trigger] has_node(final(self).net(), x) ==> has_node(old(self).net(), x),
    {
        self.session_counter = self.session_counter + 1;
        self.flood_counter = self.flood_counter + 1;
        let own_type = self.network_view.nodes[0].get_node_type();
        let req = crate::packet::FloodRequest::new(self.flood_counter, self.id, own_type);
        let packet = Packet::new_flood_request(
            SourceRoutingHeader::empty_route(),
            self.session_counter,
            req,
        );
        proof {
            lemma_buf_bound(*old(self), *self);
        }
        if self.controller_send.send(
            NodeEvent::FloodStarted(self.flood_counter, self.id),
        ).is_err() {
            return Err(NetworkError::ControllerDisconnected);
        }
        let mut failed: Vec<u8> = Vec::new();
        let mut i: usize = 0;
        while i < self.neighbors.len()
            invariant
                i <= self.neighbors@.len(),
                self.wf(),
                self.sid() == old(self).sid(),
                self.spec_session_counter() == old(self).spec_session_counter() + 1,
                self.spec_flood_counter() == old(self).spec_flood_counter() + 1,
                self.seen() == old(self).seen(),
                self.buf() == old(self).buf(),
            decreases self.neighbors@.len() - i,
        {
            if self.neighbors[i].1.send(packet.duplicate()).is_err() {
                failed.push(self.neighbors[i].0);
            }
            i = i + 1;
        }
        let mut j: usize = 0;
        while j < failed.len()
            invariant
                j <= failed@.len(),
                self.wf(),
                self.sid() == old(self).sid(),
                self.spec_session_counter() == old(self).spec_session_counter() + 1,
                self.spec_flood_counter() == old(self).spec_flood_counter() + 1,
                self.seen() == old(self).seen(),
                self.buf() == old(self).buf(),
                forall|x: u8|
                    #[trigger] self.neighbor_ids().contains(x) ==> old(
                    self).neighbor_ids().contains(x),
                forall|x: u8| #[trigger] has_node(self.net(), x) ==> has_node(old(self).net(), x),
            decreases failed@.len() - j,
        {
            let ghost tol = *self;
            self.remove_neighbor(failed[j]);
            proof {
                assert forall|x: u8|
                    #[trigger] self.neighbor_ids().contains(x) implies old(
                self).neighbor_ids().contains(x) by {
                    assert(tol.neighbor_ids().contains(x));
                }
                assert forall|x: u8| #[trigger] has_node(self.net(), x) implies has_node(
                    old(self).net(),
                    x,
                ) by {
                    assert(has_node(tol.net(), x));
                }
            }
            j = j + 1;
        }
        Ok(())
    }

    /// Sends a packet to the next hop of its route, the one its hop
    /// index points at.  A route that ends before that index needs no
    /// send at all.
    fn send_packet_to_first_hop(&self, packet: &Packet) -> (r: Result<(), NetworkError>)
        ensures
            r matches Err(e) ==> (e is SendError || e is ControllerDisconnected
                || e is NodeIsNotANeighbor),
            (r matches Err(e) && e is SendError) ==> packet@.routing_header.hops.len()
                > packet@.routing_header.hop_index && self.neighbor_ids().contains(
                packet@.routing_header.hops[packet@.routing_header.hop_index as int],
            ),
            r matches Err(NetworkError::NodeIsNotANeighbor(h)) ==> packet@.routing_header.hops.len()
                > packet@.routing_header.hop_index && h
                == packet@.routing_header.hops[packet@.routing_header.hop_index as int]
                && !self.neighbor_ids().contains(h),
    {
        if packet.routing_header.hops.len() > packet.routing_header.hop_index {
            let first_hop = packet.routing_header.hops[packet.routing_header.hop_index];
            match self.neighbor_pos(first_hop) {
                Some(i) => {
                    proof {
                        assert(self.neighbor_ids().contains(first_hop)) by {
                            assert(self.neighbor_ids()[i as int] == first_hop);
                        }
                    }
                    self.send(&self.neighbors[i].1, packet)
                },
                None => Err(NetworkError::NodeIsNotANeighbor(first_hop)),
            }
        } else {
            Ok(())
        }
    }

    /// Tries to deliver a packet towards its destination.  A neighbor
    /// whose channel refuses the packet is pruned, a fresh route is
    /// computed, and the send is retried, until it goes out or no
    /// neighbor is left.
    fn try_send(&mut self, packet: &Packet) -> (r: Result<(), NetworkError>)
        requires
            old(self).wf(),
        ensures
            final(self).wf(),
            final(self).sid() == old(self).sid(),
            final(self).spec_session_counter() == old(self).spec_session_counter(),
            final(self).spec_flood_counter() == old(self).spec_flood_counter(),
            final(self).seen() == old(self).seen(),
            final(self).buf() == old(self).buf(),
            r matches Err(e) ==> (e is NoDestination || e is NodeIsNotANeighbor
                || e is ControllerDisconnected || e is PathNotFound || e is NoNeighborAssigned),
            r == Err::<(), NetworkError>(NetworkError::NoDestination)
                <==> packet@.routing_header.hops.len() == 0,
            r matches Err(NetworkError::NodeIsNotANeighbor(h)) ==> !final(self).neighbor_ids().contains(h),
            r matches Err(NetworkError::NoNeighborAssigned) ==> final(self).neighbor_ids().len()
                == 0,
            r matches Err(NetworkError::PathNotFound(d)) ==> packet@.routing_header.hops.len() > 0
                && d == packet@.routing_header.hops.last() && (forall|p: Seq<u8>|
                !is_path(final(self).net(), p, d)),
            forall|x: u8|
                #[trigger] final(self).neighbor_ids().contains(x) ==> old(self).neighbor_ids().contains(x),
            forall|x: u8|
                #[trigger] has_node(final(self).net(), x) ==> has_node(old(self).net(), x),
    {
        let destination = match packet.routing_header.destination() {
            Some(d) => d,
            None => {
                return Err(NetworkError::NoDestination);
            },
        };
        let mut cur = packet.duplicate();
        let mut packet_sent: bool = false;
        while !packet_sent && self.neighbors.len() > 0
            invariant
                packet@.routing_header.hops.len() > 0,
                destination == packet@.routing_header.hops.last(),
                self.wf(),
                self.sid() == old(self).sid(),
                self.spec_session_counter() == old(self).spec_session_counter(),
                self.spec_flood_counter() == old(self).spec_flood_counter(),
                self.seen() == old(self).seen(),
                self.buf() == old(self).buf(),
                self.neighbor_ids().len() == self.neighbors@.len(),
                forall|x: u8|
                    #[trigger] self.neighbor_ids().contains(x) ==> old(self).neighbor_ids().contains(x),
                forall|x: u8| #[trigger] has_node(self.net(), x) ==> has_node(old(self).net(), x),
            decreases self.neighbors@.len(), (if packet_sent {
                0int
            } else {
                1int
            }),
        {
            match self.send_packet_to_first_hop(&cur) {
                Ok(()) => {
                    packet_sent = true;
                },
                Err(e) => {
                    match e {
                        NetworkError::SendError(_) => {
                            let hi = cur.routing_header.hop_index;
                            let first_hop = cur.routing_header.hops[hi];
                            let ghost nold = self.neighbor_ids();
                            let ghost tol = *self;
                            self.remove_neighbor(first_hop);
                            proof {
                                nold.index_of_first_ensures(first_hop);
                                assert(nold.contains(first_hop));
                                assert(self.neighbor_ids().len() < nold.len());
                                assert forall|x: u8|
                                    #[trigger] self.neighbor_ids().contains(x) implies old(self).neighbor_ids().contains(x) by {
                                    assert(tol.neighbor_ids().contains(x));
                                }
                                assert forall|x: u8|
                                    #[trigger] has_node(self.net(), x) implies has_node(
                                    old(self).net(),
                                    x,
                                ) by {
                                    assert(has_node(tol.net(), x));
                                }
                            }
                            let route = match self.network_view.find_path(destination) {
                                Ok(r) => r,
                                Err(e2) => {
                                    return Err(e2);
                                },
                            };
                            cur.routing_header = SourceRoutingHeader::new(
                                route,
                                1,
                            ).without_loops();
                        },
                        _ => {
                            return Err(e);
                        },
                    }
                },
            }
        }
        if self.neighbors.len() == 0 {
            return Err(NetworkError::NoNeighborAssigned);
        }
        Ok(())
    }

    /// Splits a message into fragments of at most 128 bytes, sends each
    /// along a freshly computed loop free source route, and retains every
    /// sent fragment in the send buffer under the new session, keyed by
    /// the destination.  An empty message is refused untouched.
    pub fn send_message(&mut self, message: &Vec<u8>, destination: u8) -> (r: Result<
        (),
        NetworkError,
    >)
        requires
            old(self).wf(),
            old(self).spec_session_counter() < u64::MAX,
            message@.len() + 127 <= usize::MAX,
        ensures
            final(self).wf(),
            final(self).sid() == old(self).sid(),
            final(self).spec_flood_counter() == old(self).spec_flood_counter(),
            final(self).seen() == old(self).seen(),
            message@.len() == 0 ==> r == Err::<(), NetworkError>(NetworkError::EmptyMessage)
                && *final(self) == *old(self),
            message@.len() > 0 ==> final(self).spec_session_counter() == old(self).spec_session_counter() + 1,
            message@.len() > 0 && (forall|p: Seq<u8>|
                !is_path(old(self).net(), p, destination)) ==> r == Err::<(), NetworkError>(
                NetworkError::PathNotFound(destination),
            ) && final(self).buf() == old(self).buf(),
            message@.len() > 0 && r is Ok ==> ({
                let sid2 = (old(self).spec_session_counter() + 1) as u64;
                let n = crate::assembler::n_fragments_of(message@);
                &&& has_buf_entry(final(self).buf(), sid2, destination)
                &&& final(self).buf()[buf_entry_at(
                    final(self).buf(),
                    sid2,
                    destination,
                )].packets.len() == n
                &&& outbound_entry_shape(
                    final(self).buf()[buf_entry_at(final(self).buf(), sid2, destination)],
                    message@,
                    old(self).net(),
                    destination,
                    sid2,
                )
            }),
            message@.len() > 0 && has_buf_entry(
                final(self).buf(),
                (old(self).spec_session_counter() + 1) as u64,
                destination,
            ) ==> ({
                let sid2 = (old(self).spec_session_counter() + 1) as u64;
                let e = final(self).buf()[buf_entry_at(final(self).buf(), sid2, destination)];
                &&& e.packets.len() <= crate::assembler::n_fragments_of(message@)
                &&& outbound_entry_shape(e, message@, old(self).net(), destination, sid2)
            }),
    {
        if message.len() == 0 {
            return Err(NetworkError::EmptyMessage);
        }
        self.session_counter = self.session_counter + 1;
        let ghost sid2 = self.session_counter;
        proof {
            assert forall|t: int|
                0 <= t < old(self).buf().len() implies !((#[trigger] old(self).buf()[t]).session_id
                == sid2 && old(self).buf()[t].peer == destination) by {
                assert(old(self).buf()[t].session_id <= old(self).spec_session_counter());
            }
            if has_buf_entry(self.buf(), sid2, destination) {
                let t = buf_entry_at(self.buf(), sid2, destination);
                assert(self.buf()[t].session_id == sid2);
            }
        }
        let route = match self.network_view.find_path(destination) {
            Ok(r) => r,
            Err(e) => {
                return Err(e);
            },
        };
        let shr = SourceRoutingHeader::new(route, 1).without_loops();
        let total = (message.len() + 127) / 128;
        let ghost n = crate::assembler::n_fragments_of(message@);
        let ghost path0 = route@;
        proof {
            vstd::arithmetic::div_mod::lemma_fundamental_div_mod(
                message@.len() as int + 127,
                128,
            );
            vstd::arithmetic::div_mod::lemma_mod_bound(message@.len() as int + 127, 128);
            assert(total as int == n);
            assert(n * 128 >= message@.len() && (n - 1) * 128 < message@.len());
            if has_buf_entry(self.buf(), sid2, destination) {
                let t = buf_entry_at(self.buf(), sid2, destination);
                assert(self.buf()[t].session_id == sid2);
                assert(self.buf()[t] == old(self).buf()[t]);
            }
            assert(shr@.hops == path0 && shr@.hop_index == 1);
        }
        let mut i: usize = 0;
        while i < total
            invariant
                total as int == n,
                n == crate::assembler::n_fragments_of(message@),
                message@.len() + 127 <= usize::MAX,
                message@.len() > 0,
                n * 128 >= message@.len(),
                (n - 1) * 128 < message@.len(),
                i <= total,
                is_path(old(self).net(), path0, destination),
                self.wf(),
                self.sid() == old(self).sid(),
                self.spec_session_counter() == sid2,
                sid2 == old(self).spec_session_counter() + 1,
                self.spec_flood_counter() == old(self).spec_flood_counter(),
                self.seen() == old(self).seen(),
                shr@.hops.no_duplicates(),
                shr@.hops == path0,
                shr@.hop_index == 1,
                i == 0 ==> !has_buf_entry(self.buf(), sid2, destination),
                i > 0 ==> has_buf_entry(self.buf(), sid2, destination) && ({
                    let e = self.buf()[buf_entry_at(self.buf(), sid2, destination)];
                    &&& e.packets.len() == i
                    &&& outbound_entry_shape(e, message@, old(self).net(), destination, sid2)
                }),
            decreases total - i,
        {
            let base = i * 128;
            proof {
                assert(i * 128 <= (n - 1) * 128) by (nonlinear_arith)
                    requires
                        i <= n - 1,
                ;
            }
            let chunk_len: usize = if base + 128 <= message.len() {
                128
            } else {
                message.len() - base
            };
            let mut data: [u8; 128] = [0u8; 128];
            let mut j: usize = 0;
            while j < chunk_len
                invariant
                    j <= chunk_len,
                    chunk_len <= 128,
                    base + chunk_len <= message@.len(),
                    base == i * 128,
                    forall|k: int| 0 <= k < j ==> data@[k] == message@[base + k],
                    forall|k: int| j <= k < 128 ==> data@[k] == 0,
                    data@.len() == 128,
                decreases chunk_len - j,
            {
                data[j] = message[base + j];
                j = j + 1;
            }
            let fragment = Fragment::new(i as u64, total as u64, chunk_len as u8, data);
            proof {
                assert(fragment@.payload() =~= crate::assembler::chunk_of(message@, i as int));
            }
            let packet = Packet::new_fragment(shr.duplicate(), self.session_counter, fragment);
            let ghost bold = self.buf();
            match self.try_send(&packet) {
                Ok(()) => {},
                Err(e) => {
                    return Err(e);
                },
            }
            proof {
                assert(buffered_count(self.buf(), sid2, destination) == i as int);
            }
            self.buffer.insert(packet, self.session_counter, destination);
            proof {
                if i > 0 {
                    let k = buf_entry_at(bold, sid2, destination);
                    assert(self.buf() == bold.update(
                        k,
                        BufEntryV {
                            session_id: sid2,
                            peer: destination,
                            packets: bold[k].packets.push((false, packet@)),
                        },
                    ));
                }
                let knew = buf_entry_at(self.buf(), sid2, destination);
                assert(self.buf()[knew].session_id == sid2 && self.buf()[knew].peer
                    == destination);
            }
            i = i + 1;
        }
        Ok(())
    }

    /// Applies a positive acknowledgement to the send buffer: the bit of
    /// the named fragment is set, and a fully acknowledged session
    /// disappears.  Unknown sessions are silently ignored.
    pub fn handle_ack(&mut self, ack: crate::packet::Ack, session_id: u64, from: u8)
        requires
            old(self).wf(),
        ensures
            final(self).wf(),
            final(self).sid() == old(self).sid(),
            final(self).spec_session_counter() == old(self).spec_session_counter(),
            final(self).spec_flood_counter() == old(self).spec_flood_counter(),
            final(self).seen() == old(self).seen(),
            final(self).net() == old(self).net(),
            final(self).neighbor_ids() == old(self).neighbor_ids(),
            !has_buf_entry(old(self).buf(), session_id, from) ==> final(self).buf() == old(self).buf(),
            has_buf_entry(old(self).buf(), session_id, from) ==> ({
                let k = buf_entry_at(old(self).buf(), session_id, from);
                let e = old(self).buf()[k];
                if (ack.fragment_index as int) >= e.packets.len() {
                    final(self).buf() == old(self).buf()
                } else {
                    let ps2 = e.packets.update(
                        ack.fragment_index as int,
                        (true, e.packets[ack.fragment_index as int].1),
                    );
                    if crate::buffer::all_acked(ps2) {
                        final(self).buf() == old(self).buf().remove(k)
                    } else {
                        final(self).buf() == old(self).buf().update(
                            k,
                            BufEntryV { session_id, peer: from, packets: ps2 },
                        )
                    }
                }
            }),
    {
        let ghost bold = self.buf();
        self.buffer.mark_as_received(session_id, ack.fragment_index, from);
        proof {
            if has_buf_entry(bold, session_id, from) {
                let k = buf_entry_at(bold, session_id, from);
                let e = bold[k];
                if (ack.fragment_index as int) < e.packets.len() {
                    let ps2 = e.packets.update(
                        ack.fragment_index as int,
                        (true, e.packets[ack.fragment_index as int].1),
                    );
                    if crate::buffer::all_acked(ps2) {
                        bold.remove_ensures(k);
                        assert forall|i: int|
                            0 <= i < self.buf().len() implies (#[trigger] self.buf()[i]).session_id
                            <= self.spec_session_counter() by {
                            let i2: int = if i < k { i } else { i + 1 };
                            assert(self.buf()[i] == bold[i2]);
                        }
                    } else {
                        assert forall|i: int|
                            0 <= i < self.buf().len() implies (#[trigger] self.buf()[i]).session_id
                            <= self.spec_session_counter() by {
                            if i != k {
                                assert(self.buf()[i] == bold[i]);
                            } else {
                                assert(self.buf()[i].session_id == bold[k].session_id);
                            }
                        }
                    }
                }
            }
        }
    }

    /// Sends one still unacknowledged buffered fragment again, along a
    /// freshly computed route to its original destination.
    pub fn retry_send(&mut self, session_id: u64, fragment_index: u64, from: u8) -> (r: Result<
        (),
        NetworkError,
    >)
        requires
            old(self).wf(),
        ensures
            final(self).wf(),
            final(self).sid() == old(self).sid(),
            final(self).spec_session_counter() == old(self).spec_session_counter(),
            final(self).spec_flood_counter() == old(self).spec_flood_counter(),
            final(self).seen() == old(self).seen(),
            final(self).buf() == old(self).buf(),
            forall|x: u8|
                #[trigger] final(self).neighbor_ids().contains(x) ==> old(
                self).neighbor_ids().contains(x),
            forall|x: u8|
                #[trigger] has_node(final(self).net(), x) ==> has_node(old(self).net(), x),
    {
        let packet = match self.buffer.get_fragment_by_id(session_id, fragment_index, from) {
            Some(p) => p,
            None => {
                return Ok(());
            },
        };
        let dest = match packet.routing_header.destination() {
            Some(d) => d,
            None => {
                return Err(NetworkError::NoDestination);
            },
        };
        let route = match self.network_view.find_path(dest) {
            Ok(r) => r,
            Err(e) => {
                return Err(e);
            },
        };
        let fresh = Packet {
            pack_type: packet.pack_type,
            routing_header: SourceRoutingHeader::new(route, 1).without_loops(),
            session_id: packet.session_id,
        };
        self.try_send(&fresh)
    }

    /// Sends every still unacknowledged fragment of a session again, each
    /// along a freshly computed route.
    pub fn retry_send_all(&mut self, session_id: u64, from: u8) -> (r: Result<(), NetworkError>)
        requires
            old(self).wf(),
        ensures
            final(self).wf(),
            final(self).sid() == old(self).sid(),
            final(self).spec_session_counter() == old(self).spec_session_counter(),
            final(self).spec_flood_counter() == old(self).spec_flood_counter(),
            final(self).seen() == old(self).seen(),
            final(self).buf() == old(self).buf(),
            forall|x: u8|
                #[trigger] final(self).neighbor_ids().contains(x) ==> old(
                self).neighbor_ids().contains(x),
            forall|x: u8|
                #[trigger] has_node(final(self).net(), x) ==> has_node(old(self).net(), x),
    {
        let packets = match self.buffer.get_not_received(session_id, from) {
            Some(ps) => ps,
            None => {
                return Ok(());
            },
        };
        let mut i: usize = 0;
        while i < packets.len()
            invariant
                i <= packets@.len(),
                self.wf(),
                self.sid() == old(self).sid(),
                self.spec_session_counter() == old(self).spec_session_counter(),
                self.spec_flood_counter() == old(self).spec_flood_counter(),
                self.seen() == old(self).seen(),
                self.buf() == old(self).buf(),
                forall|x: u8|
                    #[trigger] self.neighbor_ids().contains(x) ==> old(
                    self).neighbor_ids().contains(x),
                forall|x: u8| #[trigger] has_node(self.net(), x) ==> has_node(old(self).net(), x),
            decreases packets@.len() - i,
        {
            let ghost tol = *self;
            let packet = &packets[i];
            let dest = match packet.routing_header.destination() {
                Some(d) => d,
                None => {
                    return Err(NetworkError::NoDestination);
                },
            };
            let route = match self.network_view.find_path(dest) {
                Ok(r) => r,
                Err(e) => {
                    return Err(e);
                },
            };
            let fresh = Packet {
                pack_type: packet.pack_type.duplicate(),
                routing_header: SourceRoutingHeader::new(route, 1).without_loops(),
                session_id: packet.session_id,
            };
            match self.try_send(&fresh) {
                Ok(()) => {},
                Err(e) => {
                    return Err(e);
                },
            }
            proof {
                assert forall|x: u8|
                    #[trigger] self.neighbor_ids().contains(x) implies old(
                self).neighbor_ids().contains(x) by {
                    assert(tol.neighbor_ids().contains(x));
                }
                assert forall|x: u8| #[trigger] has_node(self.net(), x) implies has_node(
                    old(self).net(),
                    x,
                ) by {
                    assert(has_node(tol.net(), x));
                }
            }
            i = i + 1;
        }
        Ok(())
    }

    /// Answers one received fragment along the route handed in.
    pub fn send_ack(&mut self, shr: SourceRoutingHeader, session_id: u64, fragment_index: u64)
        -> (r: Result<(), NetworkError>)
        requires
            old(self).wf(),
        ensures
            final(self).wf(),
            final(self).sid() == old(self).sid(),
            final(self).spec_session_counter() == old(self).spec_session_counter(),
            final(self).spec_flood_counter() == old(self).spec_flood_counter(),
            final(self).seen() == old(self).seen(),
            final(self).buf() == old(self).buf(),
            forall|x: u8|
                #[trigger] final(self).neighbor_ids().contains(x) ==> old(
                self).neighbor_ids().contains(x),
            forall|x: u8|
                #[trigger] has_node(final(self).net(), x) ==> has_node(old(self).net(), x),
    {
        let packet = Packet::new_ack(shr, session_id, fragment_index);
        self.try_send(&packet)
    }

    /// Reacts to a negative acknowledgement from `source_id`.  A routing
    /// error prunes the named node, floods anew and retries the named
    /// fragment; a drop or an unexpected recipient prunes and floods; a
    /// destination that turned out to forward is reclassified as a drone,
    /// with no flood at all.
    pub fn handle_nack(&mut self, nack: crate::packet::Nack, session_id: u64, source_id: u8) -> (r:
        Result<(), NetworkError>)
        requires
            old(self).wf(),
            old(self).spec_session_counter() < u64::MAX,
            old(self).spec_flood_counter() < u64::MAX,
        ensures
            final(self).wf(),
            final(self).sid() == old(self).sid(),
            final(self).seen() == old(self).seen(),
            final(self).buf() == old(self).buf(),
            nack.nack_type is DestinationIsDrone ==> final(self).spec_flood_counter() == old(self).spec_flood_counter() && final(self).spec_session_counter() == old(self).spec_session_counter(),
            !(nack.nack_type is DestinationIsDrone) ==> final(self).spec_flood_counter() == old(self).spec_flood_counter() + 1 && final(self).spec_session_counter() == old(self).spec_session_counter() + 1,
            nack.nack_type is DestinationIsDrone ==> r is Ok && final(self).neighbor_ids() == old(
                self).neighbor_ids() && final(self).net() == (if has_node(
                old(self).net(),
                source_id,
            ) {
                old(self).net().update(
                    crate::network::idx_of(old(self).net(), source_id),
                    NodeV {
                        id: source_id,
                        node_type: NodeType::Drone,
                        adjacents: old(self).net()[crate::network::idx_of(
                            old(self).net(),
                            source_id,
                        )].adjacents,
                    },
                )
            } else {
                old(self).net()
            }),
            nack.nack_type matches crate::packet::NackType::ErrorInRouting(id) ==> !final(
                self).neighbor_ids().contains(id),
            nack.nack_type is Dropped && source_id != old(self).sid() ==> !has_node(
                final(self).net(),
                source_id,
            ),
            nack.nack_type matches crate::packet::NackType::UnexpectedRecipient(id) ==> (id
                != old(self).sid() ==> !has_node(final(self).net(), id)),
    {
        match nack.nack_type {
            crate::packet::NackType::ErrorInRouting(id) => {
                self.remove_neighbor(id);
                let ghost mid = *self;
                match self.start_flood() {
                    Ok(()) => {},
                    Err(e) => {
                        proof {
                            assert(!self.neighbor_ids().contains(id)) by {
                                if self.neighbor_ids().contains(id) {
                                    assert(mid.neighbor_ids().contains(id));
                                }
                            }
                        }
                        return Err(e);
                    },
                }
                proof {
                    assert(!self.neighbor_ids().contains(id)) by {
                        if self.neighbor_ids().contains(id) {
                            assert(mid.neighbor_ids().contains(id));
                        }
                    }
                }
                let ghost mid2 = *self;
                match self.retry_send(session_id, nack.fragment_index, source_id) {
                    Ok(()) => {},
                    Err(e) => {
                        proof {
                            assert(!self.neighbor_ids().contains(id)) by {
                                if self.neighbor_ids().contains(id) {
                                    assert(mid2.neighbor_ids().contains(id));
                                }
                            }
                        }
                        return Err(e);
                    },
                }
                proof {
                    assert(!self.neighbor_ids().contains(id)) by {
                        if self.neighbor_ids().contains(id) {
                            assert(mid2.neighbor_ids().contains(id));
                        }
                    }
                }
                Ok(())
            },
            crate::packet::NackType::Dropped => {
                if source_id != self.id {
                    let ghost netold = self.net();
                    let _ = self.network_view.remove_node(source_id);
                    proof {
                        crate::network::lemma_remove_node_gone(netold, source_id);
                    }
                }
                proof {
                    lemma_buf_bound(*old(self), *self);
                }
                let ghost mid = *self;
                match self.start_flood() {
                    Ok(()) => {},
                    Err(e) => {
                        proof {
                            if source_id != old(self).sid() {
                                assert(!has_node(self.net(), source_id)) by {
                                    if has_node(self.net(), source_id) {
                                        assert(has_node(mid.net(), source_id));
                                    }
                                }
                            }
                        }
                        return Err(e);
                    },
                }
                proof {
                    if source_id != old(self).sid() {
                        assert(!has_node(self.net(), source_id)) by {
                            if has_node(self.net(), source_id) {
                                assert(has_node(mid.net(), source_id));
                            }
                        }
                    }
                }
                Ok(())
            },
            crate::packet::NackType::DestinationIsDrone => {
                self.network_view.change_node_type(source_id, NodeType::Drone);
                proof {
                    lemma_buf_bound(*old(self), *self);
                }
                Ok(())
            },
            crate::packet::NackType::UnexpectedRecipient(id) => {
                if id != self.id {
                    let ghost netold = self.net();
                    let _ = self.network_view.remove_node(id);
                    proof {
                        crate::network::lemma_remove_node_gone(netold, id);
                    }
                }
                proof {
                    lemma_buf_bound(*old(self), *self);
                }
                let ghost mid = *self;
                match self.start_flood() {
                    Ok(()) => {},
                    Err(e) => {
                        proof {
                            if id != old(self).sid() {
                                assert(!has_node(self.net(), id)) by {
                                    if has_node(self.net(), id) {
                                        assert(has_node(mid.net(), id));
                                    }
                                }
                            }
                        }
                        return Err(e);
                    },
                }
                proof {
                    if id != old(self).sid() {
                        assert(!has_node(self.net(), id)) by {
                            if has_node(self.net(), id) {
                                assert(has_node(mid.net(), id));
                            }
                        }
                    }
                }
                Ok(())
            },
        }
    }

    /// Learns topology from the trace a returning probe carries: each
    /// traced node is linked to its predecessor and successor, updated if
    /// already known and added otherwise.  Responses of other flood
    /// rounds are discarded.
    pub fn handle_flood_response(&mut self, flood_response: crate::packet::FloodResponse)
        requires
            old(self).wf(),
        ensures
            final(self).wf(),
            final(self).sid() == old(self).sid(),
            final(self).spec_session_counter() == old(self).spec_session_counter(),
            final(self).spec_flood_counter() == old(self).spec_flood_counter(),
            final(self).seen() == old(self).seen(),
            final(self).buf() == old(self).buf(),
            final(self).neighbor_ids() == old(self).neighbor_ids(),
            flood_response@.flood_id != old(self).spec_flood_counter() ==> final(self).net()
                == old(self).net(),
            flood_response@.flood_id == old(self).spec_flood_counter() ==> final(self).net()
                == learn_trace(
                old(self).net(),
                flood_response@.path_trace,
                flood_response@.path_trace.len() as int,
            ),
    {
        if flood_response.flood_id != self.flood_counter {
            return ;
        }
        let ghost net0 = self.net();
        let ghost tr = flood_response.path_trace@;
        let n = flood_response.path_trace.len();
        let mut i: usize = 0;
        while i < n
            invariant
                n == flood_response.path_trace@.len(),
                tr == flood_response.path_trace@,
                net0 == old(self).net(),
                i <= n,
                self.network_view.wf(),
                self.net()[0].id == self.sid(),
                self.net() == learn_trace(net0, tr, i as int),
                self.sid() == old(self).sid(),
                self.neighbor_ids() == old(self).neighbor_ids(),
                self.seen() == old(self).seen(),
                self.buf() == old(self).buf(),
                self.spec_session_counter() == old(self).spec_session_counter(),
                self.spec_flood_counter() == old(self).spec_flood_counter(),
                self.neighbor_ids().no_duplicates(),
                self.seen().no_duplicates(),
                self.buffer.wf(),
                forall|t: int|
                    0 <= t < self.buf().len() ==> (#[trigger] self.buf()[t]).session_id
                        <= self.spec_session_counter(),
            decreases n - i,
        {
            let node_id = flood_response.path_trace[i].0;
            let node_type = flood_response.path_trace[i].1;
            let mut nbrs: Vec<u8> = Vec::new();
            if i > 0 {
                nbrs.push(flood_response.path_trace[i - 1].0);
            }
            if i + 1 < n {
                let succ = flood_response.path_trace[i + 1].0;
                if !crate::network::contains_id(&nbrs, succ) {
                    nbrs.push(succ);
                }
            }
            proof {
                assert(nbrs@.no_duplicates()) by {
                    if nbrs@.len() == 2 {
                        assert(!nbrs@.subrange(0, 1).contains(nbrs@[1]));
                        assert(nbrs@.subrange(0, 1)[0] == nbrs@[0]);
                    }
                }
                assert(nbrs@ =~= trace_neighbors(tr, i as int));
            }
            let ghost netold = self.net();
            match self.network_view.update_node(node_id, nbrs) {
                Ok(()) => {
                    proof {
                        assert(self.net()[0].id == self.sid()) by {
                            let idx = crate::network::idx_of(netold, node_id);
                            if idx == 0 {
                                assert(self.net()[0].id == node_id);
                                assert(netold[idx].id == node_id);
                            } else {
                                assert(self.net()[0] == netold[0]);
                            }
                        }
                        assert(self.net() == learn_trace(net0, tr, i as int + 1)) by {
                            assert(has_node(netold, node_id));
                            assert(learn_trace(net0, tr, i as int + 1) == netold.update(
                                crate::network::idx_of(netold, node_id),
                                NodeV {
                                    id: node_id,
                                    node_type: netold[crate::network::idx_of(
                                        netold,
                                        node_id,
                                    )].node_type,
                                    adjacents: crate::network::union_adj(
                                        crate::network::adj_of(netold, node_id),
                                        trace_neighbors(tr, i as int),
                                    ),
                                },
                            ));
                        }
                    }
                },
                Err(_) => {
                    let mut nbrs2: Vec<u8> = Vec::new();
                    if i > 0 {
                        nbrs2.push(flood_response.path_trace[i - 1].0);
                    }
                    if i + 1 < n {
                        let succ = flood_response.path_trace[i + 1].0;
                        if !crate::network::contains_id(&nbrs2, succ) {
                            nbrs2.push(succ);
                        }
                    }
                    proof {
                        assert(nbrs2@.no_duplicates()) by {
                            if nbrs2@.len() == 2 {
                                assert(!nbrs2@.subrange(0, 1).contains(nbrs2@[1]));
                                assert(nbrs2@.subrange(0, 1)[0] == nbrs2@[0]);
                            }
                        }
                        assert(nbrs2@ =~= trace_neighbors(tr, i as int));
                    }
                    let node = Node::new(node_id, node_type, nbrs2);
                    let res = self.network_view.add_node(node);
                    proof {
                        assert(self.net() == crate::network::add_node_result(netold, node@));
                        assert(self.net()[0].id == self.sid()) by {
                            assert(self.net()[0] == crate::network::add_node_result(
                                netold,
                                node@,
                            )[0]);
                            assert(self.net().len() == netold.len() + 1);
                        }
                        assert(self.net() == learn_trace(net0, tr, i as int + 1)) by {
                            assert(!has_node(netold, node_id));
                            assert(node@ =~= (NodeV {
                                id: node_id,
                                node_type: tr[i as int].1,
                                adjacents: trace_neighbors(tr, i as int),
                            }));
                        }
                    }
                },
            }
            i = i + 1;
        }
    }

    /// Reacts to a topology probe.  The probe's key is recorded; a probe
    /// seen before, or arriving at a leaf, is terminated with at most one
    /// response that retraces the probe's path, while only a first
    /// sighting at a non leaf is relayed, to every neighbor except the
    /// one it came from: duplicates never propagate further.
    pub fn handle_flood_request(
        &mut self,
        flood_request: crate::packet::FloodRequest,
        session_id: u64,
    ) -> (r: Result<(), NetworkError>)
        requires
            old(self).wf(),
        ensures
            final(self).wf(),
            final(self).sid() == old(self).sid(),
            final(self).spec_session_counter() == old(self).spec_session_counter(),
            final(self).spec_flood_counter() == old(self).spec_flood_counter(),
            final(self).buf() == old(self).buf(),
            final(self).seen() == if old(self).seen().contains(
                (flood_request@.flood_id, flood_request@.initiator_id),
            ) {
                old(self).seen()
            } else {
                old(self).seen().push((flood_request@.flood_id, flood_request@.initiator_id))
            },
            final(self).seen().contains((flood_request@.flood_id, flood_request@.initiator_id)),
            !flood_terminates(
                old(self).seen(),
                old(self).neighbor_ids().len() as int,
                (flood_request@.flood_id, flood_request@.initiator_id),
            ) ==> final(self).neighbor_ids() == old(self).neighbor_ids() && final(self).net()
                == old(self).net(),
            forall|x: u8|
                #[trigger] final(self).neighbor_ids().contains(x) ==> old(
                self).neighbor_ids().contains(x),
            forall|x: u8|
                #[trigger] has_node(final(self).net(), x) ==> has_node(old(self).net(), x),
    {
        let prev_hop = if flood_request.path_trace.len() > 0 {
            flood_request.path_trace[flood_request.path_trace.len() - 1].0
        } else {
            flood_request.initiator_id
        };
        let mut req = flood_request;
        req.path_trace.push((self.id, NodeType::Drone));
        let key = (req.flood_id, req.initiator_id);
        let fresh = self.note_flood_seen(key);
        if !fresh || self.neighbors.len() == 1 {
            let route = match self.network_view.find_path(req.initiator_id) {
                Ok(path) => SourceRoutingHeader::new(path, 1),
                Err(_) => {
                    let m = req.path_trace.len();
                    let mut back: Vec<u8> = Vec::new();
                    let mut t: usize = 0;
                    while t < m
                        invariant
                            m == req.path_trace@.len(),
                            t <= m,
                            back@.len() == t,
                        decreases m - t,
                    {
                        back.push(req.path_trace[m - 1 - t].0);
                        t = t + 1;
                    }
                    let needs_push = if back.len() == 0 {
                        true
                    } else {
                        back[back.len() - 1] != req.initiator_id
                    };
                    if needs_push {
                        back.push(req.initiator_id);
                    }
                    SourceRoutingHeader::new(back, 1)
                },
            };
            let resp = crate::packet::FloodResponse {
                flood_id: req.flood_id,
                path_trace: req.path_trace,
            };
            let packet = Packet::new_flood_response(route, session_id, resp);
            match self.try_send(&packet) {
                Ok(()) => {},
                Err(e) => {
                    return Err(e);
                },
            }
            return Ok(());
        }
        let srh = SourceRoutingHeader::new(Vec::new(), 0);
        let fwd = Packet::new_flood_request(srh, session_id, req);
        let mut i: usize = 0;
        while i < self.neighbors.len()
            invariant
                i <= self.neighbors@.len(),
                self.wf(),
                self.sid() == old(self).sid(),
                self.spec_session_counter() == old(self).spec_session_counter(),
                self.spec_flood_counter() == old(self).spec_flood_counter(),
                self.buf() == old(self).buf(),
                self.neighbor_ids() == old(self).neighbor_ids(),
                self.net() == old(self).net(),
                !old(self).seen().contains((flood_request@.flood_id, flood_request@.initiator_id)),
                self.seen() == old(self).seen().push(
                    (flood_request@.flood_id, flood_request@.initiator_id),
                ),
                self.seen().contains((flood_request@.flood_id, flood_request@.initiator_id)),
            decreases self.neighbors@.len() - i,
        {
            if self.neighbors[i].0 != prev_hop {
                if self.neighbors[i].1.send(fwd.duplicate()).is_err() {
                    return Err(
                        NetworkError::SendError(String::from_str("neighbor channel closed")),
                    );
                }
            }
            i = i + 1;
        }
        Ok(())
    }

    /// Dispatches one inbound packet.  A fragment is acknowledged along
    /// the reversed route and handed to the assembler; when that
    /// completes a payload, the payload with its origin and session is
    /// returned for the application layer.  Acknowledgements, negative
    /// acknowledgements and flood traffic go to their handlers.
    pub fn handle_packet(
        &mut self,
        packet: Packet,
        assembler: &mut crate::assembler::FragmentAssembler,
    ) -> (r: Result<Option<(Vec<u8>, u8, u64)>, NetworkError>)
        requires
            old(self).wf(),
            old(assembler).wf(),
            old(self).spec_session_counter() < u64::MAX,
            old(self).spec_flood_counter() < u64::MAX,
            (packet@.pack_type matches PacketTypeV::MsgFragment(f) ==> f.wf()
                && packet@.routing_header.hops.len() > 0),
            (packet@.pack_type is Ack ==> packet@.routing_header.hops.len() > 0),
            (packet@.pack_type is Nack ==> packet@.routing_header.hops.len() > 0),
        ensures
            final(self).wf(),
            final(assembler).wf(),
            final(self).sid() == old(self).sid(),
            r matches Ok(Some(_)) ==> packet@.pack_type is MsgFragment,
            packet@.pack_type matches PacketTypeV::MsgFragment(f) ==> ({
                let origin = packet@.routing_header.hops[0];
                let sid = packet@.session_id;
                &&& (r is Ok ==> final(assembler)@ == crate::assembler::store_after(
                    old(assembler)@,
                    f,
                    sid,
                    origin,
                ))
                &&& (r is Err ==> final(assembler)@ == old(assembler)@)
                &&& (r matches Ok(o) ==> (o is Some <==> crate::assembler::completes(
                    old(assembler)@,
                    f,
                    sid,
                    origin,
                )))
                &&& (r matches Ok(Some(out)) ==> out.1 == origin && out.2 == sid && (exists|
                    t: Seq<crate::packet::FragmentV>,
                |
                    crate::assembler::sorted_by_index(t) && t.to_multiset()
                        == crate::assembler::stored(old(assembler)@, sid, origin).push(
                        f,
                    ).to_multiset() && (#[trigger] crate::assembler::assemble(t)) == out.0@))
            }),
            packet@.pack_type matches PacketTypeV::Ack(a) ==> ({
                let origin = packet@.routing_header.hops[0];
                let sid = packet@.session_id;
                &&& r == Ok::<Option<(Vec<u8>, u8, u64)>, NetworkError>(None)
                &&& final(assembler)@ == old(assembler)@
                &&& final(self).spec_session_counter() == old(self).spec_session_counter()
                &&& final(self).spec_flood_counter() == old(self).spec_flood_counter()
                &&& final(self).seen() == old(self).seen()
                &&& final(self).net() == old(self).net()
                &&& final(self).neighbor_ids() == old(self).neighbor_ids()
                &&& (!has_buf_entry(old(self).buf(), sid, origin) ==> final(self).buf() == old(
                    self).buf())
                &&& (has_buf_entry(old(self).buf(), sid, origin) ==> ({
                    let k = buf_entry_at(old(self).buf(), sid, origin);
                    let e = old(self).buf()[k];
                    if (a.fragment_index as int) >= e.packets.len() {
                        final(self).buf() == old(self).buf()
                    } else {
                        let ps2 = e.packets.update(
                            a.fragment_index as int,
                            (true, e.packets[a.fragment_index as int].1),
                        );
                        if crate::buffer::all_acked(ps2) {
                            final(self).buf() == old(self).buf().remove(k)
                        } else {
                            final(self).buf() == old(self).buf().update(
                                k,
                                BufEntryV { session_id: sid, peer: origin, packets: ps2 },
                            )
                        }
                    }
                }))
            }),
            packet@.pack_type matches PacketTypeV::Nack(nk) ==> ({
                let origin = packet@.routing_header.hops[0];
                &&& final(assembler)@ == old(assembler)@
                &&& (r matches Ok(o) ==> o is None)
                &&& final(self).seen() == old(self).seen()
                &&& final(self).buf() == old(self).buf()
                &&& (nk.nack_type is DestinationIsDrone ==> r is Ok && final(
                    self).spec_session_counter() == old(self).spec_session_counter() && final(
                    self).spec_flood_counter() == old(self).spec_flood_counter() && final(
                    self).neighbor_ids() == old(self).neighbor_ids() && final(self).net() == (
                if has_node(old(self).net(), origin) {
                    old(self).net().update(
                        crate::network::idx_of(old(self).net(), origin),
                        NodeV {
                            id: origin,
                            node_type: NodeType::Drone,
                            adjacents: old(self).net()[crate::network::idx_of(
                                old(self).net(),
                                origin,
                            )].adjacents,
                        },
                    )
                } else {
                    old(self).net()
                }))
                &&& (!(nk.nack_type is DestinationIsDrone) ==> final(self).spec_session_counter()
                    == old(self).spec_session_counter() + 1 && final(self).spec_flood_counter()
                    == old(self).spec_flood_counter() + 1)
                &&& (nk.nack_type matches crate::packet::NackType::ErrorInRouting(id) ==> !final(
                    self).neighbor_ids().contains(id))
                &&& (nk.nack_type is Dropped ==> (origin != old(self).sid() ==> !has_node(
                    final(self).net(),
                    origin,
                )))
                &&& (nk.nack_type matches crate::packet::NackType::UnexpectedRecipient(id) ==> (id
                    != old(self).sid() ==> !has_node(final(self).net(), id)))
            }),
            packet@.pack_type matches PacketTypeV::FloodRequest(q) ==> ({
                &&& final(assembler)@ == old(assembler)@
                &&& (r matches Ok(o) ==> o is None)
                &&& final(self).spec_session_counter() == old(self).spec_session_counter()
                &&& final(self).spec_flood_counter() == old(self).spec_flood_counter()
                &&& final(self).buf() == old(self).buf()
                &&& final(self).seen().contains((q.flood_id, q.initiator_id))
            }),
            packet@.pack_type matches PacketTypeV::FloodResponse(p2) ==> ({
                &&& r == Ok::<Option<(Vec<u8>, u8, u64)>, NetworkError>(None)
                &&& final(assembler)@ == old(assembler)@
                &&& final(self).spec_session_counter() == old(self).spec_session_counter()
                &&& final(self).spec_flood_counter() == old(self).spec_flood_counter()
                &&& final(self).seen() == old(self).seen()
                &&& final(self).buf() == old(self).buf()
                &&& final(self).neighbor_ids() == old(self).neighbor_ids()
                &&& (p2.flood_id != old(self).spec_flood_counter() ==> final(self).net() == old(
                    self).net())
                &&& (p2.flood_id == old(self).spec_flood_counter() ==> final(self).net()
                    == learn_trace(old(self).net(), p2.path_trace, p2.path_trace.len() as int))
            }),
    {
        let Packet { pack_type, routing_header, session_id } = packet;
        match pack_type {
            crate::packet::PacketType::MsgFragment(fragment) => {
                let idx = fragment.fragment_index;
                let origin = routing_header.hops[0];
                let mut rev = routing_header.duplicate();
                rev.reverse();
                rev.increase_hop_index();
                proof {
                    assert(rev@.hop_index == 1);
                }
                match self.send_ack(rev, session_id, idx) {
                    Ok(()) => {},
                    Err(e) => {
                        return Err(e);
                    },
                }
                if let Some(msg) = assembler.add_fragment(fragment, session_id, origin) {
                    return Ok(Some((msg, origin, session_id)));
                }
                Ok(None)
            },
            crate::packet::PacketType::Ack(ack) => {
                let origin = routing_header.hops[0];
                self.handle_ack(ack, session_id, origin);
                Ok(None)
            },
            crate::packet::PacketType::Nack(nack) => {
                let origin = routing_header.hops[0];
                match self.handle_nack(nack, session_id, origin) {
                    Ok(()) => Ok(None),
                    Err(e) => Err(e),
                }
            },
            crate::packet::PacketType::FloodRequest(fr) => {
                match self.handle_flood_request(fr, session_id) {
                    Ok(()) => Ok(None),
                    Err(e) => Err(e),
                }
            },
            crate::packet::PacketType::FloodResponse(fr) => {
                self.handle_flood_response(fr);
                Ok(None)
            },
        }
    }
}

} // verus!
