//! The discovered topology: nodes with their declared role and adjacency,
//! rooted at the local node, with breadth-first source-route computation.

use vstd::prelude::*;
use crate::packet::NodeType;
use crate::packet::copy_vec;

verus! {

/// Everything that can go wrong inside the routing core.
#[derive(Debug)]
pub enum NetworkError {
    /// Two endpoints claimed to neighbor each other without a drone link.
    TopologyError,
    PathNotFound(u8),
    NodeNotFound(u8),
    NodeIsNotANeighbor(u8),
    SendError(String),
    ControllerDisconnected,
    NoDestination,
    /// No neighbor is left to route through.
    NoNeighborAssigned,
    EmptyMessage,
}

impl NetworkError {
    /// The error as readable text.
    pub open spec fn message_spec(&self) -> Seq<char> {
        match self {
            NetworkError::TopologyError => "Topology error"@,
            NetworkError::PathNotFound(id) => "Path not found for node "@ + crate::text::dec_digits(
                *id as int,
            ),
            NetworkError::NodeNotFound(id) => "Node "@ + crate::text::dec_digits(*id as int)
                + " not found"@,
            NetworkError::NodeIsNotANeighbor(id) => "Node "@ + crate::text::dec_digits(*id as int)
                + " is not a neighbor"@,
            NetworkError::SendError(m) => "Send error: "@ + m@,
            NetworkError::ControllerDisconnected => "Controller disconnected"@,
            NetworkError::NoDestination => "Packet has no destination specified"@,
            NetworkError::NoNeighborAssigned => "No neighbor is assigned"@,
            NetworkError::EmptyMessage => "Cannot send an empty message"@,
        }
    }

    /// Renders the error as readable text.
    pub fn message(&self) -> (r: String)
        ensures
            r@ == self.message_spec(),
    {
        match self {
            NetworkError::TopologyError => String::from_str("Topology error"),
            NetworkError::PathNotFound(id) => {
                let mut s = String::from_str("Path not found for node ");
                s.append(crate::text::u8_to_string(*id).as_str());
                s
            },
            NetworkError::NodeNotFound(id) => {
                let mut s = String::from_str("Node ");
                s.append(crate::text::u8_to_string(*id).as_str());
                s.append(" not found");
                s
            },
            NetworkError::NodeIsNotANeighbor(id) => {
                let mut s = String::from_str("Node ");
                s.append(crate::text::u8_to_string(*id).as_str());
                s.append(" is not a neighbor");
                s
            },
            NetworkError::SendError(m) => {
                let mut s = String::from_str("Send error: ");
                s.append(m.as_str());
                s
            },
            NetworkError::ControllerDisconnected => String::from_str("Controller disconnected"),
            NetworkError::NoDestination => String::from_str("Packet has no destination specified"),
            NetworkError::NoNeighborAssigned => String::from_str("No neighbor is assigned"),
            NetworkError::EmptyMessage => String::from_str("Cannot send an empty message"),
        }
    }
}

/// One discovered node: its id, its declared role, and the ids it claims
/// as neighbors.  Adjacency is kept free of duplicates.
#[derive(Debug)]
pub struct Node {
    id: u8,
    node_type: NodeType,
    adjacents: Vec<u8>,
}

/// Mathematical view of a `Node`.
#[verifier::ext_equal]
pub struct NodeV {
    pub id: u8,
    pub node_type: NodeType,
    pub adjacents: Seq<u8>,
}

impl View for Node {
    type V = NodeV;

    closed spec fn view(&self) -> NodeV {
        NodeV { id: self.id, node_type: self.node_type, adjacents: self.adjacents@ }
    }
}

impl NodeV {
    pub open spec fn wf(self) -> bool {
        self.adjacents.no_duplicates()
    }
}

impl Node {
    pub fn new(id: u8, node_type: NodeType, adjacents: Vec<u8>) -> (r: Node)
        requires
            adjacents@.no_duplicates(),
        ensures
            r@ == (NodeV { id, node_type, adjacents: adjacents@ }),
            r@.wf(),
    {
        Node { id, node_type, adjacents }
    }

    pub fn get_id(&self) -> (r: u8)
        ensures
            r == self@.id,
    {
        self.id
    }

    pub fn get_node_type(&self) -> (r: NodeType)
        ensures
            r == self@.node_type,
    {
        self.node_type
    }

    pub fn get_adjacents(&self) -> (r: &Vec<u8>)
        ensures
            r@ == self@.adjacents,
    {
        &self.adjacents
    }

    /// Declares one more neighbor; the caller keeps adjacency duplicate free.
    pub fn add_adjacent(&mut self, adj: u8)
        requires
            !old(self)@.adjacents.contains(adj),
        ensures
            final(self)@.id == old(self)@.id,
            final(self)@.node_type == old(self)@.node_type,
            final(self)@.adjacents == old(self)@.adjacents.push(adj),
    {
        self.adjacents.push(adj);
    }

    /// Withdraws a declared neighbor, which must be present.
    pub fn remove_adjacent(&mut self, adj: u8)
        requires
            old(self)@.adjacents.contains(adj),
            old(self)@.wf(),
        ensures
            final(self)@.id == old(self)@.id,
            final(self)@.node_type == old(self)@.node_type,
            final(self)@.adjacents == old(self)@.adjacents.remove_value(adj),
            final(self)@.wf(),
    {
        let mut i: usize = 0;
        while i < self.adjacents.len()
            invariant
                i <= self@.adjacents.len(),
                self@ == old(self)@,
                self@.adjacents.no_duplicates(),
                forall|k: int| 0 <= k < i ==> self@.adjacents[k] != adj,
                self@.adjacents.contains(adj),
            decreases self@.adjacents.len() - i,
        {
            if self.adjacents[i] == adj {
                proof {
                    let s = old(self)@.adjacents;
                    s.index_of_first_ensures(adj);
                    assert(s.index_of_first(adj) == Some(i as int));
                }
                self.adjacents.remove(i);
                proof {
                    let s = old(self)@.adjacents;
                    assert forall|a: int, b: int|
                        0 <= a < b < s.remove(i as int).len() implies s.remove(i as int)[a] != s.remove(
                        i as int,
                    )[b] by {
                        s.remove_ensures(i as int);
                        let a2: int = if a < i { a } else { a + 1 };
                        let b2: int = if b < i { b } else { b + 1 };
                        assert(s.remove(i as int)[a] == s[a2]);
                        assert(s.remove(i as int)[b] == s[b2]);
                    }
                }
                return ;
            }
            i = i + 1;
        }
        proof {
            let s = self@.adjacents;
            s.index_of_first_ensures(adj);
            let first = s.index_of_first(adj).unwrap();
            assert(s[first] == adj);
            assert(false);
        }
    }
}

/// The whole discovered topology.  The node at index 0 is always the local
/// node, the root of every computed route.
#[derive(Debug)]
pub struct Network {
    pub nodes: Vec<Node>,
}

impl View for Network {
    type V = Seq<NodeV>;

    open spec fn view(&self) -> Seq<NodeV> {
        self.nodes@.map_values(|n: Node| n@)
    }
}

/// Whether an entry with this id exists.
pub open spec fn has_node(net: Seq<NodeV>, id: u8) -> bool {
    exists|i: int| 0 <= i < net.len() && net[i].id == id
}

/// The index of the entry with this id, meaningful when `has_node` holds.
pub open spec fn idx_of(net: Seq<NodeV>, id: u8) -> int {
    choose|i: int| 0 <= i < net.len() && net[i].id == id
}

/// The declared adjacency of a present node.
pub open spec fn adj_of(net: Seq<NodeV>, id: u8) -> Seq<u8> {
    net[idx_of(net, id)].adjacents
}

/// A directed link of the discovered topology: `a` is present and claims
/// `b` as a neighbor.
pub open spec fn edge(net: Seq<NodeV>, a: u8, b: u8) -> bool {
    has_node(net, a) && adj_of(net, a).contains(b)
}

/// A walk that starts at the local node and follows declared links.
pub open spec fn valid_walk(net: Seq<NodeV>, p: Seq<u8>) -> bool {
    &&& p.len() >= 1
    &&& net.len() >= 1
    &&& p[0] == net[0].id
    &&& forall|i: int| 0 <= i < p.len() - 1 ==> #[trigger] edge(net, p[i], p[i + 1])
}

/// A route from the local node to `dest`.
pub open spec fn is_path(net: Seq<NodeV>, p: Seq<u8>, dest: u8) -> bool {
    valid_walk(net, p) && p.last() == dest
}

/// The adjacency union that `update_node` performs: each id of `add` that
/// is not yet present is appended, in order.
pub open spec fn union_adj(s: Seq<u8>, add: Seq<u8>) -> Seq<u8>
    decreases add.len(),
{
    if add.len() == 0 {
        s
    } else if s.contains(add[0]) {
        union_adj(s, add.skip(1))
    } else {
        union_adj(s.push(add[0]), add.skip(1))
    }
}

/// Whether appending `node` must be refused: some declared adjacent is
/// present and neither side is a drone.
pub open spec fn add_node_violation(net: Seq<NodeV>, node: NodeV) -> bool {
    exists|i: int|
        0 <= i < net.len() && node.adjacents.contains(net[i].id) && node.node_type != NodeType::Drone
            && net[i].node_type != NodeType::Drone
}

/// The topology `add_node` leaves behind: each present adjacent of
/// `node` linked through at least one drone gains the back reference,
/// then `node` is appended.
pub open spec fn add_node_result(net: Seq<NodeV>, node: NodeV) -> Seq<NodeV> {
    net.map(
        |i: int, m: NodeV|
            if node.adjacents.contains(m.id) && (node.node_type == NodeType::Drone || m.node_type
                == NodeType::Drone) && !m.adjacents.contains(node.id) {
                NodeV { id: m.id, node_type: m.node_type, adjacents: m.adjacents.push(node.id) }
            } else {
                m
            },
    ).push(node)
}

/// The topology `remove_node` leaves behind: the id disappears from every
/// adjacency, and the entry itself, if present, is dropped.
pub open spec fn remove_node_result(net: Seq<NodeV>, id: u8) -> Seq<NodeV> {
    let scrubbed = net.map(
        |i: int, m: NodeV|
            NodeV { id: m.id, node_type: m.node_type, adjacents: m.adjacents.remove_value(id) },
    );
    if has_node(net, id) {
        scrubbed.remove(idx_of(net, id))
    } else {
        scrubbed
    }
}

impl Network {
    /// Well formed: the local node exists at index 0, ids are unique, and
    /// every adjacency list is duplicate free.
    pub open spec fn wf(&self) -> bool {
        &&& self@.len() >= 1
    &&& forall|i: int, j: int| 0 <= i < j < self@.len() ==> self@[i].id != self@[j].id
        &&& forall|i: int| 0 <= i < self@.len() ==> (#[trigger] self@[i]).wf()
    }

    pub fn new(root: Node) -> (r: Network)
        requires
            root@.wf(),
        ensures
            r@ == seq![root@],
            r.wf(),
    {
        let mut nodes: Vec<Node> = Vec::new();
        nodes.push(root);
        let r = Network { nodes };
        proof {
            assert(r@ =~= seq![root@]);
        }
        r
    }

    /// The index of the entry carrying `id`, if any.
    fn find_index(&self, id: u8) -> (r: Option<usize>)
        ensures
            match r {
                Some(i) => i < self@.len() && self@[i as int].id == id,
                None => !has_node(self@, id),
            },
    {
        let mut i: usize = 0;
        while i < self.nodes.len()
            invariant
                i <= self@.len(),
                self@.len() == self.nodes@.len(),
                forall|k: int| 0 <= k < i ==> self@[k].id != id,
            decreases self@.len() - i,
        {
            if self.nodes[i].get_id() == id {
                return Some(i);
            }
            i = i + 1;
        }
        None
    }

    /// Appends a newly observed node.  Every already present node the new
    /// one claims as adjacent gains the back reference, provided at least
    /// one of the two is a drone; two endpoints claiming each other
    /// without a drone link are reported as a topology violation, though
    /// the node itself is still recorded.
    pub fn add_node(&mut self, new_node: Node) -> (r: Result<(), NetworkError>)
        requires
            old(self).wf(),
            new_node@.wf(),
            !has_node(old(self)@, new_node@.id),
        ensures
            r is Ok <==> !add_node_violation(old(self)@, new_node@),
            r is Err ==> r == Err::<(), NetworkError>(NetworkError::TopologyError),
            final(self)@ == add_node_result(old(self)@, new_node@),
            final(self).wf(),
    {
        let n = self.nodes.len();
        let ghost mapped = old(self)@.map(
            |k: int, m: NodeV|
                if new_node@.adjacents.contains(m.id) && (new_node@.node_type == NodeType::Drone
                    || m.node_type == NodeType::Drone) && !m.adjacents.contains(new_node@.id) {
                    NodeV {
                        id: m.id,
                        node_type: m.node_type,
                        adjacents: m.adjacents.push(new_node@.id),
                    }
                } else {
                    m
                },
        );
        proof {
            assert forall|k: int| 0 <= k < n implies (#[trigger] mapped[k]).id == old(self)@[k].id
                && mapped[k].wf() by {
                if new_node@.adjacents.contains(old(self)@[k].id) && (new_node@.node_type
                    == NodeType::Drone || old(self)@[k].node_type == NodeType::Drone) && !old(
                    self,
                )@[k].adjacents.contains(new_node@.id) {
                    lemma_push_no_dup(old(self)@[k].adjacents, new_node@.id);
                }
            }
        }
        let mut violation: bool = false;
        let mut i: usize = 0;
        while i < n
            invariant
                n == self@.len(),
                n == self.nodes@.len(),
                i <= n,
                old(self).wf(),
                mapped.len() == n,
                forall|k: int| 0 <= k < i ==> self@[k] == mapped[k],
                forall|k: int| i <= k < n ==> self@[k] == old(self)@[k],
                forall|k: int|
                    0 <= k < n ==> (#[trigger] mapped[k]) == if new_node@.adjacents.contains(
                        old(self)@[k].id,
                    ) && (new_node@.node_type == NodeType::Drone || old(self)@[k].node_type
                        == NodeType::Drone) && !old(self)@[k].adjacents.contains(new_node@.id) {
                        NodeV {
                            id: old(self)@[k].id,
                            node_type: old(self)@[k].node_type,
                            adjacents: old(self)@[k].adjacents.push(new_node@.id),
                        }
                    } else {
                        old(self)@[k]
                    },
                forall|k: int| 0 <= k < n ==> (#[trigger] mapped[k]).id == old(self)@[k].id
                    && mapped[k].wf(),
                violation == exists|k: int|
                    0 <= k < i && new_node@.adjacents.contains((#[trigger] old(self)@[k]).id)
                        && new_node@.node_type != NodeType::Drone && old(self)@[k].node_type
                        != NodeType::Drone,
            decreases n - i,
        {
            proof {
                assert(self.nodes@[i as int]@ == self@[i as int]);
            }
            let here = self.nodes[i].get_id();
            if contains_id(&new_node.adjacents, here) {
                let nt = new_node.get_node_type();
                let mt = self.nodes[i].get_node_type();
                if nt == NodeType::Drone || mt == NodeType::Drone {
                    if !contains_id(&self.nodes[i].adjacents, new_node.id) {
                        self.nodes[i].add_adjacent(new_node.id);
                        proof {
                            assert(self@[i as int] =~= mapped[i as int]);
                        }
                    } else {
                        proof {
                            assert(self@[i as int] =~= mapped[i as int]);
                        }
                    }
                } else {
                    violation = true;
                    proof {
                        assert(self@[i as int] =~= mapped[i as int]);
                        assert(new_node@.adjacents.contains(old(self)@[i as int].id));
                    }
                }
            } else {
                proof {
                    assert(self@[i as int] =~= mapped[i as int]);
                }
            }
            proof {
                if violation {
                    assert(exists|k: int|
                        0 <= k < i + 1 && new_node@.adjacents.contains(
                            (#[trigger] old(self)@[k]).id,
                        ) && new_node@.node_type != NodeType::Drone && old(self)@[k].node_type
                            != NodeType::Drone);
                }
            }
            i = i + 1;
        }
        self.nodes.push(new_node);
        proof {
            assert(final(self)@ =~= mapped.push(new_node@));
            assert(final(self)@ == add_node_result(old(self)@, new_node@));
            assert(violation == add_node_violation(old(self)@, new_node@));
            assert forall|a: int, b: int|
                0 <= a < b < final(self)@.len() implies final(self)@[a].id != final(self)@[b].id by {
                if b < final(self)@.len() - 1 {
                    assert(final(self)@[a].id == old(self)@[a].id);
                } else {
                    assert(final(self)@[b].id == new_node@.id);
                    assert(old(self)@[a].id != new_node@.id) by {
                        if old(self)@[a].id == new_node@.id {
                            assert(has_node(old(self)@, new_node@.id));
                        }
                    }
                }
            }
            assert forall|k: int| 0 <= k < final(self)@.len() implies (#[trigger] final(self)@[k]).wf() by {
                if k < final(self)@.len() - 1 {
                    assert(final(self)@[k] == mapped[k]);
                }
            }
        }
        if violation {
            Err(NetworkError::TopologyError)
        } else {
            Ok(())
        }
    }

    /// Removes a node: the id disappears from every adjacency list, and
    /// the entry itself is dropped.  Absent ids only scrub adjacency and
    /// report `NodeNotFound`.  The local node itself cannot be removed.
    pub fn remove_node(&mut self, node_id: u8) -> (r: Result<(), NetworkError>)
        requires
            old(self).wf(),
            node_id != old(self)@[0].id,
        ensures
            final(self)@ == remove_node_result(old(self)@, node_id),
            r is Ok <==> has_node(old(self)@, node_id),
            r is Err ==> r == Err::<(), NetworkError>(NetworkError::NodeNotFound(node_id)),
            final(self).wf(),
            final(self)@[0] == (NodeV {
                id: old(self)@[0].id,
                node_type: old(self)@[0].node_type,
                adjacents: old(self)@[0].adjacents.remove_value(node_id),
            }),
    {
        let ghost scrubbed = old(self)@.map(
            |k: int, m: NodeV|
                NodeV {
                    id: m.id,
                    node_type: m.node_type,
                    adjacents: m.adjacents.remove_value(node_id),
                },
        );
        proof {
            assert forall|k: int| 0 <= k < old(self)@.len() implies (#[trigger] scrubbed[k]).id
                == old(self)@[k].id && scrubbed[k].wf() && !scrubbed[k].adjacents.contains(node_id)
            by {
                lemma_remove_value_no_dup(old(self)@[k].adjacents, node_id);
            }
        }
        let n = self.nodes.len();
        let mut i: usize = 0;
        while i < n
            invariant
                n == self@.len(),
                n == self.nodes@.len(),
                scrubbed.len() == n,
                old(self)@.len() == n,
                i <= n,
                old(self).wf(),
                forall|k: int| 0 <= k < i ==> self@[k] == scrubbed[k],
                forall|k: int| i <= k < n ==> self@[k] == old(self)@[k],
                forall|k: int|
                    0 <= k < n ==> (#[trigger] scrubbed[k]) == (NodeV {
                        id: old(self)@[k].id,
                        node_type: old(self)@[k].node_type,
                        adjacents: old(self)@[k].adjacents.remove_value(node_id),
                    }),
                forall|k: int| 0 <= k < n ==> (#[trigger] scrubbed[k]).id == old(self)@[k].id
                    && scrubbed[k].wf(),
            decreases n - i,
        {
            proof {
                assert(self.nodes@[i as int]@ == self@[i as int]);
                assert(self@[i as int] == old(self)@[i as int]);
                assert(old(self)@[i as int].wf());
            }
            if contains_id(&self.nodes[i].adjacents, node_id) {
                self.nodes[i].remove_adjacent(node_id);
                proof {
                    assert(self@[i as int] =~= scrubbed[i as int]);
                }
            } else {
                proof {
                    let s = old(self)@[i as int].adjacents;
                    s.index_of_first_ensures(node_id);
                    assert(s.remove_value(node_id) == s);
                    assert(self@[i as int] =~= scrubbed[i as int]);
                }
            }
            i = i + 1;
        }
        proof {
            assert(self@ =~= scrubbed);
        }
        match self.find_index(node_id) {
            Some(idx) => {
                proof {
                    assert(has_node(old(self)@, node_id)) by {
                        assert(old(self)@[idx as int].id == node_id);
                    }
                    assert(idx_of(old(self)@, node_id) == idx as int) by {
                        let j = idx_of(old(self)@, node_id);
                        assert(old(self)@[j].id == node_id);
                    }
                    assert(idx != 0);
                }
                self.nodes.remove(idx);
                proof {
                    assert(final(self)@ =~= scrubbed.remove(idx as int));
                    scrubbed.remove_ensures(idx as int);
                    assert forall|a: int, b: int|
                        0 <= a < b < final(self)@.len() implies final(self)@[a].id
                        != final(self)@[b].id by {
                        let a2: int = if a < idx { a } else { a + 1 };
                        let b2: int = if b < idx { b } else { b + 1 };
                        assert(final(self)@[a] == scrubbed[a2]);
                        assert(final(self)@[b] == scrubbed[b2]);
                    }
                    assert(final(self)@[0] == scrubbed[0]);
                }
                Ok(())
            },
            None => {
                proof {
                    if has_node(old(self)@, node_id) {
                        let j = choose|j: int|
                            0 <= j < old(self)@.len() && old(self)@[j].id == node_id;
                        assert(self@[j].id == node_id);
                        assert(has_node(self@, node_id));
                    }
                    assert(final(self)@ == remove_node_result(old(self)@, node_id));
                }
                Err(NetworkError::NodeNotFound(node_id))
            },
        }
    }

    /// Unions the given ids into the adjacency of a present node; a
    /// missing node reports `NodeNotFound` and changes nothing.
    pub fn update_node(&mut self, node_id: u8, adjacents: Vec<u8>) -> (r: Result<
        (),
        NetworkError,
    >)
        requires
            old(self).wf(),
        ensures
            r is Ok <==> has_node(old(self)@, node_id),
            r is Err ==> final(self)@ == old(self)@ && r == Err::<(), NetworkError>(
                NetworkError::NodeNotFound(node_id),
            ),
            r is Ok ==> final(self)@ == old(self)@.update(
                idx_of(old(self)@, node_id),
                NodeV {
                    id: node_id,
                    node_type: old(self)@[idx_of(old(self)@, node_id)].node_type,
                    adjacents: union_adj(adj_of(old(self)@, node_id), adjacents@),
                },
            ),
            final(self).wf(),
    {
        let idx = match self.find_index(node_id) {
            Some(idx) => idx,
            None => {
                return Err(NetworkError::NodeNotFound(node_id));
            },
        };
        proof {
            assert(has_node(self@, node_id)) by {
                assert(self@[idx as int].id == node_id);
            }
            assert(idx_of(old(self)@, node_id) == idx as int) by {
                let j = idx_of(old(self)@, node_id);
                assert(old(self)@[j].id == node_id);
            }
        }
        let ghost start = old(self)@[idx as int].adjacents;
        let ghost goal = union_adj(start, adjacents@);
        proof {
            assert(adjacents@.skip(0) =~= adjacents@);
        }
        let m = adjacents.len();
        let mut j: usize = 0;
        while j < m
            invariant
                m == adjacents@.len(),
                j <= m,
                idx < self@.len(),
                self@.len() == old(self)@.len(),
                self.nodes@.len() == self@.len(),
                forall|k: int| 0 <= k < self@.len() && k != idx ==> self@[k] == old(self)@[k],
                self@[idx as int].id == old(self)@[idx as int].id,
                self@[idx as int].node_type == old(self)@[idx as int].node_type,
                self@[idx as int].wf(),
                old(self).wf(),
                union_adj(self@[idx as int].adjacents, adjacents@.skip(j as int)) == goal,
            decreases m - j,
        {
            let a = adjacents[j];
            let ghost cur = self@[idx as int].adjacents;
            proof {
                assert(adjacents@.skip(j as int).len() > 0);
                assert(adjacents@.skip(j as int)[0] == adjacents@[j as int]);
                assert(adjacents@.skip(j as int).skip(1) =~= adjacents@.skip(j as int + 1));
            }
            if !contains_id(&self.nodes[idx].adjacents, a) {
                self.nodes[idx].add_adjacent(a);
                proof {
                    assert(union_adj(cur, adjacents@.skip(j as int)) == union_adj(
                        cur.push(a),
                        adjacents@.skip(j as int + 1),
                    ));
                    lemma_push_no_dup(cur, a);
                }
            } else {
                proof {
                    assert(union_adj(cur, adjacents@.skip(j as int)) == union_adj(
                        cur,
                        adjacents@.skip(j as int + 1),
                    ));
                }
            }
            j = j + 1;
        }
        proof {
            assert(adjacents@.skip(m as int) =~= Seq::<u8>::empty());
            assert(union_adj(self@[idx as int].adjacents, Seq::<u8>::empty())
                == self@[idx as int].adjacents);
            assert(final(self)@ =~= old(self)@.update(
                idx as int,
                NodeV {
                    id: node_id,
                    node_type: old(self)@[idx as int].node_type,
                    adjacents: goal,
                },
            ));
        }
        Ok(())
    }

    /// Computes a route from the local node to `destination` by breadth
    /// first search over the declared links, visiting adjacencies in
    /// insertion order.  The route follows existing links, repeats no id,
    /// is as short as any route at all, and the search fails exactly when
    /// no route exists.
    pub fn find_path(&self, destination: u8) -> (r: Result<Vec<u8>, NetworkError>)
        requires
            self.wf(),
        ensures
            r is Ok ==> is_path(self@, r->Ok_0@, destination) && r->Ok_0@.no_duplicates(),
            r matches Ok(p) ==> forall|q: Seq<u8>|
                is_path(self@, q, destination) ==> p@.len() <= q.len(),
            r is Err ==> r == Err::<Vec<u8>, NetworkError>(NetworkError::PathNotFound(destination))
                && forall|p: Seq<u8>| !is_path(self@, p, destination),
    {
        let root = self.nodes[0].get_id();
        let mut visited: Vec<u8> = Vec::new();
        let mut paths: Vec<Vec<u8>> = Vec::new();
        let mut queue: Vec<usize> = Vec::new();
        let mut rootpath: Vec<u8> = Vec::new();
        rootpath.push(root);
        visited.push(root);
        paths.push(rootpath);
        queue.push(0);
        let mut qhead: usize = 0;
        let ghost mut processed: Set<u8> = Set::empty();
        let ghost mut dist: Map<u8, int> = Map::<u8, int>::empty().insert(root, 1);
        proof {
            assert(visited@ =~= seq![root]);
            assert(self@[0].id == root);
            assert(queued(queue@, 0, 0)) by {
                assert(queue@[0] as int == 0);
            }
            assert(paths@[0]@.len() == 1);
        }
        while qhead < queue.len()
            invariant
                self.wf(),
                root == self@[0].id,
                visited@.len() == paths@.len(),
                visited@.len() >= 1,
                visited@[0] == root,
                visited@.no_duplicates(),
                visited@.len() <= 256,
                qhead <= queue@.len(),
                queue@.len() <= visited@.len(),
                forall|t: int| 0 <= t < queue@.len() ==> (#[trigger] queue@[t]) < visited@.len(),
                forall|k: int|
                    0 <= k < visited@.len() ==> valid_walk(self@, (#[trigger] paths@[k])@)
                        && paths@[k]@.last() == visited@[k] && paths@[k]@.no_duplicates(),
                forall|k: int, x: u8|
                    0 <= k < visited@.len() && #[trigger] paths@[k]@.contains(x)
                        ==> visited@.contains(x),
                forall|x: u8| processed.contains(x) ==> visited@.contains(x),
                forall|k: int|
                    0 <= k < visited@.len() ==> processed.contains(#[trigger] visited@[k])
                        || queued(queue@, qhead as int, k),
                forall|u: u8, w: u8|
                    processed.contains(u) && #[trigger] edge(self@, u, w) ==> visited@.contains(w)
                        && dist[w] <= dist[u] + 1,
                !processed.contains(destination),
                dist[root] == 1,
                forall|k: int|
                    0 <= k < visited@.len() ==> dist[#[trigger] visited@[k]] == paths@[k]@.len(),
                forall|t1: int, t2: int|
                    qhead <= t1 <= t2 < queue@.len() ==> dist[visited@[(
                    #[trigger] queue@[t1]) as int]] <= dist[visited@[(#[trigger] queue@[t2]) as int]],
                forall|t1: int, t2: int|
                    qhead <= t1 < queue@.len() && qhead <= t2 < queue@.len() ==> dist[visited@[(
                    #[trigger] queue@[t2]) as int]] <= dist[visited@[(#[trigger] queue@[t1]) as int]]
                        + 1,
                forall|u: u8, t: int|
                    #[trigger] processed.contains(u) && qhead <= t < queue@.len() ==> dist[u]
                        <= dist[visited@[(#[trigger] queue@[t]) as int]],
            decreases 256 - qhead,
        {
            let ci = queue[qhead];
            let current = visited[ci];
            if current == destination {
                proof {
                    assert(dist[current] == paths@[ci as int]@.len());
                    assert forall|q: Seq<u8>|
                        is_path(self@, q, destination) implies paths@[ci as int]@.len()
                        <= q.len() by {
                        lemma_walk_bound(self@, visited@, processed, dist, q);
                        if visited@.contains(q.last()) && dist[q.last()] <= q.len() as int {
                            assert(dist[destination] <= q.len() as int);
                        } else {
                            let j = choose|j: int|
                                0 <= j < q.len() && visited@.contains(#[trigger] q[j])
                                    && !processed.contains(q[j]) && dist[q[j]] <= j + 1;
                            let k = choose|k: int|
                                0 <= k < visited@.len() && visited@[k] == q[j];
                            assert(processed.contains(visited@[k]) || queued(
                                queue@,
                                qhead as int,
                                k,
                            ));
                            let t = choose|t: int|
                                qhead <= t < queue@.len() && (#[trigger] queue@[t]) as int == k;
                            assert(dist[visited@[(queue@[qhead as int]) as int]] <= dist[visited@[(
                            queue@[t]) as int]]);
                            assert(queue@[qhead as int] == ci);
                            assert(dist[current] <= dist[q[j]]);
                        }
                    }
                }
                return Ok(copy_vec(&paths[ci]));
            }
            match self.find_index(current) {
                Some(ni) => {
                    let m = self.nodes[ni].adjacents.len();
                    let mut j: usize = 0;
                    while j < m
                        invariant
                            self.wf(),
                            root == self@[0].id,
                            ni < self@.len(),
                            self@[ni as int].id == current,
                            self.nodes@.len() == self@.len(),
                            m == self@[ni as int].adjacents.len(),
                            j <= m,
                            ci < visited@.len(),
                            visited@[ci as int] == current,
                            queue@[qhead as int] == ci,
                            visited@.len() == paths@.len(),
                            visited@.len() >= 1,
                            visited@[0] == root,
                            visited@.no_duplicates(),
                            visited@.len() <= 256,
                            qhead < queue@.len(),
                            queue@.len() <= visited@.len(),
                            forall|t: int|
                                0 <= t < queue@.len() ==> (#[trigger] queue@[t]) < visited@.len(),
                            forall|k: int|
                                0 <= k < visited@.len() ==> valid_walk(
                                    self@,
                                    (#[trigger] paths@[k])@,
                                ) && paths@[k]@.last() == visited@[k]
                                    && paths@[k]@.no_duplicates(),
                            forall|k: int, x: u8|
                                0 <= k < visited@.len() && #[trigger] paths@[k]@.contains(x)
                                    ==> visited@.contains(x),
                            forall|x: u8| processed.contains(x) ==> visited@.contains(x),
                            forall|k: int|
                                0 <= k < visited@.len() ==> processed.contains(
                                    #[trigger] visited@[k],
                                ) || queued(queue@, qhead as int, k),
                            forall|u: u8, w: u8|
                                processed.contains(u) && #[trigger] edge(self@, u, w)
                                    ==> visited@.contains(w) && dist[w] <= dist[u] + 1,
                            !processed.contains(destination),
                            dist[root] == 1,
                            forall|k: int|
                                0 <= k < visited@.len() ==> dist[#[trigger] visited@[k]]
                                    == paths@[k]@.len(),
                            forall|t1: int, t2: int|
                                qhead <= t1 <= t2 < queue@.len() ==> dist[visited@[(
                                #[trigger] queue@[t1]) as int]] <= dist[visited@[(
                                #[trigger] queue@[t2]) as int]],
                            forall|t1: int, t2: int|
                                qhead <= t1 < queue@.len() && qhead <= t2 < queue@.len()
                                    ==> dist[visited@[(#[trigger] queue@[t2]) as int]]
                                    <= dist[visited@[(#[trigger] queue@[t1]) as int]] + 1,
                            forall|u: u8, t: int|
                                #[trigger] processed.contains(u) && qhead <= t < queue@.len()
                                    ==> dist[u] <= dist[visited@[(#[trigger] queue@[t]) as int]],
                            forall|t: int|
                                0 <= t < j ==> visited@.contains(
                                    #[trigger] self@[ni as int].adjacents[t],
                                ) && dist[self@[ni as int].adjacents[t]] <= dist[current] + 1,
                        decreases m - j,
                    {
                        let w = self.nodes[ni].adjacents[j];
                        proof {
                            assert(self.nodes@[ni as int]@ == self@[ni as int]);
                        }
                        if !contains_id(&visited, w) {
                            let mut np = copy_vec(&paths[ci]);
                            np.push(w);
                            let ghost vold = visited@;
                            let ghost pold = paths@;
                            let ghost qold = queue@;
                            let ghost dold = dist;
                            proof {
                                lemma_push_no_dup(paths@[ci as int]@, w);
                                lemma_push_no_dup(visited@, w);
                                assert(edge(self@, current, w)) by {
                                    assert(has_node(self@, current)) by {
                                        assert(self@[ni as int].id == current);
                                    }
                                    let ix = idx_of(self@, current);
                                    assert(self@[ix].id == current);
                                    assert(ix == ni as int);
                                    assert(self@[ni as int].adjacents.contains(
                                        self@[ni as int].adjacents[j as int],
                                    ));
                                }
                                assert(valid_walk(self@, np@)) by {
                                    let q = paths@[ci as int]@;
                                    assert(np@ == q.push(w));
                                    assert(np@[0] == q[0]);
                                    assert forall|i: int| 0 <= i < np@.len() - 1 implies #[trigger]
                                    edge(self@, np@[i], np@[i + 1]) by {
                                        if i < q.len() - 1 {
                                            assert(np@[i] == q[i] && np@[i + 1] == q[i + 1]);
                                            assert(edge(self@, q[i], q[i + 1]));
                                        } else {
                                            assert(np@[i] == q.last() && np@[i + 1] == w);
                                        }
                                    }
                                }
                            }
                            visited.push(w);
                            paths.push(np);
                            let newi = visited.len() - 1;
                            queue.push(newi);
                            proof {
                                dist = dist.insert(w, dold[current] + 1);
                                lemma_distinct_u8_len(visited@);
                                assert(visited@ == vold.push(w));
                                assert(paths@ == pold.push(np));
                                assert(queue@ == qold.push(newi));
                                assert(!vold.contains(w));
                                assert forall|x: u8| vold.contains(x) implies visited@.contains(x)
                                by {
                                    let t = choose|t: int| 0 <= t < vold.len() && vold[t] == x;
                                    assert(visited@[t] == x);
                                }
                                assert(visited@.contains(w)) by {
                                    assert(visited@[vold.len() as int] == w);
                                }
                                assert forall|x: u8| vold.contains(x) implies x != w && dist[x]
                                    == dold[x] by {
                                }
                                assert forall|k: int|
                                    0 <= k < visited@.len() implies valid_walk(
                                    self@,
                                    (#[trigger] paths@[k])@,
                                ) && paths@[k]@.last() == visited@[k] && paths@[k]@.no_duplicates()
                                by {
                                    if k < vold.len() {
                                        assert(paths@[k] == pold[k]);
                                        assert(visited@[k] == vold[k]);
                                        assert(valid_walk(self@, pold[k]@));
                                    } else {
                                        assert(paths@[k] == np);
                                        assert(visited@[k] == w);
                                    }
                                }
                                assert forall|k: int, x: u8|
                                    0 <= k < visited@.len() && #[trigger] paths@[k]@.contains(x)
                                    implies visited@.contains(x) by {
                                    if k < vold.len() {
                                        assert(paths@[k] == pold[k]);
                                        assert(pold[k]@.contains(x));
                                        assert(vold.contains(x));
                                    } else {
                                        assert(paths@[k] == np);
                                        let q = pold[ci as int]@;
                                        let t = choose|t: int|
                                            0 <= t < np@.len() && np@[t] == x;
                                        if t < q.len() {
                                            assert(q[t] == x);
                                            assert(q.contains(x));
                                            assert(vold.contains(x));
                                        } else {
                                            assert(x == w);
                                        }
                                    }
                                }
                                assert forall|k: int|
                                    0 <= k < visited@.len() implies processed.contains(
                                    #[trigger] visited@[k],
                                ) || queued(queue@, qhead as int, k) by {
                                    if k < vold.len() {
                                        if !processed.contains(vold[k]) {
                                            lemma_queued_push(qold, qhead as int, k, newi);
                                        }
                                    } else {
                                        assert(newi as int == k);
                                        lemma_queued_push(qold, qhead as int, k, newi);
                                    }
                                }
                                // The recorded distances still match the stored paths.
                                assert forall|k: int|
                                    0 <= k < visited@.len() implies dist[#[trigger] visited@[k]]
                                    == paths@[k]@.len() by {
                                    if k < vold.len() {
                                        assert(visited@[k] == vold[k]);
                                        assert(vold.contains(vold[k]));
                                        assert(paths@[k] == pold[k]);
                                    } else {
                                        assert(visited@[k] == w);
                                        assert(dist[w] == dold[current] + 1);
                                        assert(np@.len() == pold[ci as int]@.len() + 1);
                                        assert(dold[current] == pold[ci as int]@.len());
                                    }
                                }
                                // The closure facts survive: processed nodes and their
                                // link targets sit in the old prefix.
                                assert forall|u: u8, w2: u8|
                                    processed.contains(u) && #[trigger] edge(self@, u, w2)
                                    implies visited@.contains(w2) && dist[w2] <= dist[u] + 1 by {
                                    assert(vold.contains(w2));
                                    assert(vold.contains(u));
                                }
                                // The new tail of the queue carries the largest distance,
                                // still within one of the head.
                                let ghost dcur = dold[current];
                                assert(queue@[qhead as int] == qold[qhead as int]);
                                assert(visited@[(queue@[qhead as int]) as int] == current);
                                assert forall|t: int|
                                    qhead <= t < queue@.len() implies dcur <= dist[visited@[(
                                #[trigger] queue@[t]) as int]] && dist[visited@[(
                                queue@[t]) as int]] <= dcur + 1 by {
                                    if t < qold.len() {
                                        assert(queue@[t] == qold[t]);
                                        assert(visited@[(qold[t]) as int] == vold[(
                                        qold[t]) as int]);
                                        assert(vold.contains(vold[(qold[t]) as int]));
                                        assert(dold[vold[(qold[t]) as int]] <= dold[vold[(
                                        qold[qhead as int]) as int]] + 1);
                                        assert(dold[vold[(qold[qhead as int]) as int]]
                                            <= dold[vold[(qold[t]) as int]]);
                                    } else {
                                        assert(queue@[t] == newi);
                                        assert(visited@[newi as int] == w);
                                        assert(dist[w] == dcur + 1);
                                    }
                                }
                                assert forall|t1: int, t2: int|
                                    qhead <= t1 <= t2 < queue@.len() implies dist[visited@[(
                                #[trigger] queue@[t1]) as int]] <= dist[visited@[(
                                #[trigger] queue@[t2]) as int]] by {
                                    if t2 < qold.len() {
                                        assert(queue@[t1] == qold[t1] && queue@[t2] == qold[t2]);
                                        assert(visited@[(qold[t1]) as int] == vold[(
                                        qold[t1]) as int]);
                                        assert(visited@[(qold[t2]) as int] == vold[(
                                        qold[t2]) as int]);
                                        assert(vold.contains(vold[(qold[t1]) as int]));
                                        assert(vold.contains(vold[(qold[t2]) as int]));
                                    } else {
                                        assert(dist[visited@[(queue@[t2]) as int]] == dcur + 1);
                                        assert(dcur <= dist[visited@[(queue@[t1]) as int]]);
                                        if t1 < qold.len() {
                                            assert(dist[visited@[(queue@[t1]) as int]] <= dcur
                                                + 1);
                                        }
                                    }
                                }
                                assert forall|u: u8, t: int|
                                    #[trigger] processed.contains(u) && qhead <= t < queue@.len()
                                    implies dist[u] <= dist[visited@[(#[trigger] queue@[t]) as int]]
                                by {
                                    assert(vold.contains(u));
                                    assert(dold[u] <= dold[vold[(qold[qhead as int]) as int]]);
                                    assert(dcur <= dist[visited@[(queue@[t]) as int]]);
                                }
                            }
                        } else {
                            proof {
                                let k = choose|k: int|
                                    0 <= k < visited@.len() && visited@[k] == w;
                                assert(processed.contains(visited@[k]) || queued(
                                    queue@,
                                    qhead as int,
                                    k,
                                ));
                                if processed.contains(w) {
                                    assert(dist[w] <= dist[visited@[(
                                    queue@[qhead as int]) as int]]);
                                } else {
                                    let t = choose|t: int|
                                        qhead <= t < queue@.len() && (#[trigger] queue@[t]) as int
                                            == k;
                                    assert(dist[visited@[(queue@[t]) as int]] <= dist[visited@[(
                                    queue@[qhead as int]) as int]] + 1);
                                }
                                assert(dist[w] <= dist[current] + 1);
                            }
                        }
                        j = j + 1;
                    }
                    proof {
                        processed = processed.insert(current);
                        assert forall|u: u8, w: u8|
                            processed.contains(u) && #[trigger] edge(self@, u, w)
                            implies visited@.contains(w) && dist[w] <= dist[u] + 1 by {
                            if u == current {
                                let ix = idx_of(self@, u);
                                assert(self@[ix].id == u);
                                assert(ix == ni as int);
                                let t = choose|t: int|
                                    0 <= t < self@[ni as int].adjacents.len()
                                        && self@[ni as int].adjacents[t] == w;
                                assert(visited@.contains(self@[ni as int].adjacents[t])
                                    && dist[self@[ni as int].adjacents[t]] <= dist[current] + 1);
                            }
                        }
                        assert forall|u: u8, t: int|
                            #[trigger] processed.contains(u) && qhead <= t < queue@.len()
                            implies dist[u] <= dist[visited@[(#[trigger] queue@[t]) as int]] by {
                            if u == current {
                                assert(dist[visited@[(queue@[qhead as int]) as int]]
                                    <= dist[visited@[(queue@[t]) as int]]);
                            }
                        }
                    }
                },
                None => {
                    proof {
                        processed = processed.insert(current);
                        assert forall|u: u8, w: u8|
                            processed.contains(u) && #[trigger] edge(self@, u, w)
                            implies visited@.contains(w) && dist[w] <= dist[u] + 1 by {
                            if u == current {
                                assert(has_node(self@, current));
                            }
                        }
                        assert forall|u: u8, t: int|
                            #[trigger] processed.contains(u) && qhead <= t < queue@.len()
                            implies dist[u] <= dist[visited@[(#[trigger] queue@[t]) as int]] by {
                            if u == current {
                                assert(dist[visited@[(queue@[qhead as int]) as int]]
                                    <= dist[visited@[(queue@[t]) as int]]);
                            }
                        }
                    }
                },
            }
            qhead = qhead + 1;
            proof {
                assert forall|k: int|
                    0 <= k < visited@.len() implies processed.contains(#[trigger] visited@[k])
                    || queued(queue@, qhead as int, k) by {
                    if !processed.contains(visited@[k]) {
                        let t = choose|t: int|
                            qhead - 1 <= t < queue@.len() && queue@[t] as int == k;
                        if t == qhead - 1 {
                            assert(k == ci as int);
                            assert(visited@[k] == current);
                            assert(processed.contains(current));
                            assert(false);
                        } else {
                            assert(qhead <= t < queue@.len() && queue@[t] as int == k);
                        }
                    }
                }
            }
        }
        proof {
            assert forall|p: Seq<u8>| !is_path(self@, p, destination) by {
                if is_path(self@, p, destination) {
                    assert forall|u: u8, w: u8|
                        visited@.contains(u) && #[trigger] edge(self@, u, w)
                        implies visited@.contains(w) by {
                        let k = choose|k: int| 0 <= k < visited@.len() && visited@[k] == u;
                        assert(processed.contains(visited@[k]) || queued(
                            queue@,
                            qhead as int,
                            k,
                        ));
                        assert(processed.contains(u));
                    }
                    assert(visited@.contains(root)) by {
                        assert(visited@[0] == root);
                    }
                    lemma_walk_stays(self@, visited@, p);
                    let k = choose|k: int|
                        0 <= k < visited@.len() && visited@[k] == destination;
                    assert(processed.contains(visited@[k]) || queued(queue@, qhead as int, k));
                    assert(false);
                }
            }
        }
        Err(NetworkError::PathNotFound(destination))
    }

    /// Overwrites the declared role of a present node; a missing id is
    /// silently ignored.
    pub fn change_node_type(&mut self, id: u8, new_type: NodeType)
        requires
            old(self).wf(),
        ensures
            has_node(old(self)@, id) ==> final(self)@ == old(self)@.update(
                idx_of(old(self)@, id),
                NodeV {
                    id,
                    node_type: new_type,
                    adjacents: old(self)@[idx_of(old(self)@, id)].adjacents,
                },
            ),
            !has_node(old(self)@, id) ==> final(self)@ == old(self)@,
            final(self).wf(),
    {
        match self.find_index(id) {
            Some(idx) => {
                proof {
                    assert(has_node(self@, id)) by {
                        assert(self@[idx as int].id == id);
                    }
                    assert(idx_of(old(self)@, id) == idx as int) by {
                        let j = idx_of(old(self)@, id);
                        assert(old(self)@[j].id == id);
                    }
                }
                if self.nodes[idx].get_node_type() != new_type {
                    self.nodes[idx].node_type = new_type;
                }
                proof {
                    assert(final(self)@ =~= old(self)@.update(
                        idx as int,
                        NodeV {
                            id,
                            node_type: new_type,
                            adjacents: old(self)@[idx as int].adjacents,
                        },
                    ));
                }
            },
            None => {
                proof {
                    assert(final(self)@ =~= old(self)@);
                }
            },
        }
    }
}

/// Whether some queue entry from position `from` on holds the index `k`.
pub open spec fn queued(q: Seq<usize>, from: int, k: int) -> bool {
    exists|t: int| from <= t < q.len() && (#[trigger] q[t]) as int == k
}

/// A queue entry survives pushing one more entry, and the pushed entry
/// itself is queued.
pub proof fn lemma_queued_push(q: Seq<usize>, from: int, k: int, e: usize)
    requires
        0 <= from,
        queued(q, from, k) || (from <= q.len() && e as int == k),
    ensures
        queued(q.push(e), from, k),
{
    broadcast use vstd::seq::axiom_seq_push_index_different;

    if queued(q, from, k) {
        let t = choose|t: int| from <= t < q.len() && (#[trigger] q[t]) as int == k;
        assert(from <= t < q.len() && q[t] as int == k);
        assert(q.push(e)[t] == q[t]);
        assert(q.push(e)[t] as int == k);
    } else {
        assert(q.push(e)[q.len() as int] as int == k);
    }
}

/// A sequence of distinct ids can hold at most 256 of them.
pub proof fn lemma_distinct_u8_len(s: Seq<u8>)
    requires
        s.no_duplicates(),
    ensures
        s.len() <= 256,
{
    let t = s.map_values(|x: u8| x as int);
    s.lemma_no_duplicates_injective(|x: u8| x as int);
    t.unique_seq_to_set();
    assert(t.to_set().subset_of(vstd::set_lib::set_int_range(0, 256))) by {
        assert forall|x: int| t.to_set().contains(x) implies vstd::set_lib::set_int_range(
            0,
            256,
        ).contains(x) by {
            let k = choose|k: int| 0 <= k < t.len() && t[k] == x;
            assert(t[k] == s[k] as int);
        }
    }
    vstd::set_lib::lemma_int_range(0, 256);
    vstd::set_lib::lemma_len_subset(t.to_set(), vstd::set_lib::set_int_range(0, 256));
}

/// A walk cannot leave a set of ids that holds the root and is closed
/// under the links of the topology.
pub proof fn lemma_walk_stays(net: Seq<NodeV>, vis: Seq<u8>, p: Seq<u8>)
    requires
        valid_walk(net, p),
        vis.contains(net[0].id),
        forall|u: u8, w: u8| vis.contains(u) && #[trigger] edge(net, u, w) ==> vis.contains(w),
    ensures
        vis.contains(p.last()),
    decreases p.len(),
{
    if p.len() == 1 {
        assert(p.last() == net[0].id);
    } else {
        let q = p.drop_last();
        assert(valid_walk(net, q)) by {
            assert(q[0] == p[0]);
            assert forall|i: int| 0 <= i < q.len() - 1 implies #[trigger] edge(net, q[i], q[i + 1])
            by {
                assert(q[i] == p[i] && q[i + 1] == p[i + 1]);
                assert(edge(net, p[i], p[i + 1]));
            }
        }
        lemma_walk_stays(net, vis, q);
        let i = p.len() - 2;
        assert(edge(net, p[i], p[i + 1]));
        assert(q.last() == p[i]);
        assert(p[i + 1] == p.last());
    }
}

/// Any walk is at least as long as the recorded breadth first distance
/// of wherever it arrives: walking from the root, either the arrival
/// point has been discovered within the walk's length, or the walk
/// passes through a discovered but still unprocessed node early enough.
pub proof fn lemma_walk_bound(
    net: Seq<NodeV>,
    vis: Seq<u8>,
    processed: Set<u8>,
    dist: Map<u8, int>,
    q: Seq<u8>,
)
    requires
        valid_walk(net, q),
        vis.contains(net[0].id),
        dist[net[0].id] == 1,
        forall|u: u8, w: u8|
            processed.contains(u) && #[trigger] edge(net, u, w) ==> vis.contains(w) && dist[w]
                <= dist[u] + 1,
    ensures
        (vis.contains(q.last()) && dist[q.last()] <= q.len() as int) || (exists|j: int|
            0 <= j < q.len() && vis.contains(#[trigger] q[j]) && !processed.contains(q[j])
                && dist[q[j]] <= j + 1),
    decreases q.len(),
{
    if q.len() == 1 {
        assert(q.last() == net[0].id);
    } else {
        let q2 = q.drop_last();
        assert(valid_walk(net, q2)) by {
            assert(q2[0] == q[0]);
            assert forall|i: int| 0 <= i < q2.len() - 1 implies #[trigger] edge(net, q2[i], q2[i + 1])
            by {
                assert(q2[i] == q[i] && q2[i + 1] == q[i + 1]);
                assert(edge(net, q[i], q[i + 1]));
            }
        }
        lemma_walk_bound(net, vis, processed, dist, q2);
        if exists|j: int|
            0 <= j < q2.len() && vis.contains(#[trigger] q2[j]) && !processed.contains(q2[j])
                && dist[q2[j]] <= j + 1 {
            let j = choose|j: int|
                0 <= j < q2.len() && vis.contains(#[trigger] q2[j]) && !processed.contains(q2[j])
                    && dist[q2[j]] <= j + 1;
            assert(q[j] == q2[j]);
            assert(0 <= j < q.len() && vis.contains(q[j]) && !processed.contains(q[j]) && dist[q[j]]
                <= j + 1);
        } else {
            let u = q2.last();
            assert(vis.contains(u) && dist[u] <= q2.len() as int);
            let i = q.len() - 2;
            assert(edge(net, q[i], q[i + 1]));
            assert(q[i] == u && q[i + 1] == q.last());
            if processed.contains(u) {
                assert(vis.contains(q.last()) && dist[q.last()] <= dist[u] + 1);
            } else {
                assert(0 <= i < q.len() && vis.contains(q[i]) && !processed.contains(q[i]) && dist[q[i]]
                    <= i + 1);
            }
        }
    }
}

/// Removing a value never lets a new one appear: everything contained
/// afterwards was contained before.
pub proof fn lemma_remove_value_subset(s: Seq<u8>, v: u8)
    ensures
        forall|x: u8| #[trigger] s.remove_value(v).contains(x) ==> s.contains(x),
{
    s.index_of_first_ensures(v);
    assert forall|x: u8| #[trigger] s.remove_value(v).contains(x) implies s.contains(x) by {
        match s.index_of_first(v) {
            Some(i) => {
                let k = choose|k: int|
                    0 <= k < s.remove(i).len() && s.remove(i)[k] == x;
                s.remove_ensures(i);
                let k2: int = if k < i {
                    k
                } else {
                    k + 1
                };
                assert(s[k2] == x);
            },
            None => {},
        }
    }
}

/// A removal never lets a new node appear: every id present after
/// `remove_node` was present before.
pub proof fn lemma_remove_node_subset(net: Seq<NodeV>, id: u8)
    ensures
        forall|x: u8| #[trigger] has_node(remove_node_result(net, id), x) ==> has_node(net, x),
{
    let scrubbed = net.map(
        |i: int, m: NodeV|
            NodeV { id: m.id, node_type: m.node_type, adjacents: m.adjacents.remove_value(id) },
    );
    assert forall|x: u8| #[trigger] has_node(remove_node_result(net, id), x) implies has_node(
        net,
        x,
    ) by {
        let new = remove_node_result(net, id);
        let j = choose|j: int| 0 <= j < new.len() && new[j].id == x;
        if has_node(net, id) {
            let k = idx_of(net, id);
            scrubbed.remove_ensures(k);
            let j2: int = if j < k {
                j
            } else {
                j + 1
            };
            assert(new[j] == scrubbed[j2]);
            assert(net[j2].id == x);
        } else {
            assert(new[j] == scrubbed[j]);
            assert(net[j].id == x);
        }
    }
}

/// After `remove_node` the id itself is gone, provided ids were unique.
pub proof fn lemma_remove_node_gone(net: Seq<NodeV>, id: u8)
    requires
        forall|i: int, j: int| 0 <= i < j < net.len() ==> net[i].id != net[j].id,
    ensures
        !has_node(remove_node_result(net, id), id),
{
    let scrubbed = net.map(
        |i: int, m: NodeV|
            NodeV { id: m.id, node_type: m.node_type, adjacents: m.adjacents.remove_value(id) },
    );
    let new = remove_node_result(net, id);
    if has_node(new, id) {
        let j = choose|j: int| 0 <= j < new.len() && new[j].id == id;
        if has_node(net, id) {
            let k = idx_of(net, id);
            assert(net[k].id == id);
            scrubbed.remove_ensures(k);
            let j2: int = if j < k {
                j
            } else {
                j + 1
            };
            assert(new[j] == scrubbed[j2]);
            assert(net[j2].id == id);
            assert(j2 != k);
            assert(false);
        } else {
            assert(new[j] == scrubbed[j]);
            assert(net[j].id == id);
            assert(has_node(net, id));
            assert(false);
        }
    }
}

/// Pushing a fresh id keeps a duplicate free sequence duplicate free.
pub proof fn lemma_push_no_dup(s: Seq<u8>, x: u8)
    requires
        s.no_duplicates(),
        !s.contains(x),
    ensures
        s.push(x).no_duplicates(),
{
    assert forall|a: int, b: int| 0 <= a < b < s.push(x).len() implies s.push(x)[a] != s.push(x)[b]
    by {
        if b == s.len() {
            assert(s.push(x)[b] == x);
            assert(s.push(x)[a] == s[a]);
            if s[a] == x {
                assert(s.contains(x));
            }
        } else {
            assert(s.push(x)[a] == s[a]);
            assert(s.push(x)[b] == s[b]);
        }
    }
}

/// Removing a value keeps a duplicate free sequence duplicate free, and
/// after the removal the value does not occur at all.
pub proof fn lemma_remove_value_no_dup(s: Seq<u8>, x: u8)
    requires
        s.no_duplicates(),
    ensures
        s.remove_value(x).no_duplicates(),
        !s.remove_value(x).contains(x),
{
    s.index_of_first_ensures(x);
    match s.index_of_first(x) {
        Some(i) => {
            s.remove_ensures(i);
            let rem = s.remove(i);
            assert forall|a: int, b: int| 0 <= a < b < rem.len() implies rem[a] != rem[b] by {
                let a2: int = if a < i { a } else { a + 1 };
                let b2: int = if b < i { b } else { b + 1 };
                assert(rem[a] == s[a2]);
                assert(rem[b] == s[b2]);
            }
            assert forall|k: int| 0 <= k < rem.len() implies rem[k] != x by {
                let k2: int = if k < i { k } else { k + 1 };
                assert(rem[k] == s[k2]);
                assert(s[i] == x);
            }
            if rem.contains(x) {
                let k = choose|k: int| 0 <= k < rem.len() && rem[k] == x;
                assert(false);
            }
        },
        None => {
            if s.contains(x) {
                assert(false);
            }
        },
    }
}

/// Topology symmetry under update: when a node is appended that declares
/// a present node `a` among its adjacents, and at least one of the two is
/// a drone, then `a`'s adjacency afterwards names the new node.
pub proof fn lemma_add_node_symmetry(net: Seq<NodeV>, node: NodeV, a: u8)
    requires
        forall|i: int, j: int| 0 <= i < j < net.len() ==> net[i].id != net[j].id,
        !has_node(net, node.id),
        node.adjacents.contains(a),
        has_node(net, a),
        node.node_type == NodeType::Drone || net[idx_of(net, a)].node_type == NodeType::Drone,
    ensures
        has_node(add_node_result(net, node), a),
        adj_of(add_node_result(net, node), a).contains(node.id),
{
    let new = add_node_result(net, node);
    let i = idx_of(net, a);
    assert(net[i].id == a);
    assert(new[i].adjacents.contains(node.id)) by {
        if !net[i].adjacents.contains(node.id) {
            assert(new[i].adjacents == net[i].adjacents.push(node.id));
            assert(new[i].adjacents.last() == node.id);
        } else {
            assert(new[i].adjacents == net[i].adjacents);
        }
    }
    assert(new[i].id == a);
    assert(has_node(new, a));
    let j = idx_of(new, a);
    assert(new[j].id == a);
    assert(j == i) by {
        if j != i {
            if j < net.len() {
                assert(net[j].id == a);
                assert(a != node.id);
            } else {
                assert(new[j].id == node.id);
                assert(a == node.id);
                assert(false);
            }
        }
    }
}

/// Whether a vector of ids contains the given id.
pub fn contains_id(v: &Vec<u8>, x: u8) -> (b: bool)
    ensures
        b == v@.contains(x),
{
    let mut i: usize = 0;
    while i < v.len()
        invariant
            i <= v@.len(),
            forall|k: int| 0 <= k < i ==> v@[k] != x,
        decreases v@.len() - i,
    {
        if v[i] == x {
            return true;
        }
        i = i + 1;
    }
    false
}

} // verus!
