//! Wire-level data model: fragments, source-routing headers and packets.
//!
//! Every type here is plain data; the mathematical view of a value replaces
//! `Vec` by `Seq` so that contracts can speak about contents.

use vstd::prelude::*;

verus! {

/// Number of payload bytes a single wire fragment carries.
pub const FRAGMENT_SIZE: usize = 128;

/// Role a node declares in the overlay: only drones forward traffic,
/// clients and servers are endpoints.
#[derive(Clone, Copy, Debug, PartialEq, Eq, Structural)]
pub enum NodeType {
    Drone,
    Client,
    Server,
}

/// One wire unit of an application payload: the first `length` bytes of
/// `data` are payload, the rest is zero padding.
#[derive(Clone, Copy, Debug)]
pub struct Fragment {
    pub fragment_index: u64,
    pub total_n_fragments: u64,
    pub length: u8,
    pub data: [u8; 128],
}

/// Mathematical view of a `Fragment`.
#[verifier::ext_equal]
pub struct FragmentV {
    pub fragment_index: u64,
    pub total_n_fragments: u64,
    pub length: u8,
    pub data: Seq<u8>,
}

impl View for Fragment {
    type V = FragmentV;

    open spec fn view(&self) -> FragmentV {
        FragmentV {
            fragment_index: self.fragment_index,
            total_n_fragments: self.total_n_fragments,
            length: self.length,
            data: self.data@,
        }
    }
}

impl FragmentV {
    /// A fragment is well formed when its declared payload length fits the
    /// fixed wire size.
    pub open spec fn wf(self) -> bool {
        self.length <= 128 && self.data.len() == 128
    }

    /// The effective payload bytes of the fragment.
    pub open spec fn payload(self) -> Seq<u8> {
        self.data.subrange(0, self.length as int)
    }
}

impl Fragment {
    pub fn new(fragment_index: u64, total_n_fragments: u64, length: u8, data: [u8; 128]) -> (r:
        Fragment)
        requires
            length <= 128,
        ensures
            r@ == (FragmentV {
                fragment_index,
                total_n_fragments,
                length,
                data: data@,
            }),
            r@.wf(),
    {
        Fragment { fragment_index, total_n_fragments, length, data }
    }
}

/// Positive per-fragment delivery signal.
#[derive(Clone, Copy, Debug, PartialEq, Eq, Structural)]
pub struct Ack {
    pub fragment_index: u64,
}

/// The reason a negative delivery signal was raised.
#[derive(Clone, Copy, Debug, PartialEq, Eq, Structural)]
pub enum NackType {
    ErrorInRouting(u8),
    DestinationIsDrone,
    Dropped,
    UnexpectedRecipient(u8),
}

/// Negative per-fragment delivery signal.
#[derive(Clone, Copy, Debug, PartialEq, Eq, Structural)]
pub struct Nack {
    pub fragment_index: u64,
    pub nack_type: NackType,
}

/// Copies a vector of plain values element by element.
pub fn copy_vec<T: Copy>(v: &Vec<T>) -> (r: Vec<T>)
    ensures
        r@ == v@,
{
    let mut r: Vec<T> = Vec::new();
    let mut i: usize = 0;
    while i < v.len()
        invariant
            i <= v.len(),
            r@ == v@.subrange(0, i as int),
        decreases v.len() - i,
    {
        r.push(v[i]);
        i = i + 1;
    }
    assert(r@ == v@.subrange(0, v@.len() as int));
    assert(v@.subrange(0, v@.len() as int) == v@);
    r
}

/// The explicit source route a packet carries: `hops[0]` is the origin,
/// the final hop is the destination, and `hop_index` points at the next
/// node that must process the packet.
#[derive(Debug)]
pub struct SourceRoutingHeader {
    pub hops: Vec<u8>,
    pub hop_index: usize,
}

/// Mathematical view of a `SourceRoutingHeader`.
#[verifier::ext_equal]
pub struct HeaderV {
    pub hops: Seq<u8>,
    pub hop_index: usize,
}

impl View for SourceRoutingHeader {
    type V = HeaderV;

    open spec fn view(&self) -> HeaderV {
        HeaderV { hops: self.hops@, hop_index: self.hop_index }
    }
}

impl SourceRoutingHeader {
    pub fn new(hops: Vec<u8>, hop_index: usize) -> (r: SourceRoutingHeader)
        ensures
            r@.hops == hops@,
            r@.hop_index == hop_index,
    {
        SourceRoutingHeader { hops, hop_index }
    }

    /// A header with no route at all, as flood traffic carries.
    pub fn empty_route() -> (r: SourceRoutingHeader)
        ensures
            r@.hops.len() == 0,
            r@.hop_index == 0,
    {
        SourceRoutingHeader { hops: Vec::new(), hop_index: 0 }
    }

    /// The destination is the last hop of the route, when there is one.
    pub fn destination(&self) -> (r: Option<u8>)
        ensures
            self@.hops.len() == 0 ==> r is None,
            self@.hops.len() > 0 ==> r == Some(self@.hops.last()),
    {
        if self.hops.len() == 0 {
            None
        } else {
            Some(self.hops[self.hops.len() - 1])
        }
    }

    /// Turns the route around, so that a reply retraces the packet's path.
    pub fn reverse(&mut self)
        ensures
            final(self)@.hops == old(self)@.hops.reverse(),
            final(self)@.hop_index == 0,
    {
        let mut r: Vec<u8> = Vec::new();
        let n = self.hops.len();
        let mut i: usize = 0;
        while i < n
            invariant
                i <= n,
                n == self@.hops.len(),
                r@.len() == i,
                forall|k: int| 0 <= k < i ==> r@[k] == self@.hops[n - 1 - k],
            decreases n - i,
        {
            r.push(self.hops[n - 1 - i]);
            i = i + 1;
        }
        assert(r@ =~= self@.hops.reverse());
        self.hops = r;
        self.hop_index = 0;
    }

    pub fn increase_hop_index(&mut self)
        requires
            old(self)@.hop_index < usize::MAX,
        ensures
            final(self)@.hops == old(self)@.hops,
            final(self)@.hop_index == old(self)@.hop_index + 1,
    {
        self.hop_index = self.hop_index + 1;
    }

    /// An element by element copy of the header.
    pub fn duplicate(&self) -> (r: SourceRoutingHeader)
        ensures
            r@ == self@,
    {
        SourceRoutingHeader { hops: copy_vec(&self.hops), hop_index: self.hop_index }
    }

    /// Strips loops from the route: every repeated id is shortcut to its
    /// last occurrence, the order of what remains is preserved.  The result
    /// never repeats an id, and a route that was already free of repeats
    /// comes back unchanged.
    pub fn without_loops(&self) -> (r: SourceRoutingHeader)
        ensures
            r@.hop_index == self@.hop_index,
            r@.hops.no_duplicates(),
            forall|k: int| 0 <= k < r@.hops.len() ==> self@.hops.contains(#[trigger] r@.hops[k]),
            self@.hops.len() > 0 ==> r@.hops.len() > 0 && r@.hops[0] == self@.hops[0]
                && r@.hops.last() == self@.hops.last(),
            self@.hops.no_duplicates() ==> r@.hops == self@.hops,
    {
        let mut out: Vec<u8> = Vec::new();
        let mut i: usize = 0;
        let n = self.hops.len();
        while i < n
            invariant
                n == self@.hops.len(),
                i <= n,
                out@.no_duplicates(),
                forall|k: int| 0 <= k < out@.len() ==> self@.hops.contains(#[trigger] out@[k]),
                forall|k: int, j: int|
                    0 <= k < out@.len() && i <= j < n ==> out@[k] != self@.hops[j],
                n > 0 && i < n ==> (out@.len() == 0 && i == 0) || (out@.len() > 0 && out@[0]
                    == self@.hops[0]),
                i >= n && n > 0 ==> out@.len() > 0 && out@[0] == self@.hops[0] && out@.last()
                    == self@.hops.last(),
                self@.hops.no_duplicates() ==> out@ == self@.hops.subrange(0, i as int),
            decreases n - i,
        {
            let id = self.hops[i];
            // Find the last occurrence of `id` and continue right behind it.
            let mut last: usize = i;
            let mut j: usize = i + 1;
            while j < n
                invariant
                    i < n,
                    n == self@.hops.len(),
                    i <= last < n,
                    i < j <= n,
                    last <= j,
                    id == self@.hops[i as int],
                    self@.hops[last as int] == id,
                    forall|k: int| last < k < j ==> self@.hops[k] != id,
                decreases n - j,
            {
                if self.hops[j] == id {
                    last = j;
                }
                j = j + 1;
            }
            proof {
                if self@.hops.no_duplicates() {
                    assert(last == i);
                    assert(out@ == self@.hops.subrange(0, i as int));
                    assert(out@.push(id) =~= self@.hops.subrange(0, i + 1));
                }
                assert(self@.hops.contains(id)) by {
                    assert(self@.hops[i as int] == id);
                }
            }
            out.push(id);
            i = last + 1;
        }
        proof {
            if self@.hops.no_duplicates() {
                assert(out@ == self@.hops.subrange(0, n as int));
                assert(self@.hops.subrange(0, n as int) == self@.hops);
            }
        }
        SourceRoutingHeader { hops: out, hop_index: self.hop_index }
    }
}

/// A topology probe on its way out: every node that relays it records
/// itself in the path trace.
#[derive(Debug)]
pub struct FloodRequest {
    pub flood_id: u64,
    pub initiator_id: u8,
    pub path_trace: Vec<(u8, NodeType)>,
}

/// Mathematical view of a `FloodRequest`.
#[verifier::ext_equal]
pub struct FloodRequestV {
    pub flood_id: u64,
    pub initiator_id: u8,
    pub path_trace: Seq<(u8, NodeType)>,
}

impl View for FloodRequest {
    type V = FloodRequestV;

    open spec fn view(&self) -> FloodRequestV {
        FloodRequestV {
            flood_id: self.flood_id,
            initiator_id: self.initiator_id,
            path_trace: self.path_trace@,
        }
    }
}

impl FloodRequest {
    /// A fresh probe whose trace already names the initiator.
    pub fn new(flood_id: u64, initiator_id: u8, initiator_type: NodeType) -> (r: FloodRequest)
        ensures
            r@.flood_id == flood_id,
            r@.initiator_id == initiator_id,
            r@.path_trace == seq![(initiator_id, initiator_type)],
    {
        let mut path_trace: Vec<(u8, NodeType)> = Vec::new();
        path_trace.push((initiator_id, initiator_type));
        proof {
            assert(path_trace@ =~= seq![(initiator_id, initiator_type)]);
        }
        FloodRequest { flood_id, initiator_id, path_trace }
    }

    pub fn duplicate(&self) -> (r: FloodRequest)
        ensures
            r@ == self@,
    {
        FloodRequest {
            flood_id: self.flood_id,
            initiator_id: self.initiator_id,
            path_trace: copy_vec(&self.path_trace),
        }
    }
}

/// The answer to a probe: the trace of the path the probe took.
#[derive(Debug)]
pub struct FloodResponse {
    pub flood_id: u64,
    pub path_trace: Vec<(u8, NodeType)>,
}

/// Mathematical view of a `FloodResponse`.
#[verifier::ext_equal]
pub struct FloodResponseV {
    pub flood_id: u64,
    pub path_trace: Seq<(u8, NodeType)>,
}

impl View for FloodResponse {
    type V = FloodResponseV;

    open spec fn view(&self) -> FloodResponseV {
        FloodResponseV { flood_id: self.flood_id, path_trace: self.path_trace@ }
    }
}

impl FloodResponse {
    pub fn duplicate(&self) -> (r: FloodResponse)
        ensures
            r@ == self@,
    {
        FloodResponse { flood_id: self.flood_id, path_trace: copy_vec(&self.path_trace) }
    }
}

/// The tagged content of a packet.
#[derive(Debug)]
pub enum PacketType {
    MsgFragment(Fragment),
    Ack(Ack),
    Nack(Nack),
    FloodRequest(FloodRequest),
    FloodResponse(FloodResponse),
}

/// Mathematical view of a `PacketType`.
#[verifier::ext_equal]
pub enum PacketTypeV {
    MsgFragment(FragmentV),
    Ack(Ack),
    Nack(Nack),
    FloodRequest(FloodRequestV),
    FloodResponse(FloodResponseV),
}

impl View for PacketType {
    type V = PacketTypeV;

    open spec fn view(&self) -> PacketTypeV {
        match self {
            PacketType::MsgFragment(f) => PacketTypeV::MsgFragment(f@),
            PacketType::Ack(a) => PacketTypeV::Ack(*a),
            PacketType::Nack(n) => PacketTypeV::Nack(*n),
            PacketType::FloodRequest(q) => PacketTypeV::FloodRequest(q@),
            PacketType::FloodResponse(p) => PacketTypeV::FloodResponse(p@),
        }
    }
}

impl PacketType {
    pub fn duplicate(&self) -> (r: PacketType)
        ensures
            r@ == self@,
    {
        match self {
            PacketType::MsgFragment(f) => PacketType::MsgFragment(*f),
            PacketType::Ack(a) => PacketType::Ack(*a),
            PacketType::Nack(n) => PacketType::Nack(*n),
            PacketType::FloodRequest(q) => PacketType::FloodRequest(q.duplicate()),
            PacketType::FloodResponse(p) => PacketType::FloodResponse(p.duplicate()),
        }
    }
}

/// One wire packet: tagged content, the source route it travels, and the
/// session it belongs to.
#[derive(Debug)]
pub struct Packet {
    pub pack_type: PacketType,
    pub routing_header: SourceRoutingHeader,
    pub session_id: u64,
}

/// Mathematical view of a `Packet`.
#[verifier::ext_equal]
pub struct PacketV {
    pub pack_type: PacketTypeV,
    pub routing_header: HeaderV,
    pub session_id: u64,
}

impl View for Packet {
    type V = PacketV;

    open spec fn view(&self) -> PacketV {
        PacketV {
            pack_type: self.pack_type@,
            routing_header: self.routing_header@,
            session_id: self.session_id,
        }
    }
}

impl Packet {
    pub fn new_fragment(routing_header: SourceRoutingHeader, session_id: u64, fragment: Fragment)
        -> (r: Packet)
        ensures
            r@.pack_type == PacketTypeV::MsgFragment(fragment@),
            r@.routing_header == routing_header@,
            r@.session_id == session_id,
    {
        Packet { pack_type: PacketType::MsgFragment(fragment), routing_header, session_id }
    }

    pub fn new_ack(routing_header: SourceRoutingHeader, session_id: u64, fragment_index: u64) -> (r:
        Packet)
        ensures
            r@.pack_type == PacketTypeV::Ack(Ack { fragment_index }),
            r@.routing_header == routing_header@,
            r@.session_id == session_id,
    {
        Packet {
            pack_type: PacketType::Ack(Ack { fragment_index }),
            routing_header,
            session_id,
        }
    }

    pub fn new_flood_request(
        routing_header: SourceRoutingHeader,
        session_id: u64,
        flood_request: FloodRequest,
    ) -> (r: Packet)
        ensures
            r@.pack_type == PacketTypeV::FloodRequest(flood_request@),
            r@.routing_header == routing_header@,
            r@.session_id == session_id,
    {
        Packet { pack_type: PacketType::FloodRequest(flood_request), routing_header, session_id }
    }

    pub fn new_flood_response(
        routing_header: SourceRoutingHeader,
        session_id: u64,
        flood_response: FloodResponse,
    ) -> (r: Packet)
        ensures
            r@.pack_type == PacketTypeV::FloodResponse(flood_response@),
            r@.routing_header == routing_header@,
            r@.session_id == session_id,
    {
        Packet { pack_type: PacketType::FloodResponse(flood_response), routing_header, session_id }
    }

    /// An element by element copy of the packet.
    pub fn duplicate(&self) -> (r: Packet)
        ensures
            r@ == self@,
    {
        Packet {
            pack_type: self.pack_type.duplicate(),
            routing_header: self.routing_header.duplicate(),
            session_id: self.session_id,
        }
    }
}

/// What the core reports upward to its controller.
#[derive(Debug)]
pub enum NodeEvent {
    PacketSent(Packet),
    FloodStarted(u64, u8),
    NodeRemoved(u8),
}

} // verus!
