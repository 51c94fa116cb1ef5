use crossbeam_channel::unbounded;
use overlay_router::assembler::FragmentAssembler;
use overlay_router::packet::{
    Ack, FloodResponse, Nack, NackType, NodeEvent, NodeType, Packet, PacketType,
    SourceRoutingHeader,
};
use overlay_router::RoutingHandler;
use overlay_router::network::NetworkError;
use overlay_router::packet::FloodRequest;
use overlay_router::packet::Fragment;

/// A node 1 that has learned the line 1 - 2 - 3 through one flood round,
/// with node 2 reachable over a channel.
fn line_topology() -> (
    RoutingHandler,
    crossbeam_channel::Receiver<NodeEvent>,
    crossbeam_channel::Receiver<Packet>,
) {
    let (sender, controller_rx) = unbounded();
    let mut handler = RoutingHandler::new(1, NodeType::Client, Vec::new(), sender);
    let (neighbor_sender, neighbor_rx) = unbounded();
    handler.add_neighbor(2, neighbor_sender);
    handler.start_flood().unwrap();
    // Drain the flood request node 2 received and the started event.
    let _ = neighbor_rx.try_recv().unwrap();
    let _ = controller_rx.try_recv().unwrap();
    handler.handle_flood_response(FloodResponse {
        flood_id: 1,
        path_trace: vec![(1, NodeType::Client), (2, NodeType::Drone), (3, NodeType::Client)],
    });
    (handler, controller_rx, neighbor_rx)
}

#[test]
fn linear_topology_sends_two_fragments() {
    let (mut handler, controller_rx, neighbor_rx) = line_topology();

    let payload: Vec<u8> = (0..200u16).map(|b| b as u8).collect();
    handler.send_message(&payload, 3).unwrap();

    let mut seen_indexes = Vec::new();
    for _ in 0..2 {
        let packet = neighbor_rx.try_recv().unwrap();
        assert_eq!(packet.routing_header.hops, vec![1, 2, 3]);
        assert_eq!(packet.routing_header.hop_index, 1);
        match packet.pack_type {
            PacketType::MsgFragment(f) => {
                assert_eq!(f.total_n_fragments, 2);
                if f.fragment_index == 0 {
                    assert_eq!(f.length, 128);
                } else {
                    assert_eq!(f.fragment_index, 1);
                    assert_eq!(f.length, 72);
                }
                seen_indexes.push(f.fragment_index);
            },
            _ => panic!("expected a fragment"),
        }
        let event = controller_rx.try_recv().unwrap();
        assert!(matches!(event, NodeEvent::PacketSent(_)));
    }
    seen_indexes.sort();
    assert_eq!(seen_indexes, vec![0, 1]);
    assert!(neighbor_rx.try_recv().is_err());
}

#[test]
fn ack_for_every_fragment_clears_the_buffer() {
    let (mut handler, _controller_rx, _neighbor_rx) = line_topology();
    let payload: Vec<u8> = (0..200u16).map(|b| b as u8).collect();
    handler.send_message(&payload, 3).unwrap();
    let session = handler.get_session_counter();
    let mut assembler = FragmentAssembler::new();

    for index in 0..2u64 {
        let ack = Packet::new_ack(SourceRoutingHeader::new(vec![3, 2, 1], 2), session, index);
        let out = handler.handle_packet(ack, &mut assembler).unwrap();
        assert!(out.is_none());
    }

    assert!(handler.get_buffer().get_not_received(session, 3).is_none());
}

#[test]
fn error_in_routing_reroutes_the_fragment() {
    let (sender, _controller_rx) = unbounded();
    let mut handler = RoutingHandler::new(1, NodeType::Client, Vec::new(), sender);
    let (tx2, rx2) = unbounded();
    let (tx4, rx4) = unbounded();
    handler.add_neighbor(2, tx2);
    handler.add_neighbor(4, tx4);
    handler.start_flood().unwrap();
    let _ = rx2.try_recv().unwrap();
    let _ = rx4.try_recv().unwrap();
    handler.handle_flood_response(FloodResponse {
        flood_id: 1,
        path_trace: vec![(1, NodeType::Client), (2, NodeType::Drone), (3, NodeType::Server)],
    });
    handler.handle_flood_response(FloodResponse {
        flood_id: 1,
        path_trace: vec![(1, NodeType::Client), (4, NodeType::Drone), (3, NodeType::Server)],
    });

    handler.send_message(&b"probe".to_vec(), 3).unwrap();
    let session = handler.get_session_counter();
    let sent = rx2.try_recv().unwrap();
    assert_eq!(sent.routing_header.hops, vec![1, 2, 3]);

    let nack = Packet {
        pack_type: PacketType::Nack(Nack {
            fragment_index: 0,
            nack_type: NackType::ErrorInRouting(2),
        }),
        routing_header: SourceRoutingHeader::new(vec![3, 1], 1),
        session_id: session,
    };
    let mut assembler = FragmentAssembler::new();
    handler.handle_packet(nack, &mut assembler).unwrap();

    assert!(!handler.has_neighbor(2));
    assert_eq!(handler.get_flood_counter(), 2);
    // The new flood probe reaches node 4 first, then the retried fragment.
    let probe = rx4.try_recv().unwrap();
    assert!(matches!(probe.pack_type, PacketType::FloodRequest(_)));
    let retried = rx4.try_recv().unwrap();
    assert!(matches!(retried.pack_type, PacketType::MsgFragment(_)));
    assert_eq!(retried.routing_header.hops, vec![1, 4, 3]);
}

#[test]
fn destination_is_drone_reclassifies_without_flood() {
    let (sender, _controller_rx) = unbounded();
    let mut handler = RoutingHandler::new(1, NodeType::Client, Vec::new(), sender);
    handler.start_flood().unwrap();
    handler.handle_flood_response(FloodResponse {
        flood_id: 1,
        path_trace: vec![(1, NodeType::Client), (5, NodeType::Client)],
    });
    let floods_before = handler.get_flood_counter();

    let nack = Packet {
        pack_type: PacketType::Nack(Nack {
            fragment_index: 0,
            nack_type: NackType::DestinationIsDrone,
        }),
        routing_header: SourceRoutingHeader::new(vec![5, 1], 1),
        session_id: 1,
    };
    let mut assembler = FragmentAssembler::new();
    handler.handle_packet(nack, &mut assembler).unwrap();

    let node5 = handler
        .get_network_view()
        .nodes
        .iter()
        .find(|n| n.get_id() == 5)
        .unwrap();
    assert_eq!(node5.get_node_type(), NodeType::Drone);
    assert_eq!(handler.get_flood_counter(), floods_before);
}

#[test]
fn flood_completes_on_three_node_line() {
    let (ctrl1, _c1) = unbounded();
    let (ctrl2, _c2) = unbounded();
    let (ctrl3, _c3) = unbounded();
    let (tx1, rx1) = unbounded::<Packet>();
    let (tx2, rx2) = unbounded::<Packet>();
    let (tx3, rx3) = unbounded::<Packet>();

    let mut node1 = RoutingHandler::new(1, NodeType::Client, Vec::new(), ctrl1);
    let mut node2 = RoutingHandler::new(2, NodeType::Drone, Vec::new(), ctrl2);
    let mut node3 = RoutingHandler::new(3, NodeType::Drone, Vec::new(), ctrl3);
    node1.add_neighbor(2, tx2.clone());
    node2.add_neighbor(1, tx1.clone());
    node2.add_neighbor(3, tx3.clone());
    node3.add_neighbor(2, tx2.clone());

    let mut asm1 = FragmentAssembler::new();
    let mut asm2 = FragmentAssembler::new();
    let mut asm3 = FragmentAssembler::new();

    node1.start_flood().unwrap();
    let probe = rx2.try_recv().unwrap();
    node2.handle_packet(probe, &mut asm2).unwrap();
    let probe = rx3.try_recv().unwrap();
    node3.handle_packet(probe, &mut asm3).unwrap();

    // Node 3 is a leaf: its response travels back along [3, 2, 1].  Node 2
    // only forwards it, so the test carries it to node 1.
    let response = rx2.try_recv().unwrap();
    assert_eq!(response.routing_header.hops, vec![3, 2, 1]);
    node1.handle_packet(response, &mut asm1).unwrap();

    let view = node1.get_network_view();
    let n1 = view.nodes.iter().find(|n| n.get_id() == 1).unwrap();
    let n2 = view.nodes.iter().find(|n| n.get_id() == 2).unwrap();
    let n3 = view.nodes.iter().find(|n| n.get_id() == 3).unwrap();
    assert!(n1.get_adjacents().contains(&2));
    assert!(n2.get_adjacents().contains(&1));
    assert!(n2.get_adjacents().contains(&3));
    assert!(n3.get_adjacents().contains(&2));
}

#[test]
fn empty_payload_is_rejected_untouched() {
    let (sender, _controller_rx) = unbounded();
    let mut handler = RoutingHandler::new(1, NodeType::Client, Vec::new(), sender);
    let (tx2, _rx2) = unbounded();
    handler.add_neighbor(2, tx2);
    let sessions_before = handler.get_session_counter();
    let floods_before = handler.get_flood_counter();

    let result = handler.send_message(&Vec::new(), 3);

    assert!(matches!(result, Err(NetworkError::EmptyMessage)));
    assert_eq!(handler.get_session_counter(), sessions_before);
    assert_eq!(handler.get_flood_counter(), floods_before);
    assert_eq!(handler.get_buffer().packets_received.len(), 0);
}

#[test]
fn duplicate_flood_is_answered_not_forwarded() {
    let (ctrl, _c) = unbounded();
    let mut node2 = RoutingHandler::new(2, NodeType::Drone, Vec::new(), ctrl);
    let (tx1, rx1) = unbounded::<Packet>();
    let (tx3, rx3) = unbounded::<Packet>();
    node2.add_neighbor(1, tx1);
    node2.add_neighbor(3, tx3);

    let probe = FloodRequest::new(1, 1, NodeType::Client);
    node2
        .handle_flood_request(probe, 1)
        .unwrap();
    // First sighting: relayed to node 3 only.
    assert!(matches!(rx3.try_recv().unwrap().pack_type, PacketType::FloodRequest(_)));
    assert!(rx1.try_recv().is_err());

    let probe_again = FloodRequest::new(1, 1, NodeType::Client);
    node2
        .handle_flood_request(probe_again, 2)
        .unwrap();
    // Duplicate: nothing is relayed; a single response goes back.
    let answer = rx1.try_recv().unwrap();
    assert!(matches!(answer.pack_type, PacketType::FloodResponse(_)));
    assert!(rx1.try_recv().is_err());
    assert!(rx3.try_recv().is_err());
}

#[test]
fn fragment_is_acknowledged_and_assembled() {
    let (sender, _controller_rx) = unbounded();
    let mut handler = RoutingHandler::new(3, NodeType::Server, Vec::new(), sender);
    let (tx2, rx2) = unbounded();
    handler.add_neighbor(2, tx2);

    let mut data = [0u8; 128];
    data[0] = 7;
    data[1] = 8;
    let fragment = Fragment::new(0, 1, 2, data);
    let packet = Packet::new_fragment(SourceRoutingHeader::new(vec![1, 2, 3], 2), 9, fragment);

    let mut assembler = FragmentAssembler::new();
    let out = handler.handle_packet(packet, &mut assembler).unwrap();

    let (payload, origin, session) = out.unwrap();
    assert_eq!(payload, vec![7, 8]);
    assert_eq!(origin, 1);
    assert_eq!(session, 9);

    // The acknowledgement retraces the route.
    let ack = rx2.try_recv().unwrap();
    assert_eq!(ack.routing_header.hops, vec![3, 2, 1]);
    assert_eq!(ack.routing_header.hop_index, 1);
    assert!(matches!(ack.pack_type, PacketType::Ack(Ack { fragment_index: 0 })));
}
