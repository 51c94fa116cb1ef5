use crossbeam_channel::unbounded;
use overlay_router::packet::{FloodResponse, NodeEvent, NodeType, PacketType};
use overlay_router::RoutingHandler;
use overlay_router::packet::Ack;
use overlay_router::network::NetworkError;
use overlay_router::packet::SourceRoutingHeader;
use overlay_router::types::NodeCommand;

#[test]
fn test_add_neighbor() {
    let (sender, _receiver) = unbounded();
    let mut handler = RoutingHandler::new(1, NodeType::Client, Vec::new(), sender);

    let (neighbor_sender, _neighbor_receiver) = unbounded();
    handler.add_neighbor(2, neighbor_sender);

    assert!(handler.has_neighbor(2));
    assert!(handler.get_network_view().nodes[0].get_adjacents().contains(&2));
}

#[test]
fn test_remove_neighbor() {
    let (sender, _receiver) = unbounded();
    let mut handler = RoutingHandler::new(1, NodeType::Client, Vec::new(), sender);

    let (neighbor_sender, _neighbor_receiver) = unbounded();
    handler.add_neighbor(2, neighbor_sender);
    handler.remove_neighbor(2);

    assert!(!handler.has_neighbor(2));
    assert!(!handler.get_network_view().nodes[0].get_adjacents().contains(&2));
}

#[test]
fn test_start_flood() {
    let (sender, receiver) = unbounded();
    let mut handler = RoutingHandler::new(1, NodeType::Client, Vec::new(), sender);

    let (neighbor_sender, neighbor_receiver) = unbounded();
    handler.add_neighbor(2, neighbor_sender);

    handler.start_flood().unwrap();

    let packet = receiver.try_recv().unwrap();
    assert!(matches!(packet, NodeEvent::FloodStarted(_, _)));

    let neighbor_packet = neighbor_receiver.try_recv().unwrap();
    assert!(matches!(neighbor_packet.pack_type, PacketType::FloodRequest(_)));
}

#[test]
fn test_handle_flood_response() {
    let (sender, _receiver) = unbounded();
    let mut handler = RoutingHandler::new(1, NodeType::Client, Vec::new(), sender);
    handler.start_flood().unwrap();
    assert_eq!(handler.get_flood_counter(), 1);

    let flood_response = FloodResponse {
        flood_id: 1,
        path_trace: vec![(2, NodeType::Drone), (3, NodeType::Client)],
    };

    handler.handle_flood_response(flood_response);

    assert!(handler.get_network_view().nodes.iter().any(|n| n.get_id() == 2));
    assert!(handler.get_network_view().nodes.iter().any(|n| n.get_id() == 3));
}

#[test]
fn test_send_message() {
    let (sender, _receiver) = unbounded();
    let mut handler = RoutingHandler::new(1, NodeType::Client, Vec::new(), sender);

    let (neighbor_sender, neighbor_receiver) = unbounded();
    handler.add_neighbor(2, neighbor_sender);

    let message = b"Hello world".to_vec();

    handler.send_message(&message, 2).unwrap();

    let packet = neighbor_receiver.try_recv().unwrap();
    assert!(matches!(packet.pack_type, PacketType::MsgFragment(_)));
}

#[test]
fn test_handle_ack() {
    let (sender, _receiver) = unbounded();
    let mut handler = RoutingHandler::new(1, NodeType::Client, Vec::new(), sender);

    let (neighbor_sender, _neighbor_receiver) = unbounded();
    handler.add_neighbor(2, neighbor_sender);

    let message = b"Hello, world!".to_vec();
    handler.send_message(&message, 2).unwrap();

    let ack = Ack { fragment_index: 0 };

    handler.handle_ack(ack, 1, 2);

    assert!(handler.get_buffer().get_not_received(1, 2).is_none());
}

#[test]
fn counters_rise_one_per_flood() {
    let (sender, _receiver) = unbounded();
    let mut handler = RoutingHandler::new(1, NodeType::Client, Vec::new(), sender);

    assert_eq!(handler.get_session_counter(), 0);
    assert_eq!(handler.get_flood_counter(), 0);
    handler.start_flood().unwrap();
    assert_eq!(handler.get_session_counter(), 1);
    assert_eq!(handler.get_flood_counter(), 1);
    handler.start_flood().unwrap();
    assert_eq!(handler.get_session_counter(), 2);
    assert_eq!(handler.get_flood_counter(), 2);
}

#[test]
fn send_to_declared_but_unconnected_node_fails() {
    let (sender, _receiver) = unbounded();
    let mut handler = RoutingHandler::new(1, NodeType::Client, Vec::new(), sender);
    let (tx2, _rx2) = unbounded();
    handler.add_neighbor(2, tx2);
    // Node 9 becomes known through a flood, but no channel to it exists.
    handler.start_flood().unwrap();
    handler.handle_flood_response(FloodResponse {
        flood_id: 1,
        path_trace: vec![(1, NodeType::Client), (9, NodeType::Drone)],
    });

    let result = handler.send_message(&b"hi".to_vec(), 9);
    assert!(matches!(result, Err(NetworkError::NodeIsNotANeighbor(9))));
}

#[test]
fn header_loops_are_stripped() {
    let header = SourceRoutingHeader::new(vec![1, 2, 3, 2, 4], 1);
    let clean = header.without_loops();
    assert_eq!(clean.hops, vec![1, 2, 4]);
    assert_eq!(clean.hop_index, 1);

    let straight = SourceRoutingHeader::new(vec![1, 2, 3], 1).without_loops();
    assert_eq!(straight.hops, vec![1, 2, 3]);
}

#[test]
fn commands_expose_their_sender() {
    let (s, _r) = unbounded();
    let cmd = NodeCommand::AddSender(7, s);
    assert!(cmd.is_add_sender());
    let (id, _sender) = cmd.as_add_sender().unwrap();
    assert_eq!(id, 7);

    let cmd = NodeCommand::RemoveSender(7);
    assert!(!cmd.is_add_sender());
    assert!(cmd.as_add_sender().is_none());
}
