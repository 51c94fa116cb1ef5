use overlay_router::network::{Network, Node};
use overlay_router::packet::NodeType;
use overlay_router::network::NetworkError;

#[test]
fn test_add_node() {
    let root = Node::new(1, NodeType::Client, vec![2, 3]);
    let mut network = Network::new(root);

    let new_node = Node::new(2, NodeType::Client, vec![1]);
    let _ = network.add_node(new_node);

    assert_eq!(network.nodes.len(), 2);
    assert!(network.nodes.iter().any(|n| n.get_id() == 2));
}

#[test]
fn test_remove_node() {
    let root = Node::new(1, NodeType::Client, vec![2, 3]);
    let mut network = Network::new(root);

    let new_node = Node::new(2, NodeType::Client, vec![1]);
    let _ = network.add_node(new_node);

    let _ = network.remove_node(2);

    assert_eq!(network.nodes.len(), 1);
    assert!(!network.nodes.iter().any(|n| n.get_id() == 2));
}

#[test]
fn test_update_node() {
    let root = Node::new(1, NodeType::Client, vec![2]);
    let mut network = Network::new(root);

    let new_node = Node::new(2, NodeType::Client, vec![1]);
    let _ = network.add_node(new_node);

    network.update_node(1, vec![3]).unwrap();

    assert!(network.nodes[0].get_adjacents().contains(&3));
}

#[test]
fn test_change_node_type() {
    let root = Node::new(1, NodeType::Client, vec![2]);
    let mut network = Network::new(root);

    network.change_node_type(1, NodeType::Drone);

    assert_eq!(network.nodes[0].get_node_type(), NodeType::Drone);
}

#[test]
fn test_find_path() {
    let root = Node::new(1, NodeType::Client, vec![2, 3]);
    let mut network = Network::new(root);

    let node2 = Node::new(2, NodeType::Client, vec![1, 4]);
    let node3 = Node::new(3, NodeType::Client, vec![1]);
    let node4 = Node::new(4, NodeType::Client, vec![2]);

    let _ = network.add_node(node2);
    let _ = network.add_node(node3);
    let _ = network.add_node(node4);

    let path = network.find_path(4).unwrap();

    assert_eq!(path, vec![1, 2, 4]);
}

#[test]
fn test_find_path_not_found() {
    let root = Node::new(1, NodeType::Client, vec![2]);
    let mut network = Network::new(root);

    let node2 = Node::new(2, NodeType::Client, vec![1]);
    let _ = network.add_node(node2);

    let result = network.find_path(3);

    assert!(result.is_err());
    assert_eq!(result.unwrap_err().message(), "Path not found for node 3");
}

#[test]
fn shortest_route_wins_over_detour() {
    // 1 - 2 - 4 and 1 - 5 - 6 - 4: breadth first search must take the
    // short way.
    let root = Node::new(1, NodeType::Client, vec![2, 5]);
    let mut network = Network::new(root);
    let _ = network.add_node(Node::new(2, NodeType::Drone, vec![1, 4]));
    let _ = network.add_node(Node::new(5, NodeType::Drone, vec![1, 6]));
    let _ = network.add_node(Node::new(6, NodeType::Drone, vec![5, 4]));
    let _ = network.add_node(Node::new(4, NodeType::Client, vec![2, 6]));

    let path = network.find_path(4).unwrap();
    assert_eq!(path, vec![1, 2, 4]);
}

#[test]
fn endpoint_pair_without_drone_is_refused() {
    let root = Node::new(1, NodeType::Client, vec![]);
    let mut network = Network::new(root);

    let endpoint = Node::new(2, NodeType::Server, vec![1]);
    let result = network.add_node(endpoint);

    assert!(matches!(result, Err(NetworkError::TopologyError)));
    // The node itself is still recorded, only the back reference is not.
    assert!(network.nodes.iter().any(|n| n.get_id() == 2));
    assert!(!network.nodes[0].get_adjacents().contains(&2));
}

#[test]
fn drone_link_gains_back_reference() {
    let root = Node::new(1, NodeType::Client, vec![]);
    let mut network = Network::new(root);

    let drone = Node::new(2, NodeType::Drone, vec![1]);
    network.add_node(drone).unwrap();

    assert!(network.nodes[0].get_adjacents().contains(&2));
}

#[test]
fn update_node_missing_reports_not_found() {
    let root = Node::new(1, NodeType::Client, vec![]);
    let mut network = Network::new(root);

    let result = network.update_node(9, vec![1]);
    assert!(matches!(result, Err(NetworkError::NodeNotFound(9))));
    assert_eq!(network.nodes.len(), 1);
}

#[test]
fn remove_node_scrubs_adjacency() {
    let root = Node::new(1, NodeType::Client, vec![]);
    let mut network = Network::new(root);
    network.add_node(Node::new(2, NodeType::Drone, vec![1])).unwrap();
    network.add_node(Node::new(3, NodeType::Drone, vec![1, 2])).unwrap();

    network.remove_node(2).unwrap();

    assert!(!network.nodes.iter().any(|n| n.get_id() == 2));
    for n in network.nodes.iter() {
        assert!(!n.get_adjacents().contains(&2));
    }
}

#[test]
fn error_messages_render() {
    assert_eq!(NetworkError::NodeNotFound(200).message(), "Node 200 not found");
    assert_eq!(NetworkError::NodeIsNotANeighbor(42).message(), "Node 42 is not a neighbor");
    assert_eq!(NetworkError::TopologyError.message(), "Topology error");
    assert_eq!(NetworkError::EmptyMessage.message(), "Cannot send an empty message");
}
