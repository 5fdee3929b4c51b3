use fast_routing::{
    ContractionHierarchy, DummyNetworkGenerator, Edge, IsochroneCalculator, Network, Node,
    RoutingMode,
};

// One kilometer in millimeters: the spacing of the simple test grid.
const KM: u64 = 1_000_000;
// The cost of one 1 km edge for Car mode at its 50 km/h default speed:
// 72 seconds in microseconds.
const KM_CAR_COST: u64 = 72_000_000;

#[test]
fn test_basic_routing() {
    let network = DummyNetworkGenerator::create_simple().unwrap();
    assert_eq!(network.node_count(), 9);
    assert_eq!(network.edge_count(), 12);

    let ch = ContractionHierarchy::new(network).unwrap();
    let stats = ch.stats();
    assert_eq!(stats["nodes"], "9");
    assert_eq!(stats["edges"], "12");

    // Test shortest path
    let result = ch.shortest_path(0, 8).unwrap();
    assert!(result.is_some());

    let (cost, path) = result.unwrap();
    assert!(cost > 0);
    assert!(path.len() >= 2);
    assert_eq!(path[0], 0);
    assert_eq!(path[path.len() - 1], 8);
}

#[test]
fn test_grid_network() {
    let network = DummyNetworkGenerator::create_grid(3, 3, 100_000).unwrap();
    assert_eq!(network.node_count(), 9);

    let ch = ContractionHierarchy::new(network).unwrap();

    // Test that we can route between corners
    let result = ch.shortest_path(0, 8).unwrap();
    assert!(result.is_some());
}

#[test]
fn test_isochrone() {
    let network = DummyNetworkGenerator::create_simple().unwrap();
    let ch = ContractionHierarchy::new(network).unwrap();

    let isochrone = IsochroneCalculator::calculate(&ch, 0, 300_000_000).unwrap();
    assert_eq!(isochrone.max_cost, 300_000_000);
    // With a 300 s limit and 72 s per edge, we should reach all 9 nodes in a
    // 3x3 grid
    assert_eq!(isochrone.reachable_nodes, 9);
}

#[test]
fn test_invalid_routing() {
    let network = DummyNetworkGenerator::create_simple().unwrap();
    let ch = ContractionHierarchy::new(network).unwrap();

    // Test routing to non-existent node
    let result = ch.shortest_path(0, 999);
    assert!(result.is_err());
}

#[test]
fn test_default_speeds() {
    assert_eq!(RoutingMode::Walking.default_speed(), 5);
    assert_eq!(RoutingMode::Cycling.default_speed(), 15);
    assert_eq!(RoutingMode::Car.default_speed(), 50);
    assert_eq!(RoutingMode::Wheelchair.default_speed(), 4);
}

#[test]
fn test_cost_model_exact() {
    // One kilometer at the Car default of 50 km/h takes exactly 72 s.
    let mut edge = Edge::new(0, 1, 2, Vec::new(), KM);
    edge.calculate_cost(RoutingMode::Car, None);
    assert_eq!(edge.get_cost(RoutingMode::Car), Some(KM_CAR_COST));
    // Other modes stay uncached.
    assert_eq!(edge.get_cost(RoutingMode::Walking), None);
    // One kilometer walked at the 5 km/h default takes exactly 720 s.
    edge.calculate_cost(RoutingMode::Walking, None);
    assert_eq!(edge.get_cost(RoutingMode::Walking), Some(720_000_000));
    // An explicit 100 km/h speed takes exactly 36 s.
    edge.calculate_cost(RoutingMode::Car, Some(100));
    assert_eq!(edge.get_cost(RoutingMode::Car), Some(36_000_000));
}

#[test]
fn test_edge_own_speed_used() {
    // An edge carrying its own speed is costed at that speed when added.
    let mut network = Network::new();
    network.add_node(Node::new(1, 0, 0)).unwrap();
    network.add_node(Node::new(2, 0, 0)).unwrap();
    let mut edge = Edge::new(7, 1, 2, Vec::new(), KM);
    edge.max_speed = Some(100);
    network.add_edge(edge, RoutingMode::Car).unwrap();
    let stored = network.get_edge(7).unwrap();
    assert_eq!(stored.get_cost(RoutingMode::Car), Some(36_000_000));
}

#[test]
fn test_accessibility() {
    let mut edge = Edge::new(0, 1, 2, Vec::new(), KM);
    // No tags at all: everything may pass.
    assert!(edge.is_accessible(RoutingMode::Car));
    assert!(edge.is_accessible(RoutingMode::Walking));
    assert!(edge.is_accessible(RoutingMode::Cycling));
    assert!(edge.is_accessible(RoutingMode::Wheelchair));

    edge.highway_type = Some("footway".to_string());
    assert!(!edge.is_accessible(RoutingMode::Car));
    assert!(edge.is_accessible(RoutingMode::Walking));
    assert!(edge.is_accessible(RoutingMode::Cycling));

    edge.highway_type = Some("motorway".to_string());
    assert!(edge.is_accessible(RoutingMode::Car));
    assert!(!edge.is_accessible(RoutingMode::Cycling));

    edge.highway_type = Some("steps".to_string());
    assert!(!edge.is_accessible(RoutingMode::Car));
    assert!(!edge.is_accessible(RoutingMode::Cycling));
    assert!(!edge.is_accessible(RoutingMode::Wheelchair));
    assert!(edge.is_accessible(RoutingMode::Walking));

    edge.highway_type = Some("residential".to_string());
    edge.surface = Some("gravel".to_string());
    assert!(!edge.is_accessible(RoutingMode::Wheelchair));
    edge.surface = Some("asphalt".to_string());
    assert!(edge.is_accessible(RoutingMode::Wheelchair));
    edge.surface = None;
    assert!(edge.is_accessible(RoutingMode::Wheelchair));
    edge.highway_type = Some("path".to_string());
    assert!(!edge.is_accessible(RoutingMode::Wheelchair));
    assert!(!edge.is_accessible(RoutingMode::Car));
}

#[test]
fn test_duplicate_ids_rejected() {
    let mut network = Network::new();
    network.add_node(Node::new(1, 0, 0)).unwrap();
    assert!(network.add_node(Node::new(1, 5, 5)).is_err());
    network.add_node(Node::new(2, 0, 0)).unwrap();
    network
        .add_edge(Edge::new(10, 1, 2, Vec::new(), KM), RoutingMode::Walking)
        .unwrap();
    assert!(network
        .add_edge(Edge::new(10, 2, 1, Vec::new(), KM), RoutingMode::Walking)
        .is_err());
}

#[test]
fn test_add_edge_missing_endpoint() {
    let mut network = Network::new();
    network.add_node(Node::new(1, 0, 0)).unwrap();
    let r = network.add_edge(Edge::new(10, 1, 99, Vec::new(), KM), RoutingMode::Walking);
    assert!(r.is_err());
    let r = network.add_edge(Edge::new(10, 99, 1, Vec::new(), KM), RoutingMode::Walking);
    assert!(r.is_err());
}

#[test]
fn test_getters() {
    let network = DummyNetworkGenerator::create_simple().unwrap();
    assert!(network.validate().is_ok());
    let node = network.get_node(4).unwrap();
    assert_eq!(node.id, 4);
    assert!(network.get_node(999).is_none());
    let edge = network.get_edge(0).unwrap();
    assert_eq!(edge.id, 0);
    assert!(network.get_edge(999).is_none());
    assert!(network.get_node_index(0).is_some());
    assert!(network.get_node_index(999).is_none());
    let mut ids = network.get_all_node_ids();
    ids.sort();
    assert_eq!(ids, vec![0, 1, 2, 3, 4, 5, 6, 7, 8]);
}

#[test]
fn test_shortest_path_exact_cost() {
    // Corner to opposite corner of the simple grid: four edges of 72 s.
    let network = DummyNetworkGenerator::create_simple().unwrap();
    let ch = ContractionHierarchy::new(network).unwrap();
    let (cost, path) = ch.shortest_path(0, 8).unwrap().unwrap();
    assert_eq!(cost, 4 * KM_CAR_COST);
    assert_eq!(path.len(), 5);
    assert_eq!(path[0], 0);
    assert_eq!(path[4], 8);
    // A cheaper parallel edge must win.
    let mut network = Network::new();
    network.add_node(Node::new(1, 0, 0)).unwrap();
    network.add_node(Node::new(2, 0, 0)).unwrap();
    network
        .add_edge(Edge::new(10, 1, 2, Vec::new(), KM), RoutingMode::Car)
        .unwrap();
    network
        .add_edge(Edge::new(11, 1, 2, Vec::new(), KM / 2), RoutingMode::Car)
        .unwrap();
    let ch = ContractionHierarchy::new(network).unwrap();
    let (cost, _) = ch.shortest_path(1, 2).unwrap().unwrap();
    assert_eq!(cost, KM_CAR_COST / 2);
}

#[test]
fn test_disconnected_components() {
    // Two disjoint 2-node components, one edge each.
    let mut network = Network::new();
    for id in 1..=4 {
        network.add_node(Node::new(id, 0, 0)).unwrap();
    }
    network
        .add_edge(Edge::new(10, 1, 2, Vec::new(), KM), RoutingMode::Car)
        .unwrap();
    network
        .add_edge(Edge::new(11, 3, 4, Vec::new(), KM), RoutingMode::Car)
        .unwrap();
    let ch = ContractionHierarchy::new(network).unwrap();
    // Across components: no path, not an error.
    let result = ch.shortest_path(1, 3).unwrap();
    assert!(result.is_none());
    // Within a component the route exists.
    assert!(ch.shortest_path(1, 2).unwrap().is_some());
}

#[test]
fn test_isochrone_isolated_node() {
    let mut network = Network::new();
    network.add_node(Node::new(1, 0, 0)).unwrap();
    network.add_node(Node::new(2, 0, 0)).unwrap();
    network.add_node(Node::new(5, 0, 0)).unwrap();
    network
        .add_edge(Edge::new(10, 1, 2, Vec::new(), KM), RoutingMode::Car)
        .unwrap();
    // The start node of an isochrone is always present at cost 0; an
    // isolated start yields exactly the singleton.
    let ch = ContractionHierarchy::new(network).unwrap();
    let iso = IsochroneCalculator::calculate(&ch, 5, 1_000_000_000).unwrap();
    assert_eq!(iso.reachable_nodes, 1);
    assert_eq!(iso.travel_costs.get(&5), Some(&0));
    assert_eq!(iso.start_node, 5);
}

#[test]
fn test_isochrone_unknown_start() {
    let network = DummyNetworkGenerator::create_simple().unwrap();
    let ch = ContractionHierarchy::new(network).unwrap();
    assert!(IsochroneCalculator::calculate(&ch, 999, 300_000_000).is_err());
}

#[test]
fn test_isochrone_exact_costs() {
    // From the grid's center, the four side-midpoints cost one edge and the
    // corners two.
    let network = DummyNetworkGenerator::create_simple().unwrap();
    let ch = ContractionHierarchy::new(network).unwrap();
    let iso = IsochroneCalculator::calculate(&ch, 4, 200_000_000).unwrap();
    assert_eq!(iso.reachable_nodes, 9);
    assert_eq!(iso.travel_costs[&4], 0);
    for id in [1u64, 3, 5, 7] {
        assert_eq!(iso.travel_costs[&id], KM_CAR_COST);
    }
    for id in [0u64, 2, 6, 8] {
        assert_eq!(iso.travel_costs[&id], 2 * KM_CAR_COST);
    }
}

#[test]
fn test_isochrone_monotonic() {
    // A tighter threshold reaches a subset, at identical costs.
    let network = DummyNetworkGenerator::create_simple().unwrap();
    let ch = ContractionHierarchy::new(network).unwrap();
    let small = IsochroneCalculator::calculate(&ch, 0, 100_000_000).unwrap();
    let large = IsochroneCalculator::calculate(&ch, 0, 300_000_000).unwrap();
    assert!(small.reachable_nodes <= large.reachable_nodes);
    for (id, cost) in &small.travel_costs {
        assert_eq!(large.travel_costs.get(id), Some(cost));
    }
    // 100 s reaches the start and its two 72 s neighbours only.
    assert_eq!(small.reachable_nodes, 3);
}

#[test]
fn test_calculate_multiple() {
    let network = DummyNetworkGenerator::create_simple().unwrap();
    let ch = ContractionHierarchy::new(network).unwrap();
    let thresholds = vec![100_000_000u64, 300_000_000u64];
    let results = IsochroneCalculator::calculate_multiple(&ch, 0, &thresholds).unwrap();
    assert_eq!(results.len(), 2);
    assert_eq!(results[0].max_cost, 100_000_000);
    assert_eq!(results[1].max_cost, 300_000_000);
    assert_eq!(results[0].reachable_nodes, 3);
    assert_eq!(results[1].reachable_nodes, 9);
    assert_eq!(results[0].start_node, 0);
}

#[test]
fn test_detailed_stats() {
    let network = DummyNetworkGenerator::create_simple().unwrap();
    let ch = ContractionHierarchy::new(network).unwrap();
    let stats = ch.detailed_stats();
    assert_eq!(stats["original_nodes"], 9);
    assert_eq!(stats["original_edges"], 12);
    assert_eq!(stats["shortcuts_created"], 0);
}

#[test]
fn test_nearest_by_distance() {
    assert_eq!(fast_routing::network::nearest_by_distance(&Vec::new()), None);
    let candidates = vec![(10u64, 500u64), (11, 200), (12, 200), (13, 900)];
    // The first of the equally nearest candidates wins.
    assert_eq!(
        fast_routing::network::nearest_by_distance(&candidates),
        Some(11)
    );
}

#[test]
fn test_node_elevation() {
    let node = Node::new(7, 116_400_000, 399_000_000).with_elevation(43_500);
    assert_eq!(node.id, 7);
    assert_eq!(node.lon_e7, 116_400_000);
    assert_eq!(node.lat_e7, 399_000_000);
    assert_eq!(node.elevation_mm, Some(43_500));
}

#[test]
fn test_error_message() {
    let mut network = Network::new();
    network.add_node(Node::new(1, 0, 0)).unwrap();
    let err = network
        .add_edge(Edge::new(10, 1, 99, Vec::new(), KM), RoutingMode::Walking)
        .unwrap_err();
    assert!(!err.message().is_empty());
}
