use rmm::algorithm::{Line, Point};
use rmm::graph::RoadGraph;
use rmm::network::{Edge, EdgeData, EdgeType, Network, NodeId};
use rmm::MMError;

fn feature(id: u64, from: u64, to: u64, geometry: Vec<(i64, i64)>) -> EdgeData {
    EdgeData {
        edge_id: id,
        from_node_id: from,
        to_node_id: to,
        length: 0,
        name: String::new(),
        geometry: geometry.into_iter().map(|(x, y)| Point { x, y }).collect(),
    }
}

#[test]
fn network_load_assigns_dense_indices() {
    let feats = vec![
        feature(1, 1, 2, vec![(0, 0), (0, 100)]),
        feature(2, 2, 3, vec![(0, 100), (0, 250)]),
    ];
    let net = Network::from_features(&feats).unwrap();
    assert_eq!(net.nodes.len(), 3);
    assert_eq!(net.edges.len(), 2);
    assert_eq!(net.find_node_by_id(&NodeId::Real(1)), Some(0));
    assert_eq!(net.find_node_by_id(&NodeId::Real(2)), Some(1));
    assert_eq!(net.find_node_by_id(&NodeId::Real(3)), Some(2));
    assert_eq!(net.find_node_by_id(&NodeId::Real(9)), None);
    assert_eq!(net.find_node_by_index(0), Some(NodeId::Real(1)));
    assert_eq!(net.find_node_by_index(7), None);
}

#[test]
fn network_load_recomputes_planar_lengths() {
    let feats = vec![feature(7, 1, 2, vec![(0, 0), (3, 4), (3, 10)])];
    let mut feats = feats;
    feats[0].length = 4242;
    let net = Network::from_features(&feats).unwrap();
    let e = net.find_edge_by_id(7).unwrap();
    assert_eq!(e.length, 11);
    assert_eq!(e.ori_length, 4242);
    assert!(matches!(e.edge_type, EdgeType::Real));
}

#[test]
fn network_load_skips_duplicate_edge_ids() {
    let feats = vec![
        feature(1, 1, 2, vec![(0, 0), (0, 100)]),
        feature(1, 2, 3, vec![(0, 100), (0, 200)]),
    ];
    let net = Network::from_features(&feats).unwrap();
    assert_eq!(net.edges.len(), 1);
    assert_eq!(net.find_edge_by_id(1).unwrap().get_from_node(), NodeId::Real(1));
}

#[test]
fn network_load_rejects_degenerate_geometry() {
    let feats = vec![feature(1, 1, 2, vec![(5, 5)])];
    assert!(matches!(
        Network::from_features(&feats),
        Err(MMError::InvalidGeometry)
    ));
}

#[test]
fn add_node_rejects_duplicates() {
    let mut net = Network::new();
    assert_eq!(net.add_node(NodeId::Real(4)), Ok(0));
    assert_eq!(net.add_node(NodeId::Real(5)), Ok(1));
    assert_eq!(net.add_node(NodeId::Real(4)), Err(MMError::DuplicateId));
    assert_eq!(net.nodes.len(), 2);
}

#[test]
fn add_edge_rejects_duplicates() {
    let mut net = Network::new();
    net.add_node(NodeId::Real(1)).unwrap();
    net.add_node(NodeId::Real(2)).unwrap();
    let mk = |id: u64| {
        Edge::new(
            id,
            NodeId::Real(1),
            NodeId::Real(2),
            100,
            100,
            EdgeType::Real,
            String::new(),
            Line(vec![Point { x: 0, y: 0 }, Point { x: 0, y: 100 }]),
        )
    };
    assert_eq!(net.add_edge(mk(9)), Ok(0));
    assert!(matches!(net.add_edge(mk(9)), Err(MMError::DuplicateId)));
    assert_eq!(net.edges.len(), 1);
}

#[test]
fn shortest_path_sums_arc_weights() {
    // A chain 1 -> 2 -> 3; the cost from 1 to 3 is the sum of both
    // edge lengths, which would fail if the graph or the query were
    // not really delegated to the routing library.
    let feats = vec![
        feature(1, 1, 2, vec![(0, 0), (0, 100)]),
        feature(2, 2, 3, vec![(0, 100), (0, 250)]),
    ];
    let net = Network::from_features(&feats).unwrap();
    let graph = RoadGraph::new(net);
    let a = graph.network.find_node_by_id(&NodeId::Real(1)).unwrap();
    let c = graph.network.find_node_by_id(&NodeId::Real(3)).unwrap();
    assert_eq!(graph.short_path(a, c), Ok(250));
    assert_eq!(graph.short_path(a, a), Ok(0));
    // The reverse direction has no arc.
    assert_eq!(graph.short_path(c, a), Err(MMError::NoPath));
}

#[test]
fn second_shortest_path_takes_the_detour() {
    // Two routes from 1 to 2: direct (length 100) and via node 3
    // (length 70 + 80 = 150).
    let feats = vec![
        feature(1, 1, 2, vec![(0, 0), (0, 100)]),
        feature(2, 1, 3, vec![(0, 0), (70, 0)]),
        feature(3, 3, 2, vec![(70, 0), (70, 80)]),
    ];
    let net = Network::from_features(&feats).unwrap();
    let graph = RoadGraph::new(net);
    let a = graph.network.find_node_by_id(&NodeId::Real(1)).unwrap();
    let b = graph.network.find_node_by_id(&NodeId::Real(2)).unwrap();
    assert_eq!(graph.short_k_path(a, b, 1), Ok(100));
    assert_eq!(graph.short_k_path(a, b, 1), graph.short_path(a, b));
    assert_eq!(graph.short_k_path(a, b, 2), Ok(150));
    assert!(matches!(graph.short_k_path(a, b, 9), Err(MMError::NoPath)));
}

#[test]
fn update_graph_keeps_node_counts_in_step() {
    // Node-count invariant: the routing graph always mirrors the
    // network's node set, also while virtual nodes are added.
    let feats = vec![feature(1, 1, 2, vec![(0, 0), (0, 100)])];
    let net = Network::from_features(&feats).unwrap();
    let mut graph = RoadGraph::new(net);
    assert_eq!(graph.graph.node_count(), graph.network.nodes.len());
    let dummy = Edge::new(
        77,
        NodeId::Real(1),
        NodeId::Real(100),
        40,
        40,
        EdgeType::Dummy,
        String::new(),
        Line(vec![Point { x: 0, y: 0 }, Point { x: 0, y: 100 }]),
    );
    assert_eq!(graph.graph.edge_count(), 1);
    graph.update_graph(dummy).unwrap();
    assert_eq!(graph.graph.edge_count(), 2);
    assert_eq!(graph.network.nodes.len(), 3);
    assert_eq!(graph.graph.node_count(), graph.network.nodes.len());
    let d = graph.network.find_node_by_id(&NodeId::Real(100)).unwrap();
    let a = graph.network.find_node_by_id(&NodeId::Real(1)).unwrap();
    assert_eq!(graph.short_path(a, d), Ok(40));
}

#[test]
fn get_geom_rect_bounds_the_geometry() {
    let e = Edge::new(
        1,
        NodeId::Real(1),
        NodeId::Real(2),
        0,
        0,
        EdgeType::Real,
        String::new(),
        Line(vec![
            Point { x: 5, y: -3 },
            Point { x: -2, y: 9 },
            Point { x: 4, y: 1 },
        ]),
    );
    let (sw, ne) = e.get_geom_rect().unwrap();
    assert_eq!((sw.x, sw.y), (-2, -3));
    assert_eq!((ne.x, ne.y), (5, 9));
}
