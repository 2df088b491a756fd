use rmm::algorithm::Point;
use rmm::model::{Candidate, Config};
use rmm::network::{EdgeData, Network, NodeId};
use rmm::stmatch::MMatch;
use rmm::traj::TrajInfo;
use rmm::MMError;

fn edge_data(id: u64, from: u64, to: u64, geometry: Vec<(i64, i64)>) -> EdgeData {
    EdgeData {
        edge_id: id,
        from_node_id: from,
        to_node_id: to,
        length: 0,
        name: String::new(),
        geometry: geometry.into_iter().map(|(x, y)| Point { x, y }).collect(),
    }
}

fn matcher(feats: Vec<EdgeData>) -> MMatch {
    MMatch::from_network(Network::from_features(&feats).unwrap())
}

fn sample(x: i64, y: i64, time_stamp: u64) -> TrajInfo {
    TrajInfo { point: Point { x, y }, time_stamp }
}

fn config(gps_err: u64, radius: u64, knn: u16) -> Config {
    Config {
        gps_err,
        radius,
        knn,
        v_max: 30,
        factor: 4,
        reverse_tolerance: 4,
        road_netwok_path: String::new(),
    }
}

#[test]
fn single_segment_straight_match() {
    // One vertical edge; two samples a little to its side must both
    // match it.
    let mut mm = matcher(vec![edge_data(1, 1, 2, vec![(0, 0), (0, 100000)])]);
    let traj = vec![sample(100, 20000, 0), sample(100, 80000, 1)];
    let cfg = config(1000, 10000, 4);
    let result = mm.match_traj(&traj, &cfg).unwrap();
    assert_eq!(result.o_path, vec![Some(1), Some(1)]);
    assert_eq!(result.matched_candidates.len(), 2);
    let c0 = result.matched_candidates[0].as_ref().unwrap();
    assert_eq!(c0.edge.id, 1);
    assert_eq!(c0.offset, 20000);
    assert_eq!(c0.closest_point, Point { x: 0, y: 20000 });
    assert_eq!(c0.distance, 100);
    assert_eq!(c0.ep, -5000);
}

#[test]
fn empty_trajectory_is_invalid_input() {
    let mut mm = matcher(vec![edge_data(1, 1, 2, vec![(0, 0), (0, 100000)])]);
    let traj: Vec<TrajInfo> = Vec::new();
    let cfg = config(1000, 10000, 4);
    assert!(matches!(
        mm.match_traj(&traj, &cfg),
        Err(MMError::InvalidInput)
    ));
}

#[test]
fn unmatched_sample_yields_empty_entry() {
    // The second sample lies far outside the query radius: its layer
    // is empty and its output entry is the sentinel, with no error.
    let mut mm = matcher(vec![edge_data(1, 1, 2, vec![(0, 0), (0, 100000)])]);
    let traj = vec![sample(100, 20000, 0), sample(3_000_000, 50000, 1)];
    let cfg = config(1000, 10000, 4);
    let result = mm.match_traj(&traj, &cfg).unwrap();
    assert_eq!(result.o_path, vec![Some(1), None]);
    assert!(result.matched_candidates[1].is_none());
}

#[test]
fn shortest_path_gating_rejects_the_far_edge() {
    // Sample 2 is nearer to edge 3, but edge 3 is only reachable over
    // a huge detour (edge 4).  With both timestamps present and
    // v_max * factor * dt = 1000 below the detour cost, that
    // transition is gated off and edge 2 must win.
    let mut mm = matcher(vec![
        edge_data(1, 1, 2, vec![(0, 0), (0, 100)]),
        edge_data(2, 2, 3, vec![(0, 100), (0, 200)]),
        edge_data(3, 4, 5, vec![(20, 100), (20, 200)]),
        edge_data(4, 2, 4, vec![(0, 100), (10000, 100), (20, 100)]),
    ]);
    let traj = vec![sample(1, 50, 1), sample(15, 150, 2)];
    let mut cfg = config(10, 30, 4);
    cfg.v_max = 1000;
    cfg.factor = 1;
    let result = mm.match_traj(&traj, &cfg).unwrap();
    assert_eq!(result.o_path, vec![Some(1), Some(2)]);
}

#[test]
fn shared_edge_bridge_connects_forward_movement() {
    // Two samples project onto one edge of length 100 at offsets 20
    // and 60: a virtual arc from the edge start to the second virtual
    // node with length 60 - 20 = 40 must exist afterwards.
    let mut mm = matcher(vec![edge_data(1, 1, 2, vec![(0, 0), (0, 100)])]);
    let traj = vec![sample(1, 20, 1), sample(1, 60, 2)];
    let mut cfg = config(10, 30, 4);
    cfg.v_max = 1000;
    let result = mm.match_traj(&traj, &cfg).unwrap();
    assert_eq!(result.o_path, vec![Some(1), Some(1)]);
    // The second sample's virtual node is keyed by its projection and
    // the sample itself.
    let c1 = result.matched_candidates[1].as_ref().unwrap();
    assert_eq!(c1.offset, 60);
    let dummy_idx = mm
        .road_graph
        .network
        .find_node_by_id(&c1.dummy_node_id)
        .unwrap();
    let start_idx = mm
        .road_graph
        .network
        .find_node_by_id(&NodeId::Real(1))
        .unwrap();
    // Start -> second dummy: the bridge of length 40 is the cheapest
    // connection (the direct candidate arc has length 60).
    assert_eq!(mm.road_graph.short_path(start_idx, dummy_idx), Ok(40));
}

#[test]
fn stickiness_keeps_previous_best_edge() {
    // Five parallel edges.  The previous best candidate sits on edge
    // 5; around the next sample, edges 1..4 are nearer, knn = 4 cuts
    // edge 5 out, and stickiness re-appends it: knn + 1 candidates.
    let mm = matcher(vec![
        edge_data(1, 1, 2, vec![(10, 0), (10, 100)]),
        edge_data(2, 3, 4, vec![(20, 0), (20, 100)]),
        edge_data(3, 5, 6, vec![(30, 0), (30, 100)]),
        edge_data(4, 7, 8, vec![(40, 0), (40, 100)]),
        edge_data(5, 9, 10, vec![(48, 0), (48, 100)]),
    ]);
    let prev_point = sample(47, 50, 0);
    let prev = mm.query_candidate(&prev_point, 2, 4, 10, None);
    assert_eq!(prev.len(), 1);
    assert_eq!(prev[0].edge.id, 5);
    let here = sample(25, 50, 1);
    let with_sticky: Vec<Candidate> = mm.query_candidate(&here, 25, 4, 10, Some(&prev[0]));
    assert_eq!(with_sticky.len(), 5);
    assert_eq!(with_sticky[4].edge.id, 5);
    assert!(with_sticky[..4].iter().all(|c| c.edge.id != 5));
    // Without a previous candidate only the four near edges remain,
    // sorted by ascending distance.
    let plain = mm.query_candidate(&here, 25, 4, 10, None);
    assert_eq!(plain.len(), 4);
    for w in plain.windows(2) {
        assert!(w[0].distance <= w[1].distance);
    }
}

#[test]
fn candidate_cap_and_offsets_hold() {
    // Many nearby parallel edges; the layer is capped at knn + 1 and
    // every candidate projection lies within its edge.
    let feats: Vec<EdgeData> = (0u64..8)
        .map(|k| {
            edge_data(
                k + 1,
                2 * k + 1,
                2 * k + 2,
                vec![(10 * k as i64, 0), (10 * k as i64, 100)],
            )
        })
        .collect();
    let mm = matcher(feats);
    let here = sample(35, 50, 0);
    let cands = mm.query_candidate(&here, 100, 3, 10, None);
    assert!(cands.len() <= 4);
    for c in &cands {
        assert!(c.offset <= c.edge.length);
        assert!(c.distance <= 100);
        assert!(c.ep <= 0);
    }
}

#[test]
fn output_length_equals_trajectory_length() {
    let mut mm = matcher(vec![edge_data(1, 1, 2, vec![(0, 0), (0, 100000)])]);
    let traj: Vec<TrajInfo> = (0u64..7)
        .map(|i| sample(100, 10000 + 10000 * i as i64, i))
        .collect();
    let cfg = config(1000, 10000, 4);
    let result = mm.match_traj(&traj, &cfg).unwrap();
    assert_eq!(result.o_path.len(), traj.len());
    assert_eq!(result.matched_candidates.len(), traj.len());
}

#[test]
fn node_counts_stay_equal_through_matching() {
    // Node-count invariant, observed across a whole match run with
    // its virtual-node insertions.
    let mut mm = matcher(vec![edge_data(1, 1, 2, vec![(0, 0), (0, 100000)])]);
    let before = mm.road_graph.network.nodes.len();
    assert_eq!(mm.road_graph.graph.node_count(), before);
    let traj = vec![sample(100, 20000, 0), sample(100, 80000, 1)];
    let cfg = config(1000, 10000, 4);
    mm.match_traj(&traj, &cfg).unwrap();
    let after = mm.road_graph.network.nodes.len();
    assert!(after > before);
    assert_eq!(mm.road_graph.graph.node_count(), after);
}

#[test]
fn bbox_query_returns_intersecting_edges() {
    let mm = matcher(vec![
        edge_data(1, 1, 2, vec![(0, 0), (0, 100)]),
        edge_data(2, 3, 4, vec![(1000, 0), (1000, 100)]),
    ]);
    let near = mm.query_bbox(&Point { x: -10, y: -10 }, &Point { x: 10, y: 110 });
    assert_eq!(near, vec![0]);
    let none = mm.query_bbox(&Point { x: 500, y: 0 }, &Point { x: 600, y: 100 });
    assert!(none.is_empty());
    let mut both = mm.query_bbox(&Point { x: -10, y: -10 }, &Point { x: 2000, y: 200 });
    both.sort();
    assert_eq!(both, vec![0, 1]);
}

#[test]
fn transition_caps_at_probability_one() {
    // When the straight-line distance reaches the on-graph cost the
    // transition probability caps at one (log zero).
    let mm = matcher(vec![edge_data(1, 1, 2, vec![(0, 0), (0, 100)])]);
    assert_eq!(mm.calc_tp(40, 40), 0);
    assert_eq!(mm.calc_tp(50, 40), 0);
    let down = mm.calc_tp(20, 40);
    assert_eq!(down, -693_147);
}
