//! The ST-Matching pipeline: spatial candidate search, virtual-graph
//! augmentation, Viterbi lattice construction, and back-tracking.

use vstd::multiset::Multiset;
use vstd::prelude::*;

use crate::algorithm::{lr_matches, wf_point, Point, COORD_LIMIT};
use crate::graph::{graph_arcs, RoadGraph};
use crate::model::{
    make_dummy_node, score_val, wf_candidate, Candidate, Config, Layer, MMResult,
};
use crate::network::{edge_eq, Edge, EdgeType, Network};
use crate::score::{ep_log, ep_log_spec, ln_ratio, ln_ratio_spec, EP_LOG_FLOOR, TP_LOG_FLOOR};
use crate::traj::{TrajInfo, Trajectory};
use crate::MAX_EDGE_LENGTH;
use crate::MMError;

verus! {

broadcast use vstd::multiset::group_multiset_axioms;

/// The spatial index: a 2-D R-tree over edge bounding rectangles, with
/// edge indices as values.
pub type SpatialIndex = rtree_rs::RTree<2, i64, usize>;

#[verifier::external_type_specification]
#[verifier::external_body]
#[verifier::reject_recursive_types(C)]
#[verifier::reject_recursive_types(T)]
pub struct ExRTree<const D: usize, C, T: PartialEq>(rtree_rs::RTree<D, C, T>) where C: PartialOrd + Copy + Default;

/// The entries a spatial index holds: rectangle corners (min x, min y,
/// max x, max y) and the stored value.
pub uninterp spec fn rtree_entries(t: SpatialIndex) -> Multiset<(i64, i64, i64, i64, usize)>;

/// Closed-rectangle intersection, the way the R-tree tests it.
pub open spec fn rect_hits(
    e: (i64, i64, i64, i64, usize),
    min_x: i64,
    min_y: i64,
    max_x: i64,
    max_y: i64,
) -> bool {
    !(min_x > e.2 || max_x < e.0 || min_y > e.3 || max_y < e.1)
}

/// Relies on `rtree_rs::RTree::new`: an empty tree.
#[verifier::external_body]
fn rt_new() -> (t: SpatialIndex)
    ensures
        rtree_entries(t) == Multiset::<(i64, i64, i64, i64, usize)>::empty(),
{
    rtree_rs::RTree::new()
}

/// Are the rectangle corners of the entry within the coordinate limit?
/// The R-tree computes axis spans and area products over stored
/// corners while it splits and rebalances; within the limit a span is
/// at most `3e9` and a two-dimensional area at most `9e18`, inside
/// `i64`, so those computations cannot overflow.
pub open spec fn entry_within_limits(e: (i64, i64, i64, i64, usize)) -> bool {
    &&& -COORD_LIMIT <= e.0 <= COORD_LIMIT
    &&& -COORD_LIMIT <= e.1 <= COORD_LIMIT
    &&& -COORD_LIMIT <= e.2 <= COORD_LIMIT
    &&& -COORD_LIMIT <= e.3 <= COORD_LIMIT
}

/// Relies on `rtree_rs::RTree::insert`: adds one rectangle/value entry.
/// The coordinate bounds on the new and the stored corners keep the
/// crate's internal span and area arithmetic inside `i64`.
#[verifier::external_body]
fn rt_insert(t: &mut SpatialIndex, min_x: i64, min_y: i64, max_x: i64, max_y: i64, data: usize)
    requires
        entry_within_limits((min_x, min_y, max_x, max_y, data)),
        min_x <= max_x,
        min_y <= max_y,
        forall|e: (i64, i64, i64, i64, usize)|
            rtree_entries(*old(t)).count(e) > 0 ==> entry_within_limits(e),
    ensures
        rtree_entries(*final(t)) == rtree_entries(*old(t)).insert(
            (min_x, min_y, max_x, max_y, data),
        ),
{
    t.insert(rtree_rs::Rect::new([min_x, min_y], [max_x, max_y]), data);
}

/// Relies on `rtree_rs::RTree::search`: yields the values of exactly
/// the entries whose rectangles intersect the query window, in an
/// unspecified order.  Every stored item is visited at most once, so
/// when no two entries carry the same value and no entry is stored
/// twice, no value is yielded twice.
#[verifier::external_body]
fn rt_search(t: &SpatialIndex, min_x: i64, min_y: i64, max_x: i64, max_y: i64) -> (r: Vec<usize>)
    ensures
        forall|i: int|
            0 <= i < r@.len() ==> exists|e: (i64, i64, i64, i64, usize)|
                rtree_entries(*t).count(e) > 0 && rect_hits(e, min_x, min_y, max_x, max_y) && e.4
                    == #[trigger] r@[i],
        forall|e: (i64, i64, i64, i64, usize)|
            #[trigger] rtree_entries(*t).count(e) > 0 && rect_hits(e, min_x, min_y, max_x, max_y)
                ==> r@.contains(e.4),
        (forall|e1: (i64, i64, i64, i64, usize), e2: (i64, i64, i64, i64, usize)|
            rtree_entries(*t).count(e1) > 0 && rtree_entries(*t).count(e2) > 0 && e1.4 == e2.4
                ==> e1 == e2 && rtree_entries(*t).count(e1) == 1) ==> forall|i: int, k: int|
            0 <= i < k < r@.len() ==> r@[i] != r@[k],
{
    let mut out: Vec<usize> = Vec::new();
    for item in t.search(rtree_rs::Rect::new([min_x, min_y], [max_x, max_y])) {
        out.push(*item.data);
    }
    out
}

/// Relies on `uuid::Uuid::new_v4`: a fresh random identifier for a
/// virtual edge.  Nothing is promised of its value.
#[verifier::external_body]
fn new_dummy_edge_id() -> u64 {
    uuid::Uuid::new_v4().as_u64_pair().0
}

/// The map matcher: a road network with its routing graph and spatial
/// index.
pub struct MMatch {
    pub road_graph: RoadGraph,
    pub road_rtree: SpatialIndex,
}

/// Does the spatial index hold an entry for edge index `j` whose
/// rectangle is the bounding box of the polyline `ps`?
pub open spec fn edge_indexed(rt: SpatialIndex, ps: Seq<Point>, j: int) -> bool {
    exists|e: (i64, i64, i64, i64, usize)|
        rtree_entries(rt).count(e) > 0 && e.4 == j && crate::network::rect_bounds(
            e.0,
            e.1,
            e.2,
            e.3,
            ps,
        )
}

/// An entry present before an insertion is still present after it.
proof fn lemma_edge_indexed_insert(
    rt0: SpatialIndex,
    rt1: SpatialIndex,
    x: (i64, i64, i64, i64, usize),
    ps: Seq<Point>,
    j: int,
)
    requires
        edge_indexed(rt0, ps, j),
        rtree_entries(rt1) == rtree_entries(rt0).insert(x),
    ensures
        edge_indexed(rt1, ps, j),
{
    let e = choose|e: (i64, i64, i64, i64, usize)|
        rtree_entries(rt0).count(e) > 0 && e.4 == j && crate::network::rect_bounds(
            e.0,
            e.1,
            e.2,
            e.3,
            ps,
        );
    assert(rtree_entries(rt1).count(e) > 0);
}

impl MMatch {
    /// Invariant: the routing graph is well-formed; every spatial entry
    /// is stored once, points at an existing edge, carries that edge's
    /// bounding rectangle within the coordinate limits, and no two
    /// entries share an edge index; every edge has its entry.
    pub open spec fn wf(&self) -> bool {
        &&& self.road_graph.wf()
        &&& forall|e: (i64, i64, i64, i64, usize)|
            #[trigger] rtree_entries(self.road_rtree).count(e) > 0 ==> {
                &&& rtree_entries(self.road_rtree).count(e) == 1
                &&& e.4 < self.road_graph.network.edges@.len()
                &&& crate::network::rect_bounds(
                    e.0,
                    e.1,
                    e.2,
                    e.3,
                    self.road_graph.network.edges@[e.4 as int].geometry.0@,
                )
                &&& entry_within_limits(e)
            }
        &&& forall|e1: (i64, i64, i64, i64, usize), e2: (i64, i64, i64, i64, usize)|
            rtree_entries(self.road_rtree).count(e1) > 0 && rtree_entries(self.road_rtree).count(
                e2,
            ) > 0 && e1.4 == e2.4 ==> e1 == e2
        &&& forall|j: int|
            0 <= j < self.road_graph.network.edges@.len() ==> edge_indexed(
                self.road_rtree,
                (#[trigger] self.road_graph.network.edges@[j]).geometry.0@,
                j,
            )
    }

    /// Builds a matcher from a loaded network: the routing graph plus
    /// an R-tree entry for every edge's bounding rectangle.
    pub fn from_network(network: Network) -> (r: MMatch)
        requires
            network.wf(),
            network.nodes@.len() <= crate::MAX_GRAPH_NODES,
        ensures
            r.wf(),
            r.road_graph.network.nodes@ == network.nodes@,
            r.road_graph.network.edges@ == network.edges@,
    {
        let road_graph = RoadGraph::new(network);
        let mut road_rtree = rt_new();
        let n = road_graph.network.edges.len();
        let mut i: usize = 0;
        while i < n
            invariant
                n == road_graph.network.edges@.len(),
                road_graph.wf(),
                0 <= i <= n,
                forall|e: (i64, i64, i64, i64, usize)|
                    #[trigger] rtree_entries(road_rtree).count(e) > 0 ==> {
                        &&& rtree_entries(road_rtree).count(e) == 1
                        &&& e.4 < i
                        &&& crate::network::rect_bounds(
                            e.0,
                            e.1,
                            e.2,
                            e.3,
                            road_graph.network.edges@[e.4 as int].geometry.0@,
                        )
                        &&& entry_within_limits(e)
                    },
                forall|e1: (i64, i64, i64, i64, usize), e2: (i64, i64, i64, i64, usize)|
                    rtree_entries(road_rtree).count(e1) > 0 && rtree_entries(road_rtree).count(e2)
                        > 0 && e1.4 == e2.4 ==> e1 == e2,
                forall|j: int|
                    0 <= j < i ==> edge_indexed(
                        road_rtree,
                        (#[trigger] road_graph.network.edges@[j]).geometry.0@,
                        j,
                    ),
            decreases n - i,
        {
            proof {
                assert(crate::network::contains_node(
                    road_graph.network.nodes@,
                    road_graph.network.edges@[i as int].from,
                ));
                assert(crate::network::wf_edge(&road_graph.network.edges@[i as int]));
            }
            let rect = match road_graph.network.edges[i].get_geom_rect() {
                Ok(p) => p,
                Err(_) => {
                    proof {
                        assert(false);
                    }
                    (Point { x: 0, y: 0 }, Point { x: 0, y: 0 })
                },
            };
            proof {
                // The rectangle corners are attained coordinates of the
                // well-formed geometry, so they lie within the limits
                // and are properly ordered.
                let ps = road_graph.network.edges@[i as int].geometry.0@;
                let wx0 = choose|w: int| 0 <= w < ps.len() && ps[w].x == rect.0.x;
                let wx1 = choose|w: int| 0 <= w < ps.len() && ps[w].x == rect.1.x;
                let wy0 = choose|w: int| 0 <= w < ps.len() && ps[w].y == rect.0.y;
                let wy1 = choose|w: int| 0 <= w < ps.len() && ps[w].y == rect.1.y;
                assert(wf_point(ps[wx0]) && wf_point(ps[wx1]) && wf_point(ps[wy0]) && wf_point(
                    ps[wy1],
                ));
            }
            let ghost rt_before = road_rtree;
            rt_insert(&mut road_rtree, rect.0.x, rect.0.y, rect.1.x, rect.1.y, i);
            proof {
                let new_e = (rect.0.x, rect.0.y, rect.1.x, rect.1.y, i as usize);
                assert(rtree_entries(road_rtree).count(new_e) > 0);
                assert forall|j: int| 0 <= j < i + 1 implies edge_indexed(
                    road_rtree,
                    (#[trigger] road_graph.network.edges@[j]).geometry.0@,
                    j,
                ) by {
                    if j < i {
                        lemma_edge_indexed_insert(
                            rt_before,
                            road_rtree,
                            new_e,
                            road_graph.network.edges@[j].geometry.0@,
                            j,
                        );
                    } else {
                        assert(rtree_entries(road_rtree).count(new_e) > 0 && new_e.4 == j
                            && crate::network::rect_bounds(
                            new_e.0,
                            new_e.1,
                            new_e.2,
                            new_e.3,
                            road_graph.network.edges@[j].geometry.0@,
                        ));
                    }
                }
            }
            i = i + 1;
        }
        MMatch { road_graph, road_rtree }
    }

    /// Edge indices of exactly the spatial entries intersecting the
    /// window: every intersecting entry's index appears, every returned
    /// index comes from an intersecting entry, and no index repeats.
    pub fn query_bbox(&self, min: &Point, max: &Point) -> (r: Vec<usize>)
        requires
            self.wf(),
        ensures
            forall|i: int| 0 <= i < r@.len() ==> #[trigger] r@[i]
                < self.road_graph.network.edges@.len(),
            forall|e: (i64, i64, i64, i64, usize)|
                #[trigger] rtree_entries(self.road_rtree).count(e) > 0 && rect_hits(
                    e,
                    min.x,
                    min.y,
                    max.x,
                    max.y,
                ) ==> r@.contains(e.4),
            forall|i: int|
                0 <= i < r@.len() ==> hit_entry_for(
                    self.road_rtree,
                    min.x,
                    min.y,
                    max.x,
                    max.y,
                    #[trigger] r@[i],
                ),
            forall|i: int, k: int| 0 <= i < k < r@.len() ==> r@[i] != r@[k],
    {
        let r = rt_search(&self.road_rtree, min.x, min.y, max.x, max.y);
        proof {
            assert forall|i: int| 0 <= i < r@.len() implies #[trigger] r@[i]
                < self.road_graph.network.edges@.len() && hit_entry_for(
                self.road_rtree,
                min.x,
                min.y,
                max.x,
                max.y,
                r@[i],
            ) by {
                let e = choose|e: (i64, i64, i64, i64, usize)|
                    rtree_entries(self.road_rtree).count(e) > 0 && rect_hits(
                        e,
                        min.x,
                        min.y,
                        max.x,
                        max.y,
                    ) && e.4 == r@[i];
                assert(rtree_entries(self.road_rtree).count(e) > 0 && rect_hits(
                    e,
                    min.x,
                    min.y,
                    max.x,
                    max.y,
                ) && e.4 == r@[i]);
            }
        }
        r
    }

    /// Emission log-probability of a candidate at the given distance.
    pub fn calc_ep(&self, dist: u64, gps_err: u64) -> (r: i64)
        requires
            dist <= 12_000_000_000,
            1 <= gps_err <= MAX_EDGE_LENGTH,
        ensures
            r == ep_log_spec(dist as int, gps_err as int),
            EP_LOG_FLOOR <= r <= 0,
    {
        ep_log(dist, gps_err)
    }

    /// Transition log-probability: the log of the ratio of straight-line
    /// distance to on-graph distance, capped at zero (a probability of
    /// one) when the straight line is the longer of the two.
    pub fn calc_tp(&self, gps_dist: u64, candidate_dist: u64) -> (r: i64)
        requires
            gps_dist >= 1,
        ensures
            r == tp_log_spec(gps_dist as int, candidate_dist as int),
            TP_LOG_FLOOR <= r <= 0,
            gps_dist >= candidate_dist ==> r == 0,
    {
        if gps_dist > candidate_dist {
            0
        } else {
            ln_ratio(gps_dist, candidate_dist)
        }
    }

    /// Candidates of one sample: every real edge whose rectangle meets
    /// the search window is projected onto; projections farther than
    /// `radius` or beyond the edge end are discarded; the `knn` nearest
    /// survive, plus at most one re-appended candidate on the previous
    /// best edge (stickiness), so consecutive samples on one long edge
    /// stay connected.
    #[verifier::rlimit(100)]
    pub fn query_candidate(
        &self,
        traj_point: &TrajInfo,
        radius: u64,
        knn: u16,
        gps_err: u64,
        prev_candidate: Option<&Candidate>,
    ) -> (r: Vec<Candidate>)
        requires
            self.wf(),
            wf_point(traj_point.point),
            1 <= gps_err <= MAX_EDGE_LENGTH,
            radius <= COORD_LIMIT as u64,
        ensures
            r@.len() <= knn as int + 1,
            forall|i: int|
                0 <= i < r@.len() ==> candidate_ok(
                    #[trigger] r@[i],
                    self.road_graph.network,
                    *traj_point,
                    radius,
                    gps_err,
                ),
            prev_candidate is None ==> forall|i: int, j: int|
                0 <= i < j < r@.len() ==> r@[i].distance <= r@[j].distance,
            forall|i: int, j: int|
                0 <= i < j && j + 1 < r@.len() ==> r@[i].distance <= r@[j].distance,
            r@.len() < knn as int ==> all_passing_present(*self, traj_point.point, radius, r@),
            knn >= 1 && sample_has_candidate(
                self.road_rtree,
                self.road_graph.network.edges@,
                traj_point.point,
                radius,
            ) ==> r@.len() > 0,
            r@.len() > 0 ==> sample_has_candidate(
                self.road_rtree,
                self.road_graph.network.edges@,
                traj_point.point,
                radius,
            ),
            prev_candidate matches Some(p) ==> (edge_id_available(
                self.road_rtree,
                self.road_graph.network.edges@,
                p.edge.id,
                traj_point.point,
                radius,
            ) ==> cand_id_present(r@, p.edge.id)),
            forall|i1: int, i2: int|
                0 <= i1 < i2 < r@.len() ==> r@[i1].edge.id != r@[i2].edge.id,
    {
        let min = Point {
            x: traj_point.point.x - radius as i64,
            y: traj_point.point.y - radius as i64,
        };
        let max = Point {
            x: traj_point.point.x + radius as i64,
            y: traj_point.point.y + radius as i64,
        };
        let edge_indices = self.query_bbox(&min, &max);
        let prev_edge_id: Option<u64> = match prev_candidate {
            Some(p) => Some(p.edge.id),
            None => None,
        };
        let mut candidates: Vec<Candidate> = Vec::new();
        let mut exit_candidate: Option<Candidate> = None;
        let mut ii: usize = 0;
        while ii < edge_indices.len()
            invariant
                self.wf(),
                wf_point(traj_point.point),
                1 <= gps_err <= MAX_EDGE_LENGTH,
                radius <= COORD_LIMIT as u64,
                0 <= ii <= edge_indices@.len(),
                forall|i: int| 0 <= i < edge_indices@.len() ==> #[trigger] edge_indices@[i]
                    < self.road_graph.network.edges@.len(),
                forall|i: int|
                    0 <= i < candidates@.len() ==> candidate_ok(
                        #[trigger] candidates@[i],
                        self.road_graph.network,
                        *traj_point,
                        radius,
                        gps_err,
                    ),
                exit_candidate matches Some(c) ==> candidate_ok(
                    c,
                    self.road_graph.network,
                    *traj_point,
                    radius,
                    gps_err,
                ),
                prev_candidate is None ==> exit_candidate is None,
                prev_candidate is None ==> prev_edge_id is None,
                prev_candidate matches Some(p) ==> prev_edge_id == Some(p.edge.id),
                min.x == traj_point.point.x - radius,
                min.y == traj_point.point.y - radius,
                max.x == traj_point.point.x + radius,
                max.y == traj_point.point.y + radius,
                forall|t2: int|
                    0 <= t2 < edge_indices@.len() ==> hit_entry_for(
                        self.road_rtree,
                        min.x,
                        min.y,
                        max.x,
                        max.y,
                        #[trigger] edge_indices@[t2],
                    ),
                candidates@.len() > 0 ==> sample_has_candidate(
                    self.road_rtree,
                    self.road_graph.network.edges@,
                    traj_point.point,
                    radius,
                ),
                exit_candidate is Some ==> sample_has_candidate(
                    self.road_rtree,
                    self.road_graph.network.edges@,
                    traj_point.point,
                    radius,
                ),
                prev_edge_id matches Some(pid) ==> (exit_candidate matches Some(c) ==> c.edge.id
                    == pid),
                prev_edge_id matches Some(pid) && cand_id_present(candidates@, pid)
                    ==> exit_candidate is Some,
                forall|t1: int, t2: int|
                    0 <= t1 < t2 < edge_indices@.len() ==> edge_indices@[t1] != edge_indices@[t2],
                forall|w: int|
                    0 <= w < candidates@.len() ==> exists|t2: int|
                        0 <= t2 < ii && (#[trigger] candidates@[w]).edge.id
                            == self.road_graph.network.edges@[edge_indices@[t2] as int].id,
                forall|i1: int, i2: int|
                    0 <= i1 < i2 < candidates@.len() ==> candidates@[i1].edge.id
                        != candidates@[i2].edge.id,
                forall|t: int|
                    0 <= t < ii ==> (edge_passes(
                        traj_point.point,
                        &self.road_graph.network.edges@[(#[trigger] edge_indices@[t]) as int],
                        radius,
                    ) ==> cand_id_present(
                        candidates@,
                        self.road_graph.network.edges@[edge_indices@[t] as int].id,
                    )),
            decreases edge_indices@.len() - ii,
        {
            let edge_index = edge_indices[ii];
            let edge = match self.road_graph.network.find_edge_by_index(edge_index) {
                Some(e) => e,
                None => {
                    proof {
                        assert(false);
                    }
                    ii = ii + 1;
                    continue ;
                },
            };
            proof {
                assert(crate::network::contains_node(
                    self.road_graph.network.nodes@,
                    self.road_graph.network.edges@[edge_index as int].from,
                ));
                assert(crate::network::wf_edge(
                    &self.road_graph.network.edges@[edge_index as int],
                ));
            }
            let lr = crate::algorithm::linear_reference_distance(
                &traj_point.point,
                &edge.geometry.0,
            );
            let distance = lr.0;
            let offset = lr.1;
            let close_point = lr.2;
            let ghost j = edge_index as int;
            let ghost geomj = self.road_graph.network.edges@[j].geometry.0@;
            proof {
                assert(geomj == edge.geometry.0@);
            }
            if distance > radius {
                proof {
                    let k0 = choose|k: int|
                        lr_matches(traj_point.point, geomj, k, lr.0 as int, lr.1 as int, lr.2);
                    lemma_not_passing(
                        traj_point.point,
                        &self.road_graph.network.edges@[j],
                        k0,
                        lr.0 as int,
                        lr.1 as int,
                        lr.2,
                        radius,
                    );
                }
                ii = ii + 1;
                continue ;
            }
            if offset > edge.get_length() {
                proof {
                    let k0 = choose|k: int|
                        lr_matches(traj_point.point, geomj, k, lr.0 as int, lr.1 as int, lr.2);
                    lemma_not_passing(
                        traj_point.point,
                        &self.road_graph.network.edges@[j],
                        k0,
                        lr.0 as int,
                        lr.1 as int,
                        lr.2,
                        radius,
                    );
                }
                ii = ii + 1;
                continue ;
            }
            let ep = ep_log(distance, gps_err);
            let eid = edge.get_edge_id();
            proof {
                let k0 = choose|k: int|
                    lr_matches(
                        traj_point.point,
                        edge.geometry.0@,
                        k,
                        lr.0 as int,
                        lr.1 as int,
                        lr.2,
                    );
                assert(lr_matches(
                    traj_point.point,
                    edge.geometry.0@,
                    k0,
                    distance as int,
                    offset as int,
                    close_point,
                ));
                assert(exists|k: int|
                    lr_matches(
                        traj_point.point,
                        edge.geometry.0@,
                        k,
                        distance as int,
                        offset as int,
                        close_point,
                    ));
            }
            let ghost geom0 = edge.geometry.0@;
            let candidate = Candidate {
                edge,
                distance,
                offset,
                closest_point: close_point,
                ep,
                dummy_node_id: make_dummy_node(&close_point, &traj_point.point),
                ori_traj_point: *traj_point,
            };
            proof {
                assert(candidate.edge.geometry.0@ == geom0);
                let k0 = choose|k: int|
                    lr_matches(
                        traj_point.point,
                        geom0,
                        k,
                        distance as int,
                        offset as int,
                        close_point,
                    );
                assert(lr_matches(
                    traj_point.point,
                    candidate.edge.geometry.0@,
                    k0,
                    candidate.distance as int,
                    candidate.offset as int,
                    candidate.closest_point,
                ));
                assert(exists|k: int|
                    lr_matches(
                        traj_point.point,
                        candidate.edge.geometry.0@,
                        k,
                        candidate.distance as int,
                        candidate.offset as int,
                        candidate.closest_point,
                    ));
                assert(candidate_ok(
                    candidate,
                    self.road_graph.network,
                    *traj_point,
                    radius,
                    gps_err,
                ));
            }
            match prev_edge_id {
                Some(pid) => {
                    if pid == eid {
                        exit_candidate = Some(candidate.duplicate());
                    }
                },
                None => {},
            }
            let ghost candg = candidate;
            let ghost cands_pre = candidates@;
            candidates.push(candidate);
            proof {
                // The new candidate's edge id cannot repeat: each
                // spatial index position is distinct, edge ids are
                // unique, and every earlier candidate cites an earlier
                // position.
                assert forall|w: int|
                    0 <= w < candidates@.len() implies exists|t2: int|
                    0 <= t2 < ii + 1 && (#[trigger] candidates@[w]).edge.id
                        == self.road_graph.network.edges@[edge_indices@[t2] as int].id by {
                    if w < cands_pre.len() {
                        assert(candidates@[w] == cands_pre[w]);
                        let t3 = choose|t3: int|
                            0 <= t3 < ii && cands_pre[w].edge.id
                                == self.road_graph.network.edges@[edge_indices@[t3] as int].id;
                        assert(0 <= t3 < ii + 1 && candidates@[w].edge.id
                            == self.road_graph.network.edges@[edge_indices@[t3] as int].id);
                    } else {
                        assert(candidates@[w] == candg);
                        assert(candg.edge.id == self.road_graph.network.edges@[edge_indices@[
                        ii as int] as int].id);
                        assert(0 <= (ii as int) && (ii as int) < ii + 1);
                    }
                }
                assert forall|i1: int, i2: int|
                    0 <= i1 < i2 < candidates@.len() implies candidates@[i1].edge.id
                    != candidates@[i2].edge.id by {
                    if i2 == candidates@.len() - 1 {
                        if candidates@[i1].edge.id == candg.edge.id {
                            let t3 = choose|t3: int|
                                0 <= t3 < ii && cands_pre[i1].edge.id
                                    == self.road_graph.network.edges@[edge_indices@[t3] as int].id;
                            let ja = edge_indices@[t3] as int;
                            let jb = edge_indices@[ii as int] as int;
                            assert(self.road_graph.network.edges@[ja].id
                                == self.road_graph.network.edges@[jb].id);
                            if ja != jb {
                                assert(false);
                            }
                            assert(edge_indices@[t3] == edge_indices@[ii as int]);
                            assert(false);
                        }
                    } else {
                        assert(candidates@[i1] == cands_pre[i1]);
                        assert(candidates@[i2] == cands_pre[i2]);
                    }
                }
                if prev_edge_id is Some {
                    let pid = prev_edge_id->Some_0;
                    if cand_id_present(candidates@, pid) && eid != pid {
                        let w = choose|w: int|
                            0 <= w < candidates@.len() && candidates@[w].edge.id == pid;
                        if w == candidates@.len() - 1 {
                            assert(candidates@[w] == candg);
                            assert(false);
                        } else {
                            assert(cands_pre[w].edge.id == pid);
                            assert(cand_id_present(cands_pre, pid));
                        }
                    }
                }
                assert forall|t: int|
                    0 <= t < ii + 1 && edge_passes(
                        traj_point.point,
                        &self.road_graph.network.edges@[(#[trigger] edge_indices@[t]) as int],
                        radius,
                    ) implies cand_id_present(
                    candidates@,
                    self.road_graph.network.edges@[edge_indices@[t] as int].id,
                ) by {
                    let jt = edge_indices@[t] as int;
                    if edge_passes(traj_point.point, &self.road_graph.network.edges@[jt], radius) {
                        if t < ii {
                            lemma_cand_id_push(
                                cands_pre,
                                candg,
                                self.road_graph.network.edges@[jt].id,
                            );
                        } else {
                            assert(candg.edge.id == self.road_graph.network.edges@[jt].id);
                            lemma_cand_id_push(
                                cands_pre,
                                candg,
                                self.road_graph.network.edges@[jt].id,
                            );
                        }
                    }
                }
            }
            ii = ii + 1;
        }
        proof {
            lemma_collect_complete(
                *self,
                traj_point.point,
                radius,
                min,
                max,
                edge_indices@,
                candidates@,
            );
            assert(all_passing_present(*self, traj_point.point, radius, candidates@));
            if prev_edge_id is Some {
                let pid = prev_edge_id->Some_0;
                if edge_id_available(
                    self.road_rtree,
                    self.road_graph.network.edges@,
                    pid,
                    traj_point.point,
                    radius,
                ) {
                    let ja = choose|j: int|
                        0 <= j < self.road_graph.network.edges@.len() && (
                        #[trigger] self.road_graph.network.edges@[j]).id == pid && edge_in_window(
                            self.road_rtree,
                            self.road_graph.network.edges@[j].geometry.0@,
                            j,
                            traj_point.point.x - radius,
                            traj_point.point.y - radius,
                            traj_point.point.x + radius,
                            traj_point.point.y + radius,
                        ) && edge_passes(
                            traj_point.point,
                            &self.road_graph.network.edges@[j],
                            radius,
                        );
                    assert(cand_id_present(candidates@, self.road_graph.network.edges@[ja].id));
                }
            }
        }
        let ghost unsorted = candidates@;
        let ghost exitg0 = exit_candidate;
        proof {
            if prev_edge_id is Some {
                let pid = prev_edge_id->Some_0;
                assert(cand_id_present(unsorted, pid) ==> exitg0 is Some);
            }
            assert(exitg0 is Some ==> sample_has_candidate(
                self.road_rtree,
                self.road_graph.network.edges@,
                traj_point.point,
                radius,
            ));
        }
        let mut candidates = sort_candidates(candidates);
        proof {
            lemma_distinct_ids_preserved(unsorted, candidates@);
            lemma_all_passing_transfer(*self, traj_point.point, radius, unsorted, candidates@);
            lemma_candidate_ok_all(
                unsorted,
                candidates@,
                self.road_graph.network,
                *traj_point,
                radius,
                gps_err,
            );
            if prev_edge_id is Some {
                let pid = prev_edge_id->Some_0;
                if edge_id_available(
                    self.road_rtree,
                    self.road_graph.network.edges@,
                    pid,
                    traj_point.point,
                    radius,
                ) {
                    lemma_available_implies_present(
                        *self,
                        traj_point.point,
                        radius,
                        pid,
                        candidates@,
                    );
                }
            }
        }
        let ghost sorted_all = candidates@;
        if candidates.len() > knn as usize {
            candidates.truncate(knn as usize);
        }
        proof {
            assert(forall|i: int| 0 <= i < candidates@.len() ==> candidates@[i]
                == sorted_all[i]);
            assert forall|i1: int, i2: int|
                0 <= i1 < i2 < candidates@.len() implies candidates@[i1].edge.id
                != candidates@[i2].edge.id by {
                assert(candidates@[i1] == sorted_all[i1]);
                assert(candidates@[i2] == sorted_all[i2]);
                assert(sorted_all[i1].edge.id != sorted_all[i2].edge.id);
            }
            assert(candidates@.len() < knn as int ==> all_passing_present(
                *self,
                traj_point.point,
                radius,
                candidates@,
            ));
            assert(candidates@.len() > 0 ==> sample_has_candidate(
                self.road_rtree,
                self.road_graph.network.edges@,
                traj_point.point,
                radius,
            ));
        }
        let exit = match exit_candidate {
            None => {
                proof {
                    // Without a built candidate on the previous best
                    // edge, that edge passed no filter: the stickiness
                    // clause holds vacuously, and emptiness means no
                    // edge passed at all.
                    if candidates@.len() == 0 && knn >= 1 {
                        lemma_empty_no_sample(*self, traj_point.point, radius, candidates@);
                    }
                    if prev_edge_id is Some {
                        let pid = prev_edge_id->Some_0;
                        if edge_id_available(
                            self.road_rtree,
                            self.road_graph.network.edges@,
                            pid,
                            traj_point.point,
                            radius,
                        ) {
                            lemma_available_implies_present(
                                *self,
                                traj_point.point,
                                radius,
                                pid,
                                unsorted,
                            );
                            assert(exitg0 is Some);
                            assert(false);
                        }
                    }
                }
                return candidates;
            },
            Some(c) => c,
        };
        proof {
            assert(exitg0 is Some);
            if prev_edge_id is Some {
                assert(exit.edge.id == prev_edge_id->Some_0);
            }
            assert(sample_has_candidate(
                self.road_rtree,
                self.road_graph.network.edges@,
                traj_point.point,
                radius,
            ));
        }
        let mut si: usize = 0;
        while si < candidates.len()
            invariant
                0 <= si <= candidates@.len(),
                candidates@.len() <= knn as int,
                forall|i: int|
                    0 <= i < candidates@.len() ==> candidate_ok(
                        #[trigger] candidates@[i],
                        self.road_graph.network,
                        *traj_point,
                        radius,
                        gps_err,
                    ),
                forall|i: int, j: int|
                    0 <= i < j < candidates@.len() ==> candidates@[i].distance
                        <= candidates@[j].distance,
                candidates@.len() < knn as int ==> all_passing_present(
                    *self,
                    traj_point.point,
                    radius,
                    candidates@,
                ),
                sample_has_candidate(
                    self.road_rtree,
                    self.road_graph.network.edges@,
                    traj_point.point,
                    radius,
                ),
                prev_candidate matches Some(p) ==> exit.edge.id == p.edge.id,
                forall|i1: int, i2: int|
                    0 <= i1 < i2 < candidates@.len() ==> candidates@[i1].edge.id
                        != candidates@[i2].edge.id,
                forall|i: int| 0 <= i < si ==> (#[trigger] candidates@[i]).edge.id != exit.edge.id,
            decreases candidates@.len() - si,
        {
            if candidates[si].edge.id == exit.edge.id {
                proof {
                    assert(cand_id_present(candidates@, candidates@[si as int].edge.id));
                }
                return candidates;
            }
            si = si + 1;
        }
        let ghost exitg = exit;
        let ghost pre_push = candidates@;
        candidates.push(exit);
        proof {
            assert(forall|i: int|
                0 <= i < pre_push.len() ==> (#[trigger] pre_push[i]).edge.id != exitg.edge.id);
            assert forall|i1: int, i2: int|
                0 <= i1 < i2 < candidates@.len() implies candidates@[i1].edge.id
                != candidates@[i2].edge.id by {
                if i2 == candidates@.len() - 1 {
                    assert(candidates@[i1] == pre_push[i1]);
                    assert(pre_push[i1].edge.id != exitg.edge.id);
                } else {
                    assert(candidates@[i1] == pre_push[i1]);
                    assert(candidates@[i2] == pre_push[i2]);
                }
            }
            if candidates@.len() < knn as int {
                assert forall|j: int|
                    0 <= j < self.road_graph.network.edges@.len() && edge_in_window(
                        self.road_rtree,
                        (#[trigger] self.road_graph.network.edges@[j]).geometry.0@,
                        j,
                        traj_point.point.x - radius,
                        traj_point.point.y - radius,
                        traj_point.point.x + radius,
                        traj_point.point.y + radius,
                    ) && edge_passes(
                        traj_point.point,
                        &self.road_graph.network.edges@[j],
                        radius,
                    ) implies cand_id_present(
                    candidates@,
                    self.road_graph.network.edges@[j].id,
                ) by {
                    assert(cand_id_present(pre_push, self.road_graph.network.edges@[j].id));
                    lemma_cand_id_push(pre_push, exitg, self.road_graph.network.edges@[j].id);
                }
                assert(all_passing_present(*self, traj_point.point, radius, candidates@));
            }
            lemma_cand_id_push(pre_push, exitg, exitg.edge.id);
            assert(cand_id_present(candidates@, exitg.edge.id));
        }
        candidates
    }
}

/// What `query_candidate` promises of each returned candidate: it is
/// well-formed, lies within the query radius, its emission is the
/// Gaussian log-probability of its distance, and its edge is an edge of
/// the network.
pub open spec fn candidate_ok(
    c: Candidate,
    net: Network,
    tp: TrajInfo,
    radius: u64,
    gps_err: u64,
) -> bool {
    &&& wf_candidate(&c)
    &&& c.distance <= radius
    &&& c.ep == ep_log_spec(c.distance as int, gps_err as int)
    &&& c.ori_traj_point == tp
    &&& exists|j: int| 0 <= j < net.edges@.len() && edge_eq(&c.edge, &#[trigger] net.edges@[j])
    &&& exists|k: int|
        crate::algorithm::lr_matches(
            tp.point,
            c.edge.geometry.0@,
            k,
            c.distance as int,
            c.offset as int,
            c.closest_point,
        )
}

/// Does the sequence hold this candidate value?
pub open spec fn seq_has(a: Seq<Candidate>, c: Candidate) -> bool {
    exists|j: int| 0 <= j < a.len() && a[j] == c
}

/// Does the sequence hold a candidate on the edge with this id?
pub open spec fn cand_id_present(s: Seq<Candidate>, id: u64) -> bool {
    exists|i: int| 0 <= i < s.len() && s[i].edge.id == id
}

/// Appending a candidate keeps every edge id that was already present,
/// and adds the appended one's.
proof fn lemma_cand_id_push(s: Seq<Candidate>, v: Candidate, id: u64)
    requires
        cand_id_present(s, id) || v.edge.id == id,
    ensures
        cand_id_present(s.push(v), id),
{
    if cand_id_present(s, id) {
        let i = choose|i: int| 0 <= i < s.len() && s[i].edge.id == id;
        assert(s.push(v)[i].edge.id == id);
    } else {
        assert(s.push(v)[s.len() as int].edge.id == id);
    }
}

/// Does the sample's projection onto this edge pass the query filters:
/// perpendicular distance within `radius` and projection not beyond the
/// edge end?
pub open spec fn edge_passes(q: Point, e: &Edge, radius: u64) -> bool {
    exists|k: int, d: int, off: int, cp: Point|
        lr_matches(q, e.geometry.0@, k, d, off, cp) && d <= radius as int && off <= e.length as int
}

/// Does the spatial index hold an entry for edge `j` whose bounding
/// rectangle intersects the (closed) query window?
pub open spec fn edge_in_window(
    rt: SpatialIndex,
    ps: Seq<Point>,
    j: int,
    wmin_x: int,
    wmin_y: int,
    wmax_x: int,
    wmax_y: int,
) -> bool {
    exists|e: (i64, i64, i64, i64, usize)|
        rtree_entries(rt).count(e) > 0 && e.4 == j && crate::network::rect_bounds(
            e.0,
            e.1,
            e.2,
            e.3,
            ps,
        ) && !(wmin_x > e.2 || wmax_x < e.0 || wmin_y > e.3 || wmax_y < e.1)
}

/// Completeness of a candidate query: every edge that is indexed under
/// a rectangle meeting the window and whose projection passes the
/// filters contributes a candidate on its edge id.
pub open spec fn all_passing_present(m: MMatch, q: Point, radius: u64, out: Seq<Candidate>) -> bool {
    forall|j: int|
        0 <= j < m.road_graph.network.edges@.len() && edge_in_window(
            m.road_rtree,
            (#[trigger] m.road_graph.network.edges@[j]).geometry.0@,
            j,
            q.x - radius,
            q.y - radius,
            q.x + radius,
            q.y + radius,
        ) && edge_passes(q, &m.road_graph.network.edges@[j], radius) ==> cand_id_present(
            out,
            m.road_graph.network.edges@[j].id,
        )
}

/// `candidate_ok` only looks at field values, so it carries over to a
/// field-for-field copy.
proof fn lemma_candidate_ok_eq(
    orig: Candidate,
    dup: Candidate,
    net: Network,
    tp: TrajInfo,
    radius: u64,
    gps_err: u64,
)
    requires
        candidate_ok(orig, net, tp, radius, gps_err),
        crate::model::candidate_eq(&dup, &orig),
    ensures
        candidate_ok(dup, net, tp, radius, gps_err),
{
    let j0 = choose|j: int|
        0 <= j < net.edges@.len() && edge_eq(&orig.edge, &net.edges@[j]);
    assert(edge_eq(&dup.edge, &net.edges@[j0]));
    let k0 = choose|k: int|
        lr_matches(
            tp.point,
            orig.edge.geometry.0@,
            k,
            orig.distance as int,
            orig.offset as int,
            orig.closest_point,
        );
    assert(lr_matches(
        tp.point,
        dup.edge.geometry.0@,
        k0,
        dup.distance as int,
        dup.offset as int,
        dup.closest_point,
    ));
    assert(exists|k: int|
        lr_matches(
            tp.point,
            dup.edge.geometry.0@,
            k,
            dup.distance as int,
            dup.offset as int,
            dup.closest_point,
        ));
}

/// `candidate_ok` only looks at the network's edges, so it carries over
/// between networks whose edge sequences are equal.
proof fn lemma_candidate_ok_same_edges(
    c: Candidate,
    net_a: Network,
    net_b: Network,
    tp: TrajInfo,
    radius: u64,
    gps_err: u64,
)
    requires
        candidate_ok(c, net_a, tp, radius, gps_err),
        net_a.edges@ == net_b.edges@,
    ensures
        candidate_ok(c, net_b, tp, radius, gps_err),
{
    let j0 = choose|j: int|
        0 <= j < net_a.edges@.len() && edge_eq(&c.edge, &net_a.edges@[j]);
    assert(edge_eq(&c.edge, &net_b.edges@[j0]));
}

/// Every candidate a layer's cells hold is a valid query result for
/// that layer's own sample.
pub open spec fn cells_of_sample(
    cells: Seq<Layer>,
    net: Network,
    sample: TrajInfo,
    radius: u64,
    gps_err: u64,
) -> bool {
    forall|j: int|
        0 <= j < cells.len() ==> ((#[trigger] cells[j]).candidate matches Some(c)
            ==> candidate_ok(c, net, sample, radius, gps_err))
}

/// Does the spatial index hold an entry with value `v` whose rectangle
/// intersects the (closed) window?
pub open spec fn hit_entry_for(
    rt: SpatialIndex,
    wmin_x: i64,
    wmin_y: i64,
    wmax_x: i64,
    wmax_y: i64,
    v: usize,
) -> bool {
    exists|e: (i64, i64, i64, i64, usize)|
        rtree_entries(rt).count(e) > 0 && rect_hits(e, wmin_x, wmin_y, wmax_x, wmax_y) && e.4 == v
}

/// Does any edge pass the candidate filters for the sample at `q`:
/// indexed under a rectangle meeting the query window, projection
/// within `radius`, and projection not beyond the edge end?
pub open spec fn sample_has_candidate(
    rt: SpatialIndex,
    edges: Seq<Edge>,
    q: Point,
    radius: u64,
) -> bool {
    exists|j: int|
        0 <= j < edges.len() && edge_in_window(
            rt,
            (#[trigger] edges[j]).geometry.0@,
            j,
            q.x - radius,
            q.y - radius,
            q.x + radius,
            q.y + radius,
        ) && edge_passes(q, &edges[j], radius)
}

/// Does the edge with this id pass the candidate filters at `q`?
pub open spec fn edge_id_available(
    rt: SpatialIndex,
    edges: Seq<Edge>,
    id: u64,
    q: Point,
    radius: u64,
) -> bool {
    exists|j: int|
        0 <= j < edges.len() && (#[trigger] edges[j]).id == id && edge_in_window(
            rt,
            edges[j].geometry.0@,
            j,
            q.x - radius,
            q.y - radius,
            q.x + radius,
            q.y + radius,
        ) && edge_passes(q, &edges[j], radius)
}

/// If every spatial entry meeting the window contributed its index,
/// and every passing contributed index yielded a candidate on its edge
/// id, then every passing in-window edge is represented.
proof fn lemma_collect_complete(
    m: MMatch,
    q: Point,
    radius: u64,
    wmin: Point,
    wmax: Point,
    idxs: Seq<usize>,
    cands: Seq<Candidate>,
)
    requires
        m.wf(),
        wmin.x == q.x - radius,
        wmin.y == q.y - radius,
        wmax.x == q.x + radius,
        wmax.y == q.y + radius,
        forall|e: (i64, i64, i64, i64, usize)|
            #[trigger] rtree_entries(m.road_rtree).count(e) > 0 && rect_hits(
                e,
                wmin.x,
                wmin.y,
                wmax.x,
                wmax.y,
            ) ==> idxs.contains(e.4),
        forall|t: int|
            0 <= t < idxs.len() ==> (edge_passes(
                q,
                &m.road_graph.network.edges@[(#[trigger] idxs[t]) as int],
                radius,
            ) ==> cand_id_present(cands, m.road_graph.network.edges@[idxs[t] as int].id)),
    ensures
        forall|j: int|
            0 <= j < m.road_graph.network.edges@.len() && edge_in_window(
                m.road_rtree,
                (#[trigger] m.road_graph.network.edges@[j]).geometry.0@,
                j,
                q.x - radius,
                q.y - radius,
                q.x + radius,
                q.y + radius,
            ) && edge_passes(q, &m.road_graph.network.edges@[j], radius) ==> cand_id_present(
                cands,
                m.road_graph.network.edges@[j].id,
            ),
{
    assert forall|j: int|
        0 <= j < m.road_graph.network.edges@.len() && edge_in_window(
            m.road_rtree,
            (#[trigger] m.road_graph.network.edges@[j]).geometry.0@,
            j,
            q.x - radius,
            q.y - radius,
            q.x + radius,
            q.y + radius,
        ) && edge_passes(q, &m.road_graph.network.edges@[j], radius) implies cand_id_present(
        cands,
        m.road_graph.network.edges@[j].id,
    ) by {
        let e = choose|e: (i64, i64, i64, i64, usize)|
            rtree_entries(m.road_rtree).count(e) > 0 && e.4 == j && crate::network::rect_bounds(
                e.0,
                e.1,
                e.2,
                e.3,
                m.road_graph.network.edges@[j].geometry.0@,
            ) && !((q.x - radius) > e.2 || (q.x + radius) < e.0 || (q.y - radius) > e.3 || (q.y
                + radius) < e.1);
        assert(rect_hits(e, wmin.x, wmin.y, wmax.x, wmax.y));
        assert(rtree_entries(m.road_rtree).count(e) > 0);
        assert(idxs.contains(e.4));
        let t = choose|t: int| 0 <= t < idxs.len() && idxs[t] == e.4;
        assert(idxs[t] as int == j);
        assert(edge_passes(q, &m.road_graph.network.edges@[idxs[t] as int], radius));
    }
}

/// A projection that fails a query filter rules the edge out: no other
/// linear-reference tuple can pass, because the tuple is unique.
proof fn lemma_not_passing(
    q: Point,
    e: &Edge,
    k0: int,
    d0: int,
    o0: int,
    cp0: Point,
    radius: u64,
)
    requires
        lr_matches(q, e.geometry.0@, k0, d0, o0, cp0),
        d0 > radius as int || o0 > e.length as int,
    ensures
        !edge_passes(q, e, radius),
{
    if edge_passes(q, e, radius) {
        let (k, d, off, cp) = choose|k: int, d: int, off: int, cp: Point|
            lr_matches(q, e.geometry.0@, k, d, off, cp) && d <= radius as int && off
                <= e.length as int;
        crate::algorithm::lemma_lr_unique(
            q,
            e.geometry.0@,
            k,
            d,
            off,
            cp,
            k0,
            d0,
            o0,
            cp0,
        );
    }
}

/// Pairwise-distinct edge ids survive any permutation.
proof fn lemma_distinct_ids_preserved(a: Seq<Candidate>, b: Seq<Candidate>)
    requires
        a.to_multiset() == b.to_multiset(),
        forall|i1: int, i2: int| 0 <= i1 < i2 < a.len() ==> a[i1].edge.id != a[i2].edge.id,
    ensures
        forall|i1: int, i2: int| 0 <= i1 < i2 < b.len() ==> b[i1].edge.id != b[i2].edge.id,
{
    assert(a.no_duplicates()) by {
        assert forall|i: int, j: int|
            0 <= i < a.len() && 0 <= j < a.len() && i != j implies a[i] != a[j] by {
            if i < j {
                assert(a[i].edge.id != a[j].edge.id);
            } else {
                assert(a[j].edge.id != a[i].edge.id);
            }
        }
    }
    a.lemma_multiset_has_no_duplicates();
    assert forall|x: Candidate| b.to_multiset().contains(x) implies b.to_multiset().count(x)
        == 1 by {
        assert(a.to_multiset().contains(x));
    }
    b.lemma_multiset_has_no_duplicates_conv();
    lemma_multiset_values(a, b);
    assert forall|i1: int, i2: int|
        0 <= i1 < i2 < b.len() implies b[i1].edge.id != b[i2].edge.id by {
        assert(seq_has(a, b[i1]) && seq_has(a, b[i2]));
        let w1 = choose|w: int| 0 <= w < a.len() && a[w] == b[i1];
        let w2 = choose|w: int| 0 <= w < a.len() && a[w] == b[i2];
        if w1 == w2 {
            assert(b[i1] == b[i2]);
            assert(false);
        } else if w1 < w2 {
            assert(a[w1].edge.id != a[w2].edge.id);
        } else {
            assert(a[w2].edge.id != a[w1].edge.id);
        }
    }
}

/// `candidate_ok` for every element survives any permutation.
proof fn lemma_candidate_ok_all(
    a: Seq<Candidate>,
    b: Seq<Candidate>,
    net: Network,
    tp: TrajInfo,
    radius: u64,
    gps_err: u64,
)
    requires
        a.to_multiset() == b.to_multiset(),
        forall|i: int| 0 <= i < a.len() ==> candidate_ok(#[trigger] a[i], net, tp, radius, gps_err),
    ensures
        forall|i: int| 0 <= i < b.len() ==> candidate_ok(#[trigger] b[i], net, tp, radius, gps_err),
{
    lemma_multiset_values(a, b);
    assert forall|i: int| 0 <= i < b.len() implies candidate_ok(
        #[trigger] b[i],
        net,
        tp,
        radius,
        gps_err,
    ) by {
        assert(seq_has(a, b[i]));
        let j = choose|j: int| 0 <= j < a.len() && a[j] == b[i];
        assert(candidate_ok(a[j], net, tp, radius, gps_err));
    }
}

/// Completeness of a candidate set survives any permutation.
proof fn lemma_all_passing_transfer(
    m: MMatch,
    q: Point,
    radius: u64,
    a: Seq<Candidate>,
    b: Seq<Candidate>,
)
    requires
        a.to_multiset() == b.to_multiset(),
        all_passing_present(m, q, radius, a),
    ensures
        all_passing_present(m, q, radius, b),
{
    lemma_multiset_values(b, a);
    assert forall|j: int|
        0 <= j < m.road_graph.network.edges@.len() && edge_in_window(
            m.road_rtree,
            (#[trigger] m.road_graph.network.edges@[j]).geometry.0@,
            j,
            q.x - radius,
            q.y - radius,
            q.x + radius,
            q.y + radius,
        ) && edge_passes(q, &m.road_graph.network.edges@[j], radius) implies cand_id_present(
        b,
        m.road_graph.network.edges@[j].id,
    ) by {
        assert(cand_id_present(a, m.road_graph.network.edges@[j].id));
        let i0 = choose|i: int|
            0 <= i < a.len() && a[i].edge.id == m.road_graph.network.edges@[j].id;
        assert(seq_has(b, a[i0]));
        let i1 = choose|i: int| 0 <= i < b.len() && b[i] == a[i0];
        assert(b[i1].edge.id == m.road_graph.network.edges@[j].id);
    }
}

/// An empty complete candidate set means no edge passes the filters.
proof fn lemma_empty_no_sample(m: MMatch, q: Point, radius: u64, out: Seq<Candidate>)
    requires
        all_passing_present(m, q, radius, out),
        out.len() == 0,
    ensures
        !sample_has_candidate(m.road_rtree, m.road_graph.network.edges@, q, radius),
{
    if sample_has_candidate(m.road_rtree, m.road_graph.network.edges@, q, radius) {
        let j = choose|j: int|
            0 <= j < m.road_graph.network.edges@.len() && edge_in_window(
                m.road_rtree,
                (#[trigger] m.road_graph.network.edges@[j]).geometry.0@,
                j,
                q.x - radius,
                q.y - radius,
                q.x + radius,
                q.y + radius,
            ) && edge_passes(q, &m.road_graph.network.edges@[j], radius);
        assert(cand_id_present(out, m.road_graph.network.edges@[j].id));
    }
}

/// In a complete candidate set, an available edge id is represented.
proof fn lemma_available_implies_present(
    m: MMatch,
    q: Point,
    radius: u64,
    pid: u64,
    out: Seq<Candidate>,
)
    requires
        all_passing_present(m, q, radius, out),
        edge_id_available(m.road_rtree, m.road_graph.network.edges@, pid, q, radius),
    ensures
        cand_id_present(out, pid),
{
    let j = choose|j: int|
        0 <= j < m.road_graph.network.edges@.len() && (
        #[trigger] m.road_graph.network.edges@[j]).id == pid && edge_in_window(
            m.road_rtree,
            m.road_graph.network.edges@[j].geometry.0@,
            j,
            q.x - radius,
            q.y - radius,
            q.x + radius,
            q.y + radius,
        ) && edge_passes(q, &m.road_graph.network.edges@[j], radius);
    assert(cand_id_present(out, m.road_graph.network.edges@[j].id));
}

/// Equal multisets hold the same values.
proof fn lemma_multiset_values(a: Seq<Candidate>, b: Seq<Candidate>)
    requires
        a.to_multiset() == b.to_multiset(),
    ensures
        forall|i: int| 0 <= i < b.len() ==> seq_has(a, #[trigger] b[i]),
{
    assert forall|i: int| 0 <= i < b.len() implies seq_has(a, #[trigger] b[i]) by {
        a.to_multiset_ensures();
        b.to_multiset_ensures();
        assert(b.contains(b[i]));
        assert(b.to_multiset().count(b[i]) > 0);
        assert(a.contains(b[i]));
        let j = choose|j: int| 0 <= j < a.len() && a[j] == b[i];
        assert(0 <= j < a.len() && a[j] == b[i]);
    }
}

/// Sorts candidates by ascending distance (selection sort); the result
/// holds exactly the given candidates.
fn sort_candidates(v: Vec<Candidate>) -> (r: Vec<Candidate>)
    ensures
        r@.to_multiset() == v@.to_multiset(),
        r@.len() == v@.len(),
        forall|i: int, j: int| 0 <= i < j < r@.len() ==> r@[i].distance <= r@[j].distance,
{
    let ghost orig = v@;
    let mut src = v;
    let mut out: Vec<Candidate> = Vec::new();
    proof {
        out@.to_multiset_ensures();
        assert(out@.to_multiset().add(src@.to_multiset()) =~= orig.to_multiset());
    }
    while src.len() > 0
        invariant
            out@.to_multiset().add(src@.to_multiset()) == orig.to_multiset(),
            out@.len() + src@.len() == orig.len(),
            forall|i: int, j: int| 0 <= i < j < out@.len() ==> out@[i].distance <= out@[j].distance,
            forall|i: int, j: int|
                0 <= i < out@.len() && 0 <= j < src@.len() ==> (#[trigger] out@[i]).distance
                    <= (#[trigger] src@[j]).distance,
        decreases src@.len(),
    {
        let mut mi: usize = 0;
        let mut i: usize = 1;
        while i < src.len()
            invariant
                src@.len() > 0,
                0 <= mi < i <= src@.len(),
                forall|j: int|
                    0 <= j < i ==> src@[mi as int].distance <= (#[trigger] src@[j]).distance,
            decreases src@.len() - i,
        {
            if src[i].distance < src[mi].distance {
                mi = i;
            }
            i = i + 1;
        }
        let ghost src0 = src@;
        let ghost out0 = out@;
        let c = src.remove(mi);
        out.push(c);
        proof {
            src0.to_multiset_ensures();
            out0.to_multiset_ensures();
            assert(src@ == src0.remove(mi as int));
            assert(out@ == out0.push(c) && c == src0[mi as int]);
            assert(src0.remove(mi as int).to_multiset() =~= src0.to_multiset().remove(
                src0[mi as int],
            ));
            assert(out0.push(c).to_multiset() =~= out0.to_multiset().insert(c));
            assert(src0.contains(src0[mi as int]));
            assert(src0.to_multiset().count(src0[mi as int]) > 0);
            assert(out@.to_multiset().add(src@.to_multiset()) =~= orig.to_multiset());
            assert forall|i2: int, j2: int|
                0 <= i2 < out@.len() && 0 <= j2 < src@.len() implies (#[trigger] out@[i2]).distance
                <= (#[trigger] src@[j2]).distance by {
                if j2 < mi {
                    assert(src@[j2] == src0[j2]);
                } else {
                    assert(src@[j2] == src0[j2 + 1]);
                }
                if i2 < out0.len() {
                    assert(out@[i2] == out0[i2]);
                } else {
                    assert(out@[i2] == src0[mi as int]);
                }
            }
        }
    }
    proof {
        src@.to_multiset_ensures();
        assert(out@.to_multiset() =~= orig.to_multiset());
    }
    out
}

/// The per-cell scoring state of a layer under construction, kept in
/// three parallel vectors: chosen predecessor, cumulative score, and
/// transition weight of cell `c`.
pub open spec fn state_ok(
    bpv: Seq<Option<usize>>,
    cumv: Seq<Option<i64>>,
    tpv: Seq<i64>,
    cands: Seq<Candidate>,
    prev: Seq<Layer>,
    c: int,
) -> bool {
    &&& (cumv[c] matches Some(v) ==> v <= 0)
    &&& TP_LOG_FLOOR <= tpv[c] <= 0
    &&& (bpv[c] matches Some(p) ==> {
        &&& 0 <= (p as int) < prev.len()
        &&& prev[p as int].cumulative_prob is Some
        &&& cumv[c] is Some
        &&& score_val(cumv[c]) == crate::score::score_add3(
            score_val(prev[p as int].cumulative_prob),
            cands[c].ep as int,
            tpv[c] as int,
        )
    })
}

/// One admissible transition record: the cell's transition weight is
/// the exact transition formula applied to the true straight-line
/// distance between the two candidates' samples and to the on-graph
/// cost `pc`, which passed the speed gate.
pub open spec fn scored_with(
    pcell: Layer,
    cand: Candidate,
    tp: i64,
    pc: u64,
    v_max: u64,
    factor: u64,
) -> bool {
    pcell.candidate matches Some(pcand) ==> {
        let gps = crate::algorithm::sqrt_floor(
            crate::algorithm::dist2(pcand.ori_traj_point.point, cand.ori_traj_point.point),
        );
        &&& gps >= 1
        &&& tp == tp_log_spec(gps, pc as int)
        &&& (pc as int) <= max_gps_spec(
            cand.ori_traj_point.time_stamp,
            pcand.ori_traj_point.time_stamp,
            gps,
            v_max,
            factor,
        )
    }
}

/// The provenance counterpart of `state_ok` for a layer under
/// construction: the recorded transition weight of cell `c` comes from
/// an admissible transition record.
pub open spec fn state_scored(
    bpv: Seq<Option<usize>>,
    tpv: Seq<i64>,
    cands: Seq<Candidate>,
    prev: Seq<Layer>,
    v_max: u64,
    factor: u64,
    c: int,
) -> bool {
    bpv[c] matches Some(p) ==> {
        &&& 0 <= (p as int) < prev.len()
        &&& prev[p as int].candidate is Some
        &&& exists|pc: u64|
            #[trigger] scored_with(prev[p as int], cands[c], tpv[c], pc, v_max, factor)
    }
}

/// What every cell of a built layer satisfies: it holds a candidate,
/// its scores are log-probabilities, and when a back-pointer was set,
/// the cumulative score is exactly the predecessor's cumulative score
/// plus the cell's emission and transition weights.
pub open spec fn wf_cell(cell: Layer, prev: Seq<Layer>) -> bool {
    &&& cell.candidate is Some
    &&& (cell.cumulative_prob matches Some(c) ==> c <= 0)
    &&& TP_LOG_FLOOR <= cell.tp <= 0
    &&& (cell.prev_layer matches Some(p) ==> {
        &&& 0 <= (p as int) < prev.len()
        &&& prev[p as int].cumulative_prob is Some
        &&& cell.cumulative_prob is Some
        &&& (cell.candidate matches Some(cand) && score_val(cell.cumulative_prob)
            == crate::score::score_add3(
            score_val(prev[p as int].cumulative_prob),
            cand.ep as int,
            cell.tp as int,
        ))
    })
}

/// What every cell of a layer guarantees about its own candidate.
pub open spec fn wf_layer_cells(cells: Seq<Layer>) -> bool {
    forall|j: int|
        0 <= j < cells.len() ==> ((#[trigger] cells[j]).candidate matches Some(c) ==> wf_candidate(
            &c,
        )) && cells[j].candidate is Some && (cells[j].cumulative_prob matches Some(cp) ==> cp <= 0)
}

/// The lattice invariant: every cell of layer `t` is well-formed with
/// respect to layer `t - 1`; cells of layer 0 carry no back-pointer.
pub open spec fn wf_lattice(ls: Seq<Vec<Layer>>) -> bool {
    forall|t: int, j: int|
        0 <= t < ls.len() && 0 <= j < ls[t]@.len() ==> wf_cell(
            #[trigger] ls[t]@[j],
            if t == 0 {
                Seq::<Layer>::empty()
            } else {
                ls[t - 1]@
            },
        )
}

/// How many cells a back-pointer walk starting at cell `j` of layer `t`
/// visits before it stops.
pub open spec fn chain_len(ls: Seq<Vec<Layer>>, t: int, j: int) -> nat
    decreases t,
{
    if !(0 <= t < ls.len()) || !(0 <= j < ls[t]@.len()) {
        0
    } else {
        match ls[t]@[j].prev_layer {
            Option::None => 1,
            Option::Some(p) => {
                if t == 0 {
                    1
                } else {
                    1 + chain_len(ls, t - 1, p as int)
                }
            },
        }
    }
}

/// Monotone lattice: a cell that gained a back-pointer carries exactly
/// its predecessor's cumulative log-probability plus its own emission
/// and transition weights -- in particular no less than that sum.
pub proof fn lemma_cell_cumulative(cell: Layer, prev: Seq<Layer>)
    requires
        wf_cell(cell, prev),
        cell.prev_layer is Some,
    ensures
        score_val(cell.cumulative_prob) == crate::score::score_add3(
            score_val(prev[cell.prev_layer->Some_0 as int].cumulative_prob),
            cell.candidate->Some_0.ep as int,
            cell.tp as int,
        ),
        score_val(cell.cumulative_prob) >= crate::score::score_add3(
            score_val(prev[cell.prev_layer->Some_0 as int].cumulative_prob),
            cell.candidate->Some_0.ep as int,
            cell.tp as int,
        ),
{
}

/// Back-pointer walks terminate: starting anywhere in layer `t`, at
/// most `t + 1` cells are visited, because every pointer leads to the
/// previous layer.
pub proof fn lemma_back_pointers_terminate(ls: Seq<Vec<Layer>>, t: int, j: int)
    requires
        0 <= t,
    ensures
        chain_len(ls, t, j) <= t + 1,
    decreases t,
{
    if 0 <= t < ls.len() && 0 <= j < ls[t]@.len() {
        match ls[t]@[j].prev_layer {
            Option::None => {},
            Option::Some(p) => {
                if t > 0 {
                    lemma_back_pointers_terminate(ls, t - 1, p as int);
                }
            },
        }
    }
}

impl MMatch {
    /// Inserts the two virtual arcs of one candidate: edge start to the
    /// candidate's virtual node (weighted with the offset), and virtual
    /// node to edge end (weighted with the remaining length).  Fails
    /// only when a graph capacity bound is crossed.
    fn add_dummy_edges(&mut self, cand: &Candidate)
        requires
            old(self).wf(),
            wf_candidate(cand),
            old(self).road_graph.network.nodes@.len() + 4 <= crate::MAX_GRAPH_NODES,
            graph_arcs(old(self).road_graph.graph).len() + 4 < usize::MAX,
        ensures
            final(self).wf(),
            final(self).road_graph.network.edges@ == old(self).road_graph.network.edges@,
            final(self).road_rtree == old(self).road_rtree,
            crate::network::contains_node(
                final(self).road_graph.network.nodes@,
                cand.dummy_node_id,
            ),
            old(self).road_graph.network.nodes@.len() <= final(self).road_graph.network.nodes@.len(),
            final(self).road_graph.network.nodes@.len() <= old(self).road_graph.network.nodes@.len() + 4,
            forall|i: int|
                0 <= i < old(self).road_graph.network.nodes@.len() ==> final(self).road_graph.network.nodes@[i] == old(self).road_graph.network.nodes@[i],
            graph_arcs(old(self).road_graph.graph).subset_of(
                graph_arcs(final(self).road_graph.graph),
            ),
            graph_arcs(final(self).road_graph.graph).len() == graph_arcs(
                old(self).road_graph.graph,
            ).len() + 2,
            exists|fi: usize, di: usize, ti: usize|
                {
                    &&& fi < final(self).road_graph.network.nodes@.len()
                    &&& di < final(self).road_graph.network.nodes@.len()
                    &&& ti < final(self).road_graph.network.nodes@.len()
                    &&& final(self).road_graph.network.nodes@[fi as int] == cand.edge.from
                    &&& final(self).road_graph.network.nodes@[di as int] == cand.dummy_node_id
                    &&& final(self).road_graph.network.nodes@[ti as int] == cand.edge.to
                    &&& graph_arcs(final(self).road_graph.graph) == graph_arcs(
                        old(self).road_graph.graph,
                    ).insert((fi, di, cand.offset)).insert(
                        (di, ti, (cand.edge.length - cand.offset) as u64),
                    )
                },
    {
        let e1 = Edge::new(
            new_dummy_edge_id(),
            cand.edge.get_from_node(),
            cand.dummy_node_id,
            cand.offset,
            cand.offset,
            EdgeType::Dummy,
            "dummy_edge".to_string(),
            crate::algorithm::Line(crate::network::copy_points(&cand.edge.geometry.0)),
        );
        let r1 = self.road_graph.update_graph(e1);
        proof {
            assert(r1 is Ok);
        }
        let e2 = Edge::new(
            new_dummy_edge_id(),
            cand.dummy_node_id,
            cand.edge.get_to_node(),
            cand.edge.get_length() - cand.offset,
            cand.edge.get_length() - cand.offset,
            EdgeType::Dummy,
            "dummy_edge".to_string(),
            crate::algorithm::Line(crate::network::copy_points(&cand.edge.geometry.0)),
        );
        let ghost nodes_mid = self.road_graph.network.nodes@;
        let ghost arcs_mid = graph_arcs(self.road_graph.graph);
        let r2 = self.road_graph.update_graph(e2);
        proof {
            assert(r2 is Ok);
            let p = choose|p: int|
                0 <= p < nodes_mid.len() && nodes_mid[p] == cand.dummy_node_id;
            assert(self.road_graph.network.nodes@[p] == cand.dummy_node_id);
            // The two inserted arcs name the same virtual node: the
            // node list is duplicate-free, so the index the second
            // insert used for it equals the index the first produced.
            let (fi1, di1) = choose|fi: usize, di: usize|
                fi < nodes_mid.len() && di < nodes_mid.len() && nodes_mid[fi as int] == e1.from
                    && nodes_mid[di as int] == e1.to && arcs_mid == graph_arcs(
                    old(self).road_graph.graph,
                ).insert((fi, di, e1.length));
            let (di2, ti2) = choose|di: usize, ti: usize|
                di < self.road_graph.network.nodes@.len() && ti
                    < self.road_graph.network.nodes@.len()
                    && self.road_graph.network.nodes@[di as int] == e2.from
                    && self.road_graph.network.nodes@[ti as int] == e2.to && graph_arcs(
                    self.road_graph.graph,
                ) == arcs_mid.insert((di, ti, e2.length));
            assert(self.road_graph.network.nodes@[di1 as int] == cand.dummy_node_id);
            assert(di2 == di1);
            assert(self.road_graph.network.nodes@[fi1 as int] == cand.edge.from);
            assert(graph_arcs(self.road_graph.graph) == graph_arcs(
                old(self).road_graph.graph,
            ).insert((fi1, di1, cand.offset)).insert(
                (di1, ti2, (cand.edge.length - cand.offset) as u64),
            ));
            vstd::multiset::lemma_insert_len(
                graph_arcs(old(self).road_graph.graph),
                (fi1, di1, cand.offset),
            );
            vstd::multiset::lemma_insert_len(
                arcs_mid,
                (di1, ti2, (cand.edge.length - cand.offset) as u64),
            );
        }
    }

    /// Builds the first lattice layer: one cell per candidate of the
    /// first sample, scored with its emission alone, with the
    /// candidate's virtual arcs inserted into the routing graph.
    #[verifier::rlimit(100)]
    pub fn init_layer(&mut self, candidates: &Vec<Candidate>, tp0: &TrajInfo, cfg: &Config) -> (cells: Vec<Layer>)
        requires
            old(self).wf(),
            crate::model::wf_config(cfg),
            wf_point(tp0.point),
            candidates@.len() <= cfg.knn as int + 1,
            forall|i: int|
                0 <= i < candidates@.len() ==> candidate_ok(
                    #[trigger] candidates@[i],
                    old(self).road_graph.network,
                    *tp0,
                    cfg.radius,
                    cfg.gps_err,
                ),
            old(self).road_graph.network.nodes@.len() + 4 * candidates@.len() + 4
                <= crate::MAX_GRAPH_NODES,
            graph_arcs(old(self).road_graph.graph).len() + 2 * candidates@.len() + 4
                < usize::MAX,
        ensures
            final(self).wf(),
            final(self).road_rtree == old(self).road_rtree,
            final(self).road_graph.network.edges@ == old(self).road_graph.network.edges@,
            old(self).road_graph.network.nodes@.len() <= final(self).road_graph.network.nodes@.len(),
            final(self).road_graph.network.nodes@.len() <= old(self).road_graph.network.nodes@.len() + 4 * candidates@.len(),
            forall|i: int|
                0 <= i < old(self).road_graph.network.nodes@.len() ==> final(self).road_graph.network.nodes@[i] == old(self).road_graph.network.nodes@[i],
            graph_arcs(old(self).road_graph.graph).subset_of(
                graph_arcs(final(self).road_graph.graph),
            ),
            graph_arcs(final(self).road_graph.graph).len() <= graph_arcs(
                old(self).road_graph.graph,
            ).len() + 2 * candidates@.len(),
            cells@.len() == candidates@.len(),
            forall|j: int|
                0 <= j < cells@.len() ==> wf_cell(#[trigger] cells@[j], Seq::<Layer>::empty()),
            forall|j: int|
                0 <= j < cells@.len() ==> (#[trigger] cells@[j]).prev_layer is None
                    && cells@[j].cumulative_prob == Some(cells@[j].candidate->Some_0.ep) && (
                cells@[j].candidate matches Some(c) && crate::model::candidate_eq(
                    &c,
                    &candidates@[j],
                )),
            wf_layer_cells(cells@),
            cells_of_sample(cells@, old(self).road_graph.network, *tp0, cfg.radius, cfg.gps_err),
            forall|j: int|
                0 <= j < candidates@.len() ==> crate::network::contains_node(
                    final(self).road_graph.network.nodes@,
                    (#[trigger] candidates@[j]).dummy_node_id,
                ),
    {
        let ghost net0 = self.road_graph.network;
        let ghost rt0 = self.road_rtree;
        let ghost arcs0 = graph_arcs(self.road_graph.graph);
        let n = candidates.len();
        let mut cells: Vec<Layer> = Vec::new();
        let mut ci: usize = 0;
        while ci < n
            invariant
                self.wf(),
                n == candidates@.len(),
                0 <= ci <= n,
                cells@.len() == ci,
                net0 == old(self).road_graph.network,
                net0.wf(),
                rt0 == old(self).road_rtree,
                arcs0 == graph_arcs(old(self).road_graph.graph),
                self.road_rtree == rt0,
                arcs0.subset_of(graph_arcs(self.road_graph.graph)),
                self.road_graph.network.edges@ == net0.edges@,
                net0.nodes@.len() <= self.road_graph.network.nodes@.len(),
                self.road_graph.network.nodes@.len() <= net0.nodes@.len() + 4 * ci,
                graph_arcs(self.road_graph.graph).len() <= arcs0.len() + 2 * ci,
                net0.nodes@.len() + 4 * (n as int) + 4 <= crate::MAX_GRAPH_NODES,
                arcs0.len() + 2 * (n as int) + 4 < usize::MAX,
                crate::model::wf_config(cfg),
                wf_point(tp0.point),
                forall|i: int|
                    0 <= i < net0.nodes@.len() ==> self.road_graph.network.nodes@[i]
                        == net0.nodes@[i],
                forall|i: int|
                    0 <= i < candidates@.len() ==> candidate_ok(
                        #[trigger] candidates@[i],
                        net0,
                        *tp0,
                        cfg.radius,
                        cfg.gps_err,
                    ),
                forall|j: int|
                    0 <= j < cells@.len() ==> wf_cell(#[trigger] cells@[j], Seq::<Layer>::empty())
                        && (cells@[j].candidate matches Some(c) ==> wf_candidate(&c))
                        && cells@[j].prev_layer is None && cells@[j].cumulative_prob == Some(
                        cells@[j].candidate->Some_0.ep,
                    ) && (cells@[j].candidate matches Some(c2) && crate::model::candidate_eq(
                        &c2,
                        &candidates@[j],
                    )),
                forall|j: int|
                    0 <= j < ci ==> crate::network::contains_node(
                        self.road_graph.network.nodes@,
                        (#[trigger] candidates@[j]).dummy_node_id,
                    ),
            decreases n - ci,
        {
            proof {
                assert(candidate_ok(candidates@[ci as int], net0, *tp0, cfg.radius, cfg.gps_err));
            }
            let cand = candidates[ci].duplicate();
            proof {
                lemma_candidate_ok_eq(
                    candidates@[ci as int],
                    cand,
                    net0,
                    *tp0,
                    cfg.radius,
                    cfg.gps_err,
                );
            }
            let ghost nodes_pre = self.road_graph.network.nodes@;
            self.add_dummy_edges(&cand);
            proof {
                assert forall|j: int| 0 <= j < ci + 1 implies crate::network::contains_node(
                    self.road_graph.network.nodes@,
                    (#[trigger] candidates@[j]).dummy_node_id,
                ) by {
                    if j < ci {
                        let w = choose|w: int|
                            0 <= w < nodes_pre.len() && nodes_pre[w] == candidates@[
                            j].dummy_node_id;
                        assert(self.road_graph.network.nodes@[w] == candidates@[j].dummy_node_id);
                    } else {
                        assert(cand.dummy_node_id == candidates@[j].dummy_node_id);
                    }
                }
            }
            let ep = cand.ep;
            cells.push(
                Layer { candidate: Some(cand), prev_layer: None, cumulative_prob: Some(ep), tp: 0 },
            );
            ci = ci + 1;
        }
        cells
    }

    #[verifier::rlimit(100)]
    pub fn next_layer(
        &mut self,
        prev_cells: &Vec<Layer>,
        candidates: &Vec<Candidate>,
        trj: &TrajInfo,
        cfg: &Config,
    ) -> (cells: Vec<Layer>)
        requires
            old(self).wf(),
            crate::model::wf_config(cfg),
            wf_point(trj.point),
            wf_layer_cells(prev_cells@),
            candidates@.len() <= cfg.knn as int + 1,
            forall|i: int|
                0 <= i < candidates@.len() ==> candidate_ok(
                    #[trigger] candidates@[i],
                    old(self).road_graph.network,
                    *trj,
                    cfg.radius,
                    cfg.gps_err,
                ),
            old(self).road_graph.network.nodes@.len() + 6 * (prev_cells@.len()
                * candidates@.len() + 1) <= crate::MAX_GRAPH_NODES,
            graph_arcs(old(self).road_graph.graph).len() + 3 * (prev_cells@.len()
                * candidates@.len() + 1) < usize::MAX,
        ensures
            final(self).wf(),
            final(self).road_rtree == old(self).road_rtree,
            final(self).road_graph.network.edges@ == old(self).road_graph.network.edges@,
            old(self).road_graph.network.nodes@.len() <= final(self).road_graph.network.nodes@.len(),
            final(self).road_graph.network.nodes@.len() <= old(self).road_graph.network.nodes@.len() + 6 * (prev_cells@.len() * candidates@.len() + 1),
            forall|i: int|
                0 <= i < old(self).road_graph.network.nodes@.len() ==> final(self).road_graph.network.nodes@[i] == old(self).road_graph.network.nodes@[i],
            graph_arcs(old(self).road_graph.graph).subset_of(
                graph_arcs(final(self).road_graph.graph),
            ),
            graph_arcs(final(self).road_graph.graph).len() <= graph_arcs(
                old(self).road_graph.graph,
            ).len() + 3 * (prev_cells@.len() * candidates@.len() + 1),
            cells@.len() == candidates@.len(),
            forall|j: int| 0 <= j < cells@.len() ==> wf_cell(#[trigger] cells@[j], prev_cells@),
            forall|j: int|
                0 <= j < cells@.len() ==> ((#[trigger] cells@[j]).candidate matches Some(c)
                    && crate::model::candidate_eq(&c, &candidates@[j])),
            wf_layer_cells(cells@),
            cells_of_sample(cells@, old(self).road_graph.network, *trj, cfg.radius, cfg.gps_err),
            forall|j: int|
                0 <= j < cells@.len() ==> cell_scored(
                    #[trigger] cells@[j],
                    prev_cells@,
                    cfg.v_max,
                    cfg.factor,
                ),
            bridges_done(
                prev_cells@,
                candidates@,
                graph_arcs(final(self).road_graph.graph),
                final(self).road_graph.network.nodes@,
                cfg.reverse_tolerance,
            ),
    {
        let n = candidates.len();
        let m = prev_cells.len();
        let ghost net0 = self.road_graph.network;
        let ghost rt0 = self.road_rtree;
        let ghost arcs0 = graph_arcs(self.road_graph.graph);
        let mut bp: Vec<Option<usize>> = Vec::new();
        let mut cum: Vec<Option<i64>> = Vec::new();
        let mut tps: Vec<i64> = Vec::new();
        let mut fi: usize = 0;
        while fi < n
            invariant
                0 <= fi <= n,
                bp@.len() == fi,
                cum@.len() == fi,
                tps@.len() == fi,
                forall|c: int| 0 <= c < fi ==> (#[trigger] bp@[c]) is None,
                forall|c: int| 0 <= c < fi ==> (#[trigger] cum@[c]) is None,
                forall|c: int| 0 <= c < fi ==> (#[trigger] tps@[c]) == 0i64,
            decreases n - fi,
        {
            bp.push(None);
            cum.push(None);
            tps.push(0);
            fi = fi + 1;
        }
        let ghost mut steps: int = 0;
        let mut pi: usize = 0;
        while pi < m
            invariant
                self.wf(),
                net0 == old(self).road_graph.network,
                net0.wf(),
                rt0 == old(self).road_rtree,
                arcs0 == graph_arcs(old(self).road_graph.graph),
                self.road_rtree == rt0,
                arcs0.subset_of(graph_arcs(self.road_graph.graph)),
                self.road_graph.network.edges@ == net0.edges@,
                net0.nodes@.len() <= self.road_graph.network.nodes@.len(),
                forall|i: int|
                    0 <= i < net0.nodes@.len() ==> self.road_graph.network.nodes@[i]
                        == net0.nodes@[i],
                crate::model::wf_config(cfg),
                wf_point(trj.point),
                wf_layer_cells(prev_cells@),
                n == candidates@.len(),
                m == prev_cells@.len(),
                bp@.len() == n,
                cum@.len() == n,
                tps@.len() == n,
                0 <= pi <= m,
                steps == pi * (n as int),
                0 <= steps <= (m as int) * (n as int),
                self.road_graph.network.nodes@.len() <= net0.nodes@.len() + 6 * steps,
                graph_arcs(self.road_graph.graph).len() <= arcs0.len() + 3 * steps,
                net0.nodes@.len() + 6 * ((m as int) * (n as int) + 1) <= crate::MAX_GRAPH_NODES,
                arcs0.len() + 3 * ((m as int) * (n as int) + 1) < usize::MAX,
                forall|i: int|
                    0 <= i < candidates@.len() ==> candidate_ok(
                        #[trigger] candidates@[i],
                        net0,
                        *trj,
                        cfg.radius,
                        cfg.gps_err,
                    ),
                forall|c: int| 0 <= c < n ==> state_ok(bp@, cum@, tps@, candidates@, prev_cells@, c),
                forall|c: int|
                    0 <= c < n ==> state_scored(
                        bp@,
                        tps@,
                        candidates@,
                        prev_cells@,
                        cfg.v_max,
                        cfg.factor,
                        c,
                    ),
                forall|p2: int, c2: int|
                    0 <= p2 < m && 0 <= c2 < n && p2 < pi ==> ((
                    #[trigger] prev_cells@[p2]).candidate matches Some(pcand) ==> ((pcand.edge.id
                        == (#[trigger] candidates@[c2]).edge.id && (candidates@[c2].offset
                        > pcand.offset || pcand.offset - candidates@[c2].offset
                        < cfg.reverse_tolerance)) ==> bridge_arc_present(
                        graph_arcs(self.road_graph.graph),
                        self.road_graph.network.nodes@,
                        pcand,
                        candidates@[c2],
                    ))),
            decreases m - pi,
        {
            let mut ci: usize = 0;
            while ci < n
                invariant
                    self.wf(),
                    net0 == old(self).road_graph.network,
                    net0.wf(),
                    rt0 == old(self).road_rtree,
                    arcs0 == graph_arcs(old(self).road_graph.graph),
                    self.road_rtree == rt0,
                    arcs0.subset_of(graph_arcs(self.road_graph.graph)),
                    self.road_graph.network.edges@ == net0.edges@,
                    net0.nodes@.len() <= self.road_graph.network.nodes@.len(),
                    forall|i: int|
                        0 <= i < net0.nodes@.len() ==> self.road_graph.network.nodes@[i]
                            == net0.nodes@[i],
                    crate::model::wf_config(cfg),
                    wf_point(trj.point),
                    wf_layer_cells(prev_cells@),
                    n == candidates@.len(),
                    m == prev_cells@.len(),
                    bp@.len() == n,
                    cum@.len() == n,
                    tps@.len() == n,
                    0 <= pi < m,
                    0 <= ci <= n,
                    steps == pi * (n as int) + ci,
                    0 <= steps <= (m as int) * (n as int),
                    self.road_graph.network.nodes@.len() <= net0.nodes@.len() + 6 * steps,
                    graph_arcs(self.road_graph.graph).len() <= arcs0.len() + 3 * steps,
                    net0.nodes@.len() + 6 * ((m as int) * (n as int) + 1)
                        <= crate::MAX_GRAPH_NODES,
                    arcs0.len() + 3 * ((m as int) * (n as int) + 1) < usize::MAX,
                    forall|i: int|
                        0 <= i < candidates@.len() ==> candidate_ok(
                            #[trigger] candidates@[i],
                            net0,
                            *trj,
                            cfg.radius,
                            cfg.gps_err,
                        ),
                    forall|c: int|
                        0 <= c < n ==> state_ok(bp@, cum@, tps@, candidates@, prev_cells@, c),
                    forall|c: int|
                        0 <= c < n ==> state_scored(
                            bp@,
                            tps@,
                            candidates@,
                            prev_cells@,
                            cfg.v_max,
                            cfg.factor,
                            c,
                        ),
                    forall|p2: int, c2: int|
                        0 <= p2 < m && 0 <= c2 < n && (p2 < pi || (p2 == pi && c2 < ci)) ==> ((
                        #[trigger] prev_cells@[p2]).candidate matches Some(pcand) ==> ((
                        pcand.edge.id == (#[trigger] candidates@[c2]).edge.id && (
                        candidates@[c2].offset > pcand.offset || pcand.offset
                            - candidates@[c2].offset < cfg.reverse_tolerance))
                            ==> bridge_arc_present(
                            graph_arcs(self.road_graph.graph),
                            self.road_graph.network.nodes@,
                            pcand,
                            candidates@[c2],
                        ))),
                decreases n - ci,
            {
                proof {
                    assert(candidate_ok(candidates@[ci as int], net0, *trj, cfg.radius, cfg.gps_err));
                    assert(steps < (m as int) * (n as int)) by (nonlinear_arith)
                        requires
                            steps == pi * (n as int) + ci,
                            0 <= pi < m as int,
                            0 <= ci < n as int,
                    ;
                }
                let cand = &candidates[ci];
                let pcell = &prev_cells[pi];
                let pcand = match &pcell.candidate {
                    Some(p) => p,
                    None => {
                        proof {
                            assert(false);
                        }
                        ci = ci + 1;
                        continue ;
                    },
                };
                let ghost arcs_head = graph_arcs(self.road_graph.graph);
                let ghost nodes_head = self.road_graph.network.nodes@;
                self.add_dummy_edges(cand);
                // Shared-edge bridge: when both candidates project onto
                // the same real edge, connect the previous edge start to
                // the current virtual node so forward movement along one
                // edge stays routable; tiny backward jitter within the
                // reverse tolerance gets a tiny positive arc instead.
                let same_edge = pcand.edge.get_edge_id() == cand.edge.get_edge_id();
                let bridge_len: u64 = if same_edge {
                    if cand.offset > pcand.offset {
                        cand.offset - pcand.offset
                    } else if pcand.offset - cand.offset < cfg.reverse_tolerance {
                        1
                    } else {
                        0
                    }
                } else {
                    0
                };
                if bridge_len > 0 {
                    let bridge = Edge::new(
                        new_dummy_edge_id(),
                        pcand.edge.get_from_node(),
                        cand.dummy_node_id,
                        bridge_len,
                        bridge_len,
                        EdgeType::Dummy,
                        "dummy_edge".to_string(),
                        crate::algorithm::Line(
                            crate::network::copy_points(&pcand.edge.geometry.0),
                        ),
                    );
                    let ghost arcs_b0 = graph_arcs(self.road_graph.graph);
                    let rb = self.road_graph.update_graph(bridge);
                    proof {
                        assert(rb is Ok);
                        let (ai, ti) = choose|ai: usize, ti: usize|
                            ai < self.road_graph.network.nodes@.len() && ti
                                < self.road_graph.network.nodes@.len()
                                && self.road_graph.network.nodes@[ai as int] == bridge.from
                                && self.road_graph.network.nodes@[ti as int] == bridge.to
                                && graph_arcs(self.road_graph.graph) == arcs_b0.insert(
                                (ai, ti, bridge.length),
                            );
                        assert(graph_arcs(self.road_graph.graph).count((ai, ti, bridge_len)) > 0);
                        assert(bridge_len == bridge_weight_spec(pcand.offset, cand.offset));
                        assert(bridge_arc_present(
                            graph_arcs(self.road_graph.graph),
                            self.road_graph.network.nodes@,
                            *pcand,
                            candidates@[ci as int],
                        ));
                    }
                }
                proof {
                    // Every already-built bridge survives the growth of
                    // this iteration, and this pair's bridge (when one
                    // is owed) is now in the graph.
                    lemma_bridges_grow(
                        prev_cells@,
                        candidates@,
                        arcs_head,
                        graph_arcs(self.road_graph.graph),
                        nodes_head,
                        self.road_graph.network.nodes@,
                        cfg.reverse_tolerance,
                        pi as int,
                        ci as int,
                    );
                    if same_edge && (cand.offset > pcand.offset || pcand.offset - cand.offset
                        < cfg.reverse_tolerance) {
                        assert(bridge_len == bridge_weight_spec(pcand.offset, cand.offset));
                        assert(bridge_arc_present(
                            graph_arcs(self.road_graph.graph),
                            self.road_graph.network.nodes@,
                            *pcand,
                            candidates@[ci as int],
                        ));
                    }
                    assert(steps + 1 == pi * (n as int) + (ci + 1));
                }
                proof {
                    steps = steps + 1;
                }
                let gps_distance = crate::algorithm::eu_distance(
                    &pcand.ori_traj_point.point,
                    &cand.ori_traj_point.point,
                );
                let missing = trj.time_stamp == 0 || pcand.ori_traj_point.time_stamp == 0;
                proof {
                    let g: int = gps_distance as int;
                    let f: int = cfg.factor as int;
                    let v: int = cfg.v_max as int;
                    let dt: int = trj.time_stamp as int - pcand.ori_traj_point.time_stamp as int;
                    assert(g * f * 4 <= 12_000_000_000 * 1_000_000int * 4 && g * f * 4 >= 0)
                        by (nonlinear_arith)
                        requires
                            0 <= g <= 12_000_000_000,
                            0 <= f <= 1_000_000,
                    ;
                    let big1: int = 2_000_000_000_000_000_000_000_000_000_000;
                    let big: int = 2_000_000_000_000_000_000_000_000_000_000_000_000;
                    assert(-big1 <= dt * v <= big1 && -big <= (dt * v) * f <= big)
                        by (nonlinear_arith)
                        requires
                            -18_446_744_073_709_551_616 <= dt <= 18_446_744_073_709_551_616int,
                            0 <= v <= 100_000_000_000int,
                            0 <= f <= 1_000_000,
                            big1 == 2_000_000_000_000_000_000_000_000_000_000int,
                            big == 2_000_000_000_000_000_000_000_000_000_000_000_000int,
                    ;
                }
                let max_gps: i128 = if missing {
                    (gps_distance as i128) * (cfg.factor as i128) * 4
                } else {
                    ((trj.time_stamp as i128) - (pcand.ori_traj_point.time_stamp as i128)) * (
                    cfg.v_max as i128) * (cfg.factor as i128)
                };
                let cur_sample = cand.ori_traj_point;
                let prev_sample = pcand.ori_traj_point;
                let prev_idx = match self.road_graph.network.find_node_by_id(&pcand.dummy_node_id) {
                    Some(x) => x,
                    None => {
                        ci = ci + 1;
                        continue ;
                    },
                };
                let cur_idx = match self.road_graph.network.find_node_by_id(&cand.dummy_node_id) {
                    Some(x) => x,
                    None => {
                        ci = ci + 1;
                        continue ;
                    },
                };
                let path_cost = match self.road_graph.short_path(prev_idx, cur_idx) {
                    Ok(c) => c,
                    Err(_) => {
                        // No path: the transition is impossible.
                        ci = ci + 1;
                        continue ;
                    },
                };
                if (path_cost as i128) > max_gps {
                    // The cheapest route is too long for the elapsed
                    // time: treat the transition as impossible.
                    ci = ci + 1;
                    continue ;
                }
                if gps_distance == 0 {
                    // A zero straight-line distance gives a zero
                    // transition probability; nothing to score.
                    ci = ci + 1;
                    continue ;
                }
                let pc = match pcell.cumulative_prob {
                    Some(v) => v,
                    None => {
                        // An unreached predecessor cannot improve anyone.
                        ci = ci + 1;
                        continue ;
                    },
                };
                let tp = self.calc_tp(gps_distance, path_cost);
                let cand_cum = crate::score::add_scores(pc, cand.ep, tp);
                let improved = match cum[ci] {
                    None => true,
                    Some(cur_v) => cand_cum > cur_v,
                };
                if improved {
                    let ghost bp0 = bp@;
                    let ghost cum0 = cum@;
                    let ghost tps0 = tps@;
                    bp.set(ci, Some(pi));
                    cum.set(ci, Some(cand_cum));
                    tps.set(ci, tp);
                    proof {
                        assert forall|c: int| 0 <= c < n implies state_ok(
                            bp@,
                            cum@,
                            tps@,
                            candidates@,
                            prev_cells@,
                            c,
                        ) by {
                            if c == ci as int {
                                assert(state_ok(bp@, cum@, tps@, candidates@, prev_cells@, c));
                            } else {
                                assert(bp@[c] == bp0[c]);
                                assert(cum@[c] == cum0[c]);
                                assert(tps@[c] == tps0[c]);
                                assert(state_ok(bp0, cum0, tps0, candidates@, prev_cells@, c));
                            }
                        }
                        assert forall|c: int| 0 <= c < n implies state_scored(
                            bp@,
                            tps@,
                            candidates@,
                            prev_cells@,
                            cfg.v_max,
                            cfg.factor,
                            c,
                        ) by {
                            if c == ci as int {
                                // The recorded transition used the true
                                // straight-line distance, the exact
                                // transition formula, and a gated cost.
                                let gps = crate::algorithm::sqrt_floor(
                                    crate::algorithm::dist2(prev_sample.point, cur_sample.point),
                                );
                                assert(gps == gps_distance as int);
                                assert(tp as int == tp_log_spec(gps, path_cost as int));
                                assert((path_cost as int) <= max_gps_spec(
                                    cur_sample.time_stamp,
                                    prev_sample.time_stamp,
                                    gps,
                                    cfg.v_max,
                                    cfg.factor,
                                ));
                                assert(scored_with(
                                    prev_cells@[pi as int],
                                    candidates@[ci as int],
                                    tps@[c],
                                    path_cost,
                                    cfg.v_max,
                                    cfg.factor,
                                ));
                                assert(state_scored(
                                    bp@,
                                    tps@,
                                    candidates@,
                                    prev_cells@,
                                    cfg.v_max,
                                    cfg.factor,
                                    c,
                                ));
                            } else {
                                assert(bp@[c] == bp0[c]);
                                assert(tps@[c] == tps0[c]);
                                assert(state_scored(
                                    bp0,
                                    tps0,
                                    candidates@,
                                    prev_cells@,
                                    cfg.v_max,
                                    cfg.factor,
                                    c,
                                ));
                            }
                        }
                    }
                }
                ci = ci + 1;
            }
            proof {
                assert(steps == (pi + 1) * (n as int)) by (nonlinear_arith)
                    requires
                        steps == pi * (n as int) + n as int,
                ;
            }
            pi = pi + 1;
        }
        let mut cells: Vec<Layer> = Vec::new();
        let mut bi: usize = 0;
        while bi < n
            invariant
                0 <= bi <= n,
                n == candidates@.len(),
                n <= cfg.knn as int + 1,
                m == prev_cells@.len(),
                bp@.len() == n,
                cum@.len() == n,
                tps@.len() == n,
                cells@.len() == bi,
                crate::model::wf_config(cfg),
                forall|i: int|
                    0 <= i < candidates@.len() ==> candidate_ok(
                        #[trigger] candidates@[i],
                        net0,
                        *trj,
                        cfg.radius,
                        cfg.gps_err,
                    ),
                forall|c: int| 0 <= c < n ==> state_ok(bp@, cum@, tps@, candidates@, prev_cells@, c),
                forall|c: int|
                    0 <= c < n ==> state_scored(
                        bp@,
                        tps@,
                        candidates@,
                        prev_cells@,
                        cfg.v_max,
                        cfg.factor,
                        c,
                    ),
                forall|j: int|
                    0 <= j < cells@.len() ==> wf_cell(#[trigger] cells@[j], prev_cells@) && (
                    cells@[j].candidate matches Some(c) ==> wf_candidate(&c)) && (
                    cells@[j].candidate matches Some(c2) && crate::model::candidate_eq(
                        &c2,
                        &candidates@[j],
                    )) && cell_scored(cells@[j], prev_cells@, cfg.v_max, cfg.factor),
                cells_of_sample(cells@, net0, *trj, cfg.radius, cfg.gps_err),
            decreases n - bi,
        {
            proof {
                assert(state_ok(bp@, cum@, tps@, candidates@, prev_cells@, bi as int));
                assert(state_scored(
                    bp@,
                    tps@,
                    candidates@,
                    prev_cells@,
                    cfg.v_max,
                    cfg.factor,
                    bi as int,
                ));
                assert(candidate_ok(candidates@[bi as int], net0, *trj, cfg.radius, cfg.gps_err));
            }
            let dup = candidates[bi].duplicate();
            proof {
                lemma_candidate_ok_eq(
                    candidates@[bi as int],
                    dup,
                    net0,
                    *trj,
                    cfg.radius,
                    cfg.gps_err,
                );
            }
            let cell = Layer {
                candidate: Some(dup),
                prev_layer: bp[bi],
                cumulative_prob: cum[bi],
                tp: tps[bi],
            };
            proof {
                if cell.prev_layer is Some {
                    let pidx = cell.prev_layer->Some_0 as int;
                    let pc0 = choose|pc: u64|
                        scored_with(
                            prev_cells@[pidx],
                            candidates@[bi as int],
                            tps@[bi as int],
                            pc,
                            cfg.v_max,
                            cfg.factor,
                        );
                    assert(scored_with(
                        prev_cells@[pidx],
                        candidates@[bi as int],
                        tps@[bi as int],
                        pc0,
                        cfg.v_max,
                        cfg.factor,
                    ));
                    assert(dup.ori_traj_point == candidates@[bi as int].ori_traj_point);
                    assert(cell.tp == tps@[bi as int]);
                    assert(scored_with(
                        prev_cells@[pidx],
                        dup,
                        cell.tp,
                        pc0,
                        cfg.v_max,
                        cfg.factor,
                    ));
                    assert(cell.candidate->Some_0 == dup);
                    assert(cell.prev_layer->Some_0 as int == pidx);
                    assert(0 <= pidx < prev_cells@.len() && prev_cells@[pidx].candidate is Some);
                    assert(exists|pc: u64|
                        scored_with(
                            prev_cells@[cell.prev_layer->Some_0 as int],
                            cell.candidate->Some_0,
                            cell.tp,
                            pc,
                            cfg.v_max,
                            cfg.factor,
                        ));
                    assert(cell_scored(cell, prev_cells@, cfg.v_max, cfg.factor));
                }
            }
            cells.push(cell);
            bi = bi + 1;
        }
        cells
    }

    /// The candidate of the cell with the highest cumulative score; the
    /// earliest such cell wins ties.  `None` when the layer is empty or
    /// no cell has been reached.
    pub fn max_prob_candidate(layers: &Vec<Layer>) -> (r: Option<Candidate>)
        requires
            wf_layer_cells(layers@),
        ensures
            r matches Some(c) ==> exists|j: int|
                0 <= j < layers@.len() && (#[trigger] layers@[j].cumulative_prob) is Some && (
                forall|i: int|
                    0 <= i < layers@.len() ==> score_val(#[trigger] layers@[i].cumulative_prob)
                        <= score_val(layers@[j].cumulative_prob)) && (layers@[j].candidate matches Some(
                    c0,
                ) && crate::model::candidate_eq(&c, &c0)),
            r is None ==> forall|j: int|
                0 <= j < layers@.len() ==> (#[trigger] layers@[j].cumulative_prob) is None,
    {
        let mut best: Option<usize> = None;
        let mut bscore: Option<i64> = None;
        let mut j: usize = 0;
        while j < layers.len()
            invariant
                wf_layer_cells(layers@),
                0 <= j <= layers@.len(),
                best matches Some(b) ==> 0 <= (b as int) < j && layers@[b as int].cumulative_prob
                    == bscore && bscore is Some,
                best is None ==> bscore is None,
                forall|i: int|
                    0 <= i < j ==> score_val(#[trigger] layers@[i].cumulative_prob) <= score_val(
                        bscore,
                    ),
                best is None ==> forall|i: int|
                    0 <= i < j ==> (#[trigger] layers@[i].cumulative_prob) is None,
            decreases layers@.len() - j,
        {
            if crate::model::score_gt(&layers[j].cumulative_prob, &bscore) {
                bscore = match &layers[j].cumulative_prob {
                    Some(v) => Some(*v),
                    None => None,
                };
                best = Some(j);
            }
            j = j + 1;
        }
        match best {
            None => None,
            Some(b) => match &layers[b].candidate {
                Some(c) => Some(c.duplicate()),
                None => None,
            },
        }
    }
}

/// Is `c` a field-for-field copy of a candidate some cell holds?
pub open spec fn copied_from_layer(cells: Seq<Layer>, c: Candidate) -> bool {
    exists|jj: int|
        0 <= jj < cells.len() && ((#[trigger] cells[jj]).candidate matches Some(c0)
            && crate::model::candidate_eq(&c, &c0))
}

/// Is `j` the walk's choice for a layer: `None` exactly on an empty
/// layer, otherwise an index of a cell whose cumulative score no cell
/// of the layer exceeds?
pub open spec fn is_argmax(cells: Seq<Layer>, j: Option<usize>) -> bool {
    match j {
        Option::None => cells.len() == 0,
        Option::Some(ji) => (ji as int) < cells.len() && forall|i: int|
            0 <= i < cells.len() ==> score_val((#[trigger] cells[i]).cumulative_prob) <= score_val(
                cells[ji as int].cumulative_prob,
            ),
    }
}

/// The back-pointer of a picked cell, if a cell was picked.
pub open spec fn pick_bp(ls: Seq<Vec<Layer>>, t: int, pick: Option<usize>) -> Option<usize> {
    match pick {
        Option::None => Option::None,
        Option::Some(j) => ls[t]@[j as int].prev_layer,
    }
}

/// How the pick of layer `t` follows from the pick of layer `t + 1`:
/// a set back-pointer dictates it; on a missing pointer (or an empty
/// layer above) the walk re-anchors at layer `t`'s best cell.
pub open spec fn backtrack_link(ls: Seq<Vec<Layer>>, picks: Seq<Option<usize>>, t: int) -> bool {
    match pick_bp(ls, t + 1, picks[t + 1]) {
        Option::Some(p) => picks[t] == Some(p),
        Option::None => is_argmax(ls[t]@, picks[t]),
    }
}

/// The walk back-tracking performs, described by the cell it picks in
/// each layer: the last layer's best cell, then back-pointers, with
/// re-anchoring at a layer's best cell where no pointer is set.
pub open spec fn backtrack_picks_ok(ls: Seq<Vec<Layer>>, picks: Seq<Option<usize>>) -> bool {
    &&& picks.len() == ls.len()
    &&& forall|t: int|
        0 <= t < ls.len() ==> ((#[trigger] picks[t]) is None <==> ls[t]@.len() == 0)
    &&& forall|t: int|
        0 <= t < ls.len() ==> ((#[trigger] picks[t]) matches Some(j) ==> (j as int)
            < ls[t]@.len())
    &&& (ls.len() > 0 ==> is_argmax(ls[ls.len() - 1]@, picks[ls.len() - 1]))
    &&& forall|t: int| 0 <= t < ls.len() - 1 ==> #[trigger] backtrack_link(ls, picks, t)
}

/// The outputs of the walk: for every picked cell, the emitted edge id
/// and matched candidate are that cell's candidate.
pub open spec fn backtrack_outputs_ok(
    ls: Seq<Vec<Layer>>,
    picks: Seq<Option<usize>>,
    opath: Seq<Option<u64>>,
    matched: Seq<Option<Candidate>>,
) -> bool {
    forall|t: int|
        0 <= t < ls.len() ==> ((#[trigger] picks[t]) matches Some(j) ==> (
        ls[t]@[j as int].candidate matches Some(c0) && matched[t] matches Some(c)
            && crate::model::candidate_eq(&c, &c0) && opath[t] == Some(c0.edge.id)))
}

/// The reversed-index form of `backtrack_link`, as the walk maintains
/// it while it runs from the last layer down.
spec fn backtrack_link_rev(
    ls: Seq<Vec<Layer>>,
    pr: Seq<Option<usize>>,
    n: int,
    i: int,
) -> bool {
    match pick_bp(ls, n - i, pr[i - 1]) {
        Option::Some(p) => pr[i] == Some(p),
        Option::None => is_argmax(ls[n - 1 - i]@, pr[i]),
    }
}

/// Index of the cell with the highest cumulative score, the last such
/// cell on ties; `None` only for an empty layer.
fn argmax_cell(cells: &Vec<Layer>) -> (r: Option<usize>)
    ensures
        (cells@.len() == 0) <==> (r is None),
        r matches Some(j) ==> (j as int) < cells@.len() && forall|i: int|
            0 <= i < cells@.len() ==> score_val((#[trigger] cells@[i]).cumulative_prob)
                <= score_val(cells@[j as int].cumulative_prob),
{
    if cells.len() == 0 {
        return None;
    }
    let mut best: usize = 0;
    let mut i: usize = 1;
    while i < cells.len()
        invariant
            0 <= best < i <= cells@.len(),
            forall|k: int|
                0 <= k < i ==> score_val((#[trigger] cells@[k]).cumulative_prob) <= score_val(
                    cells@[best as int].cumulative_prob,
                ),
        decreases cells@.len() - i,
    {
        if !crate::model::score_gt(&cells[best].cumulative_prob, &cells[i].cumulative_prob) {
            best = i;
        }
        i = i + 1;
    }
    Some(best)
}

impl MMatch {
    /// Walks the lattice backwards: from the best cell of the last
    /// layer, follow back-pointers; where a layer gives no pointer,
    /// re-anchor at that layer's best cell; an empty layer emits the
    /// "unmatched" sentinel.  The output is ordered like the samples.
    fn back_tracking(&self, layer_lists: &Vec<Vec<Layer>>) -> (r: MMResult)
        requires
            wf_lattice(layer_lists@),
        ensures
            r.o_path@.len() == layer_lists@.len(),
            r.matched_candidates@.len() == layer_lists@.len(),
            forall|t: int|
                0 <= t < layer_lists@.len() ==> ((#[trigger] layer_lists@[t])@.len() == 0 <==> r.o_path@[t]
                    is None),
            forall|t: int|
                0 <= t < layer_lists@.len() ==> ((#[trigger] r.o_path@[t]) is Some
                    <==> r.matched_candidates@[t] is Some),
            forall|t: int|
                0 <= t < layer_lists@.len() ==> ((#[trigger] r.matched_candidates@[t]) matches Some(
                c,
                ) ==> r.o_path@[t] == Some(c.edge.id)),
            forall|t: int|
                0 <= t < layer_lists@.len() ==> ((#[trigger] r.matched_candidates@[t]) matches Some(
                c,
                ) ==> copied_from_layer(layer_lists@[t]@, c)),
            exists|picks: Seq<Option<usize>>|
                #[trigger] backtrack_picks_ok(layer_lists@, picks) && backtrack_outputs_ok(
                    layer_lists@,
                    picks,
                    r.o_path@,
                    r.matched_candidates@,
                ),
    {
        let n = layer_lists.len();
        let mut orev: Vec<Option<u64>> = Vec::new();
        let mut mrev: Vec<Option<Candidate>> = Vec::new();
        let mut ptr: Option<usize> = None;
        let ghost mut picks_rev: Seq<Option<usize>> = Seq::empty();
        let mut tt: usize = 0;
        while tt < n
            invariant
                n == layer_lists@.len(),
                wf_lattice(layer_lists@),
                0 <= tt <= n,
                orev@.len() == tt,
                mrev@.len() == tt,
                ptr matches Some(p) ==> tt < n && (p as int) < layer_lists@[n - 1 - tt as int]@.len(),
                forall|i: int|
                    0 <= i < tt ==> ((#[trigger] layer_lists@[n - 1 - i])@.len() == 0 <==> orev@[i]
                        is None),
                forall|i: int|
                    0 <= i < tt ==> ((#[trigger] orev@[i]) is Some <==> mrev@[i] is Some),
                forall|i: int|
                    0 <= i < tt ==> ((#[trigger] mrev@[i]) matches Some(c) ==> orev@[i] == Some(
                    c.edge.id,
                    )),
                forall|i: int|
                    0 <= i < tt ==> ((#[trigger] mrev@[i]) matches Some(c) ==> copied_from_layer(
                    layer_lists@[n - 1 - i]@,
                    c,
                    )),
                picks_rev.len() == tt,
                tt == 0 ==> ptr is None,
                tt > 0 ==> ptr == pick_bp(layer_lists@, n - tt as int, picks_rev[tt - 1]),
                forall|i: int|
                    0 <= i < tt ==> ((#[trigger] picks_rev[i]) is None <==> layer_lists@[n - 1
                        - i]@.len() == 0),
                forall|i: int|
                    0 <= i < tt ==> ((#[trigger] picks_rev[i]) matches Some(j) ==> (j as int)
                        < layer_lists@[n - 1 - i]@.len()),
                tt > 0 ==> is_argmax(layer_lists@[n - 1]@, picks_rev[0]),
                forall|i: int|
                    1 <= i < tt ==> #[trigger] backtrack_link_rev(
                        layer_lists@,
                        picks_rev,
                        n as int,
                        i,
                    ),
                forall|i: int|
                    0 <= i < tt ==> ((#[trigger] picks_rev[i]) matches Some(j) ==> (layer_lists@[n
                        - 1 - i]@[j as int].candidate matches Some(c0) && mrev@[i] matches Some(c)
                        && crate::model::candidate_eq(&c, &c0) && orev@[i] == Some(c0.edge.id))),
            decreases n - tt,
        {
            let t = n - 1 - tt;
            let cells = &layer_lists[t];
            let ghost ptr0 = ptr;
            let ghost picks_rev0 = picks_rev;
            let pick: Option<usize> = match ptr {
                Some(p) => Some(p),
                None => argmax_cell(cells),
            };
            proof {
                picks_rev = picks_rev.push(pick);
                assert(picks_rev[tt as int] == pick);
                assert(forall|i: int| 0 <= i < tt ==> picks_rev[i] == #[trigger] picks_rev0[i]);
                if ptr0 is None {
                    assert(is_argmax(cells@, pick));
                }
                if tt > 0 {
                    assert(backtrack_link_rev(layer_lists@, picks_rev, n as int, tt as int)) by {
                        assert(pick_bp(layer_lists@, n - tt as int, picks_rev[tt - 1]) == ptr0);
                    }
                    assert forall|i: int|
                        1 <= i < tt + 1 implies #[trigger] backtrack_link_rev(
                        layer_lists@,
                        picks_rev,
                        n as int,
                        i,
                    ) by {
                        if i < tt {
                            assert(backtrack_link_rev(layer_lists@, picks_rev0, n as int, i));
                        }
                    }
                }
            }
            match pick {
                None => {
                    orev.push(None);
                    mrev.push(None);
                    ptr = None;
                },
                Some(j) => {
                    proof {
                        assert(wf_cell(
                            layer_lists@[t as int]@[j as int],
                            if t == 0 {
                                Seq::<Layer>::empty()
                            } else {
                                layer_lists@[t as int - 1]@
                            },
                        ));
                    }
                    let cell = &cells[j];
                    match &cell.candidate {
                        Some(c) => {
                            orev.push(Some(c.edge.id));
                            let dup = c.duplicate();
                            proof {
                                assert(layer_lists@[t as int]@[j as int].candidate matches Some(c0)
                                    && crate::model::candidate_eq(&dup, &c0));
                                assert(copied_from_layer(layer_lists@[t as int]@, dup));
                            }
                            mrev.push(Some(dup));
                        },
                        None => {
                            proof {
                                assert(false);
                            }
                            orev.push(None);
                            mrev.push(None);
                        },
                    }
                    ptr = cell.prev_layer;
                },
            }
            tt = tt + 1;
        }
        // The collected entries run from the last sample to the first:
        // reverse them into sample order.
        let ghost orev0 = orev@;
        let ghost mrev0 = mrev@;
        let mut o_path: Vec<Option<u64>> = Vec::new();
        let mut matched: Vec<Option<Candidate>> = Vec::new();
        let mut ri: usize = 0;
        while ri < n
            invariant
                n == orev0.len(),
                orev@ == orev0,
                0 <= ri <= n,
                o_path@.len() == ri,
                forall|i: int| 0 <= i < ri ==> #[trigger] o_path@[i] == orev0[n - 1 - i],
            decreases n - ri,
        {
            o_path.push(orev[n - 1 - ri]);
            ri = ri + 1;
        }
        while mrev.len() > 0
            invariant
                n == mrev0.len(),
                matched@.len() + mrev@.len() == n,
                mrev@ == mrev0.subrange(0, mrev@.len() as int),
                forall|i: int| 0 <= i < matched@.len() ==> #[trigger] matched@[i] == mrev0[n - 1
                    - i],
            decreases mrev@.len(),
        {
            let ghost mlen = mrev@.len() as int;
            match mrev.pop() {
                Some(x) => {
                    matched.push(x);
                },
                None => {
                    proof {
                        assert(false);
                    }
                },
            }
            proof {
                assert(mrev@ =~= mrev0.subrange(0, mlen - 1));
            }
        }
        proof {
            assert forall|t: int|
                0 <= t < n implies ((#[trigger] layer_lists@[t])@.len() == 0 <==> o_path@[t]
                is None) by {
                let i = n - 1 - t;
                assert(o_path@[t] == orev0[n - 1 - t]);
                assert((layer_lists@[n - 1 - i])@.len() == 0 <==> orev0[i] is None);
            }
            assert forall|t: int|
                0 <= t < n implies (#[trigger] o_path@[t] is Some <==> matched@[t] is Some) && (
            matched@[t] matches Some(c) ==> o_path@[t] == Some(c.edge.id)) && (
            matched@[t] matches Some(c) ==> copied_from_layer(layer_lists@[t]@, c)) by {
                let i = n - 1 - t;
                assert(o_path@[t] == orev0[n - 1 - t]);
                assert(matched@[t] == mrev0[n - 1 - t]);
                assert(orev0[i] is Some <==> mrev0[i] is Some);
                assert(mrev0[i] matches Some(c) ==> orev0[i] == Some(c.edge.id));
                assert(mrev0[i] matches Some(c) ==> copied_from_layer(layer_lists@[n - 1 - i]@, c));
            }
        }
        let ghost picks = Seq::new(n as nat, |t: int| picks_rev[n - 1 - t]);
        proof {
            assert forall|t: int|
                0 <= t < n implies ((#[trigger] picks[t]) is None <==> layer_lists@[t]@.len()
                == 0) && (picks[t] matches Some(j) ==> (j as int) < layer_lists@[t]@.len()) by {
                let i = n - 1 - t;
                assert(picks[t] == picks_rev[i]);
                assert(picks_rev[i] is None <==> layer_lists@[n - 1 - i]@.len() == 0);
                assert(picks_rev[i] matches Some(j) ==> (j as int) < layer_lists@[n - 1
                    - i]@.len());
            }
            if n > 0 {
                assert(picks[n - 1] == picks_rev[0]);
                assert(is_argmax(layer_lists@[n - 1]@, picks[n - 1]));
            }
            assert forall|t: int|
                0 <= t < n - 1 implies #[trigger] backtrack_link(layer_lists@, picks, t) by {
                let i = n - 1 - t;
                assert(backtrack_link_rev(layer_lists@, picks_rev, n as int, i));
                assert(picks[t] == picks_rev[i]);
                assert(picks[t + 1] == picks_rev[i - 1]);
            }
            assert(backtrack_picks_ok(layer_lists@, picks));
            assert forall|t: int|
                0 <= t < n implies ((#[trigger] picks[t]) matches Some(j) ==> (
            layer_lists@[t]@[j as int].candidate matches Some(c0) && matched@[t] matches Some(c)
                && crate::model::candidate_eq(&c, &c0) && o_path@[t] == Some(c0.edge.id))) by {
                let i = n - 1 - t;
                assert(picks[t] == picks_rev[i]);
                assert(matched@[t] == mrev0[n - 1 - t]);
                assert(o_path@[t] == orev0[n - 1 - t]);
                assert(picks_rev[i] matches Some(j) ==> (layer_lists@[n - 1
                    - i]@[j as int].candidate matches Some(c0) && mrev0[i] matches Some(c)
                    && crate::model::candidate_eq(&c, &c0) && orev0[i] == Some(c0.edge.id)));
            }
        }
        let result = MMResult { o_path, matched_candidates: matched };
        proof {
            assert(backtrack_outputs_ok(
                layer_lists@,
                picks,
                result.o_path@,
                result.matched_candidates@,
            ));
            assert(exists|pk: Seq<Option<usize>>|
                #[trigger] backtrack_picks_ok(layer_lists@, pk) && backtrack_outputs_ok(
                    layer_lists@,
                    pk,
                    result.o_path@,
                    result.matched_candidates@,
                ));
        }
        result
    }

    /// Matches one trajectory: builds the Viterbi lattice sample by
    /// sample, then back-tracks the most likely edge sequence.  The
    /// result holds one entry per sample.  An empty trajectory is
    /// rejected with `InvalidInput`; `Internal` can only arise when a
    /// graph capacity bound is crossed.
    pub fn match_traj(&mut self, traj: &Trajectory, cfg: &Config) -> (r: Result<MMResult, MMError>)
        requires
            old(self).wf(),
            crate::model::wf_config(cfg),
            forall|i: int| 0 <= i < traj@.len() ==> wf_point((#[trigger] traj@[i]).point),
        ensures
            final(self).wf(),
            final(self).road_rtree == old(self).road_rtree,
            final(self).road_graph.network.edges@ == old(self).road_graph.network.edges@,
            old(self).road_graph.network.nodes@.len() <= final(self).road_graph.network.nodes@.len(),
            forall|i: int|
                0 <= i < old(self).road_graph.network.nodes@.len() ==> final(self).road_graph.network.nodes@[i] == old(self).road_graph.network.nodes@[i],
            graph_arcs(old(self).road_graph.graph).subset_of(
                graph_arcs(final(self).road_graph.graph),
            ),
            traj@.len() == 0 <==> r is Err,
            r is Err ==> r == Err::<MMResult, MMError>(MMError::InvalidInput) && *final(self)
                == *old(self),
            r matches Ok(res) ==> {
                &&& res.o_path@.len() == traj@.len()
                &&& res.matched_candidates@.len() == traj@.len()
                &&& forall|t: int|
                    0 <= t < traj@.len() ==> ((#[trigger] res.o_path@[t]) is Some
                        <==> res.matched_candidates@[t] is Some)
                &&& forall|t: int|
                    0 <= t < traj@.len() ==> ((#[trigger] res.matched_candidates@[t]) matches Some(
                    c,
                    ) ==> res.o_path@[t] == Some(c.edge.id))
                &&& forall|t: int|
                    0 <= t < traj@.len() ==> ((#[trigger] res.matched_candidates@[t]) matches Some(
                    c,
                    ) ==> candidate_ok(
                        c,
                        old(self).road_graph.network,
                        traj@[t],
                        cfg.radius,
                        cfg.gps_err,
                    ))
                &&& forall|t: int|
                    0 <= t < traj@.len() ==> ((#[trigger] res.o_path@[t]) is Some
                        ==> sample_has_candidate(
                        old(self).road_rtree,
                        old(self).road_graph.network.edges@,
                        traj@[t].point,
                        cfg.radius,
                    ))
                &&& ((cfg.knn >= 1 && old(self).road_graph.network.nodes@.len() + 6 * ((
                cfg.knn as int + 1) * (cfg.knn as int + 1) + 1) * (traj@.len() + 1)
                    <= crate::MAX_GRAPH_NODES && graph_arcs(old(self).road_graph.graph).len() + 3
                    * ((cfg.knn as int + 1) * (cfg.knn as int + 1) + 1) * (traj@.len() + 1)
                    < usize::MAX) ==> forall|t: int|
                    0 <= t < traj@.len() ==> ((#[trigger] res.o_path@[t]) is Some
                        <==> sample_has_candidate(
                        old(self).road_rtree,
                        old(self).road_graph.network.edges@,
                        traj@[t].point,
                        cfg.radius,
                    )))
            },
    {
        if traj.len() == 0 {
            return Err(MMError::InvalidInput);
        }
        let ghost net0 = self.road_graph.network;
        let ghost rt0 = self.road_rtree;
        let ghost arcs0 = graph_arcs(self.road_graph.graph);
        let ghost kk: int = cfg.knn as int + 1;
        let ghost bnd: int = 6 * (kk * kk + 1);
        let ghost bnd2: int = 3 * (kk * kk + 1);
        let ghost cap_ok: bool = net0.nodes@.len() + bnd * (traj@.len() + 1)
            <= crate::MAX_GRAPH_NODES && arcs0.len() + bnd2 * (traj@.len() + 1) < usize::MAX;
        let mut layer_lists: Vec<Vec<Layer>> = Vec::new();
        let c0 = self.query_candidate(&traj[0], cfg.radius, cfg.knn, cfg.gps_err, None);
        let roomy0 = (self.road_graph.network.nodes.len() as u64) + 4 * (c0.len() as u64) + 4
            <= (crate::MAX_GRAPH_NODES as u64) && (self.road_graph.arc_count() as u128) + 2 * (
        c0.len() as u128) + 4 < (usize::MAX as u128);
        proof {
            if cap_ok && cfg.knn >= 1 {
                assert(4 * c0@.len() + 4 <= bnd && 2 * c0@.len() + 4 <= bnd2) by (nonlinear_arith)
                    requires
                        0 <= c0@.len() <= kk,
                        1 <= kk,
                        bnd == 6 * (kk * kk + 1),
                        bnd2 == 3 * (kk * kk + 1),
                ;
                assert(bnd * 1 <= bnd * (traj@.len() + 1) && bnd2 * 1 <= bnd2 * (traj@.len()
                    + 1)) by (nonlinear_arith)
                    requires
                        1 <= traj@.len() + 1,
                        0 <= bnd,
                        0 <= bnd2,
                ;
                assert(roomy0);
            }
        }
        let first = if roomy0 {
            self.init_layer(&c0, &traj[0], cfg)
        } else {
            Vec::new()
        };
        layer_lists.push(first);
        proof {
            if cap_ok {
                assert(4 * c0@.len() <= bnd * 1) by (nonlinear_arith)
                    requires
                        0 <= c0@.len() <= kk,
                        1 <= kk,
                        bnd == 6 * (kk * kk + 1),
                ;
                assert(2 * c0@.len() <= bnd2 * 1) by (nonlinear_arith)
                    requires
                        0 <= c0@.len() <= kk,
                        1 <= kk,
                        bnd2 == 3 * (kk * kk + 1),
                ;
            }
        }
        let mut t: usize = 1;
        while t < traj.len()
            invariant
                self.wf(),
                net0 == old(self).road_graph.network,
                rt0 == old(self).road_rtree,
                arcs0 == graph_arcs(old(self).road_graph.graph),
                self.road_rtree == rt0,
                arcs0.subset_of(graph_arcs(self.road_graph.graph)),
                self.road_graph.network.edges@ == net0.edges@,
                net0.nodes@.len() <= self.road_graph.network.nodes@.len(),
                forall|i: int|
                    0 <= i < net0.nodes@.len() ==> self.road_graph.network.nodes@[i]
                        == net0.nodes@[i],
                crate::model::wf_config(cfg),
                forall|i: int| 0 <= i < traj@.len() ==> wf_point((#[trigger] traj@[i]).point),
                1 <= t <= traj@.len(),
                layer_lists@.len() == t,
                kk == cfg.knn as int + 1,
                bnd == 6 * (kk * kk + 1),
                bnd2 == 3 * (kk * kk + 1),
                cap_ok == (net0.nodes@.len() + bnd * (traj@.len() + 1) <= crate::MAX_GRAPH_NODES
                    && arcs0.len() + bnd2 * (traj@.len() + 1) < usize::MAX),
                cap_ok ==> self.road_graph.network.nodes@.len() <= net0.nodes@.len() + bnd * (
                t as int),
                cap_ok ==> graph_arcs(self.road_graph.graph).len() <= arcs0.len() + bnd2 * (
                t as int),
                wf_lattice(layer_lists@),
                forall|tt: int|
                    0 <= tt < layer_lists@.len() ==> wf_layer_cells((#[trigger] layer_lists@[tt])@),
                forall|tt: int|
                    0 <= tt < layer_lists@.len() ==> (#[trigger] layer_lists@[tt])@.len() <= kk,
                forall|tt: int|
                    0 <= tt < layer_lists@.len() ==> cells_of_sample(
                        (#[trigger] layer_lists@[tt])@,
                        net0,
                        traj@[tt],
                        cfg.radius,
                        cfg.gps_err,
                    ),
                forall|tt: int|
                    0 <= tt < layer_lists@.len() ==> ((#[trigger] layer_lists@[tt])@.len() > 0
                        ==> sample_has_candidate(rt0, net0.edges@, traj@[tt].point, cfg.radius)),
                cfg.knn >= 1 && cap_ok ==> forall|tt: int|
                    0 <= tt < layer_lists@.len() ==> ((#[trigger] layer_lists@[tt])@.len() > 0
                        <==> sample_has_candidate(rt0, net0.edges@, traj@[tt].point, cfg.radius)),
            decreases traj@.len() - t,
        {
            let prev_best = Self::max_prob_candidate(&layer_lists[t - 1]);
            let pb_ref: Option<&Candidate> = match &prev_best {
                Some(c) => Some(c),
                None => None,
            };
            let cands_t = self.query_candidate(&traj[t], cfg.radius, cfg.knn, cfg.gps_err, pb_ref);
            let pl = layer_lists[t - 1].len();
            let nl = cands_t.len();
            proof {
                assert(layer_lists@[t as int - 1]@.len() <= kk);
                assert((pl as int) * (nl as int) <= 65536 * 65536int && 0 <= (pl as int) * (
                nl as int)) by (nonlinear_arith)
                    requires
                        0 <= pl as int <= 65536,
                        0 <= nl as int <= 65536,
                ;
            }
            let roomy = (self.road_graph.network.nodes.len() as u64) + 6 * ((pl as u64) * (
            nl as u64) + 1) <= (crate::MAX_GRAPH_NODES as u64) && (self.road_graph.arc_count()
                as u128) + 3 * ((pl as u128) * (nl as u128) + 1) < (usize::MAX as u128);
            proof {
                assert((pl as int) * (nl as int) + 1 <= kk * kk + 1) by (nonlinear_arith)
                    requires
                        0 <= pl as int <= kk,
                        0 <= nl as int <= kk,
                ;
                if cap_ok {
                    assert(bnd * (t as int) + bnd <= bnd * (traj@.len() + 1) && bnd2 * (t as int)
                        + bnd2 <= bnd2 * (traj@.len() + 1)) by (nonlinear_arith)
                        requires
                            t as int + 1 <= traj@.len() + 1,
                            0 <= bnd,
                            0 <= bnd2,
                    ;
                    assert(6 * ((pl as int) * (nl as int) + 1) <= bnd && 3 * ((pl as int) * (
                    nl as int) + 1) <= bnd2) by (nonlinear_arith)
                        requires
                            0 <= (pl as int) * (nl as int) + 1 <= kk * kk + 1,
                            bnd == 6 * (kk * kk + 1),
                            bnd2 == 3 * (kk * kk + 1),
                    ;
                    assert(roomy);
                }
            }
            let ghost lists0 = layer_lists@;
            let ghost pre_net = self.road_graph.network;
            let cells = if roomy {
                self.next_layer(&layer_lists[t - 1], &cands_t, &traj[t], cfg)
            } else {
                Vec::new()
            };
            layer_lists.push(cells);
            proof {
                if cap_ok {
                    assert(bnd2 * (t as int) + 3 * ((pl as int) * (nl as int) + 1) <= bnd2 * (
                    t as int + 1) && bnd * (t as int) + 6 * ((pl as int) * (nl as int) + 1) <= bnd
                        * (t as int + 1)) by (nonlinear_arith)
                        requires
                            0 <= (pl as int) * (nl as int) + 1 <= kk * kk + 1,
                            bnd == 6 * (kk * kk + 1),
                            bnd2 == 3 * (kk * kk + 1),
                    ;
                }
                let ghost newcells = layer_lists@[t as int]@;
                assert forall|j: int|
                    0 <= j < newcells.len() implies ((#[trigger] newcells[j]).candidate matches Some(
                    c,
                ) ==> candidate_ok(c, net0, traj@[t as int], cfg.radius, cfg.gps_err)) by {
                    match newcells[j].candidate {
                        Option::Some(c) => {
                            assert(candidate_ok(c, pre_net, traj@[t as int], cfg.radius, cfg.gps_err));
                            lemma_candidate_ok_same_edges(
                                c,
                                pre_net,
                                net0,
                                traj@[t as int],
                                cfg.radius,
                                cfg.gps_err,
                            );
                        },
                        Option::None => {},
                    }
                }
                assert forall|t2: int, j: int|
                    0 <= t2 < layer_lists@.len() && 0 <= j < layer_lists@[t2]@.len() implies wf_cell(
                    #[trigger] layer_lists@[t2]@[j],
                    if t2 == 0 {
                        Seq::<Layer>::empty()
                    } else {
                        layer_lists@[t2 - 1]@
                    },
                ) by {
                    if t2 < lists0.len() {
                        assert(layer_lists@[t2] == lists0[t2]);
                        if t2 > 0 {
                            assert(layer_lists@[t2 - 1] == lists0[t2 - 1]);
                        }
                        assert(wf_cell(
                            lists0[t2]@[j],
                            if t2 == 0 {
                                Seq::<Layer>::empty()
                            } else {
                                lists0[t2 - 1]@
                            },
                        ));
                    } else {
                        assert(layer_lists@[t2 - 1] == lists0[t2 - 1]);
                    }
                }
            }
            t = t + 1;
        }
        let res = self.back_tracking(&layer_lists);
        proof {
            if cfg.knn >= 1 && cap_ok {
                assert forall|t2: int|
                    0 <= t2 < traj@.len() implies ((#[trigger] res.o_path@[t2]) is Some
                    <==> sample_has_candidate(rt0, net0.edges@, traj@[t2].point, cfg.radius)) by {
                    assert(layer_lists@[t2]@.len() == 0 <==> res.o_path@[t2] is None);
                    assert(layer_lists@[t2]@.len() > 0 <==> sample_has_candidate(
                        rt0,
                        net0.edges@,
                        traj@[t2].point,
                        cfg.radius,
                    ));
                }
            }
            assert forall|t2: int|
                0 <= t2 < traj@.len() implies ((#[trigger] res.o_path@[t2]) is Some
                ==> sample_has_candidate(rt0, net0.edges@, traj@[t2].point, cfg.radius)) by {
                assert(layer_lists@[t2]@.len() == 0 <==> res.o_path@[t2] is None);
            }
            assert forall|t2: int|
                0 <= t2 < traj@.len() implies ((#[trigger] res.matched_candidates@[t2]) matches Some(
                c,
            ) ==> candidate_ok(c, net0, traj@[t2], cfg.radius, cfg.gps_err)) by {
                match res.matched_candidates@[t2] {
                    Option::Some(c) => {
                        assert(copied_from_layer(layer_lists@[t2]@, c));
                        let ghost cellst = layer_lists@[t2]@;
                        let jj = choose|jj: int|
                            0 <= jj < cellst.len() && ((#[trigger] cellst[jj]).candidate matches Some(
                            c0,
                        ) && crate::model::candidate_eq(&c, &c0));
                        match cellst[jj].candidate {
                            Option::Some(c0) => {
                                assert(candidate_ok(c0, net0, traj@[t2], cfg.radius, cfg.gps_err));
                                lemma_candidate_ok_eq(
                                    c0,
                                    c,
                                    net0,
                                    traj@[t2],
                                    cfg.radius,
                                    cfg.gps_err,
                                );
                            },
                            Option::None => {},
                        }
                    },
                    Option::None => {},
                }
            }
        }
        Ok(res)
    }
}

/// The speed gate of one transition: how far the vehicle may have
/// travelled between the two samples.  A zero timestamp counts as
/// missing and falls back to a multiple of the straight-line distance.
pub open spec fn max_gps_spec(
    cur_ts: u64,
    prev_ts: u64,
    gps: int,
    v_max: u64,
    factor: u64,
) -> int {
    if cur_ts == 0 || prev_ts == 0 {
        gps * factor * 4
    } else {
        (cur_ts - prev_ts) * v_max * factor
    }
}

/// Provenance of a scored cell: its recorded transition weight comes
/// from an admissible transition record against its chosen
/// predecessor.
pub open spec fn cell_scored(cell: Layer, prev: Seq<Layer>, v_max: u64, factor: u64) -> bool {
    cell.prev_layer matches Some(p) ==> {
        &&& 0 <= (p as int) < prev.len()
        &&& prev[p as int].candidate is Some
        &&& cell.candidate is Some
        &&& exists|pc: u64|
            #[trigger] scored_with(
                prev[p as int],
                cell.candidate->Some_0,
                cell.tp,
                pc,
                v_max,
                factor,
            )
    }
}

/// The weight of a shared-edge bridge arc: the forward gap between the
/// two projections, or the tiny positive override for tolerated
/// backward jitter.
pub open spec fn bridge_weight_spec(prev_offset: u64, cur_offset: u64) -> u64 {
    if cur_offset > prev_offset {
        (cur_offset - prev_offset) as u64
    } else {
        1u64
    }
}

/// Does the graph hold the shared-edge bridge arc of this candidate
/// pair: from the previous candidate's edge start to the current
/// candidate's virtual node, weighted with the projection gap?
pub open spec fn bridge_arc_present(
    arcs: Multiset<(usize, usize, u64)>,
    nodes: Seq<crate::network::NodeId>,
    pcand: Candidate,
    cand: Candidate,
) -> bool {
    exists|ai: usize, di: usize|
        {
            &&& (ai as int) < nodes.len()
            &&& (di as int) < nodes.len()
            &&& nodes[ai as int] == pcand.edge.from
            &&& nodes[di as int] == cand.dummy_node_id
            &&& arcs.count((ai, di, bridge_weight_spec(pcand.offset, cand.offset))) > 0
        }
}

/// What the induction step promises of every same-edge pair that moves
/// forward (or jitters backward within tolerance): its bridge arc is in
/// the graph.
pub open spec fn bridges_done(
    prev: Seq<Layer>,
    cands: Seq<Candidate>,
    arcs: Multiset<(usize, usize, u64)>,
    nodes: Seq<crate::network::NodeId>,
    reverse_tolerance: u64,
) -> bool {
    forall|p2: int, c2: int|
        0 <= p2 < prev.len() && 0 <= c2 < cands.len() ==> ((#[trigger] prev[p2]).candidate matches Some(
            pcand,
        ) ==> ((pcand.edge.id == (#[trigger] cands[c2]).edge.id && (cands[c2].offset
            > pcand.offset || pcand.offset - cands[c2].offset < reverse_tolerance))
            ==> bridge_arc_present(arcs, nodes, pcand, cands[c2])))
}

/// A bridge arc stays present while the graph only grows.
proof fn lemma_bridges_grow(
    prev: Seq<Layer>,
    cands: Seq<Candidate>,
    arcs1: Multiset<(usize, usize, u64)>,
    arcs2: Multiset<(usize, usize, u64)>,
    nodes1: Seq<crate::network::NodeId>,
    nodes2: Seq<crate::network::NodeId>,
    reverse_tolerance: u64,
    bound_p: int,
    bound_c: int,
)
    requires
        forall|p2: int, c2: int|
            0 <= p2 < prev.len() && 0 <= c2 < cands.len() && (p2 < bound_p || (p2 == bound_p && c2
                < bound_c)) ==> ((#[trigger] prev[p2]).candidate matches Some(pcand) ==> ((
            pcand.edge.id == (#[trigger] cands[c2]).edge.id && (cands[c2].offset > pcand.offset
                || pcand.offset - cands[c2].offset < reverse_tolerance)) ==> bridge_arc_present(
                arcs1,
                nodes1,
                pcand,
                cands[c2],
            ))),
        arcs1.subset_of(arcs2),
        nodes1.len() <= nodes2.len(),
        forall|i: int| 0 <= i < nodes1.len() ==> nodes2[i] == nodes1[i],
    ensures
        forall|p2: int, c2: int|
            0 <= p2 < prev.len() && 0 <= c2 < cands.len() && (p2 < bound_p || (p2 == bound_p && c2
                < bound_c)) ==> ((#[trigger] prev[p2]).candidate matches Some(pcand) ==> ((
            pcand.edge.id == (#[trigger] cands[c2]).edge.id && (cands[c2].offset > pcand.offset
                || pcand.offset - cands[c2].offset < reverse_tolerance)) ==> bridge_arc_present(
                arcs2,
                nodes2,
                pcand,
                cands[c2],
            ))),
{
    assert forall|p2: int, c2: int|
        0 <= p2 < prev.len() && 0 <= c2 < cands.len() && (p2 < bound_p || (p2 == bound_p && c2
            < bound_c)) implies ((#[trigger] prev[p2]).candidate matches Some(pcand) ==> ((
    pcand.edge.id == (#[trigger] cands[c2]).edge.id && (cands[c2].offset > pcand.offset
        || pcand.offset - cands[c2].offset < reverse_tolerance)) ==> bridge_arc_present(
        arcs2,
        nodes2,
        pcand,
        cands[c2],
    ))) by {
        match prev[p2].candidate {
            Option::Some(pcand) => {
                if pcand.edge.id == cands[c2].edge.id && (cands[c2].offset > pcand.offset
                    || pcand.offset - cands[c2].offset < reverse_tolerance) {
                    if bridge_arc_present(arcs1, nodes1, pcand, cands[c2]) {
                        let (ai, di) = choose|ai: usize, di: usize|
                            (ai as int) < nodes1.len() && (di as int) < nodes1.len()
                                && nodes1[ai as int] == pcand.edge.from && nodes1[di as int]
                                == cands[c2].dummy_node_id && arcs1.count(
                                (ai, di, bridge_weight_spec(pcand.offset, cands[c2].offset)),
                            ) > 0;
                        assert(arcs2.count(
                            (ai, di, bridge_weight_spec(pcand.offset, cands[c2].offset)),
                        ) > 0);
                        assert(bridge_arc_present(arcs2, nodes2, pcand, cands[c2]));
                    }
                }
            },
            Option::None => {},
        }
    }
}

/// The transition log-probability of a pair at straight-line distance
/// `gps` whose cheapest on-graph connection costs `path`: `ln` of
/// `gps / path` capped at one.
pub open spec fn tp_log_spec(gps: int, path: int) -> int {
    if gps > path {
        0
    } else {
        ln_ratio_spec(gps, path)
    }
}

} // verus!
