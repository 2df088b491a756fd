//! The matcher's data model: candidates, lattice cells, configuration,
//! and the match result.

use vstd::prelude::*;

use crate::algorithm::{wf_point, Point};
use crate::network::{DummyKey, Edge, NodeId};
use crate::score::EP_LOG_FLOOR;
use crate::traj::TrajInfo;
use crate::MAX_EDGE_LENGTH;

verus! {

/// The id of the virtual node standing for the projection `cp` of the
/// sample point `sp`.
pub open spec fn dummy_node_of(cp: Point, sp: Point) -> NodeId {
    NodeId::Dummy(DummyKey { px: cp.x, py: cp.y, sx: sp.x, sy: sp.y })
}

/// Builds the id of the virtual node for a projection of a sample.
pub fn make_dummy_node(cp: &Point, sp: &Point) -> (r: NodeId)
    ensures
        r == dummy_node_of(*cp, *sp),
{
    NodeId::Dummy(DummyKey { px: cp.x, py: cp.y, sx: sp.x, sy: sp.y })
}

/// One hypothesis: a GPS sample projected onto one edge.
#[derive(Debug)]
pub struct Candidate {
    /// The real edge projected onto.
    pub edge: Edge,
    /// Perpendicular distance from the sample to the projection.
    pub distance: u64,
    /// Along-edge distance of the projection from the edge start.
    pub offset: u64,
    /// The projection itself.
    pub closest_point: Point,
    /// Emission log-probability, in micro-nats.
    pub ep: i64,
    /// Id of the virtual node this candidate contributes to the graph.
    pub dummy_node_id: NodeId,
    /// The sample this candidate belongs to.
    pub ori_traj_point: TrajInfo,
}

/// Well-formedness of a candidate: the projection lies on the edge, the
/// emission is a clamped log-probability, and the virtual-node id is
/// derived from the projection and the sample.
pub open spec fn wf_candidate(c: &Candidate) -> bool {
    &&& c.edge.geometry.0@.len() >= 2
    &&& crate::algorithm::wf_polyline(c.edge.geometry.0@)
    &&& crate::algorithm::polyline_len(c.edge.geometry.0@) <= MAX_EDGE_LENGTH as int
    &&& c.edge.length <= MAX_EDGE_LENGTH
    &&& c.offset <= c.edge.length
    &&& EP_LOG_FLOOR <= c.ep <= 0
    &&& wf_point(c.closest_point)
    &&& wf_point(c.ori_traj_point.point)
    &&& c.dummy_node_id == dummy_node_of(c.closest_point, c.ori_traj_point.point)
}

/// The fields of `a` hold the same values as the fields of `b`.
pub open spec fn candidate_eq(a: &Candidate, b: &Candidate) -> bool {
    &&& crate::network::edge_eq(&a.edge, &b.edge)
    &&& a.distance == b.distance
    &&& a.offset == b.offset
    &&& a.closest_point == b.closest_point
    &&& a.ep == b.ep
    &&& a.dummy_node_id == b.dummy_node_id
    &&& a.ori_traj_point == b.ori_traj_point
}

impl Candidate {
    /// A field-for-field copy of this candidate.
    pub fn duplicate(&self) -> (r: Candidate)
        ensures
            candidate_eq(&r, self),
            wf_candidate(self) ==> wf_candidate(&r),
    {
        Candidate {
            edge: self.edge.duplicate(),
            distance: self.distance,
            offset: self.offset,
            closest_point: self.closest_point,
            ep: self.ep,
            dummy_node_id: self.dummy_node_id,
            ori_traj_point: self.ori_traj_point,
        }
    }
}

/// One cell of the Viterbi lattice: a candidate with its best cumulative
/// score so far.  `cumulative_prob` is a log-probability in micro-nats;
/// `None` stands for "unreached" (probability zero).  `prev_layer` is
/// the index of the chosen predecessor cell in the previous layer.
#[derive(Debug)]
pub struct Layer {
    pub candidate: Option<Candidate>,
    pub prev_layer: Option<usize>,
    pub cumulative_prob: Option<i64>,
    /// Transition log-probability of the best incoming transition.
    pub tp: i64,
}

/// Log-probability order with `None` below every reached score.
pub open spec fn score_val(s: Option<i64>) -> int {
    match s {
        Option::None => i64::MIN as int - 1,
        Option::Some(v) => v as int,
    }
}

/// Whether `a` is a strictly better score than `b`.
pub fn score_gt(a: &Option<i64>, b: &Option<i64>) -> (r: bool)
    ensures
        r == (score_val(*a) > score_val(*b)),
{
    match (a, b) {
        (Option::Some(x), Option::Some(y)) => *x > *y,
        (Option::Some(_), Option::None) => true,
        _ => false,
    }
}

/// The match result: one edge id and one matched candidate per sample.
/// `None` entries stand for samples with no candidate.
pub struct MMResult {
    pub o_path: Vec<Option<u64>>,
    pub matched_candidates: Vec<Option<Candidate>>,
}

/// Matching parameters.  All lengths are in the library's linear unit;
/// `v_max` is in units per time step.
pub struct Config {
    pub gps_err: u64,
    pub radius: u64,
    pub knn: u16,
    pub v_max: u64,
    pub factor: u64,
    pub reverse_tolerance: u64,
    pub road_netwok_path: String,
}

/// The parameter ranges the matcher accepts; the bounds keep the
/// geometry and the scores inside their integer ranges.
pub open spec fn wf_config(cfg: &Config) -> bool {
    &&& 1 <= cfg.gps_err <= MAX_EDGE_LENGTH
    &&& cfg.radius <= crate::algorithm::COORD_LIMIT
    &&& cfg.v_max <= MAX_EDGE_LENGTH
    &&& cfg.factor <= 1_000_000
}

} // verus!
