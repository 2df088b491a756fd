//! Offline map matching on a road network.
//!
//! A noisy GPS trajectory is matched against a directed multigraph of road
//! segments: a spatial index proposes candidate segments for every sample,
//! a routing graph augmented with virtual nodes answers shortest-path
//! queries between projections, and a Viterbi-style lattice selects the
//! most likely segment sequence.
//!
//! All coordinates and lengths are integers in one caller-chosen linear
//! unit; probabilities are carried as scaled natural logarithms, so the
//! whole pipeline is exact integer arithmetic.

use vstd::prelude::*;

pub mod algorithm;
pub mod graph;
pub mod model;
pub mod network;
pub mod score;
pub mod stmatch;
pub mod traj;

verus! {

/// Longest edge length, and so largest routing weight, the library
/// accepts.
pub const MAX_EDGE_LENGTH: u64 = 100_000_000_000;

/// Most nodes a routing graph may hold.  With weights at most
/// `MAX_EDGE_LENGTH`, every shortest-path sum then stays well inside
/// `u64`.
pub const MAX_GRAPH_NODES: usize = 8_000_000;

/// The failure taxonomy of the library.
#[derive(Clone, Copy, Debug, PartialEq, Eq, Structural)]
pub enum MMError {
    /// A polyline with fewer than two vertices, or one too long to route.
    InvalidGeometry,
    /// Missing or ill-formed input, such as an empty trajectory.
    InvalidInput,
    /// A node or edge lookup failed where the caller required it.
    NotFound,
    /// An id that is already taken was added again.
    DuplicateId,
    /// No path exists between the queried graph nodes.
    NoPath,
    /// An internal invariant was violated.
    Internal,
}

} // verus!
