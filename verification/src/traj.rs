//! GPS trajectories: location/time samples as the matcher consumes them.

use vstd::prelude::*;

use crate::algorithm::Point;

verus! {

/// One GPS sample.  A `time_stamp` of zero is treated as missing.
#[derive(Clone, Copy, Debug, PartialEq, Eq, Structural)]
pub struct TrajInfo {
    pub point: Point,
    pub time_stamp: u64,
}

/// An ordered sequence of samples.
pub type Trajectory = Vec<TrajInfo>;

/// Several trajectories read from one source.
pub struct MutileTrajectory {
    pub trajs: Vec<Trajectory>,
}

} // verus!
