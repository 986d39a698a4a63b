//! Why a query fails.
use vstd::prelude::*;

verus! {

/// Why a routing query fails.
#[derive(Debug, Clone, Copy, PartialEq, Eq, Structural)]
pub enum RouteError {
    /// The point lies in no grid cell of the map.
    PointOffMap,
    /// The point's cell has no node that the mode can use.
    NoModeMatch,
    /// Start and goal snap to the same node.
    StartIsGoal,
    /// No path joins start and goal.
    NoPath,
    /// The charging stops could not bring the goal within range.
    UnreasonableRange,
}

impl RouteError {
    /// A short description of the failure.
    pub fn message(&self) -> &'static str {
        match self {
            RouteError::PointOffMap => "Couldn't locate point on map",
            RouteError::NoModeMatch => "No point matching transportation found",
            RouteError::StartIsGoal => "No path found, start is goal",
            RouteError::NoPath => "No path found",
            RouteError::UnreasonableRange => "Please enter reasonable ranges.",
        }
    }
}

} // verus!
