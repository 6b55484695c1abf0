//! A-star pathfinding over weighted directed graphs.
//!
//! A graph maps a `u64` label to a [`Node`]: the node's outgoing [`Edge`]s
//! (each with a non-negative distance) and a weight, the intrinsic cost of
//! traversing that node.  [`search::astar_path`] finds the lowest-scoring
//! route between two labels, ranking candidate paths by the sum of the
//! distance travelled and the destination node's weight.

pub mod frontier;
pub mod graph;
pub mod laws;
pub mod model;
pub mod search;

pub use crate::graph::{Edge, Node, SearchError};
pub use crate::search::{astar_path, astar_path_with_limit};
