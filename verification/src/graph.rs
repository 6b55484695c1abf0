//! The graph model: nodes, edges, and the spec-level notions of an edge
//! existing, a walk through the graph, and two labels being connected.

use vstd::prelude::*;

verus! {

/// An outgoing connection of a node: the neighbour's label and the distance
/// to it.
#[derive(Clone, Copy, PartialEq, Eq, Structural, Debug)]
pub struct Edge {
    pub to: u64,
    pub dist: u64,
}

/// A node's description: its outgoing edges, in order, and its weight.  The
/// weight is the intrinsic cost of traversing the node; larger means harder.
#[derive(Debug)]
pub struct Node {
    pub edges: Vec<Edge>,
    pub weight: u64,
}

/// The failures a search can report.
#[derive(Clone, Copy, PartialEq, Eq, Structural, Debug)]
pub enum SearchError {
    /// The start or the end label has no entry in the graph.
    InvalidInput,
    /// An edge reached during the search names a label that has no entry in
    /// the graph.
    DataIntegrity,
    /// The iteration budget ran out before the search finished.
    IterationLimit,
}

/// The graph has an edge from `from` to `to`.
pub open spec fn has_edge(g: Map<u64, Node>, from: u64, to: u64) -> bool {
    &&& g.contains_key(from)
    &&& exists|i: int|
        0 <= i < g[from].edges@.len() && (#[trigger] g[from].edges@[i]).to == to
}

/// Every consecutive pair of labels in `p` is joined by an edge of the graph.
pub open spec fn is_walk(g: Map<u64, Node>, p: Seq<u64>) -> bool {
    forall|i: int| 0 <= i < p.len() - 1 ==> has_edge(g, #[trigger] p[i], p[i + 1])
}

/// Some sequence of edges leads from `start` to `end`.  A single-label walk
/// needs no edges, so every label is connected to itself.
pub open spec fn connects(g: Map<u64, Node>, start: u64, end: u64) -> bool {
    exists|p: Seq<u64>|
        #[trigger] is_walk(g, p) && p.len() > 0 && p.first() == start && p.last() == end
}

/// Every edge of every node points at a label that has an entry of its own.
pub open spec fn well_formed(g: Map<u64, Node>) -> bool {
    forall|l: u64, i: int|
        g.contains_key(l) && 0 <= i < g[l].edges@.len() ==> g.contains_key(
            (#[trigger] g[l].edges@[i]).to,
        )
}

} // verus!
