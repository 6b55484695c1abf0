use std::collections::HashMap;

use pathfinding_astar::{astar_path, astar_path_with_limit, Edge, Node, SearchError};

fn node(edges: Vec<(u64, u64)>, weight: u64) -> Node {
    Node {
        edges: edges.into_iter().map(|(to, dist)| Edge { to, dist }).collect(),
        weight,
    }
}

/// The documented example: a three-node line.
#[test]
fn three_node_line() {
    let mut nodes: HashMap<u64, Node> = HashMap::new();
    nodes.insert(0, node(vec![(1, 5)], 3));
    nodes.insert(1, node(vec![(0, 5), (2, 4)], 2));
    nodes.insert(2, node(vec![(1, 4)], 6));
    let path = astar_path(0, &nodes, 2).unwrap().unwrap();
    assert_eq!(vec![0, 1, 2], path);
}

/// When the start and the end label are the same, the single-element path
/// holding that label comes back, whatever else the graph holds.
#[test]
fn start_equals_end() {
    let mut nodes: HashMap<u64, Node> = HashMap::new();
    nodes.insert(7, node(vec![(8, 2)], 5));
    nodes.insert(8, node(vec![], 1));
    let path = astar_path(7, &nodes, 7).unwrap().unwrap();
    assert_eq!(vec![7], path);
}

/// An edge reached during the search names a label with no entry: the
/// search stops with the data-integrity error.
#[test]
fn edge_to_missing_node() {
    let mut nodes: HashMap<u64, Node> = HashMap::new();
    nodes.insert(0, node(vec![(9, 1)], 1));
    nodes.insert(2, node(vec![], 1));
    let path = astar_path(0, &nodes, 2);
    assert_eq!(path, Err(SearchError::DataIntegrity));
}

/// A malformed edge beyond the reach of the search does no harm.
#[test]
fn unreached_malformed_edge() {
    let mut nodes: HashMap<u64, Node> = HashMap::new();
    nodes.insert(0, node(vec![(1, 1)], 1));
    nodes.insert(1, node(vec![], 2));
    nodes.insert(5, node(vec![(9, 1)], 1));
    let path = astar_path(0, &nodes, 1).unwrap().unwrap();
    assert_eq!(vec![0, 1], path);
}

/// A budget of zero iterations is spent before anything happens.
#[test]
fn budget_of_zero() {
    let mut nodes: HashMap<u64, Node> = HashMap::new();
    nodes.insert(0, node(vec![(1, 5)], 3));
    nodes.insert(1, node(vec![], 2));
    let path = astar_path_with_limit(0, &nodes, 1, 0);
    assert_eq!(path, Err(SearchError::IterationLimit));
}

/// A generous budget changes nothing about the result.
#[test]
fn budget_large_enough() {
    let mut nodes: HashMap<u64, Node> = HashMap::new();
    nodes.insert(0, node(vec![(1, 5)], 3));
    nodes.insert(1, node(vec![(0, 5), (2, 4)], 2));
    nodes.insert(2, node(vec![(1, 4)], 6));
    let path = astar_path_with_limit(0, &nodes, 2, 100).unwrap().unwrap();
    assert_eq!(vec![0, 1, 2], path);
}

/// Repeated calls on the same inputs return the identical path.
#[test]
fn repeated_calls_agree() {
    let mut nodes: HashMap<u64, Node> = HashMap::new();
    nodes.insert(0, node(vec![(1, 2), (2, 2)], 1));
    nodes.insert(1, node(vec![(3, 2)], 4));
    nodes.insert(2, node(vec![(3, 2)], 4));
    nodes.insert(3, node(vec![], 1));
    let first = astar_path(0, &nodes, 3);
    let second = astar_path(0, &nodes, 3);
    assert_eq!(first, second);
    assert!(first.unwrap().is_some());
}

/// Two routes reach the target with equal scores while it still waits on the
/// frontier: the route discovered later displaces the earlier one, so the
/// path goes through the neighbour listed second.
#[test]
fn equal_score_tie_prefers_later_discovery() {
    let mut nodes: HashMap<u64, Node> = HashMap::new();
    nodes.insert(0, node(vec![(1, 1), (2, 1)], 1));
    nodes.insert(1, node(vec![(3, 5)], 1));
    nodes.insert(2, node(vec![(3, 5)], 1));
    nodes.insert(3, node(vec![], 10));
    let path = astar_path(0, &nodes, 3).unwrap().unwrap();
    assert_eq!(vec![0, 2, 3], path);
}

/// Distances near the top of the range saturate instead of wrapping, and the
/// search still answers.
#[test]
fn saturated_scores_still_answer() {
    let mut nodes: HashMap<u64, Node> = HashMap::new();
    nodes.insert(0, node(vec![(1, u64::MAX)], 1));
    nodes.insert(1, node(vec![(2, u64::MAX)], u64::MAX));
    nodes.insert(2, node(vec![], 3));
    let path = astar_path(0, &nodes, 2).unwrap().unwrap();
    assert_eq!(vec![0, 1, 2], path);
}

/// An edge of distance zero is allowed and traversed.
#[test]
fn zero_distance_edge() {
    let mut nodes: HashMap<u64, Node> = HashMap::new();
    nodes.insert(0, node(vec![(1, 0)], 1));
    nodes.insert(1, node(vec![(2, 3)], 2));
    nodes.insert(2, node(vec![], 1));
    let path = astar_path(0, &nodes, 2).unwrap().unwrap();
    assert_eq!(vec![0, 1, 2], path);
}
