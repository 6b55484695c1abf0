use std::collections::HashMap;

use pathfinding_astar::{astar_path, astar_path_with_limit, Edge, Node, SearchError};

fn node(edges: Vec<(u64, u64)>, weight: u64) -> Node {
    Node {
        edges: edges.into_iter().map(|(to, dist)| Edge { to, dist }).collect(),
        weight,
    }
}

/// Calculates the best path in a diamond of four nodes: going over the
/// lightly weighted detour beats the short-listed heavy route.
///
/// Labels: 0 = S, 1 = O1, 2 = O2, 3 = E.
#[test]
fn readme_what_is_a_star_example() {
    let start: u64 = 0;
    let mut nodes: HashMap<u64, Node> = HashMap::new();
    nodes.insert(0, node(vec![(1, 22), (2, 5)], 1));
    nodes.insert(1, node(vec![(3, 4)], 4));
    nodes.insert(2, node(vec![(3, 20)], 1));
    nodes.insert(3, node(vec![], 2));
    let end: u64 = 3;
    let path = astar_path(start, &nodes, end).unwrap().unwrap();
    let actual_path = vec![0, 2, 3];
    assert_eq!(actual_path, path);
}

/// The node data does not contain the starting node.
#[test]
fn missing_start_node() {
    let start: u64 = 0;
    let end: u64 = 1;
    let mut nodes: HashMap<u64, Node> = HashMap::new();
    nodes.insert(1, node(vec![(3, 4)], 4));
    let path = astar_path(start, &nodes, end);
    assert_eq!(path, Err(SearchError::InvalidInput));
}

/// The node data does not contain the end node.
#[test]
fn missing_end_node() {
    let start: u64 = 0;
    let end: u64 = 1;
    let mut nodes: HashMap<u64, Node> = HashMap::new();
    nodes.insert(0, node(vec![(3, 4)], 4));
    let path = astar_path(start, &nodes, end);
    assert_eq!(path, Err(SearchError::InvalidInput));
}

/// No sequence of edges reaches the end node: the explicit no-path value
/// comes back, not an error.
#[test]
fn no_path_exists() {
    let start: u64 = 0;
    let end: u64 = 5;
    let mut nodes: HashMap<u64, Node> = HashMap::new();
    nodes.insert(0, node(vec![(1, 5)], 3));
    nodes.insert(1, node(vec![(0, 5), (2, 3)], 2));
    nodes.insert(2, node(vec![(1, 3), (3, 2), (4, 1)], 1));
    nodes.insert(3, node(vec![(2, 2)], 5));
    nodes.insert(4, node(vec![(2, 1)], 2));
    // while end node `5` contains a path backwards to node `4`, `4` itself
    // doesn't have a path to it in the first place
    nodes.insert(5, node(vec![(4, 3)], 6));
    let path = astar_path(start, &nodes, end).unwrap();
    assert_eq!(None, path);
}

/// Find the best path through the below grid, distance between each square
/// is a unit of 1:
/// ```txt
/// ________________________
/// | L:12| L:13| L:14| L:15|
/// | W:5 | W:8 | W:9 | W:4 |
/// |_____|_____|_____|_____|
/// | L:8 | L:9 | L:10| L:11|
/// | W:1 | W:1 | W:4 | W:3 |
/// |_____|_____|_____|_____|
/// | L:4 | L:5 | L:6 | L:7 |
/// | W:1 | W:9 | W:14| W:6 |
/// |_____|_____|_____|_____|
/// | L:0 | L:1 | L:2 | L:3 |
/// | W:1 | W:7 | W:3 | W:7 |
/// |_____|_____|_____|_____|
/// ```
#[test]
fn grid_like_path() {
    let start: u64 = 0;
    let end: u64 = 15;
    let mut nodes: HashMap<u64, Node> = HashMap::new();
    nodes.insert(0, node(vec![(4, 1), (1, 1)], 1));
    nodes.insert(1, node(vec![(5, 1), (2, 1), (0, 1)], 7));
    nodes.insert(2, node(vec![(6, 1), (3, 1), (1, 1)], 3));
    nodes.insert(3, node(vec![(7, 1), (2, 1)], 7));
    nodes.insert(4, node(vec![(8, 1), (5, 1), (0, 1)], 1));
    nodes.insert(5, node(vec![(9, 1), (6, 1), (1, 1), (4, 1)], 9));
    nodes.insert(6, node(vec![(10, 1), (7, 1), (2, 1), (5, 1)], 14));
    nodes.insert(7, node(vec![(11, 1), (3, 1), (6, 1)], 6));
    nodes.insert(8, node(vec![(12, 1), (9, 1), (4, 1)], 1));
    nodes.insert(9, node(vec![(13, 1), (10, 1), (5, 1), (8, 1)], 1));
    nodes.insert(10, node(vec![(14, 1), (11, 1), (6, 1), (9, 1)], 4));
    nodes.insert(11, node(vec![(15, 1), (7, 1), (10, 1)], 3));
    nodes.insert(12, node(vec![(13, 1), (8, 1)], 5));
    nodes.insert(13, node(vec![(14, 1), (9, 1), (12, 1)], 8));
    nodes.insert(14, node(vec![(15, 1), (10, 1), (13, 1)], 9));
    nodes.insert(15, node(vec![(11, 1), (14, 1)], 4));

    let path = astar_path(start, &nodes, end).unwrap().unwrap();
    let actual = vec![0, 4, 8, 9, 10, 11, 15];
    assert_eq!(actual, path);
}

/// A hexagonal grid, unit distances, labels packed as `10 * x + y` for the
/// hexagon at column `x` and row `y`.  Best path from (0,0) up-right to
/// (3,3).
#[test]
fn astar_hexagon_up_right() {
    let start_node: u64 = 0;
    let mut nodes: HashMap<u64, Node> = HashMap::new();
    nodes.insert(0, node(vec![(1, 1), (10, 1)], 1));
    nodes.insert(1, node(vec![(2, 1), (11, 1), (10, 1), (0, 1)], 1));
    nodes.insert(2, node(vec![(3, 1), (12, 1), (11, 1), (1, 1)], 1));
    nodes.insert(3, node(vec![(13, 1), (12, 1), (2, 1)], 3));
    nodes.insert(10, node(vec![(11, 1), (21, 1), (20, 1), (0, 1), (1, 1)], 2));
    nodes.insert(11, node(vec![(12, 1), (22, 1), (21, 1), (10, 1), (1, 1), (2, 1)], 9));
    nodes.insert(12, node(vec![(13, 1), (23, 1), (22, 1), (11, 1), (2, 1), (3, 1)], 4));
    nodes.insert(13, node(vec![(23, 1), (12, 1), (3, 1)], 2));
    nodes.insert(20, node(vec![(21, 1), (30, 1), (10, 1)], 2));
    nodes.insert(21, node(vec![(22, 1), (31, 1), (30, 1), (20, 1), (10, 1), (11, 1)], 6));
    nodes.insert(22, node(vec![(23, 1), (32, 1), (31, 1), (21, 1), (11, 1), (12, 1)], 8));
    nodes.insert(23, node(vec![(33, 1), (32, 1), (22, 1), (12, 1), (13, 1)], 9));
    nodes.insert(30, node(vec![(31, 1), (20, 1), (21, 1)], 3));
    nodes.insert(31, node(vec![(32, 1), (30, 1), (21, 1), (22, 1)], 4));
    nodes.insert(32, node(vec![(33, 1), (31, 1), (22, 1), (23, 1)], 5));
    nodes.insert(33, node(vec![(32, 1), (23, 1)], 2));
    let end_node: u64 = 33;
    let path = astar_path(start_node, &nodes, end_node).unwrap().unwrap();
    let actual = vec![0, 10, 21, 31, 32, 33];
    assert_eq!(actual, path);
}

/// The same hexagonal grid with the weight of (3,0) raised, searched the
/// other way round: from (3,3) down-left to (0,0).
#[test]
fn astar_hexagon_down_left() {
    let start_node: u64 = 33;
    let mut nodes: HashMap<u64, Node> = HashMap::new();
    nodes.insert(0, node(vec![(1, 1), (10, 1)], 1));
    nodes.insert(1, node(vec![(2, 1), (11, 1), (10, 1), (0, 1)], 1));
    nodes.insert(2, node(vec![(3, 1), (12, 1), (11, 1), (1, 1)], 1));
    nodes.insert(3, node(vec![(13, 1), (12, 1), (2, 1)], 3));
    nodes.insert(10, node(vec![(11, 1), (21, 1), (20, 1), (0, 1), (1, 1)], 2));
    nodes.insert(11, node(vec![(12, 1), (22, 1), (21, 1), (10, 1), (1, 1), (2, 1)], 9));
    nodes.insert(12, node(vec![(13, 1), (23, 1), (22, 1), (11, 1), (2, 1), (3, 1)], 4));
    nodes.insert(13, node(vec![(23, 1), (12, 1), (3, 1)], 2));
    nodes.insert(20, node(vec![(21, 1), (30, 1), (10, 1)], 2));
    nodes.insert(21, node(vec![(22, 1), (31, 1), (30, 1), (20, 1), (10, 1), (11, 1)], 6));
    nodes.insert(22, node(vec![(23, 1), (32, 1), (31, 1), (21, 1), (11, 1), (12, 1)], 8));
    nodes.insert(23, node(vec![(33, 1), (32, 1), (22, 1), (12, 1), (13, 1)], 9));
    nodes.insert(30, node(vec![(31, 1), (20, 1), (21, 1)], 7));
    nodes.insert(31, node(vec![(32, 1), (30, 1), (21, 1), (22, 1)], 4));
    nodes.insert(32, node(vec![(33, 1), (31, 1), (22, 1), (23, 1)], 5));
    nodes.insert(33, node(vec![(32, 1), (23, 1)], 2));
    let end_node: u64 = 0;
    let path = astar_path(start_node, &nodes, end_node).unwrap().unwrap();
    let actual = vec![33, 32, 31, 21, 10, 0];
    assert_eq!(actual, path);
}
