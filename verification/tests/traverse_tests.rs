use taskgraph::Error;
use taskgraph::db::Database;
use taskgraph::node::Node;
use taskgraph::node::NodeID;
use taskgraph::traverse::dfs_all;
use taskgraph::traverse::leaves_of;

fn plain(id: NodeID) -> Node {
    Node {
        id,
        title: String::new(),
        description: String::new(),
        scheduled: None,
        due: None,
    }
}

fn graph(ids: &[NodeID], edges: &[(NodeID, NodeID)]) -> Database {
    let mut g = Database::new();
    for id in ids {
        g.add(&plain(*id));
    }
    for (from, to) in edges {
        g.connect(*from, *to).unwrap();
    }
    g
}

#[test]
fn traversal_of_a_cycle_visits_each_node_once() {
    // A -> B -> A: the seen set stops the cycle.
    let g = graph(&[1, 2], &[(1, 2), (2, 1)]);
    let visited = dfs_all(&g, 1).unwrap();
    assert_eq!(visited, vec![(1u128, 0usize), (2, 1)]);
}

#[test]
fn traversal_depth_counts_edges_from_the_start() {
    // A straight chain 1 -> 2 -> 3 yields depths 0, 1, 2.
    let g = graph(&[1, 2, 3], &[(1, 2), (2, 3)]);
    let visited = dfs_all(&g, 1).unwrap();
    assert_eq!(visited, vec![(1u128, 0usize), (2, 1), (3, 2)]);
}

#[test]
fn children_are_visited_in_descending_identifier_order() {
    // Children are pushed ascending and popped from a stack.
    let g = graph(&[1, 2, 3, 4], &[(1, 2), (1, 3), (1, 4)]);
    let visited = dfs_all(&g, 1).unwrap();
    assert_eq!(visited, vec![(1u128, 0usize), (4, 1), (3, 1), (2, 1)]);
}

#[test]
fn traversal_covers_only_the_reachable_part() {
    let g = graph(&[1, 2, 3, 10], &[(1, 2), (2, 3)]);
    let visited = dfs_all(&g, 1).unwrap();
    let ids: Vec<u128> = visited.iter().map(|p| p.0).collect();
    assert!(ids.contains(&1) && ids.contains(&2) && ids.contains(&3));
    assert!(!ids.contains(&10));
}

#[test]
fn traversal_from_missing_root_fails() {
    let g = Database::new();
    assert_eq!(dfs_all(&g, 1).unwrap_err(), Error::NotFound);
}

#[test]
fn stepwise_traversal_matches_the_collected_run() {
    let g = graph(&[1, 2, 3], &[(1, 2), (1, 3), (3, 2)]);
    let mut it = g.dfs(1).unwrap();
    let mut stepped = Vec::new();
    while let Some(p) = it.next(&g) {
        stepped.push(p);
    }
    assert_eq!(stepped, dfs_all(&g, 1).unwrap());
}

#[test]
fn leaves_are_the_visited_nodes_without_children() {
    let g = graph(&[1, 2, 3, 4], &[(1, 2), (1, 3), (3, 4)]);
    let visited = dfs_all(&g, 1).unwrap();
    let leaves = leaves_of(&g, &visited);
    assert_eq!(leaves, vec![4u128, 2]);
}
