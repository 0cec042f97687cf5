use graph_search::{Graph, WeightedGraph};

#[test]
fn new_graph_is_empty() {
    let directed = Graph::new(true);
    assert!(directed.is_directed());
    assert_eq!(directed.node_count(), 0);
    assert!(directed.adjacent(1).is_none());

    let undirected = Graph::new(false);
    assert!(!undirected.is_directed());
    assert_eq!(undirected.node_count(), 0);
}

#[test]
fn directed_edge_is_recorded_one_way() {
    let mut graph = Graph::new(true);
    graph.add_edge(1, 2);
    assert_eq!(graph.adjacent(1), Some(&vec![2]));
    assert!(graph.adjacent(2).is_none());
    assert_eq!(graph.node_count(), 1);
}

#[test]
fn undirected_edge_is_recorded_both_ways() {
    let mut graph = Graph::new(false);
    graph.add_edge(1, 2);
    assert_eq!(graph.adjacent(1), Some(&vec![2]));
    assert_eq!(graph.adjacent(2), Some(&vec![1]));
    assert_eq!(graph.node_count(), 2);
}

#[test]
fn neighbours_keep_insertion_order_and_duplicates() {
    let mut graph = Graph::new(true);
    graph.add_edge(7, 3);
    graph.add_edge(7, -1);
    graph.add_edge(7, 3);
    graph.add_edge(7, 2_000_000);
    assert_eq!(graph.adjacent(7), Some(&vec![3, -1, 3, 2_000_000]));
}

#[test]
fn self_loop_is_recorded_once() {
    let mut undirected = Graph::new(false);
    undirected.add_edge(4, 4);
    assert_eq!(undirected.adjacent(4), Some(&vec![4]));
    undirected.add_edge(4, 4);
    assert_eq!(undirected.adjacent(4), Some(&vec![4, 4]));

    let mut directed = Graph::new(true);
    directed.add_edge(4, 4);
    assert_eq!(directed.adjacent(4), Some(&vec![4]));
}

#[test]
fn ensure_node_declares_an_empty_list() {
    let mut graph = Graph::new(false);
    graph.ensure_node(42);
    assert_eq!(graph.adjacent(42), Some(&Vec::new()));
    assert_eq!(graph.node_count(), 1);
}

#[test]
fn ensure_node_keeps_an_existing_list() {
    let mut graph = Graph::new(false);
    graph.add_edge(1, 2);
    graph.ensure_node(1);
    assert_eq!(graph.adjacent(1), Some(&vec![2]));
    assert_eq!(graph.node_count(), 2);
}

#[test]
fn extreme_identifiers_are_accepted() {
    let mut graph = Graph::new(false);
    graph.add_edge(i32::MIN, i32::MAX);
    assert_eq!(graph.adjacent(i32::MIN), Some(&vec![i32::MAX]));
    assert_eq!(graph.adjacent(i32::MAX), Some(&vec![i32::MIN]));
    assert_eq!(graph.bfs(i32::MAX), vec![i32::MAX, i32::MIN]);
}

#[test]
fn clone_does_not_follow_later_changes() {
    let mut graph = Graph::new(false);
    graph.add_edge(1, 2);
    let copy = graph.clone();
    graph.add_edge(2, 3);
    assert_eq!(copy.adjacent(1), Some(&vec![2]));
    assert_eq!(copy.adjacent(2), Some(&vec![1]));
    assert!(copy.adjacent(3).is_none());
    assert!(!copy.is_directed());
    assert_eq!(graph.adjacent(2), Some(&vec![1, 3]));
}

#[test]
fn weighted_new_graph_is_empty() {
    let graph = WeightedGraph::new(true);
    assert!(graph.is_directed());
    assert!(graph.adjacent(1).is_none());
    assert!(!WeightedGraph::new(false).is_directed());
}

#[test]
fn weighted_directed_edge_is_recorded_one_way() {
    let mut graph = WeightedGraph::new(true);
    graph.add_edge(1, 2, 10);
    graph.add_edge(1, 3, -5);
    assert_eq!(graph.adjacent(1), Some(&vec![(2, 10), (3, -5)]));
    assert!(graph.adjacent(2).is_none());
    assert!(graph.adjacent(3).is_none());
}

#[test]
fn weighted_undirected_edge_is_recorded_both_ways() {
    let mut graph = WeightedGraph::new(false);
    graph.add_edge(1, 2, 10);
    graph.add_edge(2, 3, 7);
    assert_eq!(graph.adjacent(1), Some(&vec![(2, 10)]));
    assert_eq!(graph.adjacent(2), Some(&vec![(1, 10), (3, 7)]));
    assert_eq!(graph.adjacent(3), Some(&vec![(2, 7)]));
}

#[test]
fn weighted_self_loop_is_recorded_once() {
    let mut graph = WeightedGraph::new(false);
    graph.add_edge(5, 5, 1);
    assert_eq!(graph.adjacent(5), Some(&vec![(5, 1)]));
}

#[test]
fn weighted_clone_does_not_follow_later_changes() {
    let mut graph = WeightedGraph::new(true);
    graph.add_edge(1, 2, 3);
    let copy = graph.clone();
    graph.add_edge(1, 4, 5);
    assert_eq!(copy.adjacent(1), Some(&vec![(2, 3)]));
    assert_eq!(graph.adjacent(1), Some(&vec![(2, 3), (4, 5)]));
}
