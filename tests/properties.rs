use std::collections::BTreeSet;

use ferrisgraph::{Graph, GraphError};

fn graph_with_nodes(nodes: &[i64]) -> Graph {
    let mut g = Graph::new();
    for n in nodes {
        g.add_node(*n);
    }
    g
}

#[test]
fn add_node_twice_keeps_count() {
    let mut g = graph_with_nodes(&[3, -7]);
    assert!(g.add_node(5));
    assert!(g.is_node(&5));
    assert_eq!(g.num_nodes(), 3);
    assert!(!g.add_node(5));
    assert_eq!(g.num_nodes(), 3);
    assert_eq!(*g.nodes(), vec![-7, 3, 5]);
}

#[test]
fn add_then_remove_edge() {
    let mut g = graph_with_nodes(&[1, 2]);
    assert!(g.add_edge(&1, &2, Some(4)));
    assert!(g.is_edge(&1, &2, &Some(4)));
    assert!(g.remove_edge(&1, &2, Some(4)));
    assert!(!g.is_edge(&1, &2, &Some(4)));
    assert!(!g.remove_edge(&1, &2, Some(4)));
    assert_eq!(g.num_edges(), 0);
}

#[test]
fn add_edge_needs_both_endpoints() {
    let mut g = graph_with_nodes(&[1]);
    assert!(!g.add_edge(&1, &2, None));
    assert!(!g.add_edge(&2, &1, None));
    assert_eq!(g.num_edges(), 0);
}

#[test]
fn multigraph_keeps_edges_of_different_weight() {
    let mut g = graph_with_nodes(&[1, 2]);
    assert!(g.add_edge(&1, &2, None));
    assert!(g.add_edge(&1, &2, Some(3)));
    assert!(g.add_edge(&1, &2, Some(1)));
    assert_eq!(g.num_edges(), 3);
    assert_eq!(g.out_degree(&1), 3);
    assert_eq!(g.in_degree(&2), 3);
    assert_eq!(
        g.edges(&1),
        Ok(Some(vec![(2, None), (2, Some(1)), (2, Some(3))]))
    );
    assert_eq!(g.connections(&1), Ok(Some(vec![2, 2, 2])));
    assert!(g.remove_edge(&1, &2, Some(1)));
    assert!(g.is_connected(&1, &2));
    assert_eq!(g.num_edges(), 2);
}

#[test]
fn remove_node_drops_touching_edges() {
    let mut g = graph_with_nodes(&[1, 2, 3]);
    g.add_edge(&1, &2, None);
    g.add_edge(&2, &1, Some(5));
    g.add_edge(&2, &2, None);
    g.add_edge(&3, &1, None);
    g.add_edge(&3, &2, Some(1));
    assert_eq!(g.num_edges(), 5);
    // edges at node 2: 1->2, 2->1, 2->2, 3->2
    assert!(g.remove_node(&2));
    assert_eq!(g.num_edges(), 1);
    assert!(g.is_edge(&3, &1, &None));
    assert_eq!(g.num_nodes(), 2);
    assert!(!g.remove_node(&2));
    assert_eq!(g.num_edges(), 1);
}

#[test]
fn undirected_edge_equals_two_directed() {
    let mut g = graph_with_nodes(&[1, 2, 3]);
    let mut h = graph_with_nodes(&[1, 2, 3]);
    assert!(g.add_undirected_edge(&1, &3, Some(9)));
    assert!(h.add_edge(&1, &3, Some(9)));
    assert!(h.add_edge(&3, &1, Some(9)));
    assert_eq!(g, h);
    assert!(!g.add_undirected_edge(&1, &3, Some(9)));
    assert!(!g.add_undirected_edge(&3, &1, Some(9)));
    assert_eq!(g.num_edges(), 2);
}

#[test]
fn undirected_self_loop_is_refused() {
    let mut g = graph_with_nodes(&[1, 2]);
    assert!(!g.add_undirected_edge(&1, &1, None));
    assert_eq!(g.num_edges(), 0);
    // a directed self-loop is accepted
    assert!(g.add_edge(&1, &1, None));
    assert_eq!(g.degree(&1), 2);
}

#[test]
fn undirected_edge_with_one_direction_present_is_refused() {
    let mut g = graph_with_nodes(&[1, 2]);
    g.add_edge(&2, &1, Some(1));
    assert!(!g.add_undirected_edge(&1, &2, Some(1)));
    assert!(!g.is_edge(&1, &2, &Some(1)));
    assert_eq!(g.num_edges(), 1);
}

#[test]
fn clone_is_independent() {
    let mut g = graph_with_nodes(&[1, 2]);
    g.add_edge(&1, &2, None);
    let mut c = g.clone();
    assert_eq!(c, g);
    c.add_node(3);
    c.remove_edge(&1, &2, None);
    assert!(!g.is_node(&3));
    assert!(g.is_edge(&1, &2, &None));
    assert_ne!(c, g);
    g.remove_node(&1);
    assert!(c.is_node(&1));
}

#[test]
fn missing_node_errors() {
    let g = graph_with_nodes(&[1]);
    assert_eq!(g.edges(&9), Err(GraphError::NodeNotFound(9)));
    assert_eq!(g.connections(&9), Err(GraphError::NodeNotFound(9)));
    assert_eq!(g.bfs(&9).err(), Some(GraphError::NodeNotFound(9)));
    assert_eq!(g.dfs(&9).err(), Some(GraphError::NodeNotFound(9)));
    assert_eq!(g.djikstra(&9, 1, 0).err(), Some(GraphError::NodeNotFound(9)));
    assert_eq!(g.edges(&1), Ok(None));
    assert_eq!(g.connections(&1), Ok(None));
}

#[test]
fn degrees_of_unknown_node_are_zero() {
    let g = graph_with_nodes(&[1]);
    assert_eq!(g.in_degree(&4), 0);
    assert_eq!(g.out_degree(&4), 0);
    assert_eq!(g.degree(&4), 0);
    assert!(!g.is_connected(&4, &1));
}

#[test]
fn bfs_spec_example() {
    let mut g = graph_with_nodes(&[1, 2, 3, 5]);
    g.add_edge(&1, &2, None);
    g.add_edge(&1, &3, None);
    g.add_edge(&2, &5, None);
    g.add_edge(&5, &5, None);
    let pred = g.bfs(&1).unwrap();
    assert_eq!(pred.len(), 4);
    assert_eq!(pred[&1], 1);
    assert_eq!(pred[&2], 1);
    assert_eq!(pred[&3], 1);
    assert_eq!(pred[&5], 2);
}

#[test]
fn bfs_of_isolated_node() {
    let g = graph_with_nodes(&[4, 8]);
    let pred = g.bfs(&4).unwrap();
    assert_eq!(pred.len(), 1);
    assert_eq!(pred[&4], 4);
}

#[test]
fn dfs_three_cycle() {
    let mut g = graph_with_nodes(&[1, 2, 3, 4]);
    g.add_edge(&1, &2, None);
    g.add_edge(&2, &3, None);
    g.add_edge(&3, &1, None);
    let visited = g.dfs(&1).unwrap();
    let expected: BTreeSet<i64> = [1, 2, 3].into_iter().collect();
    assert_eq!(visited, expected);
}

#[test]
fn cycle_detection_cases() {
    let empty = Graph::new();
    assert!(!empty.has_cycle());
    let mut g = graph_with_nodes(&[7]);
    assert!(!g.has_cycle());
    g.add_edge(&7, &7, Some(2));
    assert!(g.has_cycle());

    let mut h = graph_with_nodes(&[0, 1, 2]);
    h.add_edge(&0, &1, None);
    h.add_edge(&0, &2, None);
    h.add_edge(&1, &2, None);
    assert!(!h.has_cycle());
    h.add_edge(&2, &0, None);
    assert!(h.has_cycle());
}

#[test]
fn dijkstra_uses_default_weight_and_zero() {
    let mut g = graph_with_nodes(&[1, 2, 3]);
    g.add_edge(&1, &2, None);
    g.add_edge(&2, &3, Some(4));
    g.add_edge(&1, &3, Some(10));
    let (dist, pred) = g.djikstra(&1, 3, 100).unwrap();
    assert_eq!(dist[&1], 100);
    assert_eq!(dist[&2], 103);
    assert_eq!(dist[&3], 107);
    assert_eq!(pred[&1], None);
    assert_eq!(pred[&2], Some(1));
    assert_eq!(pred[&3], Some(2));
}

#[test]
fn dijkstra_covers_only_reachable_nodes() {
    let mut g = graph_with_nodes(&[1, 2, 3]);
    g.add_edge(&2, &1, Some(1));
    let (dist, pred) = g.djikstra(&1, 1, 0).unwrap();
    assert_eq!(dist.len(), 1);
    assert_eq!(pred.len(), 1);
    assert_eq!(dist[&1], 0);
}

#[test]
fn dijkstra_large_weights_do_not_overflow() {
    let mut g = graph_with_nodes(&[1, 2, 3]);
    g.add_edge(&1, &2, Some(u64::MAX));
    g.add_edge(&2, &3, Some(u64::MAX));
    let (dist, _) = g.djikstra(&1, 1, u64::MAX).unwrap();
    assert_eq!(dist[&3], 3 * (u64::MAX as u128));
}

#[test]
fn dijkstra_equal_distances_settle_smaller_node_first() {
    let mut g = graph_with_nodes(&[0, 1, 2, 3]);
    g.add_edge(&0, &2, Some(1));
    g.add_edge(&0, &1, Some(1));
    g.add_edge(&1, &3, Some(1));
    g.add_edge(&2, &3, Some(1));
    let (dist, pred) = g.djikstra(&0, 1, 0).unwrap();
    assert_eq!(dist[&3], 2);
    assert_eq!(pred[&3], Some(1));
}

#[test]
fn edges_of_a_node_are_sorted() {
    let mut g = graph_with_nodes(&[1, 2, 3]);
    g.add_edge(&1, &3, Some(2));
    g.add_edge(&1, &2, Some(9));
    g.add_edge(&1, &3, None);
    assert_eq!(
        g.edges(&1),
        Ok(Some(vec![(2, Some(9)), (3, None), (3, Some(2))]))
    );
    assert_eq!(g.connections(&1), Ok(Some(vec![2, 3, 3])));
}
