use roadnet::analysis::{
    analyze_connected_components, analyze_degree_distribution, count_nodes_with_distance_criteria,
    find_total_nodes_with_more_than_four_connections, is_index_gapped, keep_within,
    shortest_path_from_node, AnalysisError,
};
use roadnet::graph::RoadGraph;

fn create_test_graph() -> RoadGraph {
    let mut graph = RoadGraph::new();
    let n1 = graph.add_node(1).unwrap();
    let n2 = graph.add_node(2).unwrap();
    let n3 = graph.add_node(3).unwrap();
    let n4 = graph.add_node(4).unwrap();
    let n5 = graph.add_node(5).unwrap();

    assert!(graph.add_edge(n1, n2));
    assert!(graph.add_edge(n2, n3));
    assert!(graph.add_edge(n3, n4));
    assert!(graph.add_edge(n4, n5));
    assert!(graph.add_edge(n5, n1));
    assert!(graph.add_edge(n3, n5));

    graph
}

fn graph_with_nodes(count: u32) -> RoadGraph {
    let mut graph = RoadGraph::new();
    for label in 0..count {
        assert_eq!(graph.add_node(label), Some(label as usize));
    }
    graph
}

fn distance_to(paths: &[(usize, u32)], node: usize) -> Option<u32> {
    let mut hits = paths.iter().filter(|entry| entry.0 == node);
    let first = hits.next().map(|entry| entry.1);
    assert!(hits.next().is_none());
    first
}

#[test]
fn test_analyze_connected_components() {
    let graph = create_test_graph();
    let components = analyze_connected_components(&graph);
    assert_eq!(components, 1);
}

#[test]
fn test_find_total_nodes_with_more_than_four_connections() {
    let graph = create_test_graph();
    let count = find_total_nodes_with_more_than_four_connections(&graph);
    assert_eq!(count, 0);
}

#[test]
fn test_shortest_path_from_node() {
    let graph = create_test_graph();
    let start_node = 1;
    let paths = shortest_path_from_node(&graph, start_node, u32::MAX).unwrap();

    assert_eq!(distance_to(&paths, 2), Some(1));
    assert_eq!(distance_to(&paths, 3), Some(2));
}

#[test]
fn test_analyze_degree_distribution() {
    let graph = create_test_graph();
    let rows = analyze_degree_distribution(&graph);

    assert_eq!(rows, vec![(2, 3), (3, 2)]);
}

#[test]
fn test_graph_of_the_cycle_with_a_chord() {
    let graph = create_test_graph();
    assert_eq!(graph.node_count(), 5);
    assert_eq!(graph.edge_count(), 6);
    assert_eq!(graph.label(0), Some(1));
    assert_eq!(graph.label(4), Some(5));
    assert_eq!(graph.label(5), None);
    assert_eq!(graph.index_of(3), Some(2));
    assert_eq!(graph.index_of(6), None);
}

#[test]
fn test_add_node_returns_the_existing_node() {
    let mut graph = RoadGraph::new();
    assert_eq!(graph.add_node(70), Some(0));
    assert_eq!(graph.add_node(10), Some(1));
    assert_eq!(graph.add_node(70), Some(0));
    assert_eq!(graph.node_count(), 2);
    assert_eq!(graph.label(0), Some(70));
    assert_eq!(graph.label(1), Some(10));
}

#[test]
fn test_add_edge_refuses_a_missing_node() {
    let mut graph = graph_with_nodes(2);
    assert!(!graph.add_edge(0, 2));
    assert!(!graph.add_edge(2, 0));
    assert_eq!(graph.edge_count(), 0);
    assert!(graph.add_edge(0, 1));
    assert_eq!(graph.edge_count(), 1);
}

#[test]
fn test_neighbors_come_newest_edge_first() {
    let mut graph = graph_with_nodes(4);
    assert!(graph.add_edge(0, 1));
    assert!(graph.add_edge(2, 0));
    assert!(graph.add_edge(0, 3));
    assert!(graph.add_edge(3, 0));
    // the edges that start at node 0, newest first, then those that end there
    assert_eq!(graph.neighbors(0), vec![3, 1, 3, 2]);
    assert_eq!(graph.neighbors(1), vec![0]);
    assert_eq!(graph.neighbors(3), vec![0, 0]);
    assert_eq!(graph.neighbors(4), Vec::<usize>::new());
}

#[test]
fn test_degree_counts_parallel_edges_and_a_loop_once() {
    let mut graph = graph_with_nodes(3);
    assert!(graph.add_edge(0, 1));
    assert!(graph.add_edge(1, 0));
    assert!(graph.add_edge(2, 2));
    assert_eq!(graph.degree(0), 2);
    assert_eq!(graph.degree(1), 2);
    assert_eq!(graph.degree(2), 1);
    assert_eq!(graph.degree(3), 0);
    assert_eq!(graph.neighbors(2), vec![2]);
}

#[test]
fn test_components_of_the_empty_graph() {
    let graph = RoadGraph::new();
    assert_eq!(analyze_connected_components(&graph), 0);
}

#[test]
fn test_components_count_isolated_nodes() {
    let mut graph = graph_with_nodes(6);
    assert_eq!(analyze_connected_components(&graph), 6);
    assert!(graph.add_edge(0, 1));
    assert!(graph.add_edge(1, 2));
    assert!(graph.add_edge(4, 3));
    assert_eq!(analyze_connected_components(&graph), 3);
    assert!(graph.add_edge(2, 3));
    assert_eq!(analyze_connected_components(&graph), 2);
    assert!(graph.add_edge(5, 5));
    assert_eq!(analyze_connected_components(&graph), 2);
}

#[test]
fn test_degree_distribution_counts_every_node_once() {
    let mut graph = graph_with_nodes(8);
    for leaf in 1..6 {
        assert!(graph.add_edge(0, leaf));
    }
    assert!(graph.add_edge(6, 6));
    let rows = analyze_degree_distribution(&graph);
    assert_eq!(rows, vec![(0, 1), (1, 6), (5, 1)]);
    let total: usize = rows.iter().map(|row| row.1).sum();
    assert_eq!(total, graph.node_count());
}

#[test]
fn test_degree_distribution_of_the_empty_graph() {
    let graph = RoadGraph::new();
    assert_eq!(analyze_degree_distribution(&graph), Vec::<(usize, usize)>::new());
}

#[test]
fn test_high_degree_count_agrees_with_the_distribution() {
    let mut graph = graph_with_nodes(12);
    for leaf in 1..6 {
        assert!(graph.add_edge(0, leaf));
    }
    for leaf in 1..5 {
        assert!(graph.add_edge(6, leaf));
    }
    for leaf in 1..8 {
        assert!(graph.add_edge(11, leaf));
    }
    // degrees: node 0 has 5, node 6 has 5, node 11 has 7
    assert_eq!(graph.degree(0), 5);
    assert_eq!(graph.degree(6), 5);
    assert_eq!(graph.degree(11), 7);
    let count = find_total_nodes_with_more_than_four_connections(&graph);
    assert_eq!(count, 3);
    let rows = analyze_degree_distribution(&graph);
    let above: usize = rows.iter().filter(|row| row.0 > 4).map(|row| row.1).sum();
    assert_eq!(above, count);
}

#[test]
fn test_degree_four_is_not_high() {
    let mut graph = graph_with_nodes(5);
    for leaf in 1..5 {
        assert!(graph.add_edge(0, leaf));
    }
    assert_eq!(find_total_nodes_with_more_than_four_connections(&graph), 0);
}

#[test]
fn test_index_gap_threshold() {
    assert!(is_index_gapped(0, 5000));
    assert!(is_index_gapped(5000, 0));
    assert!(!is_index_gapped(0, 4999));
    assert!(!is_index_gapped(4999, 0));
    assert!(!is_index_gapped(7, 7));
    assert!(is_index_gapped(usize::MAX, 0));
}

#[test]
fn test_distance_criteria_without_gapped_nodes() {
    let graph = create_test_graph();
    assert_eq!(count_nodes_with_distance_criteria(&graph), (0, 0));
}

#[test]
fn test_distance_criteria_on_a_path() {
    let mut graph = graph_with_nodes(5002);
    assert!(graph.add_edge(0, 1));
    assert!(graph.add_edge(1, 5001));
    // distance 1: node 1 sees 5001, node 5001 sees 1
    // distance 2: node 0 reaches 5001 through 1, node 5001 reaches 0 through 1
    assert_eq!(count_nodes_with_distance_criteria(&graph), (2, 2));
}

#[test]
fn test_distance_criteria_one_credit_per_first_hop() {
    let mut graph = graph_with_nodes(5003);
    assert!(graph.add_edge(0, 1));
    assert!(graph.add_edge(1, 5001));
    assert!(graph.add_edge(1, 5002));
    // node 0 reaches both 5001 and 5002 through node 1: one credit
    assert_eq!(count_nodes_with_distance_criteria(&graph), (4, 3));
}

#[test]
fn test_distance_criteria_parallel_edges() {
    let mut graph = graph_with_nodes(5001);
    assert!(graph.add_edge(0, 5000));
    assert!(graph.add_edge(0, 5000));
    // each end counts the other once at distance 1, whatever the number of edges
    assert_eq!(count_nodes_with_distance_criteria(&graph), (2, 0));
}

#[test]
fn test_distance_criteria_two_credits_over_parallel_first_hops() {
    let mut graph = graph_with_nodes(5002);
    assert!(graph.add_edge(0, 1));
    assert!(graph.add_edge(0, 1));
    assert!(graph.add_edge(1, 5001));
    // node 0 lists node 1 twice, and each entry earns its credit;
    // node 5001 lists node 1 once
    assert_eq!(count_nodes_with_distance_criteria(&graph), (2, 3));
}

#[test]
fn test_distance_criteria_skip_direct_neighbors_at_distance_two() {
    let mut graph = graph_with_nodes(5002);
    assert!(graph.add_edge(0, 1));
    assert!(graph.add_edge(1, 5001));
    assert!(graph.add_edge(0, 5001));
    // 5001 is a direct neighbor of 0, so it earns nothing at distance 2
    assert_eq!(count_nodes_with_distance_criteria(&graph), (4, 0));
}

#[test]
fn test_shortest_paths_of_the_cycle_with_a_chord() {
    let graph = create_test_graph();
    let mut paths = shortest_path_from_node(&graph, 1, 3).unwrap();
    paths.sort();
    assert_eq!(paths, vec![(0, 1), (1, 0), (2, 1), (3, 2), (4, 2)]);
}

#[test]
fn test_shortest_paths_respect_the_cutoff() {
    let mut graph = graph_with_nodes(6);
    for node in 0..4 {
        assert!(graph.add_edge(node, node + 1));
    }
    let mut paths = shortest_path_from_node(&graph, 0, 2).unwrap();
    paths.sort();
    assert_eq!(paths, vec![(0, 0), (1, 1), (2, 2)]);
    let mut all = shortest_path_from_node(&graph, 0, 10).unwrap();
    all.sort();
    // node 5 cannot be reached
    assert_eq!(all, vec![(0, 0), (1, 1), (2, 2), (3, 3), (4, 4)]);
    assert_eq!(shortest_path_from_node(&graph, 5, 0).unwrap(), vec![(5, 0)]);
}

#[test]
fn test_shortest_paths_start_out_of_range() {
    let graph = create_test_graph();
    assert_eq!(
        shortest_path_from_node(&graph, 5, 3),
        Err(AnalysisError::StartOutOfRange { start: 5, nodes: 5 })
    );
    assert_eq!(
        shortest_path_from_node(&graph, 456, 3),
        Err(AnalysisError::StartOutOfRange { start: 456, nodes: 5 })
    );
    let empty = RoadGraph::new();
    assert_eq!(
        shortest_path_from_node(&empty, 0, 3),
        Err(AnalysisError::StartOutOfRange { start: 0, nodes: 0 })
    );
}

#[test]
fn test_keep_within_keeps_the_order() {
    let found = vec![(4, 2), (0, 0), (9, 3), (1, 1), (7, 2)];
    assert_eq!(keep_within(&found, 2), vec![(4, 2), (0, 0), (1, 1), (7, 2)]);
    assert_eq!(keep_within(&found, 0), vec![(0, 0)]);
    assert_eq!(keep_within(&found, 3), found);
    assert_eq!(keep_within(&Vec::new(), 3), Vec::<(usize, u32)>::new());
}
