use std::collections::HashSet;
use txnet::bfs;
use txnet::graph::Graph;

#[test]
fn test_add_edge_and_counts() {
    let mut graph = Graph::new();
    graph.add_edge("A", "B");
    graph.add_edge("A", "C");

    assert_eq!(graph.node_count(), 3);
    assert_eq!(graph.edge_count(), 2);
}

#[test]
fn test_neighbors() {
    let mut graph = Graph::new();
    graph.add_edge("A", "B");
    graph.add_edge("A", "C");

    let neighbors: HashSet<String> = graph.neighbors("A").unwrap().into_iter().collect();
    let expected: HashSet<String> = ["B", "C"].iter().cloned().map(String::from).collect();

    assert_eq!(neighbors, expected);
}

#[test]
fn test_shortest_path() {
    let mut graph = Graph::new();
    graph.add_edge("A", "B");
    graph.add_edge("B", "C");

    let path = bfs::shortest_path(&graph, "A", "C");
    assert_eq!(path, Some(vec!["A".to_string(), "B".to_string(), "C".to_string()]));
}

#[test]
fn test_top_k_nodes() {
    let mut graph = Graph::new();
    graph.add_edge("A", "B");
    graph.add_edge("A", "C");
    graph.add_edge("A", "D");
    graph.add_edge("B", "C");

    let top = graph.top_k_nodes(1);
    // Node A should be the top node with degree 3
    assert_eq!(top[0], ("A".to_string(), 3));
}

#[test]
fn test_neighbor_symmetry() {
    let mut graph = Graph::new();
    graph.add_edge("A", "B");
    graph.add_edge("B", "C");

    for (a, b) in [("A", "B"), ("B", "C")] {
        let na: Vec<String> = graph.neighbors(a).unwrap();
        let nb: Vec<String> = graph.neighbors(b).unwrap();
        assert!(na.contains(&b.to_string()));
        assert!(nb.contains(&a.to_string()));
    }
}

#[test]
fn test_edge_count_is_half_of_even_degree_sum() {
    let mut graph = Graph::new();
    graph.add_edge("A", "B");
    graph.add_edge("A", "C");
    graph.add_edge("B", "C");
    graph.add_edge("C", "D");

    let mut degree_sum = 0;
    for node in graph.nodes() {
        degree_sum += graph.neighbors(&node).unwrap().len();
    }
    assert_eq!(degree_sum % 2, 0);
    assert_eq!(graph.edge_count(), degree_sum / 2);
}

#[test]
fn test_duplicate_edge_changes_nothing() {
    let mut graph = Graph::new();
    graph.add_edge("A", "B");
    graph.add_edge("A", "C");
    let nodes_before = graph.node_count();
    let edges_before = graph.edge_count();
    let neighbors_before = graph.neighbors("A").unwrap();

    graph.add_edge("A", "B");

    assert_eq!(graph.node_count(), nodes_before);
    assert_eq!(graph.edge_count(), edges_before);
    assert_eq!(graph.neighbors("A").unwrap(), neighbors_before);
}

#[test]
fn test_shortest_path_same_node_even_if_absent() {
    let graph = Graph::new();
    let path = bfs::shortest_path(&graph, "X", "X");
    assert_eq!(path, Some(vec!["X".to_string()]));

    let mut graph2 = Graph::new();
    graph2.add_edge("A", "B");
    let path2 = bfs::shortest_path(&graph2, "A", "A");
    assert_eq!(path2, Some(vec!["A".to_string()]));
}

#[test]
fn test_shortest_path_disjoint_components() {
    let mut graph = Graph::new();
    graph.add_edge("A", "B");
    graph.add_edge("C", "D");

    assert_eq!(bfs::shortest_path(&graph, "A", "C"), None);
    assert_eq!(bfs::shortest_path(&graph, "A", "Z"), None);
}

#[test]
fn test_shortest_path_takes_minimal_route() {
    // A ring with a chord: A-B, B-C, C-D, D-E, E-A; A to D is two edges
    // through E, not three through B and C.
    let mut graph = Graph::new();
    graph.add_edge("A", "B");
    graph.add_edge("B", "C");
    graph.add_edge("C", "D");
    graph.add_edge("D", "E");
    graph.add_edge("E", "A");

    let path = bfs::shortest_path(&graph, "A", "D").unwrap();
    assert_eq!(path.len(), 3);
    assert_eq!(path.first().unwrap(), "A");
    assert_eq!(path.last().unwrap(), "D");
}

#[test]
fn test_triangle_scenario() {
    let mut graph = Graph::new();
    graph.add_edge("A", "B");
    graph.add_edge("A", "C");
    graph.add_edge("B", "C");

    assert_eq!(graph.node_count(), 3);
    assert_eq!(graph.edge_count(), 3);
    assert_eq!(graph.degree_distribution(), vec![(2, 3)]);

    let top = graph.top_k_nodes(1);
    assert_eq!(top.len(), 1);
    assert_eq!(top[0].1, 2);

    let path = bfs::shortest_path(&graph, "A", "C").unwrap();
    assert_eq!(path.len(), 2);
}

#[test]
fn test_degree_distribution_ascending() {
    let mut graph = Graph::new();
    graph.add_edge("A", "B");
    graph.add_edge("A", "C");
    graph.add_edge("A", "D");
    graph.add_edge("B", "C");

    // degrees: A=3, B=2, C=2, D=1
    assert_eq!(graph.degree_distribution(), vec![(1, 1), (2, 2), (3, 1)]);
}

#[test]
fn test_top_k_sorted_and_truncated() {
    let mut graph = Graph::new();
    graph.add_edge("A", "B");
    graph.add_edge("A", "C");
    graph.add_edge("A", "D");
    graph.add_edge("B", "C");

    let all = graph.top_k_nodes(10);
    assert_eq!(all.len(), 4);
    for pair in all.windows(2) {
        assert!(pair[0].1 >= pair[1].1);
    }
    for (node, degree) in &all {
        assert_eq!(graph.neighbors(node).unwrap().len(), *degree);
    }

    let two = graph.top_k_nodes(2);
    assert_eq!(two.len(), 2);
}

#[test]
fn test_nodes_lists_every_node_once() {
    let mut graph = Graph::new();
    graph.add_edge("A", "B");
    graph.add_edge("B", "C");
    graph.add_edge("A", "C");

    let mut names = graph.nodes();
    names.sort();
    assert_eq!(names, vec!["A".to_string(), "B".to_string(), "C".to_string()]);
}
