use rand::rngs::StdRng;
use rand::SeedableRng;
use txnet::graph::Graph;
use txnet::sampler::average_path_length;

fn line_graph() -> Graph {
    let mut graph = Graph::new();
    graph.add_edge("A", "B");
    graph.add_edge("B", "C");
    graph.add_edge("C", "D");
    graph
}

#[test]
fn test_estimate_reproducible_with_fixed_seed() {
    let graph = line_graph();

    let mut rng1 = StdRng::seed_from_u64(42);
    let first = average_path_length(&graph, &mut rng1, 50);

    let mut rng2 = StdRng::seed_from_u64(42);
    let second = average_path_length(&graph, &mut rng2, 50);

    assert_eq!(first, second);
}

#[test]
fn test_estimate_changes_with_seed_stream() {
    // One generator used twice walks on through its stream; the estimate
    // stays well-formed either way.
    let graph = line_graph();
    let mut rng = StdRng::seed_from_u64(7);
    let first = average_path_length(&graph, &mut rng, 25).unwrap();
    let second = average_path_length(&graph, &mut rng, 25).unwrap();
    for (sum, cnt) in [first, second] {
        assert!(cnt > 0);
        assert!(sum >= cnt as u128);
        // the longest shortest path in the line has three edges
        assert!(sum <= 3 * cnt as u128);
    }
}

#[test]
fn test_estimate_undefined_for_zero_samples() {
    let graph = line_graph();
    let mut rng = StdRng::seed_from_u64(1);
    assert_eq!(average_path_length(&graph, &mut rng, 0), None);
}

#[test]
fn test_estimate_undefined_for_single_node() {
    let mut graph = Graph::new();
    graph.add_edge("A", "A");
    assert_eq!(graph.node_count(), 1);
    let mut rng = StdRng::seed_from_u64(1);
    assert_eq!(average_path_length(&graph, &mut rng, 100), None);
}

#[test]
fn test_estimate_undefined_for_empty_graph() {
    let graph = Graph::new();
    let mut rng = StdRng::seed_from_u64(1);
    assert_eq!(average_path_length(&graph, &mut rng, 100), None);
}

#[test]
fn test_estimate_counts_only_connected_pairs() {
    // Two-node graph: every kept pair is A-B at distance one, so the sum
    // equals the count; a fixed seed keeps the run deterministic.
    let mut graph = Graph::new();
    graph.add_edge("A", "B");
    let mut rng = StdRng::seed_from_u64(3);
    let (sum, cnt) = average_path_length(&graph, &mut rng, 64).unwrap();
    assert!(cnt > 0 && cnt <= 64);
    assert_eq!(sum, cnt as u128);
}
