use static_graph::graph::{edge_slice, is_in_bounds, is_well_formed, GraphTrait, GraphVector};

fn sample() -> GraphVector<u64> {
    GraphVector { nodes: vec![0, 2, 2, 5], edges: vec![1, 3, 4, 6, 9] }
}

#[test]
fn edges_follow_the_offsets() {
    let graph = sample();
    assert!(is_well_formed(&graph.nodes, &graph.edges));
    assert_eq!(graph.edges(0), &[1u64, 3]);
    assert_eq!(graph.edges(1).len(), 0);
    assert_eq!(graph.edges(2), &[4u64, 6, 9]);
}

#[test]
fn edges_have_the_length_between_two_offsets() {
    let graph = sample();
    for node in 0..graph.nodes() - 1 {
        let edges = graph.edges(node);
        assert_eq!(edges.len() as u64, graph.nodes[node + 1] - graph.nodes[node]);
        assert!(edges.windows(2).all(|pair| pair[0] <= pair[1]));
    }
}

#[test]
fn nodes_counts_the_sentinel() {
    assert_eq!(sample().nodes(), 4);
    let none: GraphVector<u64> = GraphVector { nodes: vec![], edges: vec![] };
    assert_eq!(none.nodes(), 0);
}

#[test]
fn edges_are_empty_from_the_last_index_on() {
    let graph = sample();
    assert_eq!(graph.edges(3).len(), 0);
    assert_eq!(graph.edges(4).len(), 0);
    assert_eq!(graph.edges(1_000_000).len(), 0);
    assert_eq!(graph.edges(usize::MAX).len(), 0);
}

#[test]
fn edges_of_a_graph_without_offsets_are_empty() {
    let none: GraphVector<u64> = GraphVector { nodes: vec![], edges: vec![] };
    assert_eq!(none.edges(0).len(), 0);
    let one: GraphVector<u64> = GraphVector { nodes: vec![0], edges: vec![] };
    assert_eq!(one.edges(0).len(), 0);
}

#[test]
fn edge_slice_reads_borrowed_arrays() {
    let offsets = [0u64, 1, 3];
    let targets = ["a", "b", "c"];
    assert_eq!(edge_slice(&offsets, &targets, 0), &["a"]);
    assert_eq!(edge_slice(&offsets, &targets, 1), &["b", "c"]);
    assert_eq!(edge_slice(&offsets, &targets, 2).len(), 0);
}

#[test]
fn is_in_bounds_rejects_descending_and_overlong_offsets() {
    assert!(is_in_bounds(&[], 0));
    assert!(is_in_bounds(&[0, 2, 2, 5], 5));
    assert!(is_in_bounds(&[0, 2, 2, 4], 5));
    assert!(!is_in_bounds(&[0, 2, 1, 5], 5));
    assert!(!is_in_bounds(&[0, 2, 2, 6], 5));
    assert!(!is_in_bounds(&[7], 5));
}

#[test]
fn is_well_formed_rejects_an_unsorted_row() {
    assert!(is_well_formed(&[0, 2, 2, 5], &[1u64, 3, 4, 6, 9]));
    assert!(is_well_formed(&[0, 2, 2, 5], &[8u64, 9, 4, 6, 9]));
    assert!(!is_well_formed(&[0, 2, 2, 5], &[3u64, 1, 4, 6, 9]));
    assert!(!is_well_formed(&[0, 2, 2, 5], &[1u64, 3, 4, 9, 6]));
    assert!(!is_well_formed(&[0, 2, 2, 6], &[1u64, 3, 4, 6, 9]));
    assert!(is_well_formed(&[0, 2, 2, 4], &[1u64, 3, 4, 6, 0]));
    let empty: &[u64] = &[];
    assert!(is_well_formed(&[], empty));
}
