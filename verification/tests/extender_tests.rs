use static_graph::extender::GraphExtenderExt;
use static_graph::filter::{retain_intersection, retain_galloping, retain_merging, GALLOP_RATIO};
use static_graph::graph::GraphVector;
use std::rc::Rc;

fn sample() -> Rc<GraphVector<u64>> {
    Rc::new(GraphVector { nodes: vec![0, 2, 2, 5], edges: vec![1, 3, 4, 6, 9] })
}

#[test]
fn extender_serves_the_routed_node() {
    let extender = sample().extend_using(|_prefix: &(u64, u64)| 2);
    let prefix = (7, 8);
    assert_eq!(extender.count(&prefix), 3);
    let mut list = vec![];
    extender.propose(&prefix, &mut list);
    assert_eq!(list, vec![4, 6, 9]);
    let mut list = vec![3, 4, 6];
    extender.intersect(&prefix, &mut list);
    assert_eq!(list, vec![4, 6]);
}

#[test]
fn count_is_the_number_of_edges_of_the_routed_node() {
    let extender = sample().extend_using(|prefix: &u64| *prefix);
    assert_eq!(extender.count(&0), 2);
    assert_eq!(extender.count(&1), 0);
    assert_eq!(extender.count(&2), 3);
    assert_eq!(extender.count(&3), 0);
    assert_eq!(extender.count(&4), 0);
    assert_eq!(extender.count(&u64::MAX), 0);
    assert_eq!(extender.count(&(1u64 << 32)), 0);
    assert_eq!(extender.count(&((1u64 << 32) + 2)), 0);
}

#[test]
fn propose_replaces_the_list() {
    let extender = sample().extend_using(|prefix: &u64| *prefix);
    let mut list = vec![100, 200, 300, 400];
    extender.propose(&0, &mut list);
    assert_eq!(list, vec![1, 3]);
    extender.propose(&1, &mut list);
    assert_eq!(list, Vec::<u64>::new());
    extender.propose(&2, &mut list);
    assert_eq!(list, vec![4, 6, 9]);
    extender.propose(&9, &mut list);
    assert_eq!(list, Vec::<u64>::new());
}

#[test]
fn propose_clones_targets_that_are_not_copy() {
    let graph = Rc::new(GraphVector {
        nodes: vec![0, 2],
        edges: vec![String::from("ada"), String::from("bob")],
    });
    let extender = graph.extend_using(|_prefix: &()| 0);
    let mut list = vec![String::from("zed")];
    extender.propose(&(), &mut list);
    assert_eq!(list, vec![String::from("ada"), String::from("bob")]);
    assert_eq!(extender.count(&()), 2);
    let mut list = vec![String::from("bob"), String::from("cy")];
    extender.intersect(&(), &mut list);
    assert_eq!(list, vec![String::from("bob")]);
}

#[test]
fn intersect_keeps_members_in_order() {
    let extender = sample().extend_using(|prefix: &u64| *prefix);
    let mut list = vec![0, 1, 2, 3, 4, 5, 6, 7, 8, 9, 10];
    extender.intersect(&2, &mut list);
    assert_eq!(list, vec![4, 6, 9]);
    let mut list = vec![0, 1, 1, 2, 3, 3, 10];
    extender.intersect(&0, &mut list);
    assert_eq!(list, vec![1, 1, 3, 3]);
    let mut list = vec![1, 3, 4];
    extender.intersect(&1, &mut list);
    assert_eq!(list, Vec::<u64>::new());
    let mut list = vec![1, 3, 4];
    extender.intersect(&77, &mut list);
    assert_eq!(list, Vec::<u64>::new());
    let mut list = vec![];
    extender.intersect(&2, &mut list);
    assert_eq!(list, Vec::<u64>::new());
}

#[test]
fn intersect_drops_a_candidate_that_follows_a_greater_one() {
    let graph = Rc::new(GraphVector { nodes: vec![0, 2], edges: vec![3u64, 5] });
    let extender = graph.extend_using(|_prefix: &u64| 0);
    let mut list = vec![5, 3];
    extender.intersect(&0, &mut list);
    assert_eq!(list, vec![5]);
    let mut list = vec![3, 5, 3, 5];
    extender.intersect(&0, &mut list);
    assert_eq!(list, vec![3, 5, 5]);
}

#[test]
fn intersect_gallops_through_a_long_row() {
    let targets: Vec<u64> = (0..1000).map(|i| 2 * i).collect();
    let graph = Rc::new(GraphVector { nodes: vec![0, 1000], edges: targets });
    let extender = graph.extend_using(|_prefix: &u64| 0);
    let mut list = vec![1, 2, 3, 500, 501, 1998, 1999, 2000, 5000];
    assert!(list.len() < 1000 / GALLOP_RATIO);
    extender.intersect(&0, &mut list);
    assert_eq!(list, vec![2, 500, 1998]);
}

#[test]
fn both_strategies_keep_the_same_candidates() {
    for len in 0..12u64 {
        let edges: Vec<u64> = (0..len).map(|i| 3 * i / 2).collect();
        for seed in 0..200u64 {
            let mut state = seed * 2654435761 + 12345;
            let mut list = vec![];
            for _ in 0..(seed % 7) {
                state = state.wrapping_mul(6364136223846793005).wrapping_add(1442695040888963407);
                list.push((state >> 33) % 20);
            }
            let mut galloped = list.clone();
            retain_galloping(&edges, &mut galloped);
            let mut merged = list.clone();
            retain_merging(&edges, &mut merged);
            let mut chosen = list.clone();
            retain_intersection(&edges, &mut chosen);
            assert_eq!(galloped, merged);
            assert_eq!(chosen, merged);
            let mut highest = None;
            let mut expected = vec![];
            for value in list {
                if highest.map_or(true, |h| h <= value) {
                    highest = Some(value);
                    if edges.contains(&value) {
                        expected.push(value);
                    }
                }
            }
            assert_eq!(merged, expected);
        }
    }
}

#[test]
fn ascending_candidates_are_filtered_by_membership() {
    let edges = [1u64, 4, 4, 7, 10, 12];
    let list: Vec<u64> = vec![0, 1, 1, 2, 4, 5, 7, 7, 11, 12, 13];
    let expected: Vec<u64> = list.iter().copied().filter(|v| edges.contains(v)).collect();
    let mut galloped = list.clone();
    retain_galloping(&edges, &mut galloped);
    assert_eq!(galloped, expected);
    let mut merged = list.clone();
    retain_merging(&edges, &mut merged);
    assert_eq!(merged, expected);
    assert_eq!(expected, vec![1, 1, 4, 7, 7, 12]);
}

#[test]
fn logic_hands_out_the_routing_function() {
    let extender = sample().extend_using(|prefix: &u64| *prefix + 1);
    let route = extender.logic();
    assert_eq!((*route)(&1), 2);
    assert_eq!(extender.count(&1), 3);
}

#[test]
fn extenders_share_one_graph() {
    let graph = sample();
    let first = graph.extend_using(|_prefix: &u64| 0);
    let second = graph.extend_using(|_prefix: &u8| 2);
    assert_eq!(first.count(&9), 2);
    assert_eq!(second.count(&9), 3);
    assert_eq!(Rc::strong_count(&graph), 3);
}
