use graph_distance::{
    breadth_first_search, dequeues_before, distance, reachable_within_k_hops,
    six_degrees_of_separation, Found, Graph,
};
use std::collections::HashMap;

fn two_clusters() -> Graph {
    let mut graph = Graph { adjacency_list: HashMap::new() };
    graph.adjacency_list.insert(1, vec![2, 3]);
    graph.adjacency_list.insert(2, vec![1]);
    graph.adjacency_list.insert(3, vec![1, 5]);
    graph.adjacency_list.insert(4, vec![5, 6]);
    graph.adjacency_list.insert(5, vec![4]);
    graph.adjacency_list.insert(6, vec![4]);
    graph
}

fn small_tree() -> Graph {
    let mut graph = Graph { adjacency_list: HashMap::new() };
    graph.adjacency_list.insert(1, vec![2, 3]);
    graph.adjacency_list.insert(2, vec![1]);
    graph.adjacency_list.insert(3, vec![1, 4]);
    graph.adjacency_list.insert(4, vec![3]);
    graph
}

fn single_edge() -> Graph {
    Graph::from_edges(&[(1, 2)])
}

#[test]
fn test_six_degrees() {
    let graph = two_clusters();
    assert!(six_degrees_of_separation(&graph, 1, 2));
    assert!(six_degrees_of_separation(&graph, 3, 5));
    assert!(six_degrees_of_separation(&graph, 2, 6));
}

#[test]
fn test_distance() {
    let graph = small_tree();
    let distance_from_1_to_2 = distance(&graph, 1, 2);
    assert_eq!(distance_from_1_to_2, Some(1));
    let distance_from_1_to_4 = distance(&graph, 1, 4);
    assert_eq!(distance_from_1_to_4, Some(2));
}

#[test]
fn distance_to_self_is_zero() {
    let graph = small_tree();
    assert_eq!(distance(&graph, 1, 1), Some(0));
    assert_eq!(distance(&graph, 4, 4), Some(0));
    // A vertex without an entry still reaches itself.
    assert_eq!(distance(&graph, 99, 99), Some(0));
    assert_eq!(distance(&Graph::new(), 7, 7), Some(0));
}

#[test]
fn distance_is_the_least_number_of_edges() {
    let graph = two_clusters();
    assert_eq!(distance(&graph, 2, 6), Some(5));
    assert_eq!(distance(&graph, 1, 5), Some(2));
    assert_eq!(distance(&graph, 6, 5), Some(2));
    // Two walks lead from 0 to 3; the shorter one counts.
    let diamond = Graph::from_edges(&[(0, 1), (1, 2), (2, 3), (0, 3)]);
    assert_eq!(distance(&diamond, 0, 3), Some(1));
    assert_eq!(distance(&diamond, 1, 3), Some(2));
}

#[test]
fn distance_follows_the_direction_of_edges() {
    let graph = two_clusters();
    // 5 leads to 4 and 6 only: nothing leads back to 1.
    assert_eq!(distance(&graph, 5, 1), None);
    assert_eq!(distance(&graph, 6, 3), None);
    let graph = single_edge();
    assert_eq!(distance(&graph, 1, 2), Some(1));
    assert_eq!(distance(&graph, 2, 1), None);
}

#[test]
fn distance_of_absent_vertices_is_none() {
    let graph = small_tree();
    assert_eq!(distance(&graph, 1, 99), None);
    assert_eq!(distance(&graph, 99, 1), None);
    assert_eq!(distance(&Graph::new(), 1, 2), None);
}

#[test]
fn distance_with_self_loops_and_parallel_edges() {
    let graph = Graph::from_edges(&[(1, 1), (1, 2), (1, 2), (2, 2), (2, 3)]);
    assert_eq!(distance(&graph, 1, 1), Some(0));
    assert_eq!(distance(&graph, 1, 3), Some(2));
    assert_eq!(distance(&graph, 3, 1), None);
}

#[test]
fn dequeue_count_on_the_small_tree() {
    let graph = small_tree();
    assert_eq!(dequeues_before(&graph, 1, 1), Some(0));
    assert_eq!(dequeues_before(&graph, 1, 2), Some(1));
    assert_eq!(dequeues_before(&graph, 1, 3), Some(2));
    // 1, 2 and 3 leave the queue before 4 does, though 4 is two edges away.
    assert_eq!(dequeues_before(&graph, 1, 4), Some(3));
    assert_eq!(dequeues_before(&graph, 1, 99), None);
}

#[test]
fn dequeue_count_on_the_two_clusters() {
    let graph = two_clusters();
    assert_eq!(dequeues_before(&graph, 1, 2), Some(1));
    assert_eq!(dequeues_before(&graph, 3, 5), Some(2));
    assert_eq!(dequeues_before(&graph, 2, 6), Some(5));
    assert_eq!(dequeues_before(&graph, 5, 1), None);
}

#[test]
fn dequeue_count_depends_on_the_order_of_neighbours() {
    let first = Graph::from_edges(&[(1, 2), (1, 3)]);
    let second = Graph::from_edges(&[(1, 3), (1, 2)]);
    assert_eq!(dequeues_before(&first, 1, 3), Some(2));
    assert_eq!(dequeues_before(&second, 1, 3), Some(1));
    assert_eq!(distance(&first, 1, 3), Some(1));
    assert_eq!(distance(&second, 1, 3), Some(1));
}

#[test]
fn search_gives_both_counts() {
    let graph = small_tree();
    assert_eq!(breadth_first_search(&graph, 1, 4), Some(Found { hops: 2, dequeued: 3 }));
    assert_eq!(breadth_first_search(&graph, 1, 1), Some(Found { hops: 0, dequeued: 0 }));
    assert_eq!(breadth_first_search(&graph, 4, 2), Some(Found { hops: 3, dequeued: 3 }));
    assert_eq!(breadth_first_search(&graph, 1, 5), None);
}

#[test]
fn dequeue_count_is_never_below_the_distance() {
    let graph = two_clusters();
    for from in 1..7usize {
        for to in 1..7usize {
            match breadth_first_search(&graph, from, to) {
                Some(found) => {
                    assert!(found.hops <= found.dequeued);
                    assert_eq!(distance(&graph, from, to), Some(found.hops));
                    assert_eq!(dequeues_before(&graph, from, to), Some(found.dequeued));
                }
                None => {
                    assert_eq!(distance(&graph, from, to), None);
                    assert_eq!(dequeues_before(&graph, from, to), None);
                }
            }
        }
    }
}

#[test]
fn hops_on_the_two_clusters() {
    let graph = two_clusters();
    assert!(reachable_within_k_hops(&graph, 1, 2, 6));
    assert!(reachable_within_k_hops(&graph, 3, 5, 6));
    assert!(reachable_within_k_hops(&graph, 2, 6, 6));
    // 6 is five edges from 2: the sixth layer is the first to hold it.
    assert!(!reachable_within_k_hops(&graph, 2, 6, 5));
    assert!(!six_degrees_of_separation(&graph, 5, 1));
}

#[test]
fn hops_count_layers() {
    let graph = single_edge();
    assert!(!reachable_within_k_hops(&graph, 1, 1, 0));
    assert!(reachable_within_k_hops(&graph, 1, 1, 1));
    assert!(!reachable_within_k_hops(&graph, 1, 2, 0));
    assert!(!reachable_within_k_hops(&graph, 1, 2, 1));
    assert!(reachable_within_k_hops(&graph, 1, 2, 2));
    assert!(!reachable_within_k_hops(&graph, 2, 1, 100));
}

#[test]
fn hops_agree_with_distance() {
    let graph = two_clusters();
    for from in 0..8usize {
        for to in 0..8usize {
            let d = distance(&graph, from, to);
            for k in 0..8usize {
                let expected = match d {
                    Some(d) => d < k,
                    None => false,
                };
                assert_eq!(reachable_within_k_hops(&graph, from, to, k), expected);
            }
        }
    }
}

#[test]
fn hops_on_a_long_chain() {
    let edges: Vec<(usize, usize)> = (0..10usize).map(|i| (i, i + 1)).collect();
    let graph = Graph::from_edges(&edges);
    assert!(six_degrees_of_separation(&graph, 0, 5));
    assert!(!six_degrees_of_separation(&graph, 0, 6));
    assert_eq!(distance(&graph, 0, 10), Some(10));
    assert_eq!(dequeues_before(&graph, 0, 10), Some(10));
}

#[test]
fn hops_with_repeated_neighbours() {
    let graph = Graph::from_edges(&[(1, 2), (1, 2), (1, 2), (2, 3), (2, 3), (3, 1)]);
    assert!(reachable_within_k_hops(&graph, 1, 3, 3));
    assert!(!reachable_within_k_hops(&graph, 1, 3, 2));
    assert!(!reachable_within_k_hops(&graph, 1, 4, 50));
}
