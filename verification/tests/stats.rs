use graph_distance::{
    average_distance, count_within_k_hops, percentage_within_k_hops,
    percentage_within_six_degrees, sample_vertices, vertex_keys, Graph, Ratio,
};
use rand::rngs::StdRng;
use rand::SeedableRng;

fn clusters() -> Graph {
    Graph::from_edges(&[(1, 2), (1, 3), (2, 1), (3, 1), (3, 5), (4, 5), (4, 6), (5, 4), (6, 4)])
}

fn tree() -> Graph {
    Graph::from_edges(&[(1, 2), (1, 3), (2, 1), (3, 1), (3, 4), (4, 3)])
}

#[test]
fn percentage_of_an_empty_graph_is_zero() {
    let graph = Graph::new();
    assert_eq!(percentage_within_six_degrees(&graph, 0), Ratio { numerator: 0, denominator: 1 });
    assert_eq!(percentage_within_k_hops(&graph, 0, 3), Ratio { numerator: 0, denominator: 1 });
    assert_eq!(count_within_k_hops(&graph, 0, 3), 0);
}

#[test]
fn percentage_within_six_degrees_of_the_clusters() {
    let graph = clusters();
    assert_eq!(percentage_within_six_degrees(&graph, 1), Ratio { numerator: 600, denominator: 6 });
    // From 5 only 4, 5 and 6 can be reached.
    assert_eq!(percentage_within_six_degrees(&graph, 5), Ratio { numerator: 300, denominator: 6 });
    // 6 is five edges from 2, so the sixth layer holds it.
    assert_eq!(percentage_within_six_degrees(&graph, 2), Ratio { numerator: 600, denominator: 6 });
}

#[test]
fn percentage_by_hop_bound() {
    let graph = clusters();
    assert_eq!(percentage_within_k_hops(&graph, 1, 0), Ratio { numerator: 0, denominator: 6 });
    assert_eq!(percentage_within_k_hops(&graph, 1, 1), Ratio { numerator: 100, denominator: 6 });
    assert_eq!(percentage_within_k_hops(&graph, 1, 2), Ratio { numerator: 300, denominator: 6 });
    assert_eq!(percentage_within_k_hops(&graph, 1, 3), Ratio { numerator: 400, denominator: 6 });
    assert_eq!(percentage_within_k_hops(&graph, 1, 4), Ratio { numerator: 500, denominator: 6 });
    assert_eq!(percentage_within_k_hops(&graph, 1, 5), Ratio { numerator: 600, denominator: 6 });
    assert_eq!(percentage_within_k_hops(&graph, 2, 5), Ratio { numerator: 500, denominator: 6 });
    assert_eq!(count_within_k_hops(&graph, 2, 5), 5);
}

#[test]
fn percentage_counts_vertices_with_an_entry_only() {
    // 2 and 3 are reached from 1 but have no entry.
    let graph = Graph::from_edges(&[(1, 2), (1, 3)]);
    assert_eq!(percentage_within_six_degrees(&graph, 1), Ratio { numerator: 100, denominator: 1 });
    assert_eq!(percentage_within_six_degrees(&graph, 2), Ratio { numerator: 0, denominator: 1 });
    // A start without an entry can still be where the search begins.
    let graph = Graph::from_edges(&[(1, 2), (2, 1), (3, 1)]);
    assert_eq!(percentage_within_six_degrees(&graph, 3), Ratio { numerator: 300, denominator: 3 });
    assert_eq!(percentage_within_six_degrees(&graph, 1), Ratio { numerator: 200, denominator: 3 });
}

#[test]
fn average_distance_of_a_small_sample_is_zero() {
    let graph = tree();
    assert_eq!(average_distance(&graph, &[]), Ratio { numerator: 0, denominator: 1 });
    assert_eq!(average_distance(&graph, &[1]), Ratio { numerator: 0, denominator: 1 });
    assert_eq!(average_distance(&graph, &[77]), Ratio { numerator: 0, denominator: 1 });
}

#[test]
fn average_distance_over_all_pairs() {
    let graph = tree();
    assert_eq!(average_distance(&graph, &[1, 2, 3, 4]), Ratio { numerator: 20, denominator: 12 });
    assert_eq!(average_distance(&graph, &[2, 4]), Ratio { numerator: 6, denominator: 2 });
    assert_eq!(average_distance(&graph, &[4, 2]), Ratio { numerator: 6, denominator: 2 });
}

#[test]
fn average_distance_counts_reachable_pairs_only() {
    let graph = Graph::from_edges(&[(1, 2)]);
    assert_eq!(average_distance(&graph, &[1, 2]), Ratio { numerator: 1, denominator: 1 });
    assert_eq!(average_distance(&graph, &[2, 3]), Ratio { numerator: 0, denominator: 1 });
    let graph = clusters();
    // 1 to 5 is two edges; nothing leads from 5 back to 1.
    assert_eq!(average_distance(&graph, &[1, 5]), Ratio { numerator: 2, denominator: 1 });
}

#[test]
fn average_distance_passes_over_equal_vertices() {
    let graph = tree();
    assert_eq!(average_distance(&graph, &[1, 1]), Ratio { numerator: 0, denominator: 1 });
    // The pairs (1, 4) and (4, 1) are each counted twice.
    assert_eq!(average_distance(&graph, &[1, 1, 4]), Ratio { numerator: 8, denominator: 4 });
}

#[test]
fn vertex_keys_are_the_entries() {
    let graph = clusters();
    let mut keys = vertex_keys(&graph);
    keys.sort();
    assert_eq!(keys, vec![1, 2, 3, 4, 5, 6]);
    assert_eq!(vertex_keys(&Graph::new()), Vec::<usize>::new());
    let mut keys = vertex_keys(&Graph::from_edges(&[(9, 1), (9, 2), (4, 9)]));
    keys.sort();
    assert_eq!(keys, vec![4, 9]);
}

#[test]
fn sample_holds_different_entries() {
    let graph = clusters();
    let mut rng = StdRng::seed_from_u64(2024);
    for _ in 0..50 {
        let sample = sample_vertices(&graph, &mut rng, 2);
        assert_eq!(sample.len(), 2);
        assert_ne!(sample[0], sample[1]);
        assert!(graph.adjacency_list.contains_key(&sample[0]));
        assert!(graph.adjacency_list.contains_key(&sample[1]));
    }
}

#[test]
fn sample_is_no_larger_than_the_graph() {
    let graph = clusters();
    let mut rng = StdRng::from_rng(rand::thread_rng()).unwrap();
    let mut sample = sample_vertices(&graph, &mut rng, 100);
    sample.sort();
    assert_eq!(sample, vec![1, 2, 3, 4, 5, 6]);
    assert_eq!(sample_vertices(&graph, &mut rng, 0), Vec::<usize>::new());
    assert_eq!(sample_vertices(&Graph::new(), &mut rng, 5), Vec::<usize>::new());
}

#[test]
fn average_distance_of_a_full_sample() {
    let graph = tree();
    let mut rng = StdRng::seed_from_u64(7);
    let sample = sample_vertices(&graph, &mut rng, 4);
    // Whatever the order of the sample, all twelve pairs are counted.
    assert_eq!(average_distance(&graph, &sample), Ratio { numerator: 20, denominator: 12 });
}

#[test]
fn sample_of_every_size() {
    let graph = clusters();
    let mut rng = StdRng::seed_from_u64(99);
    for size in 0..10usize {
        let mut sample = sample_vertices(&graph, &mut rng, size);
        assert_eq!(sample.len(), size.min(6));
        sample.sort();
        sample.dedup();
        assert_eq!(sample.len(), size.min(6));
        for vertex in sample {
            assert!(graph.adjacency_list.contains_key(&vertex));
        }
    }
}

#[test]
fn average_distance_of_a_sample_of_two() {
    let graph = tree();
    let mut rng = StdRng::seed_from_u64(5);
    for _ in 0..20 {
        let sample = sample_vertices(&graph, &mut rng, 2);
        let mean = average_distance(&graph, &sample);
        // The graph is connected both ways: both pairs count.
        assert_eq!(mean.denominator, 2);
        let there = graph_distance::distance(&graph, sample[0], sample[1]);
        let back = graph_distance::distance(&graph, sample[1], sample[0]);
        assert_eq!(Some(mean.numerator), there.zip(back).map(|(a, b)| (a + b) as u128));
    }
}
