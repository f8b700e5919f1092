use algokit::dijkstra::{pop_min, DijkstraOptimizer};
use std::collections::HashMap;

fn sample() -> HashMap<usize, Vec<(usize, usize)>> {
    let mut graph = HashMap::new();
    graph.insert(0, vec![(1, 4), (2, 2)]);
    graph.insert(1, vec![(3, 5)]);
    graph.insert(2, vec![(1, 1), (3, 8)]);
    graph.insert(3, vec![]);
    graph
}

#[test]
fn pop_min_takes_the_least_entry() {
    let mut heap = vec![(5, 1), (2, 7), (9, 0), (2, 3)];
    let first = pop_min(&mut heap).unwrap();
    assert_eq!(first.0, 2);
    assert_eq!(heap.len(), 3);
    let second = pop_min(&mut heap).unwrap();
    assert_eq!(second.0, 2);
    assert_ne!(first.1, second.1);
    assert_eq!(pop_min(&mut heap), Some((5, 1)));
    assert_eq!(pop_min(&mut heap), Some((9, 0)));
    assert_eq!(pop_min(&mut heap), None);
    assert!(heap.is_empty());
}

#[test]
fn first_query_finds_the_shortest_walk() {
    let mut optimizer = DijkstraOptimizer::new(sample());
    // 0 -> 2 -> 1 -> 3 weighs 2 + 1 + 5.
    assert_eq!(optimizer.query(0, 3), Some(8));
}

#[test]
fn later_queries_go_through_earlier_starts() {
    let mut optimizer = DijkstraOptimizer::new(sample());
    assert_eq!(optimizer.query(0, 3), Some(8));
    assert_eq!(optimizer.query(1, 3), Some(5));
    // 2 -> 1 -> 3 weighs 1 + 5, less than the edge of weight 8.
    assert_eq!(optimizer.query(2, 3), Some(6));
    assert_eq!(optimizer.query(0, 0), Some(0));
    assert_eq!(optimizer.query(0, 1), Some(3));
    assert_eq!(optimizer.query(0, 3), Some(8));
}

#[test]
fn answers_do_not_depend_on_earlier_queries() {
    let mut used = DijkstraOptimizer::new(sample());
    for round in 0..3 {
        for start in 0..4 {
            for end in 0..4 {
                let fresh = DijkstraOptimizer::new(sample()).query(start, end);
                assert_eq!(used.query(start, end), fresh, "round {round}: {start} -> {end}");
            }
        }
    }
    assert_eq!(used.query(2, 0), None);
    assert_eq!(used.query(2, 1), Some(1));
}

#[test]
fn fresh_optimizer_goes_through_any_vertex() {
    let mut optimizer = DijkstraOptimizer::new(sample());
    assert_eq!(optimizer.query(2, 3), Some(6));
}

#[test]
fn start_equal_to_end_is_at_distance_zero() {
    let mut optimizer = DijkstraOptimizer::new(sample());
    assert_eq!(optimizer.query(3, 3), Some(0));
    assert_eq!(optimizer.query(2, 2), Some(0));
    // Also for a vertex that the graph does not know.
    assert_eq!(optimizer.query(17, 17), Some(0));
}

#[test]
fn unreachable_end_gives_none() {
    let mut optimizer = DijkstraOptimizer::new(sample());
    assert_eq!(optimizer.query(3, 0), None);
    let mut optimizer = DijkstraOptimizer::new(sample());
    assert_eq!(optimizer.query(1, 2), None);
}

#[test]
fn empty_graph() {
    let mut optimizer = DijkstraOptimizer::new(HashMap::new());
    assert_eq!(optimizer.query(0, 0), Some(0));
    assert_eq!(optimizer.query(0, 5), None);
}

#[test]
fn cycles_and_parallel_edges() {
    let mut graph = HashMap::new();
    graph.insert(0, vec![(1, 7), (1, 3), (0, 1)]);
    graph.insert(1, vec![(0, 1), (2, 4), (2, 9)]);
    graph.insert(2, vec![(1, 1)]);
    let mut optimizer = DijkstraOptimizer::new(graph);
    assert_eq!(optimizer.query(0, 2), Some(7));
}

#[test]
fn edges_of_weight_zero() {
    let mut graph = HashMap::new();
    graph.insert(0, vec![(1, 0), (2, 5)]);
    graph.insert(1, vec![(2, 0)]);
    graph.insert(2, vec![]);
    let mut optimizer = DijkstraOptimizer::new(graph);
    assert_eq!(optimizer.query(0, 2), Some(0));
}

#[test]
fn longer_chain_beats_heavy_shortcut() {
    let mut graph = HashMap::new();
    graph.insert(0, vec![(5, 100), (1, 1)]);
    graph.insert(1, vec![(2, 1)]);
    graph.insert(2, vec![(3, 1)]);
    graph.insert(3, vec![(4, 1)]);
    graph.insert(4, vec![(5, 1)]);
    graph.insert(5, vec![]);
    let mut optimizer = DijkstraOptimizer::new(graph);
    assert_eq!(optimizer.query(0, 5), Some(5));
}

#[test]
fn bounded_graph_is_recognised() {
    let optimizer = DijkstraOptimizer::new(sample());
    assert!(optimizer.is_bounded());
    assert!(DijkstraOptimizer::new(HashMap::new()).is_bounded());
}

#[test]
fn edge_out_of_range_is_not_bounded() {
    let mut graph = HashMap::new();
    graph.insert(0, vec![(1, 1)]);
    graph.insert(1, vec![(7, 1)]);
    let mut optimizer = DijkstraOptimizer::new(graph);
    assert!(!optimizer.is_bounded());
    assert_eq!(optimizer.try_query(0, 1), None);
}

#[test]
fn heavy_edge_is_not_bounded() {
    let mut graph = HashMap::new();
    graph.insert(0, vec![(1, usize::MAX / 2)]);
    graph.insert(1, vec![(0, 3)]);
    let optimizer = DijkstraOptimizer::new(graph);
    assert!(!optimizer.is_bounded());
    let mut graph = HashMap::new();
    graph.insert(0, vec![(1, (usize::MAX - 1) / 3)]);
    graph.insert(1, vec![(0, 3)]);
    assert!(DijkstraOptimizer::new(graph).is_bounded());
    let mut graph = HashMap::new();
    graph.insert(0, vec![(1, (usize::MAX - 1) / 3 + 1)]);
    graph.insert(1, vec![(0, 3)]);
    assert!(!DijkstraOptimizer::new(graph).is_bounded());
}

#[test]
fn try_query_answers_like_query() {
    let mut optimizer = DijkstraOptimizer::new(sample());
    assert_eq!(optimizer.try_query(0, 3), Some(Some(8)));
    assert_eq!(optimizer.try_query(1, 3), Some(Some(5)));
    assert_eq!(optimizer.try_query(2, 3), Some(Some(6)));
    assert_eq!(optimizer.try_query(3, 0), Some(None));
    // A start that the graph does not know is taken only as its own end.
    assert_eq!(optimizer.try_query(9, 3), None);
    assert_eq!(optimizer.try_query(9, 9), Some(Some(0)));
    assert_eq!(optimizer.try_query(2, 3), Some(Some(6)));
}
