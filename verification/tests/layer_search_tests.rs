use vecta::hnsw::{HnswGraph, HnswNode};
use vecta::layer_search::{f32_less, LayerSearch};
use vecta::metric::Metric;
use vecta::topk::ScoredId;

fn bits(v: &[f32]) -> Vec<u32> {
    v.iter().map(|x| x.to_bits()).collect()
}

fn distance(a: &[u32], b: &[f32]) -> f32 {
    a.iter()
        .zip(b)
        .map(|(x, y)| {
            let d = f32::from_bits(*x) - y;
            d * d
        })
        .sum::<f32>()
        .sqrt()
}

/// Drive a layer search over `graph`, scoring nodes by Euclidean distance.
fn greedy_search_layer(graph: &HnswGraph, query: &[f32], entry_points: &[usize], layer: usize, ef: usize) -> Vec<ScoredId> {
    let score = |n: usize| distance(graph.get_vector(n), query).to_bits();
    let (mut search, seeds) = LayerSearch::begin(graph.len(), entry_points, ef);
    let d: Vec<u32> = seeds.iter().map(|&n| score(n)).collect();
    search.seed(&seeds, &d);
    while let Some(node) = search.next_node() {
        let fresh = search.unvisited(graph.get_neighbors(node, layer));
        let d: Vec<u32> = fresh.iter().map(|&n| score(n)).collect();
        search.absorb(&fresh, &d);
    }
    search.finish()
}

fn line_graph() -> HnswGraph {
    let mut graph = HnswGraph::new(2, Metric::Euclidean);
    for (i, x) in [0.0f32, 1.0, 2.0, 10.0].iter().enumerate() {
        graph.vectors.push(&bits(&[*x, 0.0]));
        graph.id_to_index.insert(i as u64, i);
    }
    graph.nodes.push(HnswNode { id: 0, vector_idx: 0, max_layer: 0, neighbors: vec![vec![1]] });
    graph.nodes.push(HnswNode { id: 1, vector_idx: 1, max_layer: 0, neighbors: vec![vec![0, 2]] });
    graph.nodes.push(HnswNode { id: 2, vector_idx: 2, max_layer: 0, neighbors: vec![vec![1, 3]] });
    graph.nodes.push(HnswNode { id: 3, vector_idx: 3, max_layer: 0, neighbors: vec![vec![2]] });
    graph.entry_point = Some(0);
    graph
}

#[test]
fn test_greedy_search_layer_on_small_graph() {
    let graph = line_graph();
    let query = [2.1, 0.0];
    let results = greedy_search_layer(&graph, &query, &[0], 0, 2);

    assert_eq!(results.len(), 2);
    assert_eq!(results[0].id, 2);
    assert_eq!(results[1].id, 1);
    assert!(f32::from_bits(results[0].score_bits) < f32::from_bits(results[1].score_bits));
}

#[test]
fn layer_search_edge_cases() {
    let graph = line_graph();
    assert!(greedy_search_layer(&graph, &[0.0, 0.0], &[0], 0, 0).is_empty());
    assert!(greedy_search_layer(&graph, &[0.0, 0.0], &[], 0, 3).is_empty());
    // Out-of-range and repeated entry points are scored once.
    let (_, seeds) = LayerSearch::begin(4, &[7, 2, 2, 0], 3);
    assert_eq!(seeds, vec![2, 0]);
    // A wide beam finds every node, nearest first.
    let all = greedy_search_layer(&graph, &[9.0, 0.0], &[0], 0, 10);
    let ids: Vec<u64> = all.iter().map(|s| s.id).collect();
    assert_eq!(ids, vec![3, 2, 1, 0]);
}

#[test]
fn float_less_follows_ieee() {
    let t = |a: f32, b: f32| f32_less(a.to_bits(), b.to_bits());
    assert!(t(1.0, 2.0));
    assert!(!t(2.0, 1.0));
    assert!(!t(-0.0, 0.0));
    assert!(!t(0.0, -0.0));
    assert!(t(-1.0, -0.0));
    assert!(!t(f32::NAN, 1.0));
    assert!(!t(1.0, f32::NAN));
    assert!(t(1.0, f32::INFINITY));
    assert!(t(f32::NEG_INFINITY, -1e30));
}
