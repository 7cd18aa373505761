use vecta::hnsw::{HnswConfig, HnswGraph};
use vecta::hnsw_insert::Insertion;
use vecta::hnsw_search::{external_ids, rank_for_metric, GraphSearch, SearchStep};
use vecta::metric::Metric;
use vecta::topk::ScoredId;

fn bits(v: &[f32]) -> Vec<u32> {
    v.iter().map(|x| x.to_bits()).collect()
}

#[test]
fn test_search_empty_graph() {
    let graph = HnswGraph::new(3, Metric::Euclidean);
    assert!(GraphSearch::begin(&graph, 5, 50).is_none());
}

#[test]
fn search_descends_one_layer_at_a_time() {
    let mut graph = HnswGraph::new(2, Metric::Euclidean);
    let config = HnswConfig::default();
    // A single node on layers 0..=2 is the entry point.
    let ins = Insertion::begin(&mut graph, 40, &bits(&[0.0, 0.0]), 2, &config).unwrap();
    drop(ins);
    assert!(GraphSearch::begin(&graph, 0, 50).is_none());
    assert!(GraphSearch::begin(&graph, 3, 0).is_none());
    let mut s = GraphSearch::begin(&graph, 3, 50).unwrap();
    assert_eq!(s.entry_points(), &[0usize][..]);
    assert_eq!(s.next(), SearchStep::Layer { layer: 2, ef: 1 });
    s.found(&[ScoredId { id: 0, score_bits: 1.0f32.to_bits() }]);
    assert_eq!(s.next(), SearchStep::Layer { layer: 1, ef: 1 });
    s.found(&[]);
    assert_eq!(s.entry_points(), &[0usize][..]);
    assert_eq!(s.next(), SearchStep::Layer { layer: 0, ef: 50 });
    let last = [ScoredId { id: 0, score_bits: 2.0f32.to_bits() }];
    s.found(&last);
    assert_eq!(s.next(), SearchStep::Done);
    assert_eq!(s.candidates(), &last[..]);
    assert_eq!(external_ids(&graph, s.candidates()), vec![40]);
}

#[test]
fn ranking_follows_the_metric() {
    let c = vec![
        ScoredId { id: 1, score_bits: 0.5f32.to_bits() },
        ScoredId { id: 2, score_bits: 0.9f32.to_bits() },
        ScoredId { id: 3, score_bits: 0.1f32.to_bits() },
    ];
    let near: Vec<u64> = rank_for_metric(Metric::Euclidean, &c, 2).iter().map(|s| s.id).collect();
    assert_eq!(near, vec![3, 1]);
    let similar: Vec<u64> = rank_for_metric(Metric::Cosine, &c, 2).iter().map(|s| s.id).collect();
    assert_eq!(similar, vec![2, 1]);
}
