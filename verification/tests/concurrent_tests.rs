use vecta::batch::VectorBatch;
use vecta::concurrent::ConcurrentFlatIndex;
use vecta::flat_index::FlatIndex;
use vecta::metric::Metric;

fn bits(v: &[f32]) -> Vec<u32> {
    v.iter().map(|x| x.to_bits()).collect()
}

#[test]
fn shared_index_validates_single_inserts() {
    let index = ConcurrentFlatIndex::new(2, Metric::Euclidean);
    assert_eq!(index.dim(), 2);
    assert_eq!(index.metric(), Metric::Euclidean);
    assert!(index.is_empty());
    index.add(1, &bits(&[1.0, 2.0])).unwrap();
    assert_eq!(
        index.add(2, &bits(&[1.0])).unwrap_err(),
        "ConcurrentFlatIndex::add: vector dimension mismatch: expected 2, got 1"
    );
    assert_eq!(
        index.add(1, &bits(&[3.0, 4.0])).unwrap_err(),
        "ConcurrentFlatIndex::add: duplicate id 1: already exists in index"
    );
    assert_eq!(index.len(), 1);
    let h = index.read();
    assert_eq!(h.borrow().ids, vec![1]);
    assert_eq!(h.borrow().batch.data, bits(&[1.0, 2.0]));
    h.release_read();
}

#[test]
fn shared_index_validates_batches() {
    let mut start = FlatIndex::new(2, Metric::Cosine);
    start.add(5, &bits(&[0.0, 1.0]));
    let index = ConcurrentFlatIndex::from_flat_index(start);
    assert_eq!(index.metric(), Metric::Cosine);
    let rows = VectorBatch::from_parts(bits(&[1.0, 1.0, 2.0, 2.0]), 2, 2).unwrap();
    assert_eq!(
        index.add_batch(&[1], &rows).unwrap_err(),
        "ConcurrentFlatIndex::add_batch: ids count (1) != vectors count (2)"
    );
    let narrow = VectorBatch::from_parts(bits(&[1.0, 2.0]), 1, 2).unwrap();
    assert_eq!(
        index.add_batch(&[1, 2], &narrow).unwrap_err(),
        "ConcurrentFlatIndex::add_batch: vectors dimension (1) != index dimension (2)"
    );
    assert_eq!(
        index.add_batch(&[3, 3], &rows).unwrap_err(),
        "ConcurrentFlatIndex::add_batch: duplicate id 3 within incoming batch"
    );
    assert_eq!(
        index.add_batch(&[6, 5], &rows).unwrap_err(),
        "ConcurrentFlatIndex::add_batch: duplicate id 5 already in index"
    );
    assert_eq!(index.len(), 1);
    index.add_batch(&[6, 7], &rows).unwrap();
    assert_eq!(index.len(), 3);
    let h = index.read();
    assert_eq!(h.borrow().ids, vec![5, 6, 7]);
    h.release_read();
}

/// Euclidean search of a flat index: scores here, ranking by the library.
fn search(index: &FlatIndex, query: &[f32], k: usize) -> Vec<vecta::topk::ScoredId> {
    let scores: Vec<u32> = (0..index.len())
        .map(|i| {
            let d: f32 = index
                .batch
                .get(i)
                .iter()
                .zip(query)
                .map(|(a, b)| {
                    let x = f32::from_bits(*a) - b;
                    x * x
                })
                .sum::<f32>()
                .sqrt();
            d.to_bits()
        })
        .collect();
    index.rank_scores(&scores, k)
}

#[test]
fn test_concurrent_single_threaded_equivalence() {
    let dim = 4;
    let metric = Metric::Euclidean;

    let mut plain_index = FlatIndex::new(dim, metric);
    let concurrent_index = ConcurrentFlatIndex::new(dim, metric);

    let vectors: Vec<(u64, [f32; 4])> = vec![
        (1, [1.0, 0.0, 0.0, 0.0]),
        (2, [0.0, 1.0, 0.0, 0.0]),
        (3, [0.0, 0.0, 1.0, 0.0]),
        (4, [0.5, 0.5, 0.0, 0.0]),
        (5, [0.1, 0.9, 0.0, 0.0]),
    ];

    for (id, vec) in &vectors {
        plain_index.add(*id, &bits(vec));
        concurrent_index.add(*id, &bits(vec)).unwrap();
    }

    assert_eq!(plain_index.len(), concurrent_index.len());
    assert_eq!(plain_index.dim(), concurrent_index.dim());
    assert_eq!(plain_index.metric, concurrent_index.metric());

    let query = [0.2, 0.8, 0.0, 0.0];
    let plain_res = search(&plain_index, &query, 3);
    let handle = concurrent_index.read();
    let concurrent_res = search(handle.borrow(), &query, 3);
    handle.release_read();

    assert_eq!(plain_res.len(), concurrent_res.len());
    for i in 0..plain_res.len() {
        assert_eq!(plain_res[i].id, concurrent_res[i].id);
        assert_eq!(plain_res[i].score_bits, concurrent_res[i].score_bits);
    }
}
