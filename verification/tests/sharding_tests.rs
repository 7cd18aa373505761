use vecta::batch::VectorBatch;
use vecta::metric::Metric;
use vecta::sharding::{shard_for_id, ShardRejection, ShardedFlatIndex};

fn bits(v: &[f32]) -> Vec<u32> {
    v.iter().map(|x| x.to_bits()).collect()
}

#[test]
fn test_shard_for_id_deterministic() {
    let num_shards = 8;
    let test_ids = [0, 1, 42, 100, 1000, 99999, 1234567890123456789];

    for &id in &test_ids {
        let initial_shard = shard_for_id(id, num_shards);
        assert!(initial_shard < num_shards);

        for _ in 0..100 {
            let repeated_shard = shard_for_id(id, num_shards);
            assert_eq!(
                initial_shard, repeated_shard,
                "shard_for_id must be strictly deterministic for id {}",
                id
            );
        }
    }
}

#[test]
fn test_shard_for_id_distribution() {
    let num_shards = 8;
    let num_ids = 1000;
    let mut shard_counts = vec![0usize; num_shards];

    for id in 1..=num_ids {
        let shard = shard_for_id(id, num_shards);
        shard_counts[shard] += 1;
    }

    let avg = num_ids as f64 / num_shards as f64;
    let max_allowed = (2.0 * avg) as usize;
    let min_allowed = (0.5 * avg) as usize;

    for (s, &count) in shard_counts.iter().enumerate() {
        assert!(
            count <= max_allowed,
            "Shard {} received {} items, exceeding 2x average (max allowed {})",
            s,
            count,
            max_allowed
        );
        assert!(
            count >= min_allowed,
            "Shard {} received {} items, below 0.5x average (min allowed {})",
            s,
            count,
            min_allowed
        );
    }
}

#[test]
fn shard_for_id_matches_splitmix64() {
    // SplitMix64 finalizer of id 0, reduced modulo the shard count.
    let mut z: u64 = 0u64.wrapping_add(0x9e3779b97f4a7c15);
    z = (z ^ (z >> 30)).wrapping_mul(0xbf58476d1ce4e5b9);
    z = (z ^ (z >> 27)).wrapping_mul(0x94d049bb133111eb);
    z ^= z >> 31;
    assert_eq!(z, 0xe220a8397b1dcdaf);
    assert_eq!(shard_for_id(0, 1000), (z % 1000) as usize);
    assert_eq!(shard_for_id(12345, 1), 0);
}

#[test]
fn test_add_batch_partitioning_integrity() {
    let dim = 4;
    let num_shards = 4;
    let mut index = ShardedFlatIndex::new(dim, num_shards, Metric::Euclidean);

    let n_vectors = 100;
    let mut ids = Vec::with_capacity(n_vectors);
    let mut raw_data = Vec::with_capacity(n_vectors * dim);

    for i in 0..n_vectors {
        let id = (i + 1) as u64;
        ids.push(id);
        raw_data.extend_from_slice(&bits(&[
            id as f32,
            (id * 2) as f32,
            (id * 3) as f32,
            (id * 4) as f32,
        ]));
    }

    let batch = VectorBatch::from_parts(raw_data, dim, n_vectors).unwrap();
    index.add_batch(&ids, &batch).unwrap();

    assert_eq!(index.len(), n_vectors);

    let shard_sizes = index.shard_sizes();
    assert_eq!(shard_sizes.len(), num_shards);
    assert_eq!(shard_sizes.iter().sum::<usize>(), n_vectors);

    for (s, &size) in shard_sizes.iter().enumerate() {
        assert!(size > 0, "Shard {} is unexpectedly empty", s);
    }

    for &id in &[1u64, 7, 23, 42, 77, 99] {
        let expected_shard = shard_for_id(id, num_shards);
        let vec = bits(&[id as f32, (id * 2) as f32, (id * 3) as f32, (id * 4) as f32]);
        let found = index.shards[expected_shard].get_vector(id);
        assert_eq!(found, Some(vec.as_slice()), "ID {} not found in predicted shard {}", id, expected_shard);
        for other_shard in 0..num_shards {
            if other_shard != expected_shard {
                assert!(
                    index.shards[other_shard].get_vector(id).is_none(),
                    "ID {} unexpectedly found in non-target shard {}",
                    id,
                    other_shard
                );
            }
        }
    }
}

#[test]
fn sharded_add_routes_and_refuses_duplicates() {
    let mut index = ShardedFlatIndex::new(2, 3, Metric::Cosine);
    assert_eq!(index.add(5, &bits(&[1.0, 2.0])), Ok(()));
    let s = shard_for_id(5, 3);
    assert_eq!(index.shard_sizes()[s], 1);
    assert_eq!(
        index.add(5, &bits(&[3.0, 4.0])),
        Err(ShardRejection::DuplicateInShard { shard: s, id: 5 })
    );
    assert_eq!(
        index.add(6, &bits(&[1.0])),
        Err(ShardRejection::DimensionMismatch { expected: 2, got: 1 })
    );
    assert_eq!(index.len(), 1);
}

#[test]
fn sharded_add_batch_errors() {
    let mut index = ShardedFlatIndex::new(2, 2, Metric::Euclidean);
    let batch = VectorBatch::from_parts(bits(&[1.0, 2.0, 3.0, 4.0]), 2, 2).unwrap();
    assert_eq!(
        index.add_batch(&[1], &batch),
        Err(ShardRejection::CountMismatch { ids: 1, vectors: 2 })
    );
    assert_eq!(index.add_batch(&[9, 9], &batch), Err(ShardRejection::DuplicateInBatch(9)));
    let other_dim = VectorBatch::from_parts(bits(&[1.0, 2.0, 3.0]), 3, 1).unwrap();
    assert_eq!(
        index.add_batch(&[1], &other_dim),
        Err(ShardRejection::DimensionMismatch { expected: 2, got: 3 })
    );
    assert!(index.is_empty());
    assert_eq!(index.add_batch(&[1, 2], &batch), Ok(()));
    let again = index.add_batch(&[3, 1], &batch);
    let s = shard_for_id(1, 2);
    assert!(matches!(again, Err(ShardRejection::DuplicateInShard { shard, id: 1 }) if shard == s));
}

/// Euclidean search of a sharded index: each shard's vectors are scored
/// here and the library ranks and merges them.
fn sharded_search(index: &ShardedFlatIndex, query: &[f32], k: usize) -> Vec<vecta::topk::ScoredId> {
    let scores: Vec<Vec<u32>> = index
        .shards
        .iter()
        .map(|shard| {
            (0..shard.len())
                .map(|i| {
                    let row = shard.batch.get(i);
                    let d: f32 = row
                        .iter()
                        .zip(query)
                        .map(|(a, b)| {
                            let x = f32::from_bits(*a) - b;
                            x * x
                        })
                        .sum::<f32>()
                        .sqrt();
                    d.to_bits()
                })
                .collect()
        })
        .collect();
    index.rank_shard_scores(&scores, k)
}

#[test]
fn test_sharded_add_search_round_trip() {
    let dim = 4;
    let num_shards = 4;
    let mut index = ShardedFlatIndex::new(dim, num_shards, Metric::Euclidean);

    let vectors: Vec<(u64, [f32; 4])> = vec![
        (10, [1.0, 0.0, 0.0, 0.0]),
        (20, [0.0, 1.0, 0.0, 0.0]),
        (30, [0.0, 0.0, 1.0, 0.0]),
        (40, [0.0, 0.0, 0.0, 1.0]),
        (50, [0.5, 0.5, 0.0, 0.0]),
        (60, [0.0, 0.5, 0.5, 0.0]),
    ];

    for (id, vec) in &vectors {
        index.add(*id, &bits(vec)).unwrap();
    }

    assert_eq!(index.len(), vectors.len());

    for (id, vec) in &vectors {
        let results = sharded_search(&index, vec, 1);
        assert_eq!(results.len(), 1);
        assert_eq!(results[0].id, *id);
        assert!(f32::from_bits(results[0].score_bits).abs() < 1e-6);
    }
}
