use vecta::batch::VectorBatch;
use vecta::ivf_pq_format::{decode_ivf_pq_index, encode_ivf_pq_index};
use vecta::metric::Metric;
use vecta::pq::{IVFPQIndex, PQCodebooks, PQConfig, PqError};
use vecta::serialize::FormatError;

fn bits(v: &[f32]) -> Vec<u32> {
    v.iter().map(|x| x.to_bits()).collect()
}

fn codebooks() -> PQCodebooks {
    // m = 2 subvectors of dimension 2, two centroids each.
    PQCodebooks {
        m: 2,
        sub_dim: 2,
        k_per_subvector: 2,
        codebooks: vec![
            VectorBatch::from_parts(bits(&[0.0, 0.0, 1.0, 1.0]), 2, 2).unwrap(),
            VectorBatch::from_parts(bits(&[5.0, 5.0, 9.0, 9.0]), 2, 2).unwrap(),
        ],
    }
}

#[test]
fn test_new_dim_not_divisible_by_m_returns_err() {
    let dim = 8;
    let pq_config = PQConfig { m: 3, k_per_subvector: 4, max_iterations: 10 };

    let res = IVFPQIndex::new(dim, 4, pq_config);
    assert!(res.is_err());
    let err = res.err().unwrap();
    assert!(err.contains("dimension 8 is not evenly divisible by m=3 subvectors"), "Unexpected error: {}", err);
}

#[test]
fn ivf_pq_index_test_add_before_train_returns_err() {
    let dim = 8;
    let pq_config = PQConfig { m: 2, k_per_subvector: 2, max_iterations: 5 };

    let index = IVFPQIndex::new(dim, 2, pq_config).unwrap();
    let v = [1.0f32; 8];
    let res = index.check_add(v.len());
    assert!(res.is_err());
    let err = res.unwrap_err();
    assert!(err.contains("IVFPQIndex must be trained before adding vectors"), "Unexpected error: {}", err);
}

#[test]
fn test_decode_vector_wrong_length_returns_err() {
    let cb = codebooks();
    assert_eq!(cb.decode_vector(&[0]), Err(PqError::CodeLength { expected: 2, got: 1 }));
    assert_eq!(cb.decode_vector(&[0, 1, 1]), Err(PqError::CodeLength { expected: 2, got: 3 }));
}

#[test]
fn decode_vector_concatenates_centroids() {
    let cb = codebooks();
    assert_eq!(cb.dim(), 4);
    assert_eq!(cb.decode_vector(&[1, 0]), Ok(bits(&[1.0, 1.0, 5.0, 5.0])));
    assert_eq!(
        cb.decode_vector(&[0, 2]),
        Err(PqError::CentroidOutOfBounds { index: 2, codebook: 1, len: 2 })
    );
}

#[test]
fn new_validates_in_order() {
    let cfg = PQConfig::default();
    assert_eq!(cfg, PQConfig { m: 8, k_per_subvector: 256, max_iterations: 100 });
    assert_eq!(IVFPQIndex::new(0, 1, cfg).err().unwrap(), "IVFPQIndex::new: dim must be greater than 0");
    assert_eq!(IVFPQIndex::new(8, 0, cfg).err().unwrap(), "IVFPQIndex::new: num_clusters must be greater than 0");
    let big = PQConfig { m: 2, k_per_subvector: 300, max_iterations: 1 };
    assert_eq!(
        IVFPQIndex::new(8, 1, big).err().unwrap(),
        "IVFPQIndex::new: k_per_subvector (300) cannot exceed 256 for 1-byte encoding"
    );
    let ok = IVFPQIndex::new(8, 3, cfg).unwrap();
    assert_eq!(ok.num_clusters(), 3);
    assert!(ok.is_empty());
    assert_eq!(ok.metric, Metric::Euclidean);
}

fn trained() -> IVFPQIndex {
    let mut index = IVFPQIndex::new(4, 2, PQConfig { m: 2, k_per_subvector: 2, max_iterations: 100 }).unwrap();
    let centroids = VectorBatch::from_parts(bits(&[0.0; 8]), 4, 2).unwrap();
    index.set_trained(centroids, codebooks());
    assert_eq!(index.check_add(4), Ok(()));
    assert_eq!(index.check_add(3).unwrap_err(), "IVFPQIndex::add: expected vector dim 4, got 3");
    index.insert_code(7, 1, vec![1, 0]);
    index.insert_code(8, 1, vec![0, 1]);
    index.insert_code(9, 0, vec![1, 1]);
    index
}

#[test]
fn codes_are_stored_per_cluster() {
    let index = trained();
    assert_eq!(index.len(), 3);
    assert_eq!(index.cluster_sizes(), vec![1, 2]);
    assert_eq!(index.inverted_lists[1][0], (7, vec![1, 0]));
}

#[test]
fn ivf_pq_round_trip_through_bytes() {
    let index = trained();
    let bytes = encode_ivf_pq_index(&index);
    let back = decode_ivf_pq_index(&bytes).unwrap();
    assert!(back.is_trained());
    assert_eq!(back.inverted_lists, index.inverted_lists);
    let cb = back.pq_codebooks.as_ref().unwrap();
    assert_eq!(cb.codebooks.len(), 2);
    assert_eq!(cb.decode_vector(&[1, 1]), Ok(bits(&[1.0, 1.0, 9.0, 9.0])));
    assert_eq!(back.pq_config, PQConfig { m: 2, k_per_subvector: 2, max_iterations: 100 });

    let mut bad_m = bytes.clone();
    bad_m[22..26].copy_from_slice(&3u32.to_le_bytes());
    assert_eq!(decode_ivf_pq_index(&bad_m).err(), Some(FormatError::PqNotDivisible { dim: 4, m: 3 }));
    let mut bad_k = bytes.clone();
    bad_k[26..30].copy_from_slice(&0u32.to_le_bytes());
    assert_eq!(decode_ivf_pq_index(&bad_k).err(), Some(FormatError::PqCentroidCount(0)));
}

#[test]
fn untrained_ivf_pq_round_trip() {
    let index = IVFPQIndex::new(4, 3, PQConfig { m: 2, k_per_subvector: 4, max_iterations: 100 }).unwrap();
    let bytes = encode_ivf_pq_index(&index);
    assert_eq!(bytes.len(), 22 + 8 + 4 + 3 * 4 * 4 + 2 * 4 * 2 * 4 + 3 * 4 + 1);
    let back = decode_ivf_pq_index(&bytes).unwrap();
    assert!(!back.is_trained());
    assert!(back.pq_codebooks.is_none());
    assert_eq!(back.num_clusters(), 3);
}

#[test]
fn test_memory_footprint_bytes_sanity() {
    let (dim, num_clusters, m, k) = (16usize, 4usize, 4usize, 8usize);
    let cfg = PQConfig { m, k_per_subvector: k, max_iterations: 5 };
    let mut index = IVFPQIndex::new(dim, num_clusters, cfg).unwrap();
    // Untrained: no centroids, no codebooks, no codes.
    assert_eq!(index.memory_footprint_bytes(), 0);

    let centroids = VectorBatch::from_parts(vec![0u32; num_clusters * dim], dim, num_clusters).unwrap();
    let sub_dim = dim / m;
    let books = PQCodebooks {
        m,
        sub_dim,
        k_per_subvector: k,
        codebooks: (0..m).map(|_| VectorBatch::from_parts(vec![0u32; k * sub_dim], sub_dim, k).unwrap()).collect(),
    };
    index.set_trained(centroids, books);
    for i in 0..100u64 {
        index.insert_code(i, (i % 4) as usize, vec![0u8; m]);
    }
    // 100 * 4 code bytes + 4 * 16 * 4 centroid bytes + 4 * 8 * 4 * 4 codebook bytes.
    assert_eq!(index.memory_footprint_bytes(), 400 + 256 + 512);
    assert_eq!(index.len(), 100);
}

#[test]
fn check_add_batch_reports_in_order() {
    let cfg = PQConfig { m: 2, k_per_subvector: 2, max_iterations: 5 };
    let mut index = IVFPQIndex::new(4, 1, cfg).unwrap();
    assert_eq!(
        index.check_add_batch(3, 5, 2).unwrap_err(),
        "IVFPQIndex must be trained before adding vectors"
    );
    index.set_trained(VectorBatch::from_parts(vec![0u32; 4], 4, 1).unwrap(), codebooks());
    assert_eq!(
        index.check_add_batch(3, 5, 2).unwrap_err(),
        "IVFPQIndex::add_batch: expected vector dim 4, got 5"
    );
    assert_eq!(
        index.check_add_batch(3, 4, 2).unwrap_err(),
        "IVFPQIndex::add_batch: ids count (3) != vectors count (2)"
    );
    assert_eq!(index.check_add_batch(2, 4, 2), Ok(()));
    assert_eq!(index.check_add(3).unwrap_err(), "IVFPQIndex::add: expected vector dim 4, got 3");
}

#[test]
fn check_train_reports_in_order() {
    let cfg = PQConfig { m: 2, k_per_subvector: 2, max_iterations: 5 };
    let index = IVFPQIndex::new(4, 3, cfg).unwrap();
    assert_eq!(
        index.check_train(5, 3, 10).unwrap_err(),
        "IVFPQIndex::train: training_data dimension 5 != index dimension 4"
    );
    assert_eq!(index.check_train(4, 2, 10).unwrap_err(), "IVFPQIndex::train: kmeans_config.k (2) != num_clusters (3)");
    assert_eq!(
        index.check_train(4, 3, 2).unwrap_err(),
        "IVFPQIndex::train: insufficient training vectors (2) for k=3"
    );
    assert_eq!(index.check_train(4, 3, 3), Ok(()));
}

#[test]
fn check_search_reports_in_order() {
    let cfg = PQConfig { m: 2, k_per_subvector: 2, max_iterations: 5 };
    let mut index = IVFPQIndex::new(4, 1, cfg).unwrap();
    assert_eq!(index.check_search(4).unwrap_err(), "IVFPQIndex must be trained before searching");
    assert_eq!(index.check_search_batch(4).unwrap_err(), "IVFPQIndex must be trained before searching");
    index.set_trained(VectorBatch::from_parts(vec![0u32; 4], 4, 1).unwrap(), codebooks());
    assert_eq!(index.check_search(3).unwrap_err(), "IVFPQIndex::search: query dimension 3 != index dimension 4");
    assert_eq!(index.check_search_batch(5).unwrap_err(), "IVFPQIndex::search_batch: queries dim 5 != index dim 4");
    assert_eq!(index.check_search(4), Ok(()));
}

#[test]
fn codebook_training_checks_in_order() {
    let cfg = |m: usize, k: usize| vecta::pq::PQConfig { m, k_per_subvector: k, max_iterations: 100 };
    assert_eq!(vecta::pq::check_pq_training(8, 10, &cfg(0, 4)), Err("PQConfig::m must be greater than 0".to_string()));
    assert_eq!(
        vecta::pq::check_pq_training(8, 10, &cfg(2, 0)),
        Err("PQConfig::k_per_subvector must be greater than 0".to_string())
    );
    assert_eq!(
        vecta::pq::check_pq_training(8, 1000, &cfg(2, 300)),
        Err("PQConfig::k_per_subvector (300) cannot exceed 256 for 1-byte encoding".to_string())
    );
    assert_eq!(
        vecta::pq::check_pq_training(10, 10, &cfg(3, 4)),
        Err("dimension 10 is not evenly divisible by m=3 subvectors".to_string())
    );
    assert_eq!(
        vecta::pq::check_pq_training(8, 3, &cfg(2, 4)),
        Err("insufficient training vectors (3) for k_per_subvector=4".to_string())
    );
    assert_eq!(vecta::pq::check_pq_training(8, 4, &cfg(2, 4)), Ok(()));
}
