use vecta::batch::VectorBatch;
use vecta::flat_index::{BatchRejection, FlatIndex, InsertRejection};
use vecta::metric::Metric;
use vecta::topk::ScoredId;

fn bits(v: &[f32]) -> Vec<u32> {
    v.iter().map(|x| x.to_bits()).collect()
}

#[test]
fn test_empty_index() {
    let index = FlatIndex::new(3, Metric::Euclidean);
    assert_eq!(index.len(), 0);
    assert!(index.is_empty());
}

#[test]
fn test_add_three_vectors() {
    let mut index = FlatIndex::new(3, Metric::Euclidean);
    index.add(1, &bits(&[1.0, 2.0, 3.0]));
    index.add(2, &bits(&[4.0, 5.0, 6.0]));
    index.add(3, &bits(&[7.0, 8.0, 9.0]));

    assert_eq!(index.len(), 3);
    assert!(!index.is_empty());
}

#[test]
fn test_add_batch_inserts_correctly() {
    let mut index = FlatIndex::new(3, Metric::Euclidean);
    index.add(0, &bits(&[0.0, 0.0, 0.0]));

    let mut incoming = VectorBatch::new(3);
    incoming.push(&bits(&[1.0, 2.0, 3.0]));
    incoming.push(&bits(&[4.0, 5.0, 6.0]));
    incoming.push(&bits(&[7.0, 8.0, 9.0]));

    index.add_batch(&[10, 20, 30], &incoming);
    assert_eq!(index.len(), 4);
}

#[test]
fn test_get_vector_found() {
    let mut index = FlatIndex::new(3, Metric::Euclidean);
    index.add(10, &bits(&[1.0, 2.0, 3.0]));
    index.add(20, &bits(&[4.0, 5.0, 6.0]));
    index.add(30, &bits(&[7.0, 8.0, 9.0]));

    let v = index.get_vector(20).expect("id 20 should exist");
    assert_eq!(v, bits(&[4.0, 5.0, 6.0]).as_slice());
}

#[test]
fn test_get_vector_not_found() {
    let index = FlatIndex::new(3, Metric::Euclidean);
    assert!(index.get_vector(999).is_none());
}

#[test]
fn test_add_batch_1000_vectors() {
    let dim = 16;
    let n = 1000;

    let mut batch = VectorBatch::new(dim);
    let ids: Vec<u64> = (0..n as u64).collect();

    let mut rng: u64 = 7;
    for _ in 0..n {
        let v: Vec<f32> = (0..dim)
            .map(|_| {
                rng = rng.wrapping_mul(6364136223846793005).wrapping_add(1);
                ((rng >> 33) as f32) / (u32::MAX as f32)
            })
            .collect();
        batch.push(&bits(&v));
    }

    let mut index = FlatIndex::new(dim, Metric::Euclidean);
    index.add_batch(&ids, &batch);
    assert_eq!(index.len(), n);
}

#[test]
fn insertion_checks_report_each_refusal() {
    let mut index = FlatIndex::new(2, Metric::Euclidean);
    index.add(42, &bits(&[1.0, 2.0]));
    assert_eq!(
        index.check_insert(1, 3),
        Err(InsertRejection::DimensionMismatch { expected: 2, got: 3 })
    );
    assert_eq!(index.check_insert(42, 2), Err(InsertRejection::DuplicateId(42)));
    assert_eq!(index.check_insert(43, 2), Ok(()));

    let batch = VectorBatch::from_parts(bits(&[1.0, 2.0, 3.0, 4.0]), 2, 2).unwrap();
    assert_eq!(
        index.check_insert_batch(&[1], &batch),
        Err(BatchRejection::CountMismatch { ids: 1, vectors: 2 })
    );
    assert_eq!(index.check_insert_batch(&[7, 7], &batch), Err(BatchRejection::DuplicateInBatch(7)));
    assert_eq!(index.check_insert_batch(&[7, 42], &batch), Err(BatchRejection::DuplicateInIndex(42)));
    assert_eq!(index.check_insert_batch(&[7, 8], &batch), Ok(()));
}

#[test]
fn from_parts_refuses_bad_ids() {
    let batch = VectorBatch::from_parts(bits(&[1.0, 2.0]), 1, 2).unwrap();
    let err = FlatIndex::from_parts(batch, vec![3, 3], Metric::Cosine).err().unwrap();
    assert_eq!(err, "duplicate id 3");
    let batch = VectorBatch::from_parts(bits(&[1.0, 2.0]), 1, 2).unwrap();
    let err = FlatIndex::from_parts(batch, vec![3], Metric::Cosine).err().unwrap();
    assert_eq!(err, "ids count (1) != vectors count (2)");
}

#[test]
fn rank_scores_orders_by_metric() {
    let mut index = FlatIndex::new(1, Metric::Euclidean);
    index.add(1, &bits(&[0.0]));
    index.add(2, &bits(&[0.0]));
    index.add(3, &bits(&[0.0]));
    let scores = bits(&[3.0, 1.0, 2.0]);
    let r: Vec<u64> = index.rank_scores(&scores, 2).iter().map(|s: &ScoredId| s.id).collect();
    assert_eq!(r, vec![2, 3]);

    let mut sim = FlatIndex::new(1, Metric::DotProduct);
    sim.add(1, &bits(&[0.0]));
    sim.add(2, &bits(&[0.0]));
    sim.add(3, &bits(&[0.0]));
    let r: Vec<u64> = sim.rank_scores(&scores, 2).iter().map(|s: &ScoredId| s.id).collect();
    assert_eq!(r, vec![1, 3]);
}

#[test]
fn read_after_write_returns_the_stored_vector() {
    let to_bits = |v: &[f32]| v.iter().map(|x| x.to_bits()).collect::<Vec<u32>>();
    let mut index = FlatIndex::new(3, Metric::Euclidean);
    index.add(10, &to_bits(&[1.0, 2.0, 3.0]));
    let before = index.get_vector(10).unwrap().to_vec();
    index.add(20, &to_bits(&[4.0, 5.0, 6.0]));
    assert_eq!(index.get_vector(20).unwrap(), &to_bits(&[4.0, 5.0, 6.0])[..]);
    assert_eq!(index.get_vector(10).unwrap(), &before[..]);
    assert!(index.get_vector(30).is_none());
}
