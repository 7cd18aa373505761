use vecta::batch::VectorBatch;

fn bits(v: &[f32]) -> Vec<u32> {
    v.iter().map(|x| x.to_bits()).collect()
}

#[test]
fn test_push_increments_count() {
    let mut batch = VectorBatch::new(3);
    assert_eq!(batch.num_vectors, 0);
    batch.push(&bits(&[1.0, 2.0, 3.0]));
    assert_eq!(batch.num_vectors, 1);
    batch.push(&bits(&[4.0, 5.0, 6.0]));
    assert_eq!(batch.num_vectors, 2);
    assert_eq!(batch.data.len(), 6);
}

#[test]
fn test_get_returns_correct_slices() {
    let mut batch = VectorBatch::new(3);
    batch.push(&bits(&[1.0, 2.0, 3.0]));
    batch.push(&bits(&[4.0, 5.0, 6.0]));
    batch.push(&bits(&[7.0, 8.0, 9.0]));

    assert_eq!(batch.get(0), bits(&[1.0, 2.0, 3.0]).as_slice());
    assert_eq!(batch.get(1), bits(&[4.0, 5.0, 6.0]).as_slice());
    assert_eq!(batch.get(2), bits(&[7.0, 8.0, 9.0]).as_slice());
}

#[test]
fn from_parts_checks_the_shape() {
    let ok = VectorBatch::from_parts(vec![1, 2, 3, 4], 2, 2).unwrap();
    assert_eq!(ok.len(), 2);
    assert_eq!(ok.dim(), 2);
    assert!(!ok.is_empty());
    let err = VectorBatch::from_parts(vec![1, 2, 3], 2, 2).unwrap_err();
    assert_eq!(err, "vector data length 3 does not match 2 vectors of dimension 2");
}
