use vecta::batch::VectorBatch;
use vecta::ivf::{IVFIndex, IvfRejection};
use vecta::ivf_format::{decode_ivf_index, encode_ivf_index};
use vecta::metric::Metric;
use vecta::serialize::{FormatError, Section};

fn bits(v: &[f32]) -> Vec<u32> {
    v.iter().map(|x| x.to_bits()).collect()
}

#[test]
fn ivf_index_test_add_before_train_returns_err() {
    let mut index = IVFIndex::new(2, 3, Metric::Euclidean);
    assert!(!index.is_trained());
    let res = index.add(1, &bits(&[1.0, 2.0]), 0);
    assert_eq!(res, Err(IvfRejection::NotTrained));
    assert_eq!(index.len(), 0);
}

fn trained_index() -> IVFIndex {
    let mut index = IVFIndex::new(2, 2, Metric::Cosine);
    let centroids = VectorBatch::from_parts(bits(&[0.0, 0.0, 10.0, 10.0]), 2, 2).unwrap();
    index.set_centroids(centroids);
    index.add(1, &bits(&[0.5, 0.5]), 0).unwrap();
    index.add(2, &bits(&[9.0, 9.5]), 1).unwrap();
    index.add(3, &bits(&[1.0, 0.0]), 0).unwrap();
    index
}

#[test]
fn trained_index_routes_to_the_given_cluster() {
    let index = trained_index();
    assert!(index.is_trained());
    assert_eq!(index.num_clusters(), 2);
    assert_eq!(index.cluster_sizes(), vec![2, 1]);
    assert_eq!(index.len(), 3);
    assert_eq!(index.coverage(&[0]), 2);
    assert_eq!(index.coverage(&[0, 1]), 3);
    assert_eq!(index.coverage(&[]), 0);
}

#[test]
fn ivf_round_trip_through_bytes() {
    let index = trained_index();
    let bytes = encode_ivf_index(&index);
    let back = decode_ivf_index(&bytes).unwrap();
    assert!(back.is_trained());
    assert_eq!(back.centroids.data, index.centroids.data);
    assert_eq!(back.cluster_sizes(), vec![2, 1]);
    assert_eq!(back.inverted_lists[0].ids, vec![1, 3]);
    assert_eq!(back.inverted_lists[1].get_vector(2), Some(bits(&[9.0, 9.5]).as_slice()));
    assert_eq!(back.metric(), Metric::Cosine);
}

#[test]
fn untrained_ivf_round_trip_keeps_empty_centroids() {
    let index = IVFIndex::new(3, 4, Metric::Euclidean);
    let bytes = encode_ivf_index(&index);
    // header, cluster count, zero centroids, four empty lists, flag
    assert_eq!(bytes.len(), 22 + 4 + 4 * 3 * 4 + 4 * 4 + 1);
    let back = decode_ivf_index(&bytes).unwrap();
    assert!(!back.is_trained());
    assert_eq!(back.centroids.len(), 0);
    assert_eq!(back.num_clusters(), 4);
}

#[test]
fn ivf_decoding_errors() {
    let index = trained_index();
    let bytes = encode_ivf_index(&index);
    assert_eq!(decode_ivf_index(&bytes[..bytes.len() - 1]).err(), Some(FormatError::Truncated(Section::TrainedFlag)));
    let mut total = bytes.clone();
    total[14..22].copy_from_slice(&5u64.to_le_bytes());
    assert_eq!(decode_ivf_index(&total).err(), Some(FormatError::ClusterTotalMismatch { header: 5, clusters: 3 }));
    assert_eq!(decode_ivf_index(&bytes[..24]).err(), Some(FormatError::Truncated(Section::NumClusters)));
}

#[test]
fn add_batch_routes_rows_in_order() {
    let mut index = IVFIndex::new(2, 2, Metric::Euclidean);
    let rows = VectorBatch::from_parts(bits(&[0.1, 0.2, 9.0, 9.0, 0.3, 0.4]), 2, 3).unwrap();
    assert_eq!(index.add_batch(&[1, 2, 3], &rows, &[0, 1, 0]), Err(IvfRejection::NotTrained));
    index.set_centroids(VectorBatch::from_parts(bits(&[0.0, 0.0, 10.0, 10.0]), 2, 2).unwrap());
    assert_eq!(
        index.add_batch(&[1, 2], &rows, &[0, 1]),
        Err(IvfRejection::CountMismatch { ids: 2, vectors: 3 })
    );
    assert_eq!(index.len(), 0);
    index.add_batch(&[1, 2, 3], &rows, &[0, 1, 0]).unwrap();
    assert_eq!(index.cluster_sizes(), vec![2, 1]);
    assert_eq!(index.inverted_lists[0].ids, vec![1, 3]);
    assert_eq!(index.inverted_lists[0].batch.data, bits(&[0.1, 0.2, 0.3, 0.4]));
    assert_eq!(index.inverted_lists[1].ids, vec![2]);
    assert_eq!(index.inverted_lists[1].batch.data, bits(&[9.0, 9.0]));
}

#[test]
fn coverage_grows_with_probed_prefix() {
    let index = trained_index();
    let order = [1usize, 0];
    let mut last = 0;
    for n in 0..=order.len() {
        let c = index.coverage(&order[..n]);
        assert!(c >= last);
        last = c;
    }
    assert_eq!(last, index.len());
}
