use vecta::binding::{
    batch_rejection_message, check_dimension, check_hnsw_params, check_ivf_params, check_ivf_pq_training,
    check_ivf_training, check_query, check_rows, check_vector, insert_rejection_message, metric_for,
    unknown_index_type_message,
};
use vecta::flat_index::{BatchRejection, InsertRejection};
use vecta::metric::Metric;

#[test]
fn metric_names_and_parameters() {
    assert_eq!(metric_for("L2"), Ok(Metric::Euclidean));
    assert_eq!(metric_for("IP"), Ok(Metric::DotProduct));
    assert_eq!(
        metric_for("Manhattan").unwrap_err(),
        "unknown metric 'Manhattan': expected 'euclidean', 'cosine', or 'dot_product'"
    );
    assert_eq!(check_dimension(0).unwrap_err(), "dimension must be greater than 0");
    assert_eq!(check_dimension(3), Ok(()));
    assert_eq!(check_ivf_params(0, 0).unwrap_err(), "dimension must be greater than 0");
    assert_eq!(check_ivf_params(4, 0).unwrap_err(), "num_clusters must be greater than 0");
    assert_eq!(check_hnsw_params(4, 1, 0).unwrap_err(), "m must be greater than 1");
    assert_eq!(check_hnsw_params(4, 2, 0).unwrap_err(), "ef_construction must be greater than 0");
    assert_eq!(check_hnsw_params(4, 16, 200), Ok(()));
}

#[test]
fn vector_and_batch_shapes() {
    assert_eq!(check_vector(3, 2).unwrap_err(), "vector dimension mismatch: expected 3, got 2");
    assert_eq!(check_query(3, 4).unwrap_err(), "query dimension mismatch: expected 3, got 4");
    assert_eq!(check_query(3, 3), Ok(()));
    assert_eq!(check_rows(2, &[3, 3, 3], 3).unwrap_err(), "ids count (2) != vectors count (3)");
    assert_eq!(check_rows(3, &[3, 2, 1], 3).unwrap_err(), "vector at index 1 has dimension 2, expected 3");
    assert_eq!(check_rows(2, &[3, 3], 3), Ok(()));
    assert_eq!(check_ivf_training(&[], 2, 2, 3).unwrap_err(), "training_data cannot be empty");
    assert_eq!(check_ivf_training(&[3], 3, 2, 3).unwrap_err(), "k (3) must equal index num_clusters (2)");
    assert_eq!(
        check_ivf_training(&[3, 5], 2, 2, 3).unwrap_err(),
        "training vector at index 1 has dimension 5, expected 3"
    );
    assert_eq!(
        check_ivf_pq_training(&[3], 2, 3).unwrap_err(),
        "insufficient training vectors (1) for num_clusters=2"
    );
    assert_eq!(check_ivf_pq_training(&[3, 3], 2, 3), Ok(()));
}

#[test]
fn rejection_messages() {
    assert_eq!(
        insert_rejection_message(InsertRejection::DuplicateId(4)),
        "duplicate id 4: already exists in index"
    );
    assert_eq!(
        insert_rejection_message(InsertRejection::DimensionMismatch { expected: 2, got: 5 }),
        "vector dimension mismatch: expected 2, got 5"
    );
    assert_eq!(
        batch_rejection_message(BatchRejection::DuplicateInBatch(9)),
        "duplicate id 9 within incoming batch"
    );
    assert_eq!(
        batch_rejection_message(BatchRejection::DuplicateInIndex(9)),
        "duplicate id 9 (already exists in index)"
    );
    assert_eq!(unknown_index_type_message(7, "x.vcta"), "unknown index type code 7 in file 'x.vcta'");
}
