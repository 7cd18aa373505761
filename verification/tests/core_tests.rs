use vecta::metric::{code_to_metric, metric_to_code, Metric};

#[test]
fn placeholder_sanity_check() {
    assert_eq!(1 + 1, 2, "basic arithmetic must hold");
}

#[test]
fn metric_codes_round_trip() {
    for m in [Metric::Euclidean, Metric::Cosine, Metric::DotProduct] {
        assert_eq!(code_to_metric(metric_to_code(m)), Ok(m));
    }
    assert_eq!(metric_to_code(Metric::Euclidean), 0);
    assert_eq!(metric_to_code(Metric::Cosine), 1);
    assert_eq!(metric_to_code(Metric::DotProduct), 2);
}

#[test]
fn unknown_metric_code_is_refused() {
    let err = code_to_metric(7).unwrap_err();
    assert!(err.contains("7"), "unexpected message: {}", err);
}
