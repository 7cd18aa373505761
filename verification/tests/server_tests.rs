use vecta::flat_index::FlatIndex;
use vecta::metric::Metric;
use vecta::pq::PQConfig;
use vecta::server::{
    collection_info, collection_not_found, error_response, health, index_type_str, insert_point, is_authorized,
    metric_to_str, parse_index_type, parse_metric, plan_collection, plan_search, unauthorized, AppError,
    sort_by_name, CollectionIndex, CollectionInfo, CreateCollectionRequest, IndexKind, PointAction,
};

fn bits(v: &[f32]) -> Vec<u32> {
    v.iter().map(|x| x.to_bits()).collect()
}

fn req(name: &str, dim: usize, index_type: &str, metric: &str) -> CreateCollectionRequest {
    CreateCollectionRequest {
        name: name.to_string(),
        dim,
        index_type: index_type.to_string(),
        metric: metric.to_string(),
    }
}

#[test]
fn metric_names_ignore_ascii_case() {
    assert_eq!(parse_metric("Euclidean"), Ok(Metric::Euclidean));
    assert_eq!(parse_metric("L2"), Ok(Metric::Euclidean));
    assert_eq!(parse_metric("COS"), Ok(Metric::Cosine));
    assert_eq!(parse_metric("ip"), Ok(Metric::DotProduct));
    assert_eq!(parse_metric("Dot_Product"), Ok(Metric::DotProduct));
    assert_eq!(
        parse_metric("manhattan"),
        Err(AppError::BadRequest(
            "invalid metric 'manhattan': expected 'euclidean', 'cosine', or 'dot_product'".to_string()
        ))
    );
    assert_eq!(metric_to_str(Metric::DotProduct), "dot_product");
    assert_eq!(parse_index_type("HNSW"), Ok(IndexKind::Hnsw));
    assert_eq!(index_type_str(IndexKind::IvfPq), "ivfpq");
}

#[test]
fn creation_is_validated_in_order() {
    assert_eq!(
        plan_collection(&req(" \t", 0, "bogus", "bogus"), true),
        Err(AppError::BadRequest("collection name cannot be empty".to_string()))
    );
    assert_eq!(
        plan_collection(&req("a", 0, "flat", "l2"), false),
        Err(AppError::BadRequest("vector dimension must be greater than 0".to_string()))
    );
    assert!(matches!(plan_collection(&req("a", 2, "flat", "x"), true), Err(AppError::BadRequest(_))));
    assert_eq!(
        plan_collection(&req("docs", 2, "flat", "l2"), true),
        Err(AppError::Conflict("collection 'docs' already exists".to_string()))
    );
    assert_eq!(
        plan_collection(&req("docs", 2, "tree", "l2"), false),
        Err(AppError::BadRequest("invalid index_type 'tree': expected 'flat', 'ivf', 'hnsw', or 'ivfpq'".to_string()))
    );
    let plan = plan_collection(&req("docs", 3, "IvfPq", "cosine"), false).unwrap();
    assert_eq!(plan.kind, IndexKind::IvfPq);
    assert_eq!(plan.num_clusters, 4);
    assert_eq!(plan.pq_config, PQConfig { m: 1, k_per_subvector: 8, max_iterations: 100 });
    let plan = plan_collection(&req("docs", 128, "ivfpq", "l2"), false).unwrap();
    assert_eq!(plan.pq_config.m, 2);
    assert_eq!(plan.pq_config.k_per_subvector, 256);
}

#[test]
fn created_collections_are_empty() {
    for t in ["flat", "hnsw", "ivf", "ivfpq"] {
        let plan = plan_collection(&req("c", 4, t, "dot"), false).unwrap();
        let index = CollectionIndex::create(&plan);
        let info = collection_info("c", &index);
        assert_eq!(info.index_type, t);
        assert_eq!(info.dim, 4);
        assert_eq!(info.vector_count, 0);
        if t == "ivfpq" {
            assert_eq!(info.metric, "euclidean");
        } else {
            assert_eq!(info.metric, "dot_product");
        }
    }
}

#[test]
fn points_are_checked_then_stored() {
    let mut index = CollectionIndex::Flat(FlatIndex::new(2, Metric::Euclidean));
    assert_eq!(insert_point(&mut index, 1, &bits(&[1.0, 2.0])), Ok(PointAction::Stored));
    assert_eq!(
        insert_point(&mut index, 1, &bits(&[1.0, 2.0])),
        Err(AppError::BadRequest("duplicate id 1 (already in index)".to_string()))
    );
    assert_eq!(
        insert_point(&mut index, 2, &bits(&[1.0])),
        Err(AppError::BadRequest("vector dimension mismatch: expected 2, got 1".to_string()))
    );
    assert_eq!(index.len(), 1);
    let plan = plan_collection(&req("g", 2, "hnsw", "l2"), false).unwrap();
    let mut graph = CollectionIndex::create(&plan);
    assert_eq!(insert_point(&mut graph, 1, &bits(&[1.0, 2.0])), Ok(PointAction::LinkIntoGraph));
    let plan = plan_collection(&req("i", 2, "ivf", "l2"), false).unwrap();
    let mut ivf = CollectionIndex::create(&plan);
    assert!(matches!(insert_point(&mut ivf, 1, &bits(&[1.0, 2.0])), Err(AppError::BadRequest(m)) if m.starts_with("IVF collections require training")));
}

#[test]
fn searches_are_planned() {
    let index = CollectionIndex::Flat(FlatIndex::new(2, Metric::Euclidean));
    let plan = plan_search(&index, 2, 5, None, None).unwrap();
    assert_eq!((plan.k, plan.nprobe, plan.ef_search), (5, 1, 50));
    let plan = plan_search(&index, 2, 5, Some(3), Some(9)).unwrap();
    assert_eq!((plan.nprobe, plan.ef_search), (3, 9));
    assert_eq!(
        plan_search(&index, 3, 5, None, None),
        Err(AppError::BadRequest("query vector dimension mismatch: expected 2, got 3".to_string()))
    );
    let ivf = CollectionIndex::create(&plan_collection(&req("i", 2, "ivf", "l2"), false).unwrap());
    assert_eq!(
        plan_search(&ivf, 2, 1, None, None),
        Err(AppError::BadRequest("IVF collection is untrained and cannot be searched".to_string()))
    );
}

#[test]
fn bearer_key_gates_requests() {
    assert!(is_authorized(None, None));
    assert!(is_authorized(None, Some("anything")));
    assert!(!is_authorized(Some("super-secret-token"), None));
    assert!(is_authorized(Some("my-valid-api-key"), Some("Bearer my-valid-api-key")));
    assert!(!is_authorized(Some("correct-key-123"), Some("Bearer WRONG-KEY")));
    assert!(!is_authorized(Some("k"), Some("bearer k")));
    assert!(unauthorized().error.contains("Unauthorized"));
    assert_eq!(health().status, "ok");
}

#[test]
fn errors_map_to_statuses() {
    let e = collection_not_found("docs");
    assert_eq!(e, AppError::NotFound("collection 'docs' not found".to_string()));
    assert_eq!(e.status_code(), 404);
    assert_eq!(AppError::BadRequest(String::new()).status_code(), 400);
    assert_eq!(AppError::Conflict(String::new()).status_code(), 409);
    assert_eq!(AppError::Internal("boom".to_string()).status_code(), 500);
    assert_eq!(error_response(&e).error, "collection 'docs' not found");
}

#[test]
fn listing_is_sorted_by_name() {
    let info = |name: &str| CollectionInfo {
        name: name.to_string(),
        index_type: "flat".to_string(),
        dim: 2,
        metric: "cosine".to_string(),
        vector_count: 0,
    };
    let sorted = sort_by_name(vec![info("zeta"), info("Alpha"), info("alpha"), info("beta"), info("alp")]);
    let names: Vec<&str> = sorted.iter().map(|c| c.name.as_str()).collect();
    assert_eq!(names, vec!["Alpha", "alp", "alpha", "beta", "zeta"]);
    assert!(sort_by_name(Vec::new()).is_empty());
}
