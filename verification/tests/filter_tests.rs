use vecta::filter::{eval_shape, matches_filter, FilterShape};
use vecta::filter::{filtered_top_k, parse_filter_head, FilterOp};
use vecta::topk::ScoredId;

#[test]
fn filter_heads_are_case_insensitive() {
    assert_eq!(parse_filter_head(3, "eq"), Ok(FilterOp::Eq));
    assert_eq!(parse_filter_head(3, "GT"), Ok(FilterOp::Gt));
    assert_eq!(parse_filter_head(3, "Lt"), Ok(FilterOp::Lt));
    assert_eq!(parse_filter_head(3, "AND"), Ok(FilterOp::And));
    assert_eq!(parse_filter_head(3, "or"), Ok(FilterOp::Or));
    assert_eq!(parse_filter_head(2, "nOt"), Ok(FilterOp::Not));
}

#[test]
fn filter_head_errors() {
    assert_eq!(parse_filter_head(0, "eq").unwrap_err(), "filter tuple cannot be empty");
    assert_eq!(
        parse_filter_head(2, "EQ").unwrap_err(),
        "'eq' filter expects 3 elements ('eq', field_name, value), got 2"
    );
    assert_eq!(
        parse_filter_head(4, "and").unwrap_err(),
        "'and' filter expects 3 elements ('and', filter_a, filter_b), got 4"
    );
    assert_eq!(
        parse_filter_head(3, "not").unwrap_err(),
        "'not' filter expects 2 elements ('not', filter_expr), got 3"
    );
    assert_eq!(
        parse_filter_head(3, "XOR").unwrap_err(),
        "unknown filter operator 'xor': expected 'eq', 'gt', 'lt', 'and', 'or', or 'not'"
    );
}

#[test]
fn filtered_top_k_keeps_ranking_order() {
    let c: Vec<ScoredId> = (0..6u64).map(|i| ScoredId { id: i, score_bits: (i as u32) * 10 }).collect();
    let keep = [true, false, true, true, false, true];
    let ids = |v: Vec<ScoredId>| v.into_iter().map(|s| s.id).collect::<Vec<u64>>();
    assert_eq!(ids(filtered_top_k(&c, &keep, 2)), vec![0, 2]);
    assert_eq!(ids(filtered_top_k(&c, &keep, 10)), vec![0, 2, 3, 5]);
    assert_eq!(ids(filtered_top_k(&c, &keep, 0)), Vec::<u64>::new());
    assert_eq!(ids(filtered_top_k(&c, &[false; 6], 3)), Vec::<u64>::new());
}

#[test]
fn filter_shapes_combine_comparison_outcomes() {
    let leaf = |i: usize| Box::new(FilterShape::Leaf(i));
    // (0 and not 1) or 2
    let f = FilterShape::Or(Box::new(FilterShape::And(leaf(0), Box::new(FilterShape::Not(leaf(1))))), leaf(2));
    assert!(eval_shape(&f, &[Some(true), Some(false), None]));
    assert!(!eval_shape(&f, &[Some(true), Some(true), Some(false)]));
    // A missing field fails its comparison, and so passes under `not`.
    assert!(eval_shape(&f, &[Some(true), None, None]));
    assert!(eval_shape(&f, &[None, None, Some(true)]));
    assert!(!matches_filter(false, &f, &[Some(true), Some(false), Some(true)]));
    assert!(matches_filter(true, &f, &[Some(true), Some(false), Some(true)]));
}
