use vecta::topk::{top_k_largest, top_k_smallest, ScoredId};

fn make_candidates(scores: &[(u64, f32)]) -> Vec<ScoredId> {
    scores
        .iter()
        .map(|&(id, score)| ScoredId { id, score_bits: score.to_bits() })
        .collect()
}

fn score(s: &ScoredId) -> f32 {
    f32::from_bits(s.score_bits)
}

#[test]
fn test_top_k_smallest_basic() {
    let candidates = make_candidates(&[
        (0, 5.0),
        (1, 2.0),
        (2, 8.0),
        (3, 1.0),
        (4, 9.0),
        (5, 3.0),
        (6, 7.0),
        (7, 4.0),
        (8, 6.0),
        (9, 0.5),
    ]);

    let result = top_k_smallest(&candidates, 3);
    assert_eq!(result.len(), 3);
    assert_eq!(result[0].id, 9);
    assert!((score(&result[0]) - 0.5).abs() < 1e-6);
    assert_eq!(result[1].id, 3);
    assert!((score(&result[1]) - 1.0).abs() < 1e-6);
    assert_eq!(result[2].id, 1);
    assert!((score(&result[2]) - 2.0).abs() < 1e-6);
}

#[test]
fn test_top_k_largest_basic() {
    let candidates = make_candidates(&[
        (0, 5.0),
        (1, 2.0),
        (2, 8.0),
        (3, 1.0),
        (4, 9.0),
        (5, 3.0),
        (6, 7.0),
        (7, 4.0),
        (8, 6.0),
        (9, 0.5),
    ]);

    let result = top_k_largest(&candidates, 3);
    assert_eq!(result.len(), 3);
    assert_eq!(result[0].id, 4);
    assert!((score(&result[0]) - 9.0).abs() < 1e-6);
    assert_eq!(result[1].id, 2);
    assert!((score(&result[1]) - 8.0).abs() < 1e-6);
    assert_eq!(result[2].id, 6);
    assert!((score(&result[2]) - 7.0).abs() < 1e-6);
}

#[test]
fn test_k_greater_than_len() {
    let candidates = make_candidates(&[(0, 3.0), (1, 1.0), (2, 2.0)]);
    let result = top_k_smallest(&candidates, 10);
    assert_eq!(result.len(), 3);
    assert_eq!(result[0].id, 1);
    assert_eq!(result[1].id, 2);
    assert_eq!(result[2].id, 0);
}

#[test]
fn test_k_zero() {
    let candidates = make_candidates(&[(0, 1.0), (1, 2.0)]);
    let result = top_k_smallest(&candidates, 0);
    assert!(result.is_empty());
}

#[test]
fn test_empty_candidates() {
    let result = top_k_smallest(&[], 5);
    assert!(result.is_empty());
}

#[test]
fn test_correctness_vs_naive_sort() {
    let n = 1000;
    let k = 10;
    let mut rng: u64 = 123;
    let mut next_f32 = || -> f32 {
        rng = rng.wrapping_mul(6364136223846793005).wrapping_add(1);
        ((rng >> 33) as f32) / (u32::MAX as f32) * 1000.0
    };

    let candidates: Vec<ScoredId> = (0..n)
        .map(|i| ScoredId { id: i as u64, score_bits: next_f32().to_bits() })
        .collect();

    let heap_result = top_k_smallest(&candidates, k);

    let mut sorted = candidates.clone();
    sorted.sort_by(|a, b| score(a).total_cmp(&score(b)));
    let naive_result = &sorted[..k];

    assert_eq!(heap_result.len(), k);
    for (h, n) in heap_result.iter().zip(naive_result.iter()) {
        assert_eq!(h.id, n.id, "ID mismatch: heap={}, naive={}", h.id, n.id);
        assert!(
            (score(h) - score(n)).abs() < 1e-6,
            "score mismatch for id {}: heap={}, naive={}",
            h.id,
            score(h),
            score(n)
        );
    }
}

#[test]
fn ties_keep_input_order_and_negatives_rank_first() {
    let candidates = make_candidates(&[(0, 1.0), (1, -2.0), (2, 1.0), (3, -0.0), (4, 0.0)]);
    let result = top_k_smallest(&candidates, 5);
    let ids: Vec<u64> = result.iter().map(|s| s.id).collect();
    assert_eq!(ids, vec![1, 3, 4, 0, 2]);
    let largest = top_k_largest(&candidates, 2);
    let ids: Vec<u64> = largest.iter().map(|s| s.id).collect();
    assert_eq!(ids, vec![0, 2]);
}

#[test]
fn larger_k_extends_smaller_k() {
    let scores = [3.0f32, 1.0, 2.0, 1.0, -0.0, 0.0, 2.0];
    let c: Vec<ScoredId> = scores
        .iter()
        .enumerate()
        .map(|(i, s)| ScoredId { id: i as u64, score_bits: s.to_bits() })
        .collect();
    for k in 0..=c.len() {
        let small = top_k_smallest(&c, k);
        let large = top_k_smallest(&c, k + 1);
        assert_eq!(small[..], large[..small.len()]);
        let small = top_k_largest(&c, k);
        let large = top_k_largest(&c, k + 1);
        assert_eq!(small[..], large[..small.len()]);
    }
}

#[test]
fn nan_scores_never_displace_numbers() {
    let c = vec![
        ScoredId { id: 1, score_bits: f32::NAN.to_bits() },
        ScoredId { id: 2, score_bits: 1.0f32.to_bits() },
        ScoredId { id: 3, score_bits: (-f32::NAN).to_bits() },
        ScoredId { id: 4, score_bits: (-2.0f32).to_bits() },
    ];
    let largest: Vec<u64> = top_k_largest(&c, 2).iter().map(|s| s.id).collect();
    assert_eq!(largest, vec![2, 4]);
    let smallest: Vec<u64> = top_k_smallest(&c, 2).iter().map(|s| s.id).collect();
    assert_eq!(smallest, vec![4, 2]);
    let all: Vec<u64> = top_k_largest(&c, 4).iter().map(|s| s.id).collect();
    assert_eq!(all, vec![2, 4, 1, 3]);
}
