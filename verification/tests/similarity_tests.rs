use vector_store::similarity::dot_product;
use vector_store::{similarity, squared_norm, Score, StoreError, MAX_NORM_SQ};

fn cosine(score: &Score) -> f64 {
    let norms = (score.query_norm_sq as f64) * (score.doc_norm_sq as f64);
    (score.dot as f64) / norms.sqrt()
}

#[test]
fn squared_norm_of_small_vectors() {
    assert_eq!(squared_norm(&vec![3, 4]), Some(25));
    assert_eq!(squared_norm(&vec![-3, 4, 12]), Some(169));
    assert_eq!(squared_norm(&vec![]), Some(0));
    assert_eq!(squared_norm(&vec![0, 0, 0]), Some(0));
}

#[test]
fn squared_norm_at_the_bound() {
    // 2^21 squared is exactly 2^42.
    assert_eq!(MAX_NORM_SQ, 1u64 << 42);
    assert_eq!(squared_norm(&vec![1 << 21]), Some(1u64 << 42));
    assert_eq!(squared_norm(&vec![1 << 21, 1]), None);
    assert_eq!(squared_norm(&vec![(1 << 21) + 1]), None);
}

#[test]
fn squared_norm_of_extreme_components() {
    assert_eq!(squared_norm(&vec![i32::MIN]), None);
    assert_eq!(squared_norm(&vec![i32::MAX, i32::MIN, i32::MAX]), None);
    assert_eq!(squared_norm(&vec![0, i32::MIN]), None);
}

#[test]
fn dot_product_exact_values() {
    assert_eq!(dot_product(&vec![1, 2, 3], &vec![4, -5, 6]), 12);
    assert_eq!(dot_product(&vec![7, 7], &vec![10, 0]), 70);
    assert_eq!(dot_product(&vec![], &vec![]), 0);
    assert_eq!(dot_product(&vec![1 << 21], &vec![-(1 << 21)]), -(1i64 << 42));
}

#[test]
fn similarity_exact_score() {
    let score = similarity(&vec![10, 0], &vec![7, 7]).unwrap();
    assert_eq!(score, Score { dot: 70, query_norm_sq: 100, doc_norm_sq: 98 });
    assert!((cosine(&score) - 0.70710678).abs() < 1e-6);
}

#[test]
fn similarity_of_parallel_and_opposite_vectors() {
    let same = similarity(&vec![3, 4], &vec![6, 8]).unwrap();
    assert!((cosine(&same) - 1.0).abs() < 1e-12);
    let opposite = similarity(&vec![3, 4], &vec![-3, -4]).unwrap();
    assert_eq!(opposite.dot, -25);
    assert!((cosine(&opposite) + 1.0).abs() < 1e-12);
    let orthogonal = similarity(&vec![1, 0], &vec![0, 1]).unwrap();
    assert_eq!(orthogonal.dot, 0);
}

#[test]
fn similarity_rejects_zero_vector() {
    assert_eq!(similarity(&vec![0, 0], &vec![1, 2]), Err(StoreError::DegenerateVector));
    assert_eq!(similarity(&vec![1, 2], &vec![0, 0]), Err(StoreError::DegenerateVector));
    assert_eq!(similarity(&vec![], &vec![]), Err(StoreError::DegenerateVector));
}

#[test]
fn similarity_rejects_width_mismatch() {
    assert_eq!(similarity(&vec![1, 2], &vec![1, 2, 3]), Err(StoreError::DimensionMismatch));
    // A mismatch is reported before anything else.
    assert_eq!(similarity(&vec![0, 0], &vec![i32::MAX]), Err(StoreError::DimensionMismatch));
}

#[test]
fn similarity_rejects_vector_beyond_bound() {
    assert_eq!(similarity(&vec![i32::MAX, 0], &vec![1, 1]), Err(StoreError::InvalidScore));
    assert_eq!(similarity(&vec![1, 1], &vec![0, i32::MIN]), Err(StoreError::InvalidScore));
    // Beyond the bound is reported before a zero vector.
    assert_eq!(similarity(&vec![0, 0], &vec![i32::MAX, 0]), Err(StoreError::InvalidScore));
}

#[test]
fn outranks_compares_cosines() {
    let near = similarity(&vec![10, 0], &vec![10, 0]).unwrap();
    let mid = similarity(&vec![10, 0], &vec![7, 7]).unwrap();
    let far = similarity(&vec![10, 0], &vec![0, 10]).unwrap();
    let behind = similarity(&vec![10, 0], &vec![-1, 0]).unwrap();
    assert!(near.outranks(&mid));
    assert!(mid.outranks(&far));
    assert!(far.outranks(&behind));
    assert!(near.outranks(&behind));
    assert!(!mid.outranks(&near));
    assert!(!near.outranks(&near));
}

#[test]
fn outranks_ignores_length_of_document() {
    // Same direction, different lengths: equal cosines, neither outranks.
    let short = similarity(&vec![1, 1], &vec![2, 2]).unwrap();
    let long = similarity(&vec![1, 1], &vec![900, 900]).unwrap();
    assert!(!short.outranks(&long));
    assert!(!long.outranks(&short));
}

#[test]
fn outranks_among_negative_cosines() {
    // cos = -1/sqrt(2) against cos = -1: the first is closer.
    let slanted = similarity(&vec![1, 0], &vec![-1, 1]).unwrap();
    let opposite = similarity(&vec![1, 0], &vec![-5, 0]).unwrap();
    assert!(slanted.outranks(&opposite));
    assert!(!opposite.outranks(&slanted));
}

#[test]
fn outranks_at_the_largest_magnitudes() {
    let big = 1 << 21;
    let best = similarity(&vec![big], &vec![big]).unwrap();
    let worst = similarity(&vec![big], &vec![-big]).unwrap();
    assert_eq!(best.dot, 1i64 << 42);
    assert_eq!(worst.dot, -(1i64 << 42));
    assert!(best.outranks(&worst));
    assert!(!worst.outranks(&best));
}

#[test]
fn squared_dot_never_exceeds_product_of_norms() {
    let vectors = [
        vec![1, 2, 3],
        vec![-4, 0, 9],
        vec![1000, -1000, 1],
        vec![0, 0, 1],
        vec![-7, -7, -7],
        vec![2, 4, 6],
    ];
    for query in &vectors {
        for doc in &vectors {
            let score = similarity(query, doc).unwrap();
            let lhs = (score.dot as i128) * (score.dot as i128);
            let rhs = (score.query_norm_sq as i128) * (score.doc_norm_sq as i128);
            assert!(lhs <= rhs);
        }
    }
    let parallel = similarity(&vec![1, 2, 3], &vec![2, 4, 6]).unwrap();
    assert_eq!((parallel.dot as i128).pow(2), 14 * 56);
}
