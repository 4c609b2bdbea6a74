use vector_store::{get_top_k_embeddings, rank_scores, score_all, similarity, Score, StoreError};

fn ids_of(ranked: &Vec<(usize, Score)>) -> Vec<usize> {
    ranked.iter().map(|entry| entry.0).collect()
}

#[test]
fn top_two_of_three() {
    let docs = vec![vec![10, 0], vec![0, 10], vec![7, 7]];
    let ids = vec![1, 2, 3];
    let ranked = get_top_k_embeddings(&vec![10, 0], &docs, &ids, 2).unwrap();
    assert_eq!(ids_of(&ranked), vec![1, 3]);
    assert_eq!(ranked[0].1, Score { dot: 100, query_norm_sq: 100, doc_norm_sq: 100 });
    assert_eq!(ranked[1].1, Score { dot: 70, query_norm_sq: 100, doc_norm_sq: 98 });
}

#[test]
fn k_at_or_above_count_returns_all_sorted() {
    let docs = vec![vec![0, 10], vec![7, 7], vec![10, 0], vec![-10, 0]];
    let ids = vec![11, 12, 13, 14];
    let exact = get_top_k_embeddings(&vec![1, 0], &docs, &ids, 4).unwrap();
    assert_eq!(ids_of(&exact), vec![13, 12, 11, 14]);
    let more = get_top_k_embeddings(&vec![1, 0], &docs, &ids, 100).unwrap();
    assert_eq!(ids_of(&more), vec![13, 12, 11, 14]);
    let most = get_top_k_embeddings(&vec![1, 0], &docs, &ids, usize::MAX).unwrap();
    assert_eq!(ids_of(&most), vec![13, 12, 11, 14]);
}

#[test]
fn k_zero_returns_nothing() {
    let docs = vec![vec![1, 0], vec![0, 1]];
    let ranked = get_top_k_embeddings(&vec![1, 0], &docs, &vec![1, 2], 0).unwrap();
    assert!(ranked.is_empty());
}

#[test]
fn ties_keep_input_order() {
    // Documents 20, 40 and 50 all point the same way as the query.
    let docs = vec![vec![0, 5], vec![3, 3], vec![1, 0], vec![9, 9], vec![2, 2]];
    let ids = vec![10, 20, 30, 40, 50];
    let ranked = get_top_k_embeddings(&vec![1, 1], &docs, &ids, 5).unwrap();
    assert_eq!(ids_of(&ranked), vec![20, 40, 50, 10, 30]);
    let top = get_top_k_embeddings(&vec![1, 1], &docs, &ids, 2).unwrap();
    assert_eq!(ids_of(&top), vec![20, 40]);
}

#[test]
fn all_equal_scores_come_back_in_input_order() {
    let docs = vec![vec![1, 2], vec![2, 4], vec![3, 6], vec![4, 8]];
    let ids = vec![4, 3, 2, 1];
    let ranked = get_top_k_embeddings(&vec![1, 2], &docs, &ids, 3).unwrap();
    assert_eq!(ids_of(&ranked), vec![4, 3, 2]);
}

#[test]
fn ranking_does_not_depend_on_scale() {
    let docs = vec![vec![1, 3], vec![3000, 1000], vec![-20, 20]];
    let ids = vec![1, 2, 3];
    let small = get_top_k_embeddings(&vec![2, 1], &docs, &ids, 3).unwrap();
    let large = get_top_k_embeddings(&vec![2000, 1000], &docs, &ids, 3).unwrap();
    assert_eq!(ids_of(&small), vec![2, 1, 3]);
    assert_eq!(ids_of(&large), vec![2, 1, 3]);
}

#[test]
fn surplus_of_the_longer_list_is_ignored() {
    let docs = vec![vec![0, 1], vec![1, 0], vec![1, 1]];
    let ranked = get_top_k_embeddings(&vec![1, 0], &docs, &vec![7, 8], 5).unwrap();
    assert_eq!(ids_of(&ranked), vec![8, 7]);
    let fewer_docs = vec![vec![0, 1]];
    let ranked = get_top_k_embeddings(&vec![1, 0], &fewer_docs, &vec![7, 8, 9], 5).unwrap();
    assert_eq!(ids_of(&ranked), vec![7]);
    // A faulty document beyond the paired part does not matter.
    let docs = vec![vec![0, 1], vec![0, 0]];
    let ranked = get_top_k_embeddings(&vec![1, 0], &docs, &vec![7], 5).unwrap();
    assert_eq!(ids_of(&ranked), vec![7]);
}

#[test]
fn no_documents_rank_to_nothing() {
    let docs: Vec<Vec<i32>> = Vec::new();
    let ranked = get_top_k_embeddings(&vec![3, 4], &docs, &Vec::new(), 3).unwrap();
    assert!(ranked.is_empty());
    let none: Vec<&Vec<i32>> = Vec::new();
    assert_eq!(score_all(&vec![3, 4], &none), Ok(Vec::new()));
}

#[test]
fn query_is_tested_even_without_documents() {
    let docs: Vec<Vec<i32>> = Vec::new();
    let ids: Vec<usize> = Vec::new();
    assert_eq!(
        get_top_k_embeddings(&vec![0, 0], &docs, &ids, 3),
        Err(StoreError::DegenerateVector)
    );
    assert_eq!(get_top_k_embeddings(&vec![], &docs, &ids, 3), Err(StoreError::DegenerateVector));
    assert_eq!(get_top_k_embeddings(&vec![0, 0], &docs, &ids, 0), Err(StoreError::DegenerateVector));
    assert_eq!(
        get_top_k_embeddings(&vec![i32::MAX, 0], &docs, &ids, 3),
        Err(StoreError::InvalidScore)
    );
    let none: Vec<&Vec<i32>> = Vec::new();
    assert_eq!(score_all(&vec![0, 0], &none), Err(StoreError::DegenerateVector));
    assert_eq!(score_all(&vec![i32::MIN], &none), Err(StoreError::InvalidScore));
    // Documents beyond the paired part do not count as documents.
    let unpaired = vec![vec![1, 0]];
    assert_eq!(
        get_top_k_embeddings(&vec![0, 0], &unpaired, &ids, 3),
        Err(StoreError::DegenerateVector)
    );
}

#[test]
fn zero_vector_is_degenerate() {
    let docs = vec![vec![1, 0], vec![0, 0]];
    let ids = vec![1, 2];
    assert_eq!(
        get_top_k_embeddings(&vec![1, 0], &docs, &ids, 2),
        Err(StoreError::DegenerateVector)
    );
    let docs = vec![vec![1, 0], vec![0, 1]];
    assert_eq!(
        get_top_k_embeddings(&vec![0, 0], &docs, &ids, 2),
        Err(StoreError::DegenerateVector)
    );
}

#[test]
fn width_mismatch_is_reported_first() {
    let docs = vec![vec![0, 0], vec![i32::MAX, 1], vec![1, 2, 3]];
    let ids = vec![1, 2, 3];
    assert_eq!(
        get_top_k_embeddings(&vec![1, 0], &docs, &ids, 2),
        Err(StoreError::DimensionMismatch)
    );
}

#[test]
fn beyond_bound_is_reported_before_degenerate() {
    let docs = vec![vec![0, 0], vec![i32::MAX, 1], vec![1, 2]];
    let ids = vec![1, 2, 3];
    assert_eq!(get_top_k_embeddings(&vec![1, 0], &docs, &ids, 2), Err(StoreError::InvalidScore));
    let docs = vec![vec![0, 0], vec![1, 2]];
    assert_eq!(
        get_top_k_embeddings(&vec![i32::MIN, 0], &docs, &vec![1, 2], 2),
        Err(StoreError::InvalidScore)
    );
}

#[test]
fn score_all_scores_in_order() {
    let a = vec![10, 0];
    let b = vec![7, 7];
    let docs: Vec<&Vec<i32>> = vec![&a, &b];
    let scores = score_all(&vec![10, 0], &docs).unwrap();
    assert_eq!(
        scores,
        vec![
            Score { dot: 100, query_norm_sq: 100, doc_norm_sq: 100 },
            Score { dot: 70, query_norm_sq: 100, doc_norm_sq: 98 },
        ]
    );
    let zero = vec![0, 0];
    let docs: Vec<&Vec<i32>> = vec![&a, &zero];
    assert_eq!(score_all(&vec![10, 0], &docs), Err(StoreError::DegenerateVector));
}

#[test]
fn rank_scores_gives_positions() {
    let query = vec![1, 0];
    let docs = vec![vec![0, 1], vec![1, 1], vec![1, 0], vec![2, 2], vec![-1, 0]];
    let scores: Vec<Score> = docs.iter().map(|d| similarity(&query, d).unwrap()).collect();
    assert_eq!(rank_scores(&scores, 5), vec![2, 1, 3, 0, 4]);
    assert_eq!(rank_scores(&scores, 3), vec![2, 1, 3]);
    assert_eq!(rank_scores(&scores, 1), vec![2]);
    assert_eq!(rank_scores(&scores, 0), Vec::<usize>::new());
    assert_eq!(rank_scores(&scores, 9), vec![2, 1, 3, 0, 4]);
    assert_eq!(rank_scores(&Vec::new(), 3), Vec::<usize>::new());
}

#[test]
fn ranking_matches_floating_point_cosines() {
    let query = vec![3, -2, 5, 1];
    let docs = vec![
        vec![1, 1, 1, 1],
        vec![3, -2, 5, 0],
        vec![-3, 2, -5, -1],
        vec![0, 0, 9, 0],
        vec![6, -4, 10, 2],
        vec![5, 5, -5, 5],
        vec![1, 0, 0, 0],
    ];
    let ids: Vec<usize> = (1..=docs.len()).collect();
    let ranked = get_top_k_embeddings(&query, &docs, &ids, docs.len()).unwrap();
    assert_eq!(ids_of(&ranked), vec![5, 2, 4, 1, 7, 6, 3]);
    let mut previous = 2.0f64;
    for (_, score) in &ranked {
        let norms = (score.query_norm_sq as f64) * (score.doc_norm_sq as f64);
        let cosine = (score.dot as f64) / norms.sqrt();
        assert!(cosine <= previous + 1e-12);
        assert!(cosine >= -1.0 - 1e-12 && cosine <= 1.0 + 1e-12);
        previous = cosine;
    }
}
