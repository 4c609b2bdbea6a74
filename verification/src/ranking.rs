//! Top-k ranking of scored candidates: best first, ties in input order.
use vstd::prelude::*;
use vstd::seq_lib::seq_to_set_is_finite;
use vstd::set_lib::{lemma_int_range, lemma_len_subset, set_int_range};
use crate::error::StoreError;
use crate::similarity::{
    lemma_closer_chain, lemma_norm_sq_monotone, norm_report, norm_sq, score_against, score_of,
    similarity_of, squared_norm, Score, MAX_NORM_SQ,
};

verus! {

/// Every score has a positive document norm and is within the scoring bound.
pub open spec fn all_wf(scores: Seq<Score>) -> bool {
    forall|i: int| 0 <= i < scores.len() ==> (#[trigger] scores[i]).wf()
}

/// Candidate `i` is ranked ahead of candidate `j`: it is strictly closer to the
/// query, or equally close and earlier in the input order.
pub open spec fn precedes(scores: Seq<Score>, i: int, j: int) -> bool {
    scores[i].closer(scores[j]) || (scores[i].tied(scores[j]) && i < j)
}

/// `order` lists the `k` best candidates (all of them, if there are fewer),
/// best first.
///
/// Each entry is ranked ahead of every later entry, which makes the list sorted
/// by descending score, stable among equal scores and free of repetitions; and
/// each entry is ranked ahead of every candidate left out.
pub open spec fn is_ranking(scores: Seq<Score>, order: Seq<int>, k: nat) -> bool {
    &&& order.len() == if k <= scores.len() { k } else { scores.len() }
    &&& forall|p: int| 0 <= p < order.len() ==> 0 <= #[trigger] order[p] < scores.len()
    &&& forall|p: int, q: int|
        0 <= p < q < order.len() ==> precedes(scores, #[trigger] order[p], #[trigger] order[q])
    &&& forall|p: int, j: int|
        0 <= p < order.len() && 0 <= j < scores.len() && !order.contains(j)
            ==> #[trigger] precedes(scores, order[p], j)
}

/// Whether candidate `j` may still be picked once `last` was: everything is
/// eligible at the start, afterwards exactly what `last` is ranked ahead of.
pub open spec fn eligible(scores: Seq<Score>, last: Option<int>, j: int) -> bool {
    match last {
        None => true,
        Some(l) => precedes(scores, l, j),
    }
}

/// The eligible candidate below `upto` that is ranked ahead of all other
/// eligible candidates below `upto`, if any candidate there is eligible.
pub open spec fn best_below(scores: Seq<Score>, last: Option<int>, upto: nat) -> Option<int>
    decreases upto,
{
    if upto == 0 {
        None
    } else {
        let j = upto - 1;
        let before = best_below(scores, last, (upto - 1) as nat);
        if !eligible(scores, last, j) {
            before
        } else {
            match before {
                None => Some(j),
                Some(b) => if scores[j].closer(scores[b]) {
                    Some(j)
                } else {
                    before
                },
            }
        }
    }
}

/// The last entry of a ranking under construction.
pub open spec fn last_of(order: Seq<int>) -> Option<int> {
    if order.len() == 0 {
        None
    } else {
        Some(order.last())
    }
}

/// The indices of the `k` best candidates, best first: take the best
/// candidate, then repeatedly the best one among those the previous pick is
/// ranked ahead of, until `k` are taken or none is left.
pub open spec fn ranking(scores: Seq<Score>, k: nat) -> Seq<int>
    decreases k,
{
    if k == 0 {
        Seq::empty()
    } else {
        let head = ranking(scores, (k - 1) as nat);
        match best_below(scores, last_of(head), scores.len()) {
            Some(b) => head.push(b),
            None => head,
        }
    }
}

/// No candidate is ranked ahead of itself, and of two distinct candidates
/// exactly one is ranked ahead of the other.
pub proof fn lemma_precedes_total(scores: Seq<Score>, i: int, j: int)
    ensures
        !precedes(scores, i, i),
        i != j ==> (precedes(scores, i, j) <==> !precedes(scores, j, i)),
{
}

/// Being ranked ahead is transitive.
pub proof fn lemma_precedes_transitive(scores: Seq<Score>, a: int, b: int, c: int)
    requires
        all_wf(scores),
        0 <= a < scores.len(),
        0 <= b < scores.len(),
        0 <= c < scores.len(),
        precedes(scores, a, b),
        precedes(scores, b, c),
    ensures
        precedes(scores, a, c),
{
    lemma_closer_chain(scores[a], scores[b], scores[c]);
}

/// `best_below` finds the one eligible candidate that is ranked ahead of all
/// other eligible candidates, and finds none only where none is eligible.
pub proof fn lemma_best_below(scores: Seq<Score>, last: Option<int>, upto: nat)
    requires
        all_wf(scores),
        upto <= scores.len(),
        last is Some ==> 0 <= last->Some_0 < scores.len(),
    ensures
        match best_below(scores, last, upto) {
            None => forall|j: int| 0 <= j < upto ==> !eligible(scores, last, j),
            Some(b) => {
                &&& 0 <= b < upto
                &&& eligible(scores, last, b)
                &&& forall|j: int|
                    0 <= j < upto && j != b && #[trigger] eligible(scores, last, j) ==> precedes(
                        scores,
                        b,
                        j,
                    )
            },
        },
    decreases upto,
{
    if upto > 0 {
        let j = upto - 1;
        lemma_best_below(scores, last, (upto - 1) as nat);
        let before = best_below(scores, last, (upto - 1) as nat);
        if eligible(scores, last, j) {
            if let Some(b) = before {
                if scores[j].closer(scores[b]) {
                    assert forall|m: int|
                        0 <= m < upto && m != j && #[trigger] eligible(
                            scores,
                            last,
                            m,
                        ) implies precedes(scores, j, m) by {
                        if m != b {
                            lemma_precedes_transitive(scores, j, b, m);
                        }
                    }
                }
            }
        }
    }
}

/// A list of distinct numbers below `n` has at most `n` entries.
proof fn lemma_distinct_is_short(s: Seq<int>, n: nat)
    requires
        s.no_duplicates(),
        forall|p: int| 0 <= p < s.len() ==> 0 <= #[trigger] s[p] < n,
    ensures
        s.len() <= n,
{
    s.unique_seq_to_set();
    lemma_int_range(0, n as int);
    assert(s.to_set().subset_of(set_int_range(0, n as int)));
    lemma_len_subset(s.to_set(), set_int_range(0, n as int));
}

/// A list that holds every number below `n` has at least `n` entries.
proof fn lemma_cover_is_long(s: Seq<int>, n: nat)
    requires
        forall|j: int| 0 <= j < n ==> s.contains(j),
    ensures
        s.len() >= n,
{
    lemma_int_range(0, n as int);
    seq_to_set_is_finite(s);
    assert(set_int_range(0, n as int).subset_of(s.to_set()));
    lemma_len_subset(set_int_range(0, n as int), s.to_set());
    s.lemma_cardinality_of_set();
}

/// In a ranking, what is still eligible after the last pick is exactly what
/// has not been picked.
proof fn lemma_eligible_is_unpicked(scores: Seq<Score>, order: Seq<int>, k: nat, j: int)
    requires
        all_wf(scores),
        is_ranking(scores, order, k),
        0 <= j < scores.len(),
    ensures
        eligible(scores, last_of(order), j) <==> !order.contains(j),
{
    if order.len() > 0 {
        let m = order.len() - 1;
        if order.contains(j) {
            let q = choose|q: int| 0 <= q < order.len() && order[q] == j;
            lemma_precedes_total(scores, order[m], j);
            if q < m {
                assert(precedes(scores, order[q], order[m]));
            }
        } else {
            assert(precedes(scores, order[m], j));
        }
    }
}

/// Ranking correctness: `ranking(scores, k)` holds the `k` highest-scoring
/// candidates (all of them when `k` is at least their number), sorted by
/// descending score, with equal scores in their input order.
pub proof fn lemma_ranking_is_top_k(scores: Seq<Score>, k: nat)
    requires
        all_wf(scores),
    ensures
        is_ranking(scores, ranking(scores, k), k),
    decreases k,
{
    if k > 0 {
        let n = scores.len();
        let head = ranking(scores, (k - 1) as nat);
        lemma_ranking_is_top_k(scores, (k - 1) as nat);
        let last = last_of(head);
        lemma_best_below(scores, last, n);
        assert forall|j: int| 0 <= j < n implies (eligible(scores, last, j) <==> !head.contains(
            j,
        )) by {
            lemma_eligible_is_unpicked(scores, head, (k - 1) as nat, j);
        }
        assert(head.no_duplicates()) by {
            assert forall|p: int, q: int|
                0 <= p < head.len() && 0 <= q < head.len() && p != q implies head[p] != head[q] by {
                lemma_precedes_total(scores, head[p], head[p]);
                if p < q {
                    assert(precedes(scores, head[p], head[q]));
                } else {
                    assert(precedes(scores, head[q], head[p]));
                }
            }
        }
        match best_below(scores, last, n) {
            None => {
                lemma_cover_is_long(head, n);
            },
            Some(b) => {
                let full = head.push(b);
                assert(!head.contains(b));
                assert(full.no_duplicates());
                lemma_distinct_is_short(full, n);
                assert forall|p: int, q: int| 0 <= p < q < full.len() implies precedes(
                    scores,
                    #[trigger] full[p],
                    #[trigger] full[q],
                ) by {
                    if q == head.len() {
                        assert(full[p] == head[p]);
                        assert(precedes(scores, head[p], b));
                    } else {
                        assert(full[p] == head[p] && full[q] == head[q]);
                    }
                }
                assert forall|p: int, j: int|
                    0 <= p < full.len() && 0 <= j < n && !full.contains(
                        j,
                    ) implies #[trigger] precedes(scores, full[p], j) by {
                    assert(full[head.len() as int] == b);
                    assert(j != b);
                    if head.contains(j) {
                        let q = choose|q: int| 0 <= q < head.len() && head[q] == j;
                        assert(full[q] == j);
                    }
                    assert(eligible(scores, last, j));
                    if p < head.len() {
                        assert(full[p] == head[p]);
                        assert(precedes(scores, head[p], j));
                    }
                }
            },
        }
    }
}

/// Where two rankings agree before position `p` and differ at `p`, the entry
/// of `y` there is not ranked ahead of the entry of `x`: otherwise `x` would
/// have to hold it before `p`, where `x` and `y` agree and `y` holds nothing
/// twice.
proof fn lemma_placed_no_later(scores: Seq<Score>, x: Seq<int>, y: Seq<int>, k: nat, p: int)
    requires
        all_wf(scores),
        is_ranking(scores, x, k),
        is_ranking(scores, y, k),
        0 <= p < x.len(),
        forall|q: int| 0 <= q < p ==> x[q] == y[q],
        x[p] != y[p],
    ensures
        !precedes(scores, y[p], x[p]),
{
    if precedes(scores, y[p], x[p]) {
        lemma_precedes_total(scores, x[p], y[p]);
        if x.contains(y[p]) {
            let q = choose|q: int| 0 <= q < x.len() && x[q] == y[p];
            if q < p {
                assert(y[q] == y[p]);
                assert(precedes(scores, y[q], y[p]));
                lemma_precedes_total(scores, y[p], y[p]);
            } else if q > p {
                assert(precedes(scores, x[p], x[q]));
            }
        } else {
            assert(precedes(scores, x[p], y[p]));
        }
    }
}

/// Two rankings of the same scores for the same `k` agree up to position
/// `upto`.
proof fn lemma_rankings_agree(scores: Seq<Score>, a: Seq<int>, b: Seq<int>, k: nat, upto: nat)
    requires
        all_wf(scores),
        is_ranking(scores, a, k),
        is_ranking(scores, b, k),
        upto <= a.len(),
    ensures
        forall|p: int| 0 <= p < upto ==> a[p] == b[p],
    decreases upto,
{
    if upto > 0 {
        lemma_rankings_agree(scores, a, b, k, (upto - 1) as nat);
        let p = upto - 1;
        if a[p] != b[p] {
            lemma_precedes_total(scores, a[p], b[p]);
            lemma_placed_no_later(scores, a, b, k, p);
            lemma_placed_no_later(scores, b, a, k, p);
        }
    }
}

/// A ranking is determined by the scores and `k`: any list with the
/// properties of `is_ranking` is the list `ranking` names.
pub proof fn lemma_ranking_unique(scores: Seq<Score>, order: Seq<int>, k: nat)
    requires
        all_wf(scores),
        is_ranking(scores, order, k),
    ensures
        order == ranking(scores, k),
{
    lemma_ranking_is_top_k(scores, k);
    lemma_rankings_agree(scores, order, ranking(scores, k), k, order.len());
    assert(order =~= ranking(scores, k));
}

/// With `k` at or above the number of candidates, the ranking holds every
/// candidate exactly once.
pub proof fn lemma_full_ranking_is_permutation(scores: Seq<Score>, k: nat)
    requires
        all_wf(scores),
        k >= scores.len(),
    ensures
        ranking(scores, k).len() == scores.len(),
        ranking(scores, k).no_duplicates(),
        forall|j: int| 0 <= j < scores.len() ==> ranking(scores, k).contains(j),
{
    let order = ranking(scores, k);
    lemma_ranking_is_top_k(scores, k);
    assert forall|p: int, q: int|
        0 <= p < order.len() && 0 <= q < order.len() && p != q implies order[p] != order[q] by {
        lemma_precedes_total(scores, order[p], order[p]);
        if p < q {
            assert(precedes(scores, order[p], order[q]));
        } else {
            assert(precedes(scores, order[q], order[p]));
        }
    }
    assert forall|j: int| 0 <= j < scores.len() implies order.contains(j) by {
        if !order.contains(j) {
            let longer = order.push(j);
            assert(longer.no_duplicates());
            lemma_distinct_is_short(longer, scores.len());
        }
    }
}

/// Once no candidate is left to pick, asking for more changes nothing.
proof fn lemma_ranking_stalls(scores: Seq<Score>, p: nat, k: nat)
    requires
        p <= k,
        best_below(scores, last_of(ranking(scores, p)), scores.len()) is None,
    ensures
        ranking(scores, k) == ranking(scores, p),
    decreases k,
{
    if k > p {
        lemma_ranking_stalls(scores, p, (k - 1) as nat);
    }
}

/// Indices read as mathematical integers.
pub open spec fn as_ints(s: Seq<usize>) -> Seq<int> {
    s.map_values(|i: usize| i as int)
}

/// Decides `precedes` for two candidates.
fn ranked_ahead(scores: &Vec<Score>, i: usize, j: usize) -> (b: bool)
    requires
        all_wf(scores@),
        i < scores@.len(),
        j < scores@.len(),
    ensures
        b == precedes(scores@, i as int, j as int),
{
    scores[i].outranks(&scores[j]) || (!scores[j].outranks(&scores[i]) && i < j)
}

/// The positions of the `k` best scores, best first, equal scores in their
/// input order. With `k` at or above the number of scores, all positions
/// come back, sorted.
pub fn rank_scores(scores: &Vec<Score>, k: usize) -> (order: Vec<usize>)
    requires
        all_wf(scores@),
    ensures
        as_ints(order@) == ranking(scores@, k as nat),
        is_ranking(scores@, as_ints(order@), k as nat),
{
    let n = scores.len();
    let mut order: Vec<usize> = Vec::new();
    let mut p: usize = 0;
    assert(as_ints(order@) =~= ranking(scores@, 0));
    while p < k
        invariant
            p <= k,
            n == scores@.len(),
            all_wf(scores@),
            as_ints(order@) == ranking(scores@, p as nat),
        decreases k - p,
    {
        proof {
            lemma_ranking_is_top_k(scores@, p as nat);
        }
        let ghost head = as_ints(order@);
        let last: Option<usize> = if order.len() == 0 {
            None
        } else {
            Some(order[order.len() - 1])
        };
        let ghost glast = last_of(head);
        assert(match last {
            None => glast is None,
            Some(l) => glast == Some(l as int) && l < n,
        }) by {
            if order@.len() > 0 {
                assert(head[head.len() - 1] == order@[order@.len() - 1] as int);
            }
        }
        let mut best: Option<usize> = None;
        let mut j: usize = 0;
        while j < n
            invariant
                j <= n,
                n == scores@.len(),
                all_wf(scores@),
                match last {
                    None => glast is None,
                    Some(l) => glast == Some(l as int) && l < n,
                },
                match best {
                    None => best_below(scores@, glast, j as nat) is None,
                    Some(b) => best_below(scores@, glast, j as nat) == Some(b as int) && b < j,
                },
            decreases n - j,
        {
            let open = match last {
                None => true,
                Some(l) => ranked_ahead(scores, l, j),
            };
            if open {
                match best {
                    None => {
                        best = Some(j);
                    },
                    Some(b) => {
                        if scores[j].outranks(&scores[b]) {
                            best = Some(j);
                        }
                    },
                }
            }
            j += 1;
        }
        match best {
            None => {
                proof {
                    lemma_ranking_stalls(scores@, p as nat, k as nat);
                    lemma_ranking_is_top_k(scores@, k as nat);
                }
                return order;
            },
            Some(b) => {
                order.push(b);
                assert(as_ints(order@) =~= head.push(b as int));
            },
        }
        p += 1;
    }
    proof {
        lemma_ranking_is_top_k(scores@, k as nat);
    }
    order
}

/// The vectors behind a list of borrowed embeddings.
pub open spec fn rows(docs: Seq<&Vec<i32>>) -> Seq<Seq<i32>> {
    Seq::new(docs.len(), |i: int| docs[i]@)
}

/// The vectors behind a list of owned embeddings.
pub open spec fn vectors(docs: Seq<Vec<i32>>) -> Seq<Seq<i32>> {
    Seq::new(docs.len(), |i: int| docs[i]@)
}

/// Some document fails against the query with error `e`.
pub open spec fn some_pair_fails(query: Seq<i32>, docs: Seq<Seq<i32>>, e: StoreError) -> bool {
    exists|i: int| 0 <= i < docs.len() && #[trigger] similarity_of(query, docs[i]) == Err::<Score, StoreError>(e)
}

/// Why documents cannot be ranked against a query, if they cannot. The query
/// is looked at whatever the documents are, even when there are none:
///
/// - a document whose width differs from the query's gives
///   `DimensionMismatch`;
/// - failing that, a query or a document beyond the scoring bound gives
///   `InvalidScore`;
/// - failing that, a query or a document that is the zero vector gives
///   `DegenerateVector`.
pub open spec fn rank_fault(query: Seq<i32>, docs: Seq<Seq<i32>>) -> Option<StoreError> {
    if some_pair_fails(query, docs, StoreError::DimensionMismatch) {
        Some(StoreError::DimensionMismatch)
    } else if norm_sq(query) > MAX_NORM_SQ || some_pair_fails(
        query,
        docs,
        StoreError::InvalidScore,
    ) {
        Some(StoreError::InvalidScore)
    } else if norm_sq(query) == 0 || some_pair_fails(query, docs, StoreError::DegenerateVector) {
        Some(StoreError::DegenerateVector)
    } else {
        None
    }
}

/// A zero vector is never ranked: where the query is the zero vector, or some
/// document is, ranking fails, and it fails with `DegenerateVector` unless a
/// width differs or a vector is beyond the scoring bound. This holds for any
/// number of documents, none included.
pub proof fn lemma_zero_vector_fails_ranking(query: Seq<i32>, docs: Seq<Seq<i32>>)
    requires
        norm_sq(query) == 0 || exists|i: int| 0 <= i < docs.len() && norm_sq(#[trigger] docs[i]) == 0,
    ensures
        rank_fault(query, docs) is Some,
        (forall|i: int| 0 <= i < docs.len() ==> (#[trigger] docs[i]).len() == query.len()
            && norm_sq(docs[i]) <= MAX_NORM_SQ) && norm_sq(query) <= MAX_NORM_SQ ==> rank_fault(
            query,
            docs,
        ) == Some(StoreError::DegenerateVector),
{
    if norm_sq(query) != 0 {
        let z = choose|i: int| 0 <= i < docs.len() && norm_sq(#[trigger] docs[i]) == 0;
        assert(similarity_of(query, docs[z]) is Err);
        let e = similarity_of(query, docs[z])->Err_0;
        assert(some_pair_fails(query, docs, e));
    }
    if (forall|i: int| 0 <= i < docs.len() ==> (#[trigger] docs[i]).len() == query.len()
        && norm_sq(docs[i]) <= MAX_NORM_SQ) && norm_sq(query) <= MAX_NORM_SQ {
        assert(!some_pair_fails(query, docs, StoreError::DimensionMismatch)) by {
            if some_pair_fails(query, docs, StoreError::DimensionMismatch) {
                let w = choose|w: int|
                    0 <= w < docs.len() && #[trigger] similarity_of(query, docs[w]) == Err::<
                        Score,
                        StoreError,
                    >(StoreError::DimensionMismatch);
                assert(docs[w].len() == query.len());
            }
        }
        assert(!some_pair_fails(query, docs, StoreError::InvalidScore)) by {
            if some_pair_fails(query, docs, StoreError::InvalidScore) {
                let w = choose|w: int|
                    0 <= w < docs.len() && #[trigger] similarity_of(query, docs[w]) == Err::<
                        Score,
                        StoreError,
                    >(StoreError::InvalidScore);
                assert(norm_sq(docs[w]) <= MAX_NORM_SQ);
            }
        }
    }
}

/// The score of every document against the query.
pub open spec fn scores_of(query: Seq<i32>, docs: Seq<Seq<i32>>) -> Seq<Score> {
    Seq::new(docs.len(), |i: int| score_of(query, docs[i]))
}

/// Scores every document against the query, or reports why the documents
/// cannot be ranked against it. The query's own norm is tested even when
/// there is no document.
pub fn score_all(query: &Vec<i32>, docs: &Vec<&Vec<i32>>) -> (r: Result<Vec<Score>, StoreError>)
    ensures
        match r {
            Ok(scores) => {
                &&& rank_fault(query@, rows(docs@)) is None
                &&& scores@ == scores_of(query@, rows(docs@))
                &&& all_wf(scores@)
            },
            Err(e) => rank_fault(query@, rows(docs@)) == Some(e),
        },
{
    let query_norm = squared_norm(query);
    let mut scores: Vec<Score> = Vec::new();
    let mut beyond_bound = false;
    let mut degenerate = false;
    let mut i: usize = 0;
    let ghost all = rows(docs@);
    while i < docs.len()
        invariant
            i <= docs@.len(),
            all == rows(docs@),
            query_norm == norm_report(query@),
            !some_pair_fails(query@, all.take(i as int), StoreError::DimensionMismatch),
            beyond_bound == some_pair_fails(query@, all.take(i as int), StoreError::InvalidScore),
            degenerate == some_pair_fails(
                query@,
                all.take(i as int),
                StoreError::DegenerateVector,
            ),
            !beyond_bound && !degenerate ==> scores@ == scores_of(query@, all.take(i as int)),
            all_wf(scores@),
        decreases docs@.len() - i,
    {
        let ghost before = all.take(i as int);
        let ghost after = all.take(i + 1);
        let outcome = score_against(query, query_norm, docs[i]);
        assert(outcome == similarity_of(query@, all[i as int]));
        assert(after[i as int] == all[i as int]);
        assert forall|e: StoreError|
            some_pair_fails(query@, after, e) <==> (some_pair_fails(query@, before, e) || outcome
                == Err::<Score, StoreError>(e)) by {
            if some_pair_fails(query@, before, e) {
                let w = choose|w: int|
                    0 <= w < before.len() && #[trigger] similarity_of(query@, before[w]) == Err::<
                        Score,
                        StoreError,
                    >(e);
                assert(after[w] == before[w]);
            }
            if some_pair_fails(query@, after, e) {
                let w = choose|w: int|
                    0 <= w < after.len() && #[trigger] similarity_of(query@, after[w]) == Err::<
                        Score,
                        StoreError,
                    >(e);
                if w < i {
                    assert(after[w] == before[w]);
                }
            }
        }
        match outcome {
            Ok(score) => {
                scores.push(score);
                assert(!beyond_bound && !degenerate ==> scores@ =~= scores_of(query@, after));
            },
            Err(StoreError::DimensionMismatch) => {
                assert(similarity_of(query@, all[i as int]) == Err::<Score, StoreError>(
                    StoreError::DimensionMismatch,
                ));
                return Err(StoreError::DimensionMismatch);
            },
            Err(StoreError::DegenerateVector) => {
                degenerate = true;
            },
            Err(_) => {
                beyond_bound = true;
            },
        }
        i += 1;
    }
    assert(all.take(i as int) =~= all);
    proof {
        lemma_norm_sq_monotone(query@, 0, query@.len());
    }
    match query_norm {
        None => Err(StoreError::InvalidScore),
        Some(norm) => {
            if beyond_bound {
                Err(StoreError::InvalidScore)
            } else if degenerate || norm == 0 {
                Err(StoreError::DegenerateVector)
            } else {
                Ok(scores)
            }
        },
    }
}

/// The ranked `(id, score)` pairs: the `k` best documents, best first, equal
/// scores in their input order.
pub open spec fn ranked_pairs(query: Seq<i32>, docs: Seq<Seq<i32>>, ids: Seq<usize>, k: nat) -> Seq<
    (usize, Score),
> {
    ranking(scores_of(query, docs), k).map_values(
        |i: int| (ids[i], scores_of(query, docs)[i]),
    )
}

/// How many candidates two lists pair up into: the length of the shorter.
pub open spec fn paired(docs: int, ids: int) -> int {
    if docs <= ids {
        docs
    } else {
        ids
    }
}

/// Ranks documents against a query by cosine similarity and returns the ids and
/// scores of the `similarity_top_k` best, best first; documents of equal score
/// keep their input order. `doc_ids[i]` names `doc_embeddings[i]`; where
/// one list is longer, its surplus is ignored.
///
/// Fails, with the error `rank_fault` names, when a document's width differs
/// from the query's, when the query or a document is beyond the scoring
/// bound, or when the query or a document is the zero vector. The query is
/// tested even when there is nothing to rank.
pub fn get_top_k_embeddings(
    query_embedding: &Vec<i32>,
    doc_embeddings: &Vec<Vec<i32>>,
    doc_ids: &Vec<usize>,
    similarity_top_k: usize,
) -> (r: Result<Vec<(usize, Score)>, StoreError>)
    ensures
        ({
            let n = paired(doc_embeddings@.len() as int, doc_ids@.len() as int);
            let docs = vectors(doc_embeddings@).take(n);
            match r {
                Ok(top) => {
                    &&& rank_fault(query_embedding@, docs) is None
                    &&& top@ == ranked_pairs(
                        query_embedding@,
                        docs,
                        doc_ids@.take(n),
                        similarity_top_k as nat,
                    )
                    &&& is_ranking(
                        scores_of(query_embedding@, docs),
                        ranking(scores_of(query_embedding@, docs), similarity_top_k as nat),
                        similarity_top_k as nat,
                    )
                },
                Err(e) => rank_fault(query_embedding@, docs) == Some(e),
            }
        }),
{
    let n = if doc_embeddings.len() <= doc_ids.len() {
        doc_embeddings.len()
    } else {
        doc_ids.len()
    };
    let ghost docs = vectors(doc_embeddings@).take(n as int);
    let mut borrowed: Vec<&Vec<i32>> = Vec::new();
    let mut i: usize = 0;
    while i < n
        invariant
            i <= n,
            n <= doc_embeddings@.len(),
            docs == vectors(doc_embeddings@).take(n as int),
            borrowed@.len() == i,
            rows(borrowed@) == docs.take(i as int),
        decreases n - i,
    {
        let ghost before = borrowed@;
        borrowed.push(&doc_embeddings[i]);
        assert(rows(borrowed@) =~= docs.take(i + 1)) by {
            assert forall|j: int| 0 <= j < i implies rows(borrowed@)[j] == docs.take(
                i + 1,
            )[j] by {
                assert(rows(before)[j] == docs.take(i as int)[j]);
            }
        }
        i += 1;
    }
    assert(docs.take(n as int) =~= docs);
    let scores = match score_all(query_embedding, &borrowed) {
        Ok(scores) => scores,
        Err(e) => {
            return Err(e);
        },
    };
    let order = rank_scores(&scores, similarity_top_k);
    let ghost picks = as_ints(order@);
    let mut top: Vec<(usize, Score)> = Vec::new();
    let mut p: usize = 0;
    while p < order.len()
        invariant
            p <= order@.len(),
            n <= doc_ids@.len(),
            n == scores@.len(),
            picks == as_ints(order@),
            is_ranking(scores@, picks, similarity_top_k as nat),
            top@ == picks.take(p as int).map_values(|i: int| (doc_ids@.take(n as int)[i], scores@[i])),
        decreases order@.len() - p,
    {
        let at = order[p];
        assert(picks[p as int] == at as int);
        top.push((doc_ids[at], scores[at]));
        assert(top@ =~= picks.take(p + 1).map_values(
            |i: int| (doc_ids@.take(n as int)[i], scores@[i]),
        ));
        p += 1;
    }
    assert(picks.take(p as int) =~= picks);
    Ok(top)
}

} // verus!
