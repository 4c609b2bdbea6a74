//! Exact cosine similarity over fixed-point embeddings.
//!
//! An embedding is a vector of signed fixed-point components (`i32`). Cosine
//! similarity does not depend on the scale of either vector, so the unit of the
//! components is the caller's choice. All arithmetic is done on integers and is
//! exact: two scores compare the way the real-valued cosines do, with no
//! rounding anywhere.
use vstd::prelude::*;
use crate::error::StoreError;

verus! {

/// Largest squared Euclidean norm a vector may have and still be scored: 2^42.
/// It keeps every product formed while comparing two scores below 2^127.
pub const MAX_NORM_SQ: u64 = 0x400_0000_0000;

/// Sum of `a[i] * b[i]` over the first `n` positions.
pub open spec fn dot_upto(a: Seq<i32>, b: Seq<i32>, n: nat) -> int
    recommends
        n <= a.len(),
        n <= b.len(),
    decreases n,
{
    if n == 0 {
        0
    } else {
        dot_upto(a, b, (n - 1) as nat) + a[n - 1] * b[n - 1]
    }
}

/// Dot product of two vectors of one width.
pub open spec fn dot(a: Seq<i32>, b: Seq<i32>) -> int
    recommends
        a.len() == b.len(),
{
    dot_upto(a, b, a.len())
}

/// Squared Euclidean norm.
pub open spec fn norm_sq(v: Seq<i32>) -> int {
    dot(v, v)
}

/// `d * |d|`: the square of `d` carrying the sign of `d`. Strictly increasing in
/// `d`, so it orders numbers as they are ordered while being free of roots.
pub open spec fn signed_square(d: int) -> int {
    if d < 0 {
        -(d * d)
    } else {
        d * d
    }
}

/// The similarity of one document vector to a query vector, kept exactly.
///
/// The cosine it stands for is `dot / sqrt(query_norm_sq * doc_norm_sq)`.
#[derive(Clone, Copy, Debug, PartialEq, Eq, Structural)]
pub struct Score {
    /// Dot product of query and document.
    pub dot: i64,
    /// Squared norm of the query vector.
    pub query_norm_sq: u64,
    /// Squared norm of the document vector.
    pub doc_norm_sq: u64,
}

impl Score {
    /// Both norms are positive and everything is within the scoring bound.
    pub open spec fn wf(self) -> bool {
        &&& 0 < self.query_norm_sq <= MAX_NORM_SQ
        &&& 0 < self.doc_norm_sq <= MAX_NORM_SQ
        &&& -(MAX_NORM_SQ as int) <= self.dot <= MAX_NORM_SQ as int
    }

    /// The cosine of `self` is strictly greater than the cosine of `other`,
    /// both taken against the same query.
    ///
    /// With a common query norm, `cos(a) > cos(b)` is
    /// `a.dot / sqrt(a.doc_norm_sq) > b.dot / sqrt(b.doc_norm_sq)`. Applying the
    /// increasing map `x -> x * |x|` to both sides and clearing the positive
    /// denominators gives the integer inequality below.
    pub open spec fn closer(self, other: Score) -> bool {
        signed_square(self.dot as int) * other.doc_norm_sq > signed_square(other.dot as int)
            * self.doc_norm_sq
    }

    /// Neither score is closer than the other: the cosines are equal.
    pub open spec fn tied(self, other: Score) -> bool {
        !self.closer(other) && !other.closer(self)
    }

    /// Decides `closer` in 128-bit arithmetic.
    pub fn outranks(&self, other: &Score) -> (b: bool)
        requires
            self.wf(),
            other.wf(),
        ensures
            b == self.closer(*other),
    {
        let lhs: i128 = scaled_key(self.dot, other.doc_norm_sq);
        let rhs: i128 = scaled_key(other.dot, self.doc_norm_sq);
        lhs > rhs
    }
}

/// `signed_square(d) * n`, which stays below 2^126 within the scoring bound.
fn scaled_key(d: i64, n: u64) -> (r: i128)
    requires
        -(MAX_NORM_SQ as int) <= d <= MAX_NORM_SQ as int,
        n <= MAX_NORM_SQ,
    ensures
        r == signed_square(d as int) * n,
{
    let x: i128 = d as i128;
    let m: i128 = n as i128;
    assert(0 <= x * x <= 0x400_0000_0000 * 0x400_0000_0000) by (nonlinear_arith)
        requires
            -0x400_0000_0000 <= x <= 0x400_0000_0000,
    ;
    let sq: i128 = x * x;
    assert(0 <= sq * m <= 0x400_0000_0000 * 0x400_0000_0000 * 0x400_0000_0000)
        by (nonlinear_arith)
        requires
            0 <= sq <= 0x400_0000_0000 * 0x400_0000_0000,
            0 <= m <= 0x400_0000_0000,
    ;
    let p: i128 = sq * m;
    if d < 0 {
        assert(-(x * x) * m == -(x * x * m)) by (nonlinear_arith);
        -p
    } else {
        p
    }
}

/// Cross-multiplied fractions chain: from `x/na >= y/nb` and `y/nb >= z/nc`
/// follows `x/na >= z/nc`, strictly if either link is strict.
proof fn lemma_fraction_chain(x: int, na: int, y: int, nb: int, z: int, nc: int)
    requires
        na > 0,
        nb > 0,
        nc > 0,
        x * nb >= y * na,
        y * nc >= z * nb,
    ensures
        x * nc >= z * na,
        x * nb > y * na || y * nc > z * nb ==> x * nc > z * na,
{
    assert((x * nb) * nc >= (y * na) * nc) by (nonlinear_arith)
        requires
            x * nb >= y * na,
            nc > 0,
    ;
    assert((y * nc) * na >= (z * nb) * na) by (nonlinear_arith)
        requires
            y * nc >= z * nb,
            na > 0,
    ;
    assert((x * nb) * nc == (x * nc) * nb) by (nonlinear_arith);
    assert((y * na) * nc == (y * nc) * na) by (nonlinear_arith);
    assert((z * nb) * na == (z * na) * nb) by (nonlinear_arith);
    assert(x * nc >= z * na) by (nonlinear_arith)
        requires
            (x * nc) * nb >= (z * na) * nb,
            nb > 0,
    ;
    if x * nb > y * na {
        assert((x * nb) * nc > (y * na) * nc) by (nonlinear_arith)
            requires
                x * nb > y * na,
                nc > 0,
        ;
        assert(x * nc > z * na) by (nonlinear_arith)
            requires
                (x * nc) * nb > (z * na) * nb,
                nb > 0,
        ;
    }
    if y * nc > z * nb {
        assert((y * nc) * na > (z * nb) * na) by (nonlinear_arith)
            requires
                y * nc > z * nb,
                na > 0,
        ;
        assert(x * nc > z * na) by (nonlinear_arith)
            requires
                (x * nc) * nb > (z * na) * nb,
                nb > 0,
        ;
    }
}

/// "At least as close" is transitive, and the conclusion is strict as soon as
/// one of the two links is.
pub proof fn lemma_closer_chain(a: Score, b: Score, c: Score)
    requires
        a.doc_norm_sq > 0,
        b.doc_norm_sq > 0,
        c.doc_norm_sq > 0,
    ensures
        !b.closer(a) && !c.closer(b) ==> !c.closer(a),
        a.closer(b) && !c.closer(b) ==> a.closer(c),
        !b.closer(a) && b.closer(c) ==> a.closer(c),
{
    if !b.closer(a) && !c.closer(b) {
        lemma_fraction_chain(
            signed_square(a.dot as int),
            a.doc_norm_sq as int,
            signed_square(b.dot as int),
            b.doc_norm_sq as int,
            signed_square(c.dot as int),
            c.doc_norm_sq as int,
        );
    }
}

/// The partial sums of a squared norm never decrease.
pub proof fn lemma_norm_sq_monotone(v: Seq<i32>, i: nat, j: nat)
    requires
        i <= j <= v.len(),
    ensures
        0 <= dot_upto(v, v, i) <= dot_upto(v, v, j),
    decreases j,
{
    if j == 0 {
    } else if i == j {
        lemma_norm_sq_monotone(v, (i - 1) as nat, (j - 1) as nat);
        assert(0 <= v[j - 1] * v[j - 1]) by (nonlinear_arith);
    } else {
        lemma_norm_sq_monotone(v, i, (j - 1) as nat);
        assert(0 <= v[j - 1] * v[j - 1]) by (nonlinear_arith);
    }
}

/// Twice a partial dot product is bounded, in absolute value, by the sum of the
/// two partial squared norms (from `2|xy| <= x^2 + y^2`, term by term).
pub proof fn lemma_dot_bounded(a: Seq<i32>, b: Seq<i32>, n: nat)
    requires
        n <= a.len(),
        n <= b.len(),
    ensures
        -(dot_upto(a, a, n) + dot_upto(b, b, n)) <= 2 * dot_upto(a, b, n) <= dot_upto(a, a, n)
            + dot_upto(b, b, n),
    decreases n,
{
    if n > 0 {
        lemma_dot_bounded(a, b, (n - 1) as nat);
        let x = a[n - 1] as int;
        let y = b[n - 1] as int;
        assert(-(x * x + y * y) <= 2 * (x * y) <= x * x + y * y) by (nonlinear_arith);
    }
}

/// The squared norm of `v`, or `None` when it exceeds `MAX_NORM_SQ`.
/// (A zero result means the zero vector: see `lemma_zero_norm`.)
pub fn squared_norm(v: &Vec<i32>) -> (r: Option<u64>)
    ensures
        r == norm_report(v@),
        r is Some ==> r->Some_0 == norm_sq(v@),
{
    let mut acc: u64 = 0;
    let mut i: usize = 0;
    while i < v.len()
        invariant
            i <= v@.len(),
            acc == dot_upto(v@, v@, i as nat),
            acc <= MAX_NORM_SQ,
        decreases v@.len() - i,
    {
        let c: i64 = v[i] as i64;
        assert(0 <= c * c <= 0x4000_0000_0000_0000) by (nonlinear_arith)
            requires
                -0x8000_0000 <= c <= 0x7fff_ffff,
        ;
        let term: u64 = (c * c) as u64;
        let next: u64 = acc + term;
        if next > MAX_NORM_SQ {
            proof {
                lemma_norm_sq_monotone(v@, (i + 1) as nat, v@.len());
            }
            return None;
        }
        acc = next;
        i += 1;
    }
    Some(acc)
}

/// Dot product of two scorable vectors of one width.
pub fn dot_product(a: &Vec<i32>, b: &Vec<i32>) -> (r: i64)
    requires
        a@.len() == b@.len(),
        norm_sq(a@) <= MAX_NORM_SQ,
        norm_sq(b@) <= MAX_NORM_SQ,
    ensures
        r == dot(a@, b@),
        -(MAX_NORM_SQ as int) <= r <= MAX_NORM_SQ as int,
{
    let mut acc: i64 = 0;
    let mut i: usize = 0;
    while i < a.len()
        invariant
            i <= a@.len(),
            a@.len() == b@.len(),
            norm_sq(a@) <= MAX_NORM_SQ,
            norm_sq(b@) <= MAX_NORM_SQ,
            acc == dot_upto(a@, b@, i as nat),
            -(MAX_NORM_SQ as int) <= acc <= MAX_NORM_SQ as int,
        decreases a@.len() - i,
    {
        let x: i64 = a[i] as i64;
        let y: i64 = b[i] as i64;
        assert(-0x4000_0000_0000_0000 <= x * y <= 0x4000_0000_0000_0000) by (nonlinear_arith)
            requires
                -0x8000_0000 <= x <= 0x7fff_ffff,
                -0x8000_0000 <= y <= 0x7fff_ffff,
        ;
        proof {
            lemma_dot_bounded(a@, b@, (i + 1) as nat);
            lemma_norm_sq_monotone(a@, (i + 1) as nat, a@.len());
            lemma_norm_sq_monotone(b@, (i + 1) as nat, b@.len());
        }
        acc = acc + x * y;
        i += 1;
    }
    acc
}

/// The three numbers that make up the score of `doc` against `query`.
pub open spec fn score_of(query: Seq<i32>, doc: Seq<i32>) -> Score {
    Score {
        dot: dot(query, doc) as i64,
        query_norm_sq: norm_sq(query) as u64,
        doc_norm_sq: norm_sq(doc) as u64,
    }
}

/// The score of `doc` against `query`, or the reason there is none: a width
/// mismatch first, then a vector beyond the scoring bound, then a zero vector.
pub open spec fn similarity_of(query: Seq<i32>, doc: Seq<i32>) -> Result<Score, StoreError> {
    if query.len() != doc.len() {
        Err(StoreError::DimensionMismatch)
    } else if norm_sq(query) > MAX_NORM_SQ || norm_sq(doc) > MAX_NORM_SQ {
        Err(StoreError::InvalidScore)
    } else if norm_sq(query) == 0 || norm_sq(doc) == 0 {
        Err(StoreError::DegenerateVector)
    } else {
        Ok(score_of(query, doc))
    }
}

/// One step of the Cauchy-Schwarz induction: if `d^2 <= a * b` then
/// `2 * d * x * y <= a * y^2 + b * x^2`.
proof fn lemma_cross_term(a: int, b: int, d: int, x: int, y: int)
    requires
        0 <= a,
        0 <= b,
        d * d <= a * b,
    ensures
        2 * (d * (x * y)) <= a * (y * y) + b * (x * x),
{
    let u = a * (y * y);
    let v = b * (x * x);
    let w = d * (x * y);
    let m = (x * x) * (y * y);
    assert(0 <= m) by (nonlinear_arith)
        requires
            m == (x * x) * (y * y),
    ;
    assert(0 <= u) by (nonlinear_arith)
        requires
            u == a * (y * y),
            0 <= a,
    ;
    assert(0 <= v) by (nonlinear_arith)
        requires
            v == b * (x * x),
            0 <= b,
    ;
    assert(w * w == (d * d) * m) by (nonlinear_arith)
        requires
            w == d * (x * y),
            m == (x * x) * (y * y),
    ;
    assert(u * v == (a * b) * m) by (nonlinear_arith)
        requires
            u == a * (y * y),
            v == b * (x * x),
            m == (x * x) * (y * y),
    ;
    assert((d * d) * m <= (a * b) * m) by (nonlinear_arith)
        requires
            d * d <= a * b,
            0 <= m,
    ;
    assert(2 * w <= u + v) by (nonlinear_arith)
        requires
            0 <= u,
            0 <= v,
            w * w <= u * v,
    ;
}

/// Cauchy-Schwarz for partial sums.
proof fn lemma_cosine_in_range_upto(a: Seq<i32>, b: Seq<i32>, n: nat)
    requires
        n <= a.len(),
        n <= b.len(),
    ensures
        dot_upto(a, b, n) * dot_upto(a, b, n) <= dot_upto(a, a, n) * dot_upto(b, b, n),
    decreases n,
{
    if n > 0 {
        let m = (n - 1) as nat;
        lemma_cosine_in_range_upto(a, b, m);
        lemma_norm_sq_monotone(a, 0, m);
        lemma_norm_sq_monotone(b, 0, m);
        let x = a[n - 1] as int;
        let y = b[n - 1] as int;
        let d = dot_upto(a, b, m);
        let p = dot_upto(a, a, m);
        let q = dot_upto(b, b, m);
        lemma_cross_term(p, q, d, x, y);
        let w = d * (x * y);
        let u = p * (y * y);
        let v = q * (x * x);
        assert((d + x * y) * (d + x * y) == d * d + 2 * w + (x * y) * (x * y))
            by (nonlinear_arith)
            requires
                w == d * (x * y),
        ;
        assert((p + x * x) * (q + y * y) == p * q + u + v + (x * x) * (y * y))
            by (nonlinear_arith)
            requires
                u == p * (y * y),
                v == q * (x * x),
        ;
        assert((x * y) * (x * y) == (x * x) * (y * y)) by (nonlinear_arith);
    }
}

/// The cosine lies between -1 and 1: the square of the dot product of two
/// vectors of one width is at most the product of their squared norms.
pub proof fn lemma_cosine_in_range(query: Seq<i32>, doc: Seq<i32>)
    requires
        query.len() == doc.len(),
    ensures
        dot(query, doc) * dot(query, doc) <= norm_sq(query) * norm_sq(doc),
{
    lemma_cosine_in_range_upto(query, doc, query.len());
}

/// A partial squared norm is zero exactly when every component summed so far
/// is zero.
proof fn lemma_zero_norm_upto(v: Seq<i32>, n: nat)
    requires
        n <= v.len(),
    ensures
        dot_upto(v, v, n) == 0 <==> forall|i: int| 0 <= i < n ==> v[i] == 0,
    decreases n,
{
    if n > 0 {
        lemma_zero_norm_upto(v, (n - 1) as nat);
        lemma_norm_sq_monotone(v, (n - 1) as nat, n);
        let c = v[n - 1] as int;
        assert(c * c == 0 <==> c == 0) by (nonlinear_arith);
        assert(c * c >= 0) by (nonlinear_arith);
        if dot_upto(v, v, n) == 0 {
            assert(dot_upto(v, v, (n - 1) as nat) == 0);
            assert(c == 0);
        }
    }
}

/// The squared norm is zero for the zero vector and for no other.
pub proof fn lemma_zero_norm(v: Seq<i32>)
    ensures
        norm_sq(v) == 0 <==> forall|i: int| 0 <= i < v.len() ==> v[i] == 0,
{
    lemma_zero_norm_upto(v, v.len());
}

/// Normalizing the zero vector fails: a pair of vectors of one width, neither
/// beyond the scoring bound, has no score exactly when one of the two is the
/// zero vector, and the failure is then `DegenerateVector`.
pub proof fn lemma_zero_vector_is_degenerate(query: Seq<i32>, doc: Seq<i32>)
    requires
        query.len() == doc.len(),
        norm_sq(query) <= MAX_NORM_SQ,
        norm_sq(doc) <= MAX_NORM_SQ,
    ensures
        similarity_of(query, doc) == Err::<Score, StoreError>(StoreError::DegenerateVector) <==> (
        (forall|i: int| 0 <= i < query.len() ==> query[i] == 0) || (forall|i: int|
            0 <= i < doc.len() ==> doc[i] == 0)),
        similarity_of(query, doc) is Ok <==> !((forall|i: int|
            0 <= i < query.len() ==> query[i] == 0) || (forall|i: int|
            0 <= i < doc.len() ==> doc[i] == 0)),
{
    lemma_zero_norm(query);
    lemma_zero_norm(doc);
}

/// A vector is as close to itself as anything can be: its cosine with itself
/// is 1, and no document's score against it is closer than its own.
pub proof fn lemma_self_is_closest(query: Seq<i32>, doc: Seq<i32>)
    requires
        query.len() == doc.len(),
        0 < norm_sq(query) <= MAX_NORM_SQ,
        0 < norm_sq(doc) <= MAX_NORM_SQ,
    ensures
        score_of(query, query).dot * score_of(query, query).dot == score_of(
            query,
            query,
        ).query_norm_sq * score_of(query, query).doc_norm_sq,
        !score_of(query, doc).closer(score_of(query, query)),
{
    lemma_cosine_in_range(query, doc);
    lemma_dot_bounded(query, doc, query.len());
    let d = dot(query, doc);
    let q = norm_sq(query);
    let n = norm_sq(doc);
    assert(score_of(query, doc).dot == d);
    assert(score_of(query, query).dot == q);
    assert(signed_square(d) <= d * d) by (nonlinear_arith);
    assert(signed_square(q) == q * q);
    assert(signed_square(d) * q <= (q * q) * n) by (nonlinear_arith)
        requires
            signed_square(d) <= d * d,
            d * d <= q * n,
            0 < q,
    ;
}

/// What `squared_norm` reports of `v`.
pub open spec fn norm_report(v: Seq<i32>) -> Option<u64> {
    if norm_sq(v) > MAX_NORM_SQ {
        None
    } else {
        Some(norm_sq(v) as u64)
    }
}

/// Scores `doc` against `query`, whose squared norm the caller has computed
/// once for all documents.
pub(crate) fn score_against(query: &Vec<i32>, query_norm: Option<u64>, doc: &Vec<i32>) -> (r: Result<
    Score,
    StoreError,
>)
    requires
        query_norm == norm_report(query@),
    ensures
        r == similarity_of(query@, doc@),
        r is Ok ==> r->Ok_0.wf(),
{
    if query.len() != doc.len() {
        return Err(StoreError::DimensionMismatch);
    }
    proof {
        lemma_norm_sq_monotone(query@, 0, query@.len());
        lemma_norm_sq_monotone(doc@, 0, doc@.len());
    }
    let doc_norm = squared_norm(doc);
    match (query_norm, doc_norm) {
        (Some(q), Some(d)) => {
            if q == 0 || d == 0 {
                Err(StoreError::DegenerateVector)
            } else {
                let p = dot_product(query, doc);
                Ok(Score { dot: p, query_norm_sq: q, doc_norm_sq: d })
            }
        },
        _ => Err(StoreError::InvalidScore),
    }
}

/// Scores one document vector against a query vector.
pub fn similarity(query: &Vec<i32>, doc: &Vec<i32>) -> (r: Result<Score, StoreError>)
    ensures
        r == similarity_of(query@, doc@),
        r is Ok ==> r->Ok_0.wf(),
{
    let query_norm = squared_norm(query);
    score_against(query, query_norm, doc)
}

} // verus!
