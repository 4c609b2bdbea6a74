//! From the embedding provider's numbers to the store's fixed-point vectors.
//!
//! A provider hands out single-precision numbers. The store takes them by
//! their IEEE 754 binary32 encodings, as `u32`, and works on the bit fields
//! with integer arithmetic only. A finite encoding with sign `s`, significand
//! `m` and scale `x` stands for `(-1)^s * m * 2^(x - 150)`.
//!
//! Quantizing a vector first aligns all components to the largest scale in
//! the vector, which keeps 24 bits of the largest component, and then halves
//! all of them until the vector is short enough to be scored. Every step
//! divides the whole vector by a power of two and drops what falls below one
//! unit, so the direction of the vector, which is all that a cosine depends
//! on, is kept up to that truncation.
use vstd::prelude::*;
use vstd::arithmetic::div_mod::{lemma_basic_div, lemma_div_denominator};
use vstd::arithmetic::power2::{
    lemma2_to64, lemma_pow2_adds, lemma_pow2_pos, lemma_pow2_strictly_increases,
    lemma_pow2_unfold, pow2,
};
use vstd::bits::lemma_u32_shr_is_div;
use crate::error::StoreError;
use crate::similarity::{dot_upto, norm_sq, MAX_NORM_SQ};

verus! {

/// The eight exponent bits of an encoding.
pub open spec fn exponent_field(bits: u32) -> u32 {
    (bits >> 23) & 0xff
}

/// The twenty-three fraction bits of an encoding.
pub open spec fn fraction_field(bits: u32) -> u32 {
    bits & 0x7f_ffff
}

/// The sign bit of an encoding is set.
pub open spec fn is_negative(bits: u32) -> bool {
    bits >> 31 == 1
}

/// The encoding stands for a number: it is neither an infinity nor a NaN.
pub open spec fn is_finite(bits: u32) -> bool {
    exponent_field(bits) != 0xff
}

/// The encoding stands for zero, of either sign.
pub open spec fn is_zero(bits: u32) -> bool {
    bits & 0x7fff_ffff == 0
}

/// Every encoding of the vector stands for a number.
pub open spec fn all_finite(bits: Seq<u32>) -> bool {
    forall|i: int| 0 <= i < bits.len() ==> is_finite(#[trigger] bits[i])
}

/// The significand of a finite encoding: the fraction, with the implicit
/// leading bit unless the number is subnormal. Always below 2^24.
pub open spec fn significand(bits: u32) -> u32 {
    if exponent_field(bits) == 0 {
        fraction_field(bits)
    } else {
        fraction_field(bits) | 0x80_0000
    }
}

/// The scale of a finite encoding: its exponent field, or 1 for a subnormal
/// number or a zero.
pub open spec fn scale_of(bits: u32) -> u32 {
    if exponent_field(bits) == 0 {
        1
    } else {
        exponent_field(bits)
    }
}

/// The largest scale among the first `n` components; 1 if there are none.
pub open spec fn top_scale(bits: Seq<u32>, n: nat) -> u32
    decreases n,
{
    if n == 0 {
        1
    } else {
        let before = top_scale(bits, (n - 1) as nat);
        if scale_of(bits[n - 1]) > before {
            scale_of(bits[n - 1])
        } else {
            before
        }
    }
}

/// The magnitude of a component in units of `2^(top - 150)`, truncated.
pub open spec fn aligned_magnitude(bits: u32, top: u32) -> u32 {
    if top < scale_of(bits) || top - scale_of(bits) >= 24 {
        0
    } else {
        significand(bits) >> ((top - scale_of(bits)) as u32)
    }
}

/// The magnitudes of all components, aligned to the largest scale among them.
pub open spec fn aligned(bits: Seq<u32>) -> Seq<u32> {
    Seq::new(bits.len(), |i: int| aligned_magnitude(bits[i], top_scale(bits, bits.len())))
}

/// Sum of the squares of the first `n` magnitudes.
pub open spec fn square_sum(magnitudes: Seq<u32>, n: nat) -> int
    decreases n,
{
    if n == 0 {
        0
    } else {
        square_sum(magnitudes, (n - 1) as nat) + magnitudes[n - 1] * magnitudes[n - 1]
    }
}

/// The magnitudes are those of a vector short enough to be scored.
pub open spec fn fits(magnitudes: Seq<u32>) -> bool {
    square_sum(magnitudes, magnitudes.len()) <= MAX_NORM_SQ
}

/// Every magnitude halved, fractions dropped.
pub open spec fn halved(magnitudes: Seq<u32>) -> Seq<u32> {
    Seq::new(magnitudes.len(), |i: int| magnitudes[i] / 2)
}

/// The magnitudes halved `h` times.
pub open spec fn halved_times(magnitudes: Seq<u32>, h: nat) -> Seq<u32>
    decreases h,
{
    if h == 0 {
        magnitudes
    } else {
        halved(halved_times(magnitudes, (h - 1) as nat))
    }
}

/// Starting from `h` halvings, the least number of halvings after which the
/// magnitudes fit. Magnitudes below 2^24 are all zero after 24 halvings.
pub open spec fn halvings(magnitudes: Seq<u32>, h: nat) -> nat
    decreases 24 - h,
{
    if h >= 24 || fits(halved_times(magnitudes, h)) {
        h
    } else {
        halvings(magnitudes, h + 1)
    }
}

/// The magnitudes halved just often enough to fit.
pub open spec fn fitted(magnitudes: Seq<u32>) -> Seq<u32> {
    halved_times(magnitudes, halvings(magnitudes, 0))
}

/// A magnitude with the sign of the encoding it came from.
pub open spec fn signed(bits: u32, magnitude: u32) -> i32 {
    if is_negative(bits) {
        (-(magnitude as int)) as i32
    } else {
        magnitude as i32
    }
}

/// The fixed-point vector that stands for a vector of finite encodings.
pub open spec fn quantized(bits: Seq<u32>) -> Seq<i32> {
    Seq::new(bits.len(), |i: int| signed(bits[i], fitted(aligned(bits))[i]))
}

/// The scale of an encoding.
fn scale(bits: u32) -> (x: u32)
    ensures
        x == scale_of(bits),
        1 <= x <= 255,
{
    let e: u32 = (bits >> 23) & 0xff;
    assert((bits >> 23) & 0xff <= 255) by (bit_vector);
    if e == 0 {
        1
    } else {
        e
    }
}

/// The aligned magnitude of an encoding.
fn align(bits: u32, top: u32) -> (m: u32)
    ensures
        m == aligned_magnitude(bits, top),
        m <= 0xff_ffff,
{
    let e: u32 = (bits >> 23) & 0xff;
    let f: u32 = bits & 0x7f_ffff;
    let x: u32 = scale(bits);
    let m: u32 = if e == 0 {
        f
    } else {
        f | 0x80_0000
    };
    assert(bits & 0x7f_ffff <= 0xff_ffff) by (bit_vector);
    assert((bits & 0x7f_ffff) | 0x80_0000 <= 0xff_ffff) by (bit_vector);
    if top < x || top - x >= 24 {
        0
    } else {
        let gap: u32 = top - x;
        assert(m >> gap <= 0xff_ffff) by (bit_vector)
            requires
                m <= 0xff_ffff,
                gap < 24,
        ;
        m >> gap
    }
}

/// Whether the magnitudes fit.
fn magnitudes_fit(magnitudes: &Vec<u32>) -> (b: bool)
    requires
        forall|i: int| 0 <= i < magnitudes@.len() ==> #[trigger] magnitudes@[i] <= 0xff_ffff,
    ensures
        b == fits(magnitudes@),
{
    let mut sum: u64 = 0;
    let mut i: usize = 0;
    while i < magnitudes.len()
        invariant
            i <= magnitudes@.len(),
            forall|j: int| 0 <= j < magnitudes@.len() ==> #[trigger] magnitudes@[j] <= 0xff_ffff,
            sum == square_sum(magnitudes@, i as nat),
            sum <= MAX_NORM_SQ,
        decreases magnitudes@.len() - i,
    {
        let m: u64 = magnitudes[i] as u64;
        assert(0 <= m * m <= 0xff_ffff * 0xff_ffff) by (nonlinear_arith)
            requires
                0 <= m <= 0xff_ffff,
        ;
        let next: u64 = sum + m * m;
        if next > MAX_NORM_SQ {
            proof {
                lemma_square_sum_monotone(magnitudes@, (i + 1) as nat, magnitudes@.len());
            }
            return false;
        }
        sum = next;
        i += 1;
    }
    true
}

/// The partial sums of squares never decrease.
proof fn lemma_square_sum_monotone(magnitudes: Seq<u32>, i: nat, j: nat)
    requires
        i <= j <= magnitudes.len(),
    ensures
        0 <= square_sum(magnitudes, i) <= square_sum(magnitudes, j),
    decreases j,
{
    if j > 0 {
        let m = magnitudes[j - 1] as int;
        assert(0 <= m * m) by (nonlinear_arith);
        if i == j {
            lemma_square_sum_monotone(magnitudes, (i - 1) as nat, (j - 1) as nat);
        } else {
            lemma_square_sum_monotone(magnitudes, i, (j - 1) as nat);
        }
    }
}

/// Magnitudes that are all zero have the square sum zero.
proof fn lemma_square_sum_of_zeros(magnitudes: Seq<u32>, n: nat)
    requires
        n <= magnitudes.len(),
        forall|i: int| 0 <= i < magnitudes.len() ==> #[trigger] magnitudes[i] == 0,
    ensures
        square_sum(magnitudes, n) == 0,
    decreases n,
{
    if n > 0 {
        lemma_square_sum_of_zeros(magnitudes, (n - 1) as nat);
    }
}

/// A signed vector has the squared norm of its magnitudes.
proof fn lemma_norm_of_signed(vector: Seq<i32>, magnitudes: Seq<u32>, n: nat)
    requires
        n <= vector.len(),
        vector.len() == magnitudes.len(),
        forall|i: int|
            0 <= i < vector.len() ==> (#[trigger] vector[i] == magnitudes[i] || vector[i]
                == -magnitudes[i]),
    ensures
        dot_upto(vector, vector, n) == square_sum(magnitudes, n),
    decreases n,
{
    if n > 0 {
        lemma_norm_of_signed(vector, magnitudes, (n - 1) as nat);
        let c = vector[n - 1] as int;
        let m = magnitudes[n - 1] as int;
        assert(c * c == m * m) by (nonlinear_arith)
            requires
                c == m || c == -m,
        ;
    }
}

/// Some component attains the largest scale.
proof fn lemma_top_scale_attained(bits: Seq<u32>, n: nat)
    requires
        0 < n <= bits.len(),
    ensures
        exists|t: int| 0 <= t < n && scale_of(#[trigger] bits[t]) == top_scale(bits, n),
        forall|i: int| 0 <= i < n ==> scale_of(#[trigger] bits[i]) <= top_scale(bits, n),
    decreases n,
{
    if n == 1 {
        assert(top_scale(bits, 0) == 1);
        assert(scale_of(bits[0]) == top_scale(bits, 1));
    } else {
        lemma_top_scale_attained(bits, (n - 1) as nat);
        if scale_of(bits[n - 1]) > top_scale(bits, (n - 1) as nat) {
            assert(scale_of(bits[n - 1]) == top_scale(bits, n));
        } else {
            let t = choose|t: int|
                0 <= t < n - 1 && scale_of(#[trigger] bits[t]) == top_scale(bits, (n - 1) as nat);
            assert(scale_of(bits[t]) == top_scale(bits, n));
        }
    }
}

/// Halving zeros gives zeros.
proof fn lemma_halved_zeros(magnitudes: Seq<u32>, h: nat)
    requires
        forall|i: int| 0 <= i < magnitudes.len() ==> #[trigger] magnitudes[i] == 0,
    ensures
        halved_times(magnitudes, h).len() == magnitudes.len(),
        forall|i: int| 0 <= i < magnitudes.len() ==> #[trigger] halved_times(magnitudes, h)[i] == 0,
    decreases h,
{
    if h > 0 {
        lemma_halved_zeros(magnitudes, (h - 1) as nat);
    }
}

/// Magnitudes of at most 1 have a square sum of at most their number.
proof fn lemma_square_sum_of_small(magnitudes: Seq<u32>, n: nat)
    requires
        n <= magnitudes.len(),
        forall|i: int| 0 <= i < magnitudes.len() ==> #[trigger] magnitudes[i] <= 1,
    ensures
        square_sum(magnitudes, n) <= n,
    decreases n,
{
    if n > 0 {
        lemma_square_sum_of_small(magnitudes, (n - 1) as nat);
        let m = magnitudes[n - 1] as int;
        assert(m * m <= 1) by (nonlinear_arith)
            requires
                0 <= m <= 1,
        ;
    }
}

/// The number of halvings is the least that makes the magnitudes fit: one
/// halving less, counted from `h`, does not.
proof fn lemma_halvings_least(magnitudes: Seq<u32>, h: nat)
    requires
        h <= 24,
    ensures
        h <= halvings(magnitudes, h) <= 24,
        halvings(magnitudes, h) > h ==> !fits(
            halved_times(magnitudes, (halvings(magnitudes, h) - 1) as nat),
        ),
    decreases 24 - h,
{
    if h < 24 && !fits(halved_times(magnitudes, h)) {
        lemma_halvings_least(magnitudes, h + 1);
    }
}

/// Halving keeps the number of magnitudes and makes none larger.
proof fn lemma_halved_len(magnitudes: Seq<u32>, h: nat)
    ensures
        halved_times(magnitudes, h).len() == magnitudes.len(),
        forall|i: int|
            0 <= i < magnitudes.len() ==> #[trigger] halved_times(magnitudes, h)[i]
                <= magnitudes[i],
    decreases h,
{
    if h > 0 {
        lemma_halved_len(magnitudes, (h - 1) as nat);
    }
}

/// An aligned magnitude is below 2^24.
proof fn lemma_aligned_bound(bits: u32, top: u32)
    ensures
        aligned_magnitude(bits, top) <= 0xff_ffff,
{
    assert(bits & 0x7f_ffff <= 0xff_ffff) by (bit_vector);
    assert((bits & 0x7f_ffff) | 0x80_0000 <= 0xff_ffff) by (bit_vector);
    if !(top < scale_of(bits) || top - scale_of(bits) >= 24) {
        let m = significand(bits);
        let gap = (top - scale_of(bits)) as u32;
        assert(m >> gap <= 0xff_ffff) by (bit_vector)
            requires
                m <= 0xff_ffff,
                gap < 24,
        ;
    }
}

/// A magnitude halved `h` times is the magnitude divided by `2^h`.
proof fn lemma_halved_is_divided(magnitudes: Seq<u32>, h: nat, i: int)
    requires
        0 <= i < magnitudes.len(),
    ensures
        halved_times(magnitudes, h).len() == magnitudes.len(),
        halved_times(magnitudes, h)[i] == magnitudes[i] as int / pow2(h) as int,
    decreases h,
{
    lemma_halved_len(magnitudes, h);
    lemma2_to64();
    if h > 0 {
        lemma_halved_is_divided(magnitudes, (h - 1) as nat, i);
        lemma_halved_len(magnitudes, (h - 1) as nat);
        lemma_pow2_unfold(h);
        lemma_pow2_pos((h - 1) as nat);
        let x = magnitudes[i] as int;
        let c = pow2((h - 1) as nat) as int;
        lemma_div_denominator(x, c, 2);
        assert(c * 2 == pow2(h));
    } else {
        let x = magnitudes[i] as int;
        assert(x / (pow2(0) as int) == x);
    }
}

/// What quantizing does to a component, in one formula: its significand is
/// divided by `2^(gap + h)`, where `gap` is how far the component's scale
/// lies below the largest scale in the vector and `h` is the number of
/// halvings, and the fraction is dropped. As the component stands for
/// `significand * 2^(scale - 150)`, this is its value in units of
/// `2^(top + h - 150)`, one unit for the whole vector.
pub proof fn lemma_quantized_is_scaled(bits: Seq<u32>, i: int)
    requires
        0 <= i < bits.len(),
    ensures
        ({
            let gap = top_scale(bits, bits.len()) - scale_of(bits[i]);
            let h = halvings(aligned(bits), 0);
            &&& gap >= 0
            &&& fitted(aligned(bits))[i] == significand(bits[i]) as int / pow2((gap + h) as nat) as int
            &&& quantized(bits)[i] == if is_negative(bits[i]) {
                -(fitted(aligned(bits))[i] as int)
            } else {
                fitted(aligned(bits))[i] as int
            }
        }),
{
    let top = top_scale(bits, bits.len());
    let b = bits[i];
    let sig = significand(b);
    lemma_top_scale_attained(bits, bits.len());
    let gap = (top - scale_of(b)) as nat;
    let start = aligned(bits);
    let h = halvings(start, 0);
    lemma_halved_is_divided(start, h, i);
    lemma_aligned_bound(b, top);
    lemma_halved_len(start, h);
    lemma_pow2_pos(gap);
    lemma_pow2_pos(h);
    lemma_pow2_adds(gap, h);
    assert(b & 0x7f_ffff <= 0xff_ffff) by (bit_vector);
    assert((b & 0x7f_ffff) | 0x80_0000 <= 0xff_ffff) by (bit_vector);
    assert(start[i] == sig as int / pow2(gap) as int) by {
        if gap >= 24 {
            lemma2_to64();
            if gap > 24 {
                lemma_pow2_strictly_increases(24, gap);
            }
            lemma_basic_div(sig as int, pow2(gap) as int);
        } else {
            lemma_u32_shr_is_div(sig, gap as u32);
        }
    }
    lemma_div_denominator(sig as int, pow2(gap) as int, pow2(h) as int);
}

/// The zero vector stays the zero vector: where every component is a zero, of
/// either sign, every quantized component is 0.
pub proof fn lemma_zero_stays_zero(bits: Seq<u32>)
    requires
        forall|i: int| 0 <= i < bits.len() ==> is_zero(#[trigger] bits[i]),
    ensures
        forall|i: int| 0 <= i < bits.len() ==> #[trigger] quantized(bits)[i] == 0,
{
    let start = aligned(bits);
    let top = top_scale(bits, bits.len());
    assert forall|i: int| 0 <= i < start.len() implies #[trigger] start[i] == 0 by {
        let b = bits[i];
        assert(is_zero(b));
        assert((b >> 23) & 0xff == 0 && b & 0x7f_ffff == 0) by (bit_vector)
            requires
                b & 0x7fff_ffff == 0,
        ;
        if !(top < scale_of(b) || top - scale_of(b) >= 24) {
            let gap = (top - scale_of(b)) as u32;
            assert(0u32 >> gap == 0) by (bit_vector);
        }
    }
    lemma_halved_zeros(start, halvings(start, 0));
}

/// A vector that is not zero does not become zero: where every component is
/// finite and some component is not a zero, some quantized component is not
/// 0. (Stated for vectors of at most 2^42 components.)
pub proof fn lemma_nonzero_stays_nonzero(bits: Seq<u32>)
    requires
        all_finite(bits),
        bits.len() <= MAX_NORM_SQ,
        exists|i: int| 0 <= i < bits.len() && !is_zero(#[trigger] bits[i]),
    ensures
        exists|i: int| 0 <= i < bits.len() && #[trigger] quantized(bits)[i] != 0,
{
    let n = bits.len();
    let start = aligned(bits);
    let top = top_scale(bits, n);
    let live = choose|i: int| 0 <= i < bits.len() && !is_zero(#[trigger] bits[i]);
    lemma_top_scale_attained(bits, n);
    let t = choose|t: int| 0 <= t < n && scale_of(#[trigger] bits[t]) == top;
    // Some aligned magnitude is positive: that of the component at the top
    // scale if it is a normal number, else that of the live component.
    let w = if exponent_field(bits[t]) != 0 { t } else { live };
    assert(start[w] >= 1) by {
        let b = bits[w];
        assert(scale_of(b) == top);
        if exponent_field(b) != 0 {
            assert(((b & 0x7f_ffff) | 0x80_0000) >> 0u32 >= 1) by (bit_vector);
        } else {
            assert((b & 0x7f_ffff) >> 0u32 >= 1) by (bit_vector)
                requires
                    (b >> 23) & 0xff == 0,
                    b & 0x7fff_ffff != 0,
            ;
        }
    }
    assert forall|i: int| 0 <= i < start.len() implies #[trigger] start[i] <= 0xff_ffff by {
        lemma_aligned_bound(bits[i], top);
    }
    let h = halvings(start, 0);
    lemma_halvings_least(start, 0);
    lemma_halved_len(start, h);
    let last = fitted(start);
    if h == 0 {
        assert(last[w] >= 1);
        assert(quantized(bits)[w] != 0);
    } else {
        let before = halved_times(start, (h - 1) as nat);
        lemma_halved_len(start, (h - 1) as nat);
        assert(last == halved(before));
        if forall|i: int| 0 <= i < before.len() ==> #[trigger] before[i] <= 1 {
            lemma_square_sum_of_small(before, before.len());
            assert(fits(before));
        }
        let big = choose|i: int| 0 <= i < before.len() && !(#[trigger] before[i] <= 1);
        assert(last[big] == before[big] / 2);
        assert(last[big] >= 1);
        assert(quantized(bits)[big] != 0);
    }
}

/// Quantizes a vector given by the binary32 encodings of its components.
///
/// Fails with `InvalidScore` exactly when a component is an infinity or a
/// NaN. Otherwise the result has the width of the input, each component has
/// the sign of its encoding and the magnitude `quantized` names, and the
/// vector is short enough to be scored. A vector of zeros stays a vector of
/// zeros.
pub fn quantize(bits: &Vec<u32>) -> (r: Result<Vec<i32>, StoreError>)
    ensures
        match r {
            Ok(vector) => {
                &&& all_finite(bits@)
                &&& vector@ == quantized(bits@)
                &&& norm_sq(vector@) <= MAX_NORM_SQ
            },
            Err(e) => e == StoreError::InvalidScore && !all_finite(bits@),
        },
{
    let n = bits.len();
    let mut top: u32 = 1;
    let mut i: usize = 0;
    while i < n
        invariant
            i <= n,
            n == bits@.len(),
            top == top_scale(bits@, i as nat),
            forall|j: int| 0 <= j < i ==> is_finite(#[trigger] bits@[j]),
        decreases n - i,
    {
        let e: u32 = (bits[i] >> 23) & 0xff;
        if e == 0xff {
            assert(!is_finite(bits@[i as int]));
            return Err(StoreError::InvalidScore);
        }
        let x = scale(bits[i]);
        if x > top {
            top = x;
        }
        i += 1;
    }
    let ghost start = aligned(bits@);
    let mut magnitudes: Vec<u32> = Vec::new();
    let mut i: usize = 0;
    while i < n
        invariant
            i <= n,
            n == bits@.len(),
            top == top_scale(bits@, n as nat),
            start == aligned(bits@),
            magnitudes@.len() == i,
            forall|j: int| 0 <= j < i ==> #[trigger] magnitudes@[j] == start[j],
            forall|j: int| 0 <= j < i ==> #[trigger] magnitudes@[j] <= 0xff_ffff,
        decreases n - i,
    {
        magnitudes.push(align(bits[i], top));
        i += 1;
    }
    assert(magnitudes@ =~= halved_times(start, 0));
    assert(0xff_ffffu32 >> 0u32 == 0xff_ffff) by (bit_vector);
    let mut h: u32 = 0;
    let mut done = magnitudes_fit(&magnitudes);
    while h < 24 && !done
        invariant
            h <= 24,
            n == bits@.len(),
            magnitudes@.len() == n,
            magnitudes@ == halved_times(start, h as nat),
            forall|j: int| 0 <= j < n ==> #[trigger] magnitudes@[j] <= (0xff_ffffu32 >> h),
            forall|j: int| 0 <= j < n ==> #[trigger] magnitudes@[j] <= 0xff_ffff,
            done == fits(magnitudes@),
            halvings(start, 0) == halvings(start, h as nat),
        decreases 24 - h,
    {
        let ghost before = magnitudes@;
        let mut j: usize = 0;
        while j < n
            invariant
                j <= n,
                h < 24,
                magnitudes@.len() == n,
                before.len() == n,
                forall|l: int| 0 <= l < n ==> #[trigger] before[l] <= (0xff_ffffu32 >> h),
                forall|l: int| 0 <= l < j ==> #[trigger] magnitudes@[l] == before[l] / 2,
                forall|l: int| j <= l < n ==> #[trigger] magnitudes@[l] == before[l],
            decreases n - j,
        {
            let m: u32 = magnitudes[j];
            magnitudes[j] = m / 2;
            j += 1;
        }
        assert(magnitudes@ =~= halved(before));
        assert forall|l: int| 0 <= l < n implies #[trigger] magnitudes@[l] <= (0xff_ffffu32 >> (
        h + 1) as u32) by {
            let m = before[l];
            let step = (h + 1) as u32;
            assert(m / 2 <= (0xff_ffffu32 >> step)) by (bit_vector)
                requires
                    m <= (0xff_ffffu32 >> h),
                    h < 24,
                    step == h + 1,
            ;
        }
        assert forall|l: int| 0 <= l < n implies #[trigger] magnitudes@[l] <= 0xff_ffff by {
            assert(before[l] <= 0xff_ffff);
        }
        h += 1;
        done = magnitudes_fit(&magnitudes);
    }
    proof {
        if h == 24 {
            assert(0xff_ffffu32 >> 24u32 == 0) by (bit_vector);
            lemma_square_sum_of_zeros(magnitudes@, magnitudes@.len());
        }
        assert(fits(magnitudes@));
        assert(magnitudes@ == fitted(start));
    }
    let mut vector: Vec<i32> = Vec::new();
    let mut i: usize = 0;
    while i < n
        invariant
            i <= n,
            n == bits@.len(),
            magnitudes@.len() == n,
            vector@.len() == i,
            forall|j: int| 0 <= j < n ==> #[trigger] magnitudes@[j] <= 0xff_ffff,
            forall|j: int| 0 <= j < i ==> #[trigger] vector@[j] == signed(bits@[j], magnitudes@[j]),
        decreases n - i,
    {
        let m: i32 = magnitudes[i] as i32;
        if bits[i] >> 31 == 1 {
            vector.push(-m);
        } else {
            vector.push(m);
        }
        i += 1;
    }
    proof {
        assert(vector@ =~= quantized(bits@));
        lemma_norm_of_signed(vector@, magnitudes@, n as nat);
    }
    Ok(vector)
}

/// The embedding in a provider's reply. A reply holds one vector for each
/// text it was asked about; the store asks about one text at a time and takes
/// the first vector, quantized, as the embedding. What follows the first
/// vector is not looked at.
///
/// Gives `None` exactly when the reply holds no vector, which the caller
/// reports as a failure of the provider; otherwise what `quantize` gives for
/// the first vector.
pub fn first_vector(reply: &Vec<Vec<u32>>) -> (r: Option<Result<Vec<i32>, StoreError>>)
    ensures
        match r {
            None => reply@.len() == 0,
            Some(Ok(vector)) => {
                &&& reply@.len() > 0
                &&& all_finite(reply@[0]@)
                &&& vector@ == quantized(reply@[0]@)
                &&& norm_sq(vector@) <= MAX_NORM_SQ
            },
            Some(Err(e)) => {
                &&& reply@.len() > 0
                &&& e == StoreError::InvalidScore
                &&& !all_finite(reply@[0]@)
            },
        },
{
    if reply.len() == 0 {
        None
    } else {
        Some(quantize(&reply[0]))
    }
}

} // verus!
