//! Similarity scoring between descriptors.
//!
//! The canonical formula is cosine similarity rescaled to `[0, 1]` and
//! sharpened with a power law of exponent `3/2`.  It is applied uniformly at
//! enrollment-adjacent computation and at authentication time.  All values are
//! fixed-point integers scaled by [`crate::math::SCALE`].

use vstd::prelude::*;
use crate::math::{isqrt, isqrt_spec, lemma_isqrt_bounds, lemma_isqrt_pos, lemma_isqrt_unique, SCALE};

verus! {

/// The smaller of two mathematical integers.
pub open spec fn min_i(x: int, y: int) -> int {
    if x < y {
        x
    } else {
        y
    }
}

/// Sum of the squares of the entries.
pub open spec fn sum_sq(s: Seq<u64>) -> nat
    decreases s.len(),
{
    if s.len() == 0 {
        0
    } else {
        sum_sq(s.drop_last()) + (s.last() * s.last()) as nat
    }
}

/// Dot product; trailing entries of the longer operand are ignored.
pub open spec fn dot(a: Seq<u64>, b: Seq<u64>) -> nat
    decreases a.len(),
{
    if a.len() == 0 || b.len() == 0 {
        0
    } else {
        dot(a.drop_last(), b.drop_last()) + (a.last() * b.last()) as nat
    }
}

/// A well-formed descriptor: every fixed-point entry stands for a real value
/// in `[0, 1]`.  Unit-normalized descriptors have this shape.
pub open spec fn wf_descriptor(d: Seq<u64>) -> bool {
    forall|i: int| 0 <= i < d.len() ==> d[i] <= SCALE
}

/// The canonical similarity score, a fixed-point value in `[0, SCALE]`.
///
/// Mismatched lengths and all-zero vectors yield `0`; otherwise the cosine
/// `dot / (|a| * |b|)` is rescaled from `[-1, 1]` to `[0, 1]` and raised to
/// the power `3/2`, everything in fixed point with floor division.
pub open spec fn spec_similarity(a: Seq<u64>, b: Seq<u64>) -> int {
    if a.len() != b.len() || sum_sq(a) == 0 || sum_sq(b) == 0 {
        0
    } else {
        let na = isqrt_spec(sum_sq(a)) as int;
        let nb = isqrt_spec(sum_sq(b)) as int;
        let c = min_i(dot(a, b) * SCALE / (na * nb), SCALE as int);
        let s = (c + SCALE) / 2;
        let root = isqrt_spec((s * SCALE) as nat) as int;
        min_i(s * root / (SCALE as int), SCALE as int)
    }
}

/// Stepping a prefix sum of squares by one entry.
proof fn lemma_sum_sq_take_step(s: Seq<u64>, i: int)
    requires
        0 <= i < s.len(),
    ensures
        sum_sq(s.take(i + 1)) == sum_sq(s.take(i)) + s[i] * s[i],
{
    assert(s.take(i + 1).drop_last() =~= s.take(i));
    assert(s.take(i + 1).last() == s[i]);
}

/// Stepping a prefix dot product by one entry.
proof fn lemma_dot_take_step(a: Seq<u64>, b: Seq<u64>, i: int)
    requires
        0 <= i < a.len(),
        0 <= i < b.len(),
    ensures
        dot(a.take(i + 1), b.take(i + 1)) == dot(a.take(i), b.take(i)) + a[i] * b[i],
{
    assert(a.take(i + 1).drop_last() =~= a.take(i));
    assert(b.take(i + 1).drop_last() =~= b.take(i));
    assert(a.take(i + 1).last() == a[i]);
    assert(b.take(i + 1).last() == b[i]);
}

/// The square of a fixed-point entry in `[0, SCALE]`.
proof fn lemma_square_bound(x: u64)
    requires
        x <= SCALE,
    ensures
        x * x <= 1000000000000,
{
    assert(x * x <= 1000000 * 1000000) by (nonlinear_arith)
        requires
            x <= 1000000,
    ;
}

/// The product of two fixed-point entries in `[0, SCALE]`.
proof fn lemma_product_bound(x: u64, y: u64)
    requires
        x <= SCALE,
        y <= SCALE,
    ensures
        x * y <= 1000000000000,
{
    assert(x * y <= 1000000 * 1000000) by (nonlinear_arith)
        requires
            x <= 1000000,
            y <= 1000000,
    ;
}

/// Each entry's square is at most the whole sum of squares.
pub proof fn lemma_sum_sq_elem_le(s: Seq<u64>, i: int)
    requires
        0 <= i < s.len(),
    ensures
        s[i] * s[i] <= sum_sq(s),
    decreases s.len(),
{
    if i < s.len() - 1 {
        lemma_sum_sq_elem_le(s.drop_last(), i);
        assert(s.drop_last()[i] == s[i]);
    }
}

/// A vector whose squares sum to zero is the zero vector, and conversely.
pub proof fn lemma_sum_sq_zero(s: Seq<u64>)
    ensures
        (sum_sq(s) == 0) <==> (forall|i: int| 0 <= i < s.len() ==> s[i] == 0),
    decreases s.len(),
{
    if s.len() > 0 {
        lemma_sum_sq_zero(s.drop_last());
        let d = s.drop_last();
        if sum_sq(s) == 0 {
            assert(forall|i: int| 0 <= i < s.len() ==> s[i] == 0) by {
                assert(s.last() * s.last() == 0);
                assert(s.last() == 0) by (nonlinear_arith)
                    requires
                        s.last() * s.last() == 0,
                ;
                assert forall|i: int| 0 <= i < s.len() implies s[i] == 0 by {
                    if i < s.len() - 1 {
                        assert(s[i] == d[i]);
                    }
                }
            }
        } else {
            if forall|i: int| 0 <= i < s.len() ==> s[i] == 0 {
                assert forall|i: int| 0 <= i < d.len() implies d[i] == 0 by {
                    assert(d[i] == s[i]);
                }
                assert(sum_sq(d) == 0);
                assert(s.last() == s[s.len() - 1] == 0);
                assert(s.last() * s.last() == 0) by (nonlinear_arith)
                    requires
                        s.last() == 0,
                ;
            }
        }
    }
}

/// The dot product does not depend on the order of its operands.
pub proof fn lemma_dot_symmetric(a: Seq<u64>, b: Seq<u64>)
    ensures
        dot(a, b) == dot(b, a),
    decreases a.len(),
{
    if a.len() > 0 && b.len() > 0 {
        lemma_dot_symmetric(a.drop_last(), b.drop_last());
    }
}

/// A vector's dot product with itself is its sum of squares.
pub proof fn lemma_dot_self(a: Seq<u64>)
    ensures
        dot(a, a) == sum_sq(a),
    decreases a.len(),
{
    if a.len() > 0 {
        lemma_dot_self(a.drop_last());
    }
}

/// Similarity is symmetric: `spec_similarity(a, b) == spec_similarity(b, a)`.
pub proof fn lemma_similarity_symmetric(a: Seq<u64>, b: Seq<u64>)
    ensures
        spec_similarity(a, b) == spec_similarity(b, a),
{
    lemma_dot_symmetric(a, b);
}

/// Descriptors of different lengths always score zero.
pub proof fn lemma_similarity_length_mismatch(a: Seq<u64>, b: Seq<u64>)
    requires
        a.len() != b.len(),
    ensures
        spec_similarity(a, b) == 0,
{
}

/// Any nonzero vector scores exactly `SCALE` — the fixed-point `1.0` —
/// against itself.
pub proof fn lemma_similarity_reflexive(v: Seq<u64>)
    requires
        sum_sq(v) != 0,
    ensures
        spec_similarity(v, v) == SCALE,
{
    lemma_dot_self(v);
    let sa = sum_sq(v);
    let na = isqrt_spec(sa) as int;
    lemma_isqrt_bounds(sa);
    lemma_isqrt_pos(sa);
    assert(na >= 1);
    let raw = sa * SCALE / (na * na);
    assert(raw >= SCALE) by (nonlinear_arith)
        requires
            na * na <= sa,
            na >= 1,
            raw == sa * SCALE / (na * na),
            SCALE == 1000000,
    ;
    let c = min_i(raw, SCALE as int);
    assert(c == SCALE);
    let s = (c + SCALE) / 2;
    assert(s == SCALE);
    assert((SCALE * SCALE) as nat == 1000000000000nat);
    assert(1000000nat * 1000000nat <= 1000000000000nat) by (nonlinear_arith);
    assert(1000000000000nat < (1000000nat + 1) * (1000000nat + 1)) by (nonlinear_arith);
    lemma_isqrt_unique(1000000000000nat, 1000000nat);
    assert(isqrt_spec((s * SCALE) as nat) == 1000000nat);
    let root = isqrt_spec((s * SCALE) as nat) as int;
    assert(s * root / (SCALE as int) == SCALE);
}

/// Exact executable similarity: returns `spec_similarity` of the two views.
pub fn compute_similarity(a: &[u64], b: &[u64]) -> (r: u64)
    requires
        wf_descriptor(a@),
        wf_descriptor(b@),
    ensures
        r == spec_similarity(a@, b@),
        r <= SCALE,
{
    if a.len() != b.len() {
        return 0;
    }
    let n = a.len();
    let mut sa: u128 = 0;
    let mut sb: u128 = 0;
    let mut dp: u128 = 0;
    let mut i: usize = 0;
    while i < n
        invariant
            n == a@.len() == b@.len(),
            i <= n,
            wf_descriptor(a@),
            wf_descriptor(b@),
            sa == sum_sq(a@.take(i as int)),
            sb == sum_sq(b@.take(i as int)),
            dp == dot(a@.take(i as int), b@.take(i as int)),
            sa <= (i as int) * 1000000000000,
            sb <= (i as int) * 1000000000000,
            dp <= (i as int) * 1000000000000,
        decreases n - i,
    {
        proof {
            lemma_sum_sq_take_step(a@, i as int);
            lemma_sum_sq_take_step(b@, i as int);
            lemma_dot_take_step(a@, b@, i as int);
            lemma_square_bound(a@[i as int]);
            lemma_square_bound(b@[i as int]);
            lemma_product_bound(a@[i as int], b@[i as int]);
            assert((i as int) * 1000000000000 + 1000000000000 == (i as int + 1) * 1000000000000);
            assert((i as int + 1) * 1000000000000 <= 0x10000000000000000 * 1000000000000);
        }
        let x = a[i];
        let y = b[i];
        sa = sa + (x as u128) * (x as u128);
        sb = sb + (y as u128) * (y as u128);
        dp = dp + (x as u128) * (y as u128);
        i = i + 1;
    }
    proof {
        assert(a@.take(n as int) =~= a@);
        assert(b@.take(n as int) =~= b@);
    }
    if sa == 0 || sb == 0 {
        return 0;
    }
    let na = isqrt(sa);
    let nb = isqrt(sb);
    proof {
        lemma_isqrt_bounds(sa as nat);
        lemma_isqrt_bounds(sb as nat);
        lemma_isqrt_pos(sa as nat);
        lemma_isqrt_pos(sb as nat);
        assert(na >= 1);
        assert(nb >= 1);
        assert((na as int) * (nb as int) >= 1) by (nonlinear_arith)
            requires
                na >= 1,
                nb >= 1,
        ;
    }
    proof {
        crate::math::lemma_u64_mul_fits(na, nb);
    }
    let denom: u128 = (na as u128) * (nb as u128);
    let prod: u128 = dp * (SCALE as u128);
    let cq: u128 = prod / denom;
    let c: u64 = if cq >= SCALE as u128 {
        SCALE
    } else {
        cq as u64
    };
    assert(c as int == min_i(dot(a@, b@) * SCALE / ((isqrt_spec(sum_sq(a@)) as int) * (
    isqrt_spec(sum_sq(b@)) as int)), SCALE as int));
    let s: u64 = (c + SCALE) / 2;
    let root: u64 = isqrt((s as u128) * (SCALE as u128));
    proof {
        lemma_isqrt_bounds(((s as u128) * (SCALE as u128)) as nat);
        assert(root <= SCALE) by (nonlinear_arith)
            requires
                (root as nat) * (root as nat) <= (s as nat) * (SCALE as nat),
                s <= 1000000,
                SCALE == 1000000,
        ;
    }
    proof {
        crate::math::lemma_u64_mul_fits(s, root);
    }
    let num: u128 = (s as u128) * (root as u128);
    let rq: u128 = num / (SCALE as u128);
    let r: u64 = if rq >= SCALE as u128 {
        SCALE
    } else {
        rq as u64
    };
    r
}

} // verus!
