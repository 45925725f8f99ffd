//! Fixed-point scale and integer square root.

use vstd::prelude::*;

verus! {

/// Fixed-point scale: the integer that stands for the real value `1.0`.
pub const SCALE: u64 = 1000000;

/// Floor of the square root of `n`, defined by primitive recursion.
pub open spec fn isqrt_spec(n: nat) -> nat
    decreases n,
{
    if n == 0 {
        0
    } else {
        let r = isqrt_spec((n - 1) as nat);
        if (r + 1) * (r + 1) <= n {
            r + 1
        } else {
            r
        }
    }
}

/// `isqrt_spec(n)` satisfies the square-root bracket
/// `r * r <= n < (r + 1) * (r + 1)`.
pub proof fn lemma_isqrt_bounds(n: nat)
    ensures
        isqrt_spec(n) * isqrt_spec(n) <= n,
        n < (isqrt_spec(n) + 1) * (isqrt_spec(n) + 1),
    decreases n,
{
    if n == 0 {
        assert(isqrt_spec(0) == 0);
        assert(n < (isqrt_spec(n) + 1) * (isqrt_spec(n) + 1)) by (nonlinear_arith)
            requires
                n == 0,
                isqrt_spec(n) == 0,
        ;
    } else {
        let m = (n - 1) as nat;
        lemma_isqrt_bounds(m);
        let r = isqrt_spec(m);
        let q = isqrt_spec(n);
        if (r + 1) * (r + 1) <= n {
            assert(q == r + 1);
            assert(q * q <= n) by (nonlinear_arith)
                requires
                    q == r + 1,
                    (r + 1) * (r + 1) <= n,
            ;
            assert(n < (q + 1) * (q + 1)) by (nonlinear_arith)
                requires
                    q == r + 1,
                    m < (r + 1) * (r + 1),
                    n == m + 1,
            ;
        } else {
            assert(q == r);
            assert(q * q <= n) by (nonlinear_arith)
                requires
                    q == r,
                    r * r <= m,
                    n == m + 1,
            ;
            assert(n < (q + 1) * (q + 1)) by (nonlinear_arith)
                requires
                    q == r,
                    !((r + 1) * (r + 1) <= n),
            ;
        }
        assert(isqrt_spec(n) * isqrt_spec(n) <= n) by (nonlinear_arith)
            requires
                isqrt_spec(n) == q,
                q * q <= n,
        ;
        assert(n < (isqrt_spec(n) + 1) * (isqrt_spec(n) + 1)) by (nonlinear_arith)
            requires
                isqrt_spec(n) == q,
                n < (q + 1) * (q + 1),
        ;
    }
}

/// No value besides `isqrt_spec(n)` satisfies the square-root bracket.
pub proof fn lemma_isqrt_unique(n: nat, r: nat)
    requires
        r * r <= n,
        n < (r + 1) * (r + 1),
    ensures
        r == isqrt_spec(n),
{
    lemma_isqrt_bounds(n);
    let q = isqrt_spec(n);
    if r < q {
        assert((r + 1) * (r + 1) <= q * q) by (nonlinear_arith)
            requires
                r + 1 <= q,
        ;
    } else if q < r {
        assert((q + 1) * (q + 1) <= r * r) by (nonlinear_arith)
            requires
                q + 1 <= r,
        ;
    }
}

/// A positive argument has a positive square root.
pub proof fn lemma_isqrt_pos(n: nat)
    requires
        n >= 1,
    ensures
        isqrt_spec(n) >= 1,
{
    lemma_isqrt_bounds(n);
    if isqrt_spec(n) == 0 {
        assert(n < 1) by (nonlinear_arith)
            requires
                n < (isqrt_spec(n) + 1) * (isqrt_spec(n) + 1),
                isqrt_spec(n) == 0,
        ;
    }
}

/// The square root is monotone.
pub proof fn lemma_isqrt_monotone(a: nat, b: nat)
    requires
        a <= b,
    ensures
        isqrt_spec(a) <= isqrt_spec(b),
{
    lemma_isqrt_bounds(a);
    lemma_isqrt_bounds(b);
    let ra = isqrt_spec(a);
    let rb = isqrt_spec(b);
    if ra > rb {
        assert((rb + 1) * (rb + 1) <= ra * ra) by (nonlinear_arith)
            requires
                rb + 1 <= ra,
        ;
    }
}

/// A square's root is the value itself.
pub proof fn lemma_isqrt_square(v: nat)
    ensures
        isqrt_spec(v * v) == v,
{
    assert(v * v < (v + 1) * (v + 1)) by (nonlinear_arith);
    lemma_isqrt_unique(v * v, v);
}

/// The square of a 64-bit value fits in 128 bits.
proof fn lemma_u64_square_fits(a: u64)
    ensures
        (a as nat) * (a as nat) <= u128::MAX,
{
    assert((a as nat) * (a as nat) <= (u64::MAX as nat) * (u64::MAX as nat)) by (nonlinear_arith)
        requires
            a <= u64::MAX,
    ;
    assert((u64::MAX as nat) * (u64::MAX as nat) <= u128::MAX) by (nonlinear_arith);
}

/// The product of two 64-bit values fits in 128 bits.
pub proof fn lemma_u64_mul_fits(a: u64, b: u64)
    ensures
        (a as nat) * (b as nat) <= u128::MAX,
{
    assert((a as nat) * (b as nat) <= (u64::MAX as nat) * (u64::MAX as nat)) by (nonlinear_arith)
        requires
            a <= u64::MAX,
            b <= u64::MAX,
    ;
    assert((u64::MAX as nat) * (u64::MAX as nat) <= u128::MAX) by (nonlinear_arith);
}

/// Floor of the square root, by bisection over the answer.
pub fn isqrt(n: u128) -> (r: u64)
    ensures
        r == isqrt_spec(n as nat),
{
    let mut lo: u64 = 0;
    let mut hi: u64 = u64::MAX;
    proof {
        lemma_u64_square_fits(hi);
        assert((n as nat) < ((hi as nat) + 1) * ((hi as nat) + 1)) by (nonlinear_arith)
            requires
                n <= u128::MAX,
                hi == u64::MAX,
        ;
    }
    while lo < hi
        invariant
            lo <= hi,
            (lo as nat) * (lo as nat) <= n as nat,
            (n as nat) < ((hi as nat) + 1) * ((hi as nat) + 1),
        decreases hi - lo,
    {
        let d = hi - lo;
        let mid = lo + d / 2 + d % 2;
        proof {
            lemma_u64_square_fits(mid);
        }
        if (mid as u128) * (mid as u128) <= n {
            lo = mid;
        } else {
            hi = mid - 1;
        }
    }
    proof {
        lemma_isqrt_unique(n as nat, lo as nat);
    }
    lo
}

} // verus!
