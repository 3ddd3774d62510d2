//! Integer arithmetic support: a verified rounded-up square root and the
//! division/remainder lemmas that the key-splitting scheme of the tree relies on.

use vstd::prelude::*;

verus! {

/// `r` is the least non-negative integer whose square reaches `c`:
/// the square root of `c`, rounded up.
pub open spec fn is_ceil_sqrt(r: int, c: int) -> bool {
    &&& r >= 0
    &&& r * r >= c
    &&& (r == 0 || (r - 1) * (r - 1) < c)
}

/// The rounded-up square root is unique.
pub proof fn lemma_ceil_sqrt_unique(r1: int, r2: int, c: int)
    requires
        is_ceil_sqrt(r1, c),
        is_ceil_sqrt(r2, c),
    ensures
        r1 == r2,
{
    if r1 < r2 {
        assert(r1 * r1 <= (r2 - 1) * (r2 - 1)) by (nonlinear_arith)
            requires
                0 <= r1,
                r1 <= r2 - 1,
        ;
        assert(false);
    }
    if r2 < r1 {
        assert(r2 * r2 <= (r1 - 1) * (r1 - 1)) by (nonlinear_arith)
            requires
                0 <= r2,
                r2 <= r1 - 1,
        ;
        assert(false);
    }
}

/// For a capacity above 2 the rounded-up square root lies strictly between
/// 1 and the capacity, and its square covers the capacity.
pub proof fn lemma_ceil_sqrt_range(r: int, c: int)
    requires
        is_ceil_sqrt(r, c),
        c > 2,
    ensures
        2 <= r < c,
        c <= r * r,
{
    if r <= 1 {
        assert(r * r <= 1) by (nonlinear_arith)
            requires
                0 <= r <= 1,
        ;
    }
    if r >= c {
        assert((r - 1) * (r - 1) >= c) by (nonlinear_arith)
            requires
                r >= c,
                c > 2,
        ;
    }
}

/// Splitting a value by a positive divisor: the quotient and remainder
/// recombine to the value, and the remainder stays below the divisor.
pub proof fn lemma_div_mod_split(v: int, k: int)
    requires
        k > 0,
        v >= 0,
    ensures
        v == (v / k) * k + (v % k),
        0 <= v % k < k,
        0 <= v / k,
{
    assert(v == (v / k) * k + (v % k) && 0 <= v % k < k && 0 <= v / k) by (nonlinear_arith)
        requires
            k > 0,
            v >= 0,
    ;
}

/// A value below `k * k` has a quotient below `k`.
pub proof fn lemma_div_below(v: int, k: int)
    requires
        k > 0,
        0 <= v,
        v < k * k,
    ensures
        v / k < k,
{
    assert(v / k < k) by (nonlinear_arith)
        requires
            k > 0,
            0 <= v,
            v < k * k,
    ;
}

/// Recombining a cluster index and an offset inverts the split.
pub proof fn lemma_combine(i: int, j: int, k: int)
    requires
        k > 0,
        0 <= i,
        0 <= j < k,
    ensures
        (i * k + j) / k == i,
        (i * k + j) % k == j,
        0 <= i * k + j,
        i * k + j < (i + 1) * k,
{
    assert((i * k + j) / k == i && (i * k + j) % k == j && 0 <= i * k + j && i * k + j < (i + 1)
        * k) by (nonlinear_arith)
        requires
            k > 0,
            0 <= i,
            0 <= j < k,
    ;
}

/// The split is order-preserving: comparing two values is comparing their
/// (cluster index, offset) pairs lexicographically.
pub proof fn lemma_split_order(v1: int, v2: int, k: int)
    requires
        k > 0,
        0 <= v1,
        0 <= v2,
    ensures
        v1 < v2 <==> (v1 / k < v2 / k || (v1 / k == v2 / k && v1 % k < v2 % k)),
{
    assert(v1 < v2 <==> (v1 / k < v2 / k || (v1 / k == v2 / k && v1 % k < v2 % k)))
        by (nonlinear_arith)
        requires
            k > 0,
            0 <= v1,
            0 <= v2,
    ;
}

/// Computes the square root of `c`, rounded up, by binary search.
pub fn ceil_sqrt(c: usize) -> (r: usize)
    ensures
        is_ceil_sqrt(r as int, c as int),
{
    if c == 0 {
        return 0;
    }
    let mut lo: usize = 0;
    let mut hi: usize = c;
    proof {
        assert((c as int) * (c as int) >= c as int) by (nonlinear_arith)
            requires
                c >= 1,
        ;
    }
    while lo + 1 < hi
        invariant
            0 <= lo < hi <= c,
            (lo as int) * (lo as int) < c as int,
            (hi as int) * (hi as int) >= c as int,
        decreases hi - lo,
    {
        let mid = lo + (hi - lo) / 2;
        proof {
            assert((mid as int) * (mid as int) <= 0xffff_ffff_ffff_ffff * 0xffff_ffff_ffff_ffff)
                by (nonlinear_arith)
                requires
                    0 <= mid as int <= 0xffff_ffff_ffff_ffff,
            ;
        }
        if (mid as u128) * (mid as u128) >= (c as u128) {
            hi = mid;
        } else {
            lo = mid;
        }
    }
    hi
}

} // verus!
