//! Integer square root.

use vstd::prelude::*;

verus! {

/// `r` is the integer square root of `n`: the largest integer whose square
/// does not exceed `n`.
pub open spec fn is_isqrt(n: int, r: int) -> bool {
    0 <= r && r * r <= n && n < (r + 1) * (r + 1)
}

/// The integer square root of `n`, as a mathematical function.
pub open spec fn isqrt_spec(n: int) -> int {
    choose|r: int| is_isqrt(n, r)
}

/// Squaring is strictly monotone on the non-negative integers.
pub proof fn lemma_square_monotone(a: int, b: int)
    requires
        0 <= a < b,
    ensures
        a * a < b * b,
        (a + 1) * (a + 1) <= b * b,
{
    assert(a * a < b * b) by (nonlinear_arith)
        requires
            0 <= a < b,
    ;
    assert((a + 1) * (a + 1) <= b * b) by (nonlinear_arith)
        requires
            0 <= a + 1 <= b,
    ;
}

/// At most one integer is the square root of `n`.
pub proof fn lemma_isqrt_unique(n: int, r: int, s: int)
    requires
        is_isqrt(n, r),
        is_isqrt(n, s),
    ensures
        r == s,
{
    if r < s {
        lemma_square_monotone(r, s);
    } else if s < r {
        lemma_square_monotone(s, r);
    }
}

/// Whatever satisfies `is_isqrt` is the value of `isqrt_spec`.
pub proof fn lemma_isqrt_is(n: int, r: int)
    requires
        is_isqrt(n, r),
    ensures
        isqrt_spec(n) == r,
{
    lemma_isqrt_unique(n, r, isqrt_spec(n));
}

/// The least integer whose square is at least `n`.
pub open spec fn ceil_sqrt_spec(n: int) -> int {
    let r = isqrt_spec(n);
    if r * r == n {
        r
    } else {
        r + 1
    }
}

/// Every non-negative integer has an integer square root.
pub proof fn lemma_isqrt_exists(n: int)
    requires
        0 <= n,
    ensures
        is_isqrt(n, isqrt_spec(n)),
    decreases n,
{
    if n == 0 {
        assert(is_isqrt(0, 0));
    } else {
        lemma_isqrt_exists(n - 1);
        let r = isqrt_spec(n - 1);
        if n < (r + 1) * (r + 1) {
            assert(is_isqrt(n, r));
        } else {
            assert((r + 2) * (r + 2) > (r + 1) * (r + 1)) by (nonlinear_arith)
                requires
                    0 <= r,
            ;
            assert(is_isqrt(n, r + 1));
        }
    }
}

/// The rounded-up root bounds `n` from above and misses it by less than one
/// step.
pub proof fn lemma_ceil_sqrt(n: int)
    requires
        0 <= n,
    ensures
        0 <= ceil_sqrt_spec(n),
        n <= ceil_sqrt_spec(n) * ceil_sqrt_spec(n),
        n > 0 ==> ceil_sqrt_spec(n) > 0 && (ceil_sqrt_spec(n) - 1) * (ceil_sqrt_spec(n) - 1) < n,
{
    lemma_isqrt_exists(n);
    let r = isqrt_spec(n);
    if r * r != n {
        assert((r + 1 - 1) * (r + 1 - 1) == r * r);
    } else if n > 0 {
        assert(r > 0) by (nonlinear_arith)
            requires
                r * r == n,
                n > 0,
                r >= 0,
        ;
        lemma_square_monotone(r - 1, r);
    }
}

/// Computes the integer square root by bisection.
pub fn isqrt(n: u128) -> (r: u128)
    ensures
        is_isqrt(n as int, r as int),
        r as int == isqrt_spec(n as int),
        r < 0x1_0000_0000_0000_0000,
{
    let mut lo: u128 = 0;
    let mut hi: u128 = 0x1_0000_0000_0000_0000;
    assert(0x1_0000_0000_0000_0000int * 0x1_0000_0000_0000_0000int > n) by (nonlinear_arith)
        requires
            n <= 0xffff_ffff_ffff_ffff_ffff_ffff_ffff_ffff,
    ;
    while hi - lo > 1
        invariant
            lo < hi <= 0x1_0000_0000_0000_0000,
            lo * lo <= n,
            n < hi * hi,
        decreases hi - lo,
    {
        let mid: u128 = lo + (hi - lo) / 2;
        assert(mid * mid < 0x1_0000_0000_0000_0000int * 0x1_0000_0000_0000_0000int)
            by (nonlinear_arith)
            requires
                0 <= mid < 0x1_0000_0000_0000_0000,
        ;
        if mid * mid <= n {
            lo = mid;
        } else {
            hi = mid;
        }
    }
    proof {
        lemma_isqrt_is(n as int, lo as int);
    }
    lo
}

/// Computes the least integer whose square is at least `n`.
pub fn ceil_sqrt(n: u128) -> (r: u128)
    ensures
        r as int == ceil_sqrt_spec(n as int),
        r <= 0x1_0000_0000_0000_0000,
{
    let r = isqrt(n);
    assert(r * r <= n);
    if r * r == n {
        r
    } else {
        r + 1
    }
}

} // verus!
