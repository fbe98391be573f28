//! Integer arithmetic that the kernel rests on: magnitudes, quotients
//! rounded toward zero, and a bound on what rounding takes from the length
//! of a vector.

use vstd::prelude::*;

verus! {

/// Quotient of `a` by a positive `b`, rounded toward zero.
pub open spec fn trunc_div(a: int, b: int) -> int {
    if a >= 0 {
        a / b
    } else {
        -((-a) / b)
    }
}

/// The magnitude of `a`.
pub open spec fn abs(a: int) -> int {
    if a >= 0 {
        a
    } else {
        -a
    }
}

/// A quotient rounded toward zero keeps the sign of the dividend, and its
/// magnitude times the divisor does not exceed the dividend's magnitude.
pub proof fn lemma_trunc_div(a: int, b: int)
    requires
        b > 0,
    ensures
        abs(trunc_div(a, b)) * b <= abs(a),
        abs(a) < (abs(trunc_div(a, b)) + 1) * b,
        a >= 0 ==> trunc_div(a, b) >= 0,
        a <= 0 ==> trunc_div(a, b) <= 0,
        abs(trunc_div(a, b)) == abs(a) / b,
{
    let m = abs(a);
    let q = m / b;
    assert(q * b <= m && m < (q + 1) * b && q >= 0) by (nonlinear_arith)
        requires
            b > 0,
            m >= 0,
            q == m / b,
    ;
}

/// Computes the magnitude of `a`.
pub fn magnitude(a: i64) -> (m: u128)
    ensures
        m == abs(a as int),
        m <= 0x8000_0000_0000_0000,
{
    if a < 0 {
        let wide: i128 = -(a as i128);
        wide as u128
    } else {
        a as u128
    }
}

/// `a * num / den`, rounded toward zero, for a factor `num / den` that is
/// applied to a value no larger than `den`.
pub fn mul_div(a: i64, num: i64, den: i128) -> (q: i64)
    requires
        0 <= num,
        0 < den,
        abs(a as int) <= den,
    ensures
        q == trunc_div(a * num, den as int),
        abs(q as int) <= num,
{
    assert(-0x4000_0000_0000_0000_0000_0000_0000_0000 <= a * num
        <= 0x4000_0000_0000_0000_0000_0000_0000_0000) by (nonlinear_arith)
        requires
            -0x8000_0000_0000_0000 <= a <= 0x8000_0000_0000_0000,
            0 <= num <= 0x8000_0000_0000_0000,
    ;
    let prod: i128 = (a as i128) * (num as i128);
    let q: i128 = prod / den;
    proof {
        let m = abs(prod as int);
        assert(m <= den * num) by (nonlinear_arith)
            requires
                m == abs(a * num),
                abs(a as int) <= den,
                0 <= num,
        ;
        assert(m / (den as int) <= num) by (nonlinear_arith)
            requires
                0 <= m <= den * num,
                0 < den,
        ;
        assert(0 <= m / (den as int)) by (nonlinear_arith)
            requires
                0 <= m,
                0 < den,
        ;
        assert(q == trunc_div(prod as int, den as int));
    }
    q as i64
}

/// A vector of length at least `r` whose coordinates are each shortened by
/// at most `e` keeps a length of at least `r` less one and a half times
/// `e`. The vector is `(a, b)`, what is left of it is at least `(p, q)`.
pub proof fn lemma_shortened(a: int, b: int, p: int, q: int, r: int, e: int)
    requires
        0 <= a,
        0 <= b,
        0 <= p,
        0 <= q,
        0 <= e,
        a - e <= p,
        b - e <= q,
        r * r <= a * a + b * b,
        3 * e <= 2 * r,
    ensures
        (2 * r - 3 * e) * (2 * r - 3 * e) <= 4 * (p * p + q * q),
{
    let n = a * a + b * b;
    if a < e {
        lemma_shortened_side(a, b, q, r, e);
        assert(p * p >= 0) by (nonlinear_arith);
    } else if b < e {
        lemma_shortened_side(b, a, p, r, e);
        assert(q * q >= 0) by (nonlinear_arith);
    } else {
        let s = a + b;
        assert(p * p >= (a - e) * (a - e)) by (nonlinear_arith)
            requires
                0 <= a - e <= p,
        ;
        assert(q * q >= (b - e) * (b - e)) by (nonlinear_arith)
            requires
                0 <= b - e <= q,
        ;
        assert((a - e) * (a - e) + (b - e) * (b - e) == n - 2 * (e * s) + 2 * (e * e))
            by (nonlinear_arith)
            requires
                n == a * a + b * b,
                s == a + b,
        ;
        assert(s * s <= 2 * n) by (nonlinear_arith)
            requires
                n == a * a + b * b,
                s == a + b,
        ;
        assert(70 * (s * r) <= 25 * (s * s) + 49 * (r * r)) by (nonlinear_arith);
        lemma_shortened_core(n, s, r, e);
    }
}

proof fn lemma_shortened_side(a: int, b: int, q: int, r: int, e: int)
    requires
        0 <= a < e,
        0 <= b,
        0 <= q,
        b - e <= q,
        r * r <= a * a + b * b,
        3 * e <= 2 * r,
    ensures
        (2 * r - 3 * e) * (2 * r - 3 * e) <= 4 * (q * q),
{
    assert(a * a < e * e) by (nonlinear_arith)
        requires
            0 <= a < e,
    ;
    assert(4 * (r * e) >= 5 * (e * e)) by (nonlinear_arith)
        requires
            3 * e <= 2 * r,
            0 <= e,
    ;
    assert((2 * r - e) * (2 * r - e) == 4 * (r * r) - 4 * (r * e) + e * e) by (nonlinear_arith);
    assert((2 * b) * (2 * b) == 4 * (b * b)) by (nonlinear_arith);
    assert(2 * b >= 2 * r - e) by (nonlinear_arith)
        requires
            (2 * b) * (2 * b) >= (2 * r - e) * (2 * r - e),
            0 <= b,
            0 <= 2 * r - e,
    ;
    assert((2 * q) * (2 * q) >= (2 * r - 3 * e) * (2 * r - 3 * e)) by (nonlinear_arith)
        requires
            2 * q >= 2 * r - 3 * e,
            2 * r - 3 * e >= 0,
    ;
    assert((2 * q) * (2 * q) == 4 * (q * q)) by (nonlinear_arith);
}

proof fn lemma_shortened_core(n: int, s: int, r: int, e: int)
    requires
        0 <= e,
        0 <= s,
        0 <= r,
        r * r <= n,
        3 * e <= 2 * r,
        70 * (s * r) <= 50 * n + 49 * (r * r),
    ensures
        (2 * r - 3 * e) * (2 * r - 3 * e) <= 4 * (n - 2 * (e * s) + 2 * (e * e)),
{
    if r == 0 {
        assert(e == 0);
        assert(e * s == 0 && e * e == 0) by (nonlinear_arith)
            requires
                e == 0,
        ;
        assert((2 * r - 3 * e) * (2 * r - 3 * e) == 0) by (nonlinear_arith)
            requires
                r == 0,
                e == 0,
        ;
        assert(n >= 0) by (nonlinear_arith)
            requires
                r * r <= n,
        ;
    } else {
        // 70 r (4 n - 4 r^2 + 12 r e - e^2) >= 8 e (50 n + 49 r^2) >= 560 e s r
        let lhs = 4 * n - 4 * (r * r) + 12 * (r * e) - e * e;
        assert((280 * r - 400 * e) * n >= (280 * r - 400 * e) * (r * r)) by (nonlinear_arith)
            requires
                280 * r - 400 * e >= 0,
                n >= r * r,
        ;
        assert(48 * (r * (r * e)) >= 70 * (r * (e * e))) by (nonlinear_arith)
            requires
                48 * r >= 70 * e,
                r >= 0,
                e >= 0,
        ;
        assert(70 * (r * lhs) >= 8 * (e * (50 * n + 49 * (r * r)))) by (nonlinear_arith)
            requires
                lhs == 4 * n - 4 * (r * r) + 12 * (r * e) - e * e,
                (280 * r - 400 * e) * n >= (280 * r - 400 * e) * (r * r),
                48 * (r * (r * e)) >= 70 * (r * (e * e)),
        ;
        assert(8 * (e * (50 * n + 49 * (r * r))) >= 560 * (e * (s * r))) by (nonlinear_arith)
            requires
                70 * (s * r) <= 50 * n + 49 * (r * r),
                0 <= e,
        ;
        assert(r * lhs >= r * (8 * (e * s))) by (nonlinear_arith)
            requires
                70 * (r * lhs) >= 560 * (e * (s * r)),
        ;
        assert(lhs >= 8 * (e * s)) by (nonlinear_arith)
            requires
                r * lhs >= r * (8 * (e * s)),
                r > 0,
        ;
        assert((2 * r - 3 * e) * (2 * r - 3 * e) == 4 * (r * r) - 12 * (r * e) + 9 * (e * e))
            by (nonlinear_arith);
    }
}

} // verus!
