//! Sign-aware fixed-point arithmetic: truncating scaled multiply/divide and
//! an integer square root, with the lemmas the update contracts rest on.

use vstd::prelude::*;

verus! {

/// Absolute value of a mathematical integer.
pub open spec fn abs_i(a: int) -> int {
    if a >= 0 {
        a
    } else {
        -a
    }
}

/// Division of `a` by a positive `b`, truncating toward zero, as the
/// executable operators below compute it.
pub open spec fn div_trunc(a: int, b: int) -> int {
    if a >= 0 {
        a / b
    } else {
        -((-a) / b)
    }
}

/// `(a * m) / d`, truncating toward zero, for `m >= 0 < d`.
pub open spec fn mul_div_trunc(a: int, m: int, d: int) -> int {
    div_trunc(a * m, d)
}

/// `r` is the integer square root of `n`: the greatest integer whose square
/// does not exceed `n`.
pub open spec fn is_isqrt(n: int, r: int) -> bool {
    &&& 0 <= r
    &&& r * r <= n
    &&& n < (r + 1) * (r + 1)
}

/// The integer square root of a non-negative `n`.
pub open spec fn sqrt_floor(n: int) -> int {
    choose|r: int| is_isqrt(n, r)
}

/// Two integer square roots of the same number are equal.
proof fn lemma_isqrt_unique(n: int, a: int, b: int)
    requires
        is_isqrt(n, a),
        is_isqrt(n, b),
    ensures
        a == b,
{
    if a < b {
        assert((a + 1) * (a + 1) <= b * b) by (nonlinear_arith)
            requires
                0 <= a,
                0 <= b,
                a + 1 <= b,
        ;
    }
    if b < a {
        assert((b + 1) * (b + 1) <= a * a) by (nonlinear_arith)
            requires
                0 <= a,
                0 <= b,
                b + 1 <= a,
        ;
    }
}

/// A witness pins `sqrt_floor` down.
pub proof fn lemma_sqrt_floor_is(n: int, r: int)
    requires
        is_isqrt(n, r),
    ensures
        sqrt_floor(n) == r,
{
    let w = choose|w: int| is_isqrt(n, w);
    lemma_isqrt_unique(n, w, r);
}

/// Every non-negative number has an integer square root, so `sqrt_floor`
/// denotes it.
pub proof fn lemma_sqrt_floor_props(n: int)
    requires
        0 <= n,
    ensures
        is_isqrt(n, sqrt_floor(n)),
    decreases n,
{
    if n == 0 {
        assert(is_isqrt(0, 0));
    } else {
        lemma_sqrt_floor_props(n - 1);
        let r = sqrt_floor(n - 1);
        if (r + 1) * (r + 1) <= n {
            assert(is_isqrt(n, r + 1)) by (nonlinear_arith)
                requires
                    0 <= r,
                    r * r <= n - 1,
                    n - 1 < (r + 1) * (r + 1),
                    (r + 1) * (r + 1) <= n,
            ;
        } else {
            assert(is_isqrt(n, r));
        }
    }
}

/// Neither component of a vector exceeds the integer square root of the
/// vector's squared norm.
pub proof fn lemma_component_le_norm(x: int, y: int, r: int)
    requires
        is_isqrt(x * x + y * y, r),
    ensures
        abs_i(x) <= r,
        abs_i(y) <= r,
{
    assert(x * x >= 0 && y * y >= 0) by (nonlinear_arith);
    if abs_i(x) > r {
        assert((r + 1) * (r + 1) <= abs_i(x) * abs_i(x)) by (nonlinear_arith)
            requires
                0 <= r,
                r + 1 <= abs_i(x),
        ;
        assert(abs_i(x) * abs_i(x) == x * x) by (nonlinear_arith);
    }
    if abs_i(y) > r {
        assert((r + 1) * (r + 1) <= abs_i(y) * abs_i(y)) by (nonlinear_arith)
            requires
                0 <= r,
                r + 1 <= abs_i(y),
        ;
        assert(abs_i(y) * abs_i(y) == y * y) by (nonlinear_arith);
    }
}

/// The magnitude of a product with a non-negative factor is the product of
/// the magnitudes.
pub proof fn lemma_abs_mul(a: int, m: int)
    requires
        0 <= m,
    ensures
        abs_i(a * m) == abs_i(a) * m,
{
    if a >= 0 {
        assert(a * m >= 0) by (nonlinear_arith)
            requires
                a >= 0,
                m >= 0,
        ;
    } else {
        assert(a * m <= 0 && -(a * m) == (-a) * m) by (nonlinear_arith)
            requires
                a < 0,
                m >= 0,
        ;
    }
}

/// Truncating division maps magnitudes to divided magnitudes.
pub proof fn lemma_abs_div_trunc(x: int, d: int)
    requires
        1 <= d,
    ensures
        abs_i(div_trunc(x, d)) == abs_i(x) / d,
{
    assert(abs_i(x) / d >= 0) by (nonlinear_arith)
        requires
            1 <= d,
            abs_i(x) >= 0,
    ;
}

/// A truncating division by `d >= 1` never grows a magnitude.
pub proof fn lemma_div_trunc_le(x: int, d: int)
    requires
        1 <= d,
    ensures
        abs_i(div_trunc(x, d)) <= abs_i(x),
{
    lemma_abs_div_trunc(x, d);
    assert(abs_i(x) / d <= abs_i(x)) by (nonlinear_arith)
        requires
            1 <= d,
            abs_i(x) >= 0,
    ;
}

/// Division by a positive `d` is monotone over non-negative numbers, and a
/// multiple of `d` divides exactly: together, if `0 <= x <= d * m` then
/// `x / d <= m`.
pub proof fn lemma_div_le_multiple(x: int, m: int, d: int)
    requires
        1 <= d,
        0 <= m,
        0 <= x <= d * m,
    ensures
        x / d <= m,
{
    assert(x / d <= (d * m) / d && (d * m) / d == m) by (nonlinear_arith)
        requires
            1 <= d,
            0 <= m,
            0 <= x <= d * m,
    ;
}

/// Truncating division by a positive number never grows the magnitude of a
/// scaled product: if `abs(a) <= d` then `abs(a * m / d) <= m`.
pub proof fn lemma_mul_div_bound(a: int, m: int, d: int)
    requires
        0 <= m,
        1 <= d,
        abs_i(a) <= d,
    ensures
        abs_i(mul_div_trunc(a, m, d)) <= m,
{
    lemma_abs_mul(a, m);
    lemma_abs_div_trunc(a * m, d);
    assert(abs_i(a) * m <= d * m) by (nonlinear_arith)
        requires
            0 <= m,
            abs_i(a) <= d,
    ;
    lemma_div_le_multiple(abs_i(a) * m, m, d);
}

/// A cap on the scaled product carries through the truncating division:
/// if `abs(a) * m <= cap` then `abs(a * m / d) <= cap / d`.
pub proof fn lemma_mul_div_cap(a: int, m: int, d: int, cap: int)
    requires
        0 <= m,
        1 <= d,
        abs_i(a) * m <= cap,
    ensures
        abs_i(mul_div_trunc(a, m, d)) <= cap / d,
{
    lemma_abs_mul(a, m);
    lemma_abs_div_trunc(a * m, d);
    assert((abs_i(a) * m) / d <= cap / d) by (nonlinear_arith)
        requires
            1 <= d,
            0 <= abs_i(a) * m <= cap,
    ;
}

/// Truncating division of a bounded sum by the number of its terms stays
/// within the bound on one term: if `abs(a) <= n * b` then `abs(a / n) <= b`.
pub proof fn lemma_avg_bound(a: int, n: int, b: int)
    requires
        1 <= n,
        0 <= b,
        abs_i(a) <= n * b,
    ensures
        abs_i(div_trunc(a, n)) <= b,
{
    lemma_abs_div_trunc(a, n);
    lemma_div_le_multiple(abs_i(a), b, n);
}

/// `(a * m) / d`, truncating toward zero. The multiply runs in 128 bits, so
/// only the quotient must fit an `i64`, which the bound premise guarantees.
pub fn mul_div(a: i64, m: i64, d: i64) -> (r: i64)
    requires
        0 <= m,
        1 <= d,
        abs_i(a as int) * (m as int) / (d as int) <= i64::MAX as int,
    ensures
        r as int == mul_div_trunc(a as int, m as int, d as int),
{
    proof {
        lemma_abs_mul(a as int, m as int);
        lemma_abs_div_trunc((a as int) * (m as int), d as int);
        assert(abs_i(a as int) * (m as int) < 0x1_0000_0000_0000_0000_0000_0000_0000_0000)
            by (nonlinear_arith)
            requires
                0 <= abs_i(a as int) < 0x1_0000_0000_0000_0000,
                0 <= m < 0x1_0000_0000_0000_0000,
        ;
    }
    let mm = m as u128;
    let dd = d as u128;
    if a >= 0 {
        let q = ((a as u128) * mm) / dd;
        assert((a as u128) * mm == abs_i(a as int) * (m as int));
        q as i64
    } else {
        proof {
            assert((a as int) * (m as int) <= 0) by (nonlinear_arith)
                requires
                    a < 0,
                    m >= 0,
            ;
        }
        let neg = (-(a as i128)) as u128;
        assert(neg as int == abs_i(a as int));
        let q = (neg * mm) / dd;
        assert(neg * mm == abs_i(a as int) * (m as int));
        -(q as i64)
    }
}

/// `a / d`, truncating toward zero, for a positive `d`.
pub fn div_signed(a: i64, d: i64) -> (r: i64)
    requires
        i64::MIN < a,
        1 <= d,
    ensures
        r as int == div_trunc(a as int, d as int),
        abs_i(r as int) <= abs_i(a as int),
{
    proof {
        lemma_div_trunc_le(a as int, d as int);
        lemma_abs_div_trunc(a as int, d as int);
    }
    let dd = d as u128;
    if a >= 0 {
        let q = (a as u128) / dd;
        q as i64
    } else {
        let neg = (-a) as u128;
        assert(neg as int == abs_i(a as int));
        let q = neg / dd;
        -(q as i64)
    }
}

/// The integer square root of a 128-bit number, by bisection.
pub fn isqrt_u128(n: u128) -> (r: u64)
    ensures
        is_isqrt(n as int, r as int),
        r as int == sqrt_floor(n as int),
{
    let mut lo: u128 = 0;
    let mut hi: u128 = 0x1_0000_0000_0000_0000;
    if n < hi {
        hi = n + 1;
    }
    assert((hi as int) * (hi as int) > n as int) by (nonlinear_arith)
        requires
            (hi as int == n as int + 1 && n as int >= 0) || (hi as int == 0x1_0000_0000_0000_0000
                && n as int <= 0xffff_ffff_ffff_ffff_ffff_ffff_ffff_ffff),
    ;
    while lo + 1 < hi
        invariant
            0 <= lo < hi <= 0x1_0000_0000_0000_0000,
            (lo as int) * (lo as int) <= n as int,
            (n as int) < (hi as int) * (hi as int),
        decreases hi - lo,
    {
        let mid = lo + (hi - lo) / 2;
        assert(lo < mid < hi);
        assert((mid as int) * (mid as int) <= 0xffff_ffff_ffff_ffff_ffff_ffff_ffff_ffff)
            by (nonlinear_arith)
            requires
                0 <= mid as int <= 0xffff_ffff_ffff_ffff,
        ;
        let sq = mid * mid;
        if sq <= n {
            lo = mid;
        } else {
            hi = mid;
        }
    }
    assert(is_isqrt(n as int, lo as int));
    proof {
        lemma_sqrt_floor_is(n as int, lo as int);
    }
    lo as u64
}

} // verus!
