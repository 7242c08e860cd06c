//! Fixed-point scalars.
//!
//! A scalar is an `i64` that counts millionths of a unit; a length of time is
//! an `i64` that counts ticks of a fixed fraction of a second. Every operation
//! computes its exact result in wider integers, rounds towards zero and then
//! saturates at `LIMIT`, so no operation overflows or panics.

use vstd::prelude::*;

verus! {

/// Raw units in one whole unit.
pub const SCALE: i64 = 1_000_000;

/// Largest magnitude of a stored scalar, in raw units.
pub const LIMIT: i64 = 1_000_000_000_000_000_000;

/// Ticks of time in one second. A length of time is a whole number of
/// ticks, and a second holds so many of them that a frame at any of the
/// usual rates lasts a whole number of ticks.
pub const SECOND: i64 = 705_600_000;

/// Whether `v` can be stored without saturating.
pub open spec fn in_range(v: int) -> bool {
    -LIMIT <= v <= LIMIT
}

/// `v` pulled into the storable range.
pub open spec fn sat(v: int) -> i64 {
    if v < -LIMIT {
        (-LIMIT) as i64
    } else if v > LIMIT {
        LIMIT
    } else {
        v as i64
    }
}

/// Absolute value.
pub open spec fn magnitude(v: int) -> int {
    if v < 0 {
        -v
    } else {
        v
    }
}

/// Quotient of `a` by `b`, rounded towards zero.
pub open spec fn quo(a: int, b: int) -> int
    recommends
        b != 0,
{
    if b > 0 {
        if a >= 0 {
            a / b
        } else {
            -((-a) / b)
        }
    } else {
        if a >= 0 {
            -(a / (-b))
        } else {
            (-a) / (-b)
        }
    }
}

/// Fixed-point product of two scalars.
pub open spec fn product(a: int, b: int) -> i64 {
    sat(quo(a * b, SCALE as int))
}

/// Fixed-point quotient of two scalars. Division by zero saturates in the
/// direction of the dividend, and gives zero for a zero dividend.
pub open spec fn ratio(a: int, b: int) -> i64 {
    if b != 0 {
        sat(quo(a * SCALE, b))
    } else if a > 0 {
        LIMIT
    } else if a < 0 {
        (-LIMIT) as i64
    } else {
        0
    }
}

/// What a rate per second comes to over a length of time: the rate times
/// the ticks over the ticks in a second, in one quotient.
pub open spec fn over_time(rate: int, ticks: int) -> i64 {
    sat(quo(rate * ticks, SECOND as int))
}

/// Whether a scalar is within the storable range.
pub fn fits(v: i64) -> (r: bool)
    ensures
        r == in_range(v as int),
{
    -LIMIT <= v && v <= LIMIT
}

/// The larger of two scalars.
pub fn max(first: i64, second: i64) -> (r: i64)
    ensures
        r == if first >= second {
            first
        } else {
            second
        },
{
    if first >= second {
        first
    } else {
        second
    }
}

/// The smaller of two scalars.
pub fn min(first: i64, second: i64) -> (r: i64)
    ensures
        r == if first <= second {
            first
        } else {
            second
        },
{
    if first <= second {
        first
    } else {
        second
    }
}

/// Saturates a wide exact result into a scalar.
pub fn saturate(v: i128) -> (r: i64)
    ensures
        r == sat(v as int),
        in_range(r as int),
{
    if v < -(LIMIT as i128) {
        -LIMIT
    } else if v > LIMIT as i128 {
        LIMIT
    } else {
        v as i64
    }
}

/// Quotient rounded towards zero, on wide integers.
pub fn quotient(a: i128, b: i128) -> (r: i128)
    requires
        b != 0,
        a > i128::MIN,
        b > i128::MIN,
    ensures
        r == quo(a as int, b as int),
        magnitude(r as int) <= magnitude(a as int),
{
    let ma: i128 = if a < 0 { -a } else { a };
    let mb: i128 = if b < 0 { -b } else { b };
    let q: i128 = ma / mb;
    proof {
        assert(0 <= ma / mb <= ma) by (nonlinear_arith)
            requires
                ma >= 0,
                mb > 0,
        ;
    }
    if (a < 0) == (b < 0) {
        q
    } else {
        -q
    }
}

/// Sum of two scalars.
pub fn plus(a: i64, b: i64) -> (r: i64)
    ensures
        r == sat(a + b),
        in_range(r as int),
{
    saturate(a as i128 + b as i128)
}

/// Difference of two scalars.
pub fn minus(a: i64, b: i64) -> (r: i64)
    ensures
        r == sat(a - b),
        in_range(r as int),
{
    saturate(a as i128 - b as i128)
}

/// Product of two scalars.
pub fn times(a: i64, b: i64) -> (r: i64)
    ensures
        r == product(a as int, b as int),
        in_range(r as int),
{
    proof {
        lemma_product_bound(a as int, b as int, 0x8000_0000_0000_0000);
    }
    let p: i128 = (a as i128) * (b as i128);
    saturate(quotient(p, SCALE as i128))
}

/// What a rate per second comes to over a length of time.
pub fn during(rate: i64, ticks: i64) -> (r: i64)
    ensures
        r == over_time(rate as int, ticks as int),
        in_range(r as int),
{
    proof {
        lemma_product_bound(rate as int, ticks as int, 0x8000_0000_0000_0000);
    }
    let p: i128 = (rate as i128) * (ticks as i128);
    saturate(quotient(p, SECOND as i128))
}

/// Quotient of two scalars.
pub fn over(a: i64, b: i64) -> (r: i64)
    ensures
        r == ratio(a as int, b as int),
        in_range(r as int),
{
    if b != 0 {
        proof {
            lemma_product_bound(a as int, SCALE as int, 0x8000_0000_0000_0000);
        }
        let p: i128 = (a as i128) * (SCALE as i128);
        saturate(quotient(p, b as i128))
    } else if a > 0 {
        LIMIT
    } else if a < 0 {
        -LIMIT
    } else {
        0
    }
}

/// A product is bounded by the product of the bounds of its factors.
pub proof fn lemma_product_bound(a: int, b: int, m: int)
    requires
        magnitude(a) <= m,
        magnitude(b) <= m,
    ensures
        magnitude(a * b) <= m * m,
{
    assert(-(m * m) <= a * b <= m * m) by (nonlinear_arith)
        requires
            -m <= a <= m,
            -m <= b <= m,
    ;
}

/// Whether `r` is the integer square root of `n`: the largest integer whose
/// square does not exceed `n`.
pub open spec fn is_root(n: int, r: int) -> bool {
    0 <= r && r * r <= n < (r + 1) * (r + 1)
}

/// The integer square root of `n` (zero for a negative `n`).
pub open spec fn root(n: int) -> int {
    if n <= 0 {
        0
    } else {
        choose|r: int| is_root(n, r)
    }
}

/// At most one integer is the square root of `n`.
pub proof fn lemma_root_unique(n: int, r: int, s: int)
    requires
        is_root(n, r),
        is_root(n, s),
    ensures
        r == s,
{
    assert(r < s + 1) by (nonlinear_arith)
        requires
            0 <= r,
            0 <= s,
            r * r < (s + 1) * (s + 1),
    ;
    assert(s < r + 1) by (nonlinear_arith)
        requires
            0 <= r,
            0 <= s,
            s * s < (r + 1) * (r + 1),
    ;
}

/// Every natural number has an integer square root, and `root` names it.
pub proof fn lemma_root(n: int)
    requires
        0 <= n,
    ensures
        is_root(n, root(n)),
    decreases n,
{
    if n == 0 {
        assert(is_root(0, 0));
    } else {
        lemma_root(n - 1);
        let p = root(n - 1);
        if (p + 1) * (p + 1) <= n {
            assert((p + 2) * (p + 2) > n) by (nonlinear_arith)
                requires
                    0 <= p,
                    n - 1 < (p + 1) * (p + 1),
            ;
            assert(is_root(n, p + 1));
        } else {
            assert(is_root(n, p));
        }
    }
}

/// A known square root is the one that `root` names.
pub proof fn lemma_root_is(n: int, r: int)
    requires
        is_root(n, r),
    ensures
        root(n) == r,
{
    if n > 0 {
        lemma_root_unique(n, r, root(n));
    } else {
        assert(r == 0) by (nonlinear_arith)
            requires
                0 <= r,
                r * r <= 0,
        ;
    }
}

/// Integer square root by bisection.
pub fn isqrt(n: u128) -> (r: u64)
    ensures
        r == root(n as int),
        is_root(n as int, r as int),
{
    let mut lo: u128 = 0;
    let mut hi: u128 = 0x1_0000_0000_0000_0000;
    assert(n < hi * hi) by (nonlinear_arith)
        requires
            hi == 0x1_0000_0000_0000_0000,
            n <= u128::MAX,
    ;
    while hi - lo > 1
        invariant
            lo < hi <= 0x1_0000_0000_0000_0000,
            lo * lo <= n < hi * hi,
        decreases hi - lo,
    {
        let mid: u128 = lo + (hi - lo) / 2;
        assert(mid * mid <= u128::MAX) by (nonlinear_arith)
            requires
                0 <= mid < 0x1_0000_0000_0000_0000,
        ;
        if mid * mid <= n {
            lo = mid;
        } else {
            hi = mid;
        }
    }
    proof {
        lemma_root_is(n as int, lo as int);
    }
    lo as u64
}

/// A scalar times one is the scalar.
pub proof fn lemma_product_by_one(v: int)
    requires
        in_range(v),
    ensures
        product(v, SCALE as int) == v,
{
    let s = SCALE as int;
    let m = magnitude(v);
    assert(magnitude(v * s) == m * s) by (nonlinear_arith)
        requires
            m == magnitude(v),
            s > 0,
    ;
    assert((m * s) / s == m) by (nonlinear_arith)
        requires
            s > 0,
            0 <= m,
    ;
    assert((v * s < 0) == (v < 0) && (v * s >= 0) == (v >= 0)) by (nonlinear_arith)
        requires
            s > 0,
    ;
    assert(quo(v * s, s) == v);
}

/// What a division rounded towards zero leaves over is less than the
/// divisor.
pub proof fn lemma_quo_remainder(x: int, d: int)
    requires
        d != 0,
    ensures
        -magnitude(d) < x - d * quo(x, d) < magnitude(d),
{
    let m = magnitude(d);
    let y = magnitude(x);
    let q = y / m;
    assert(m * q <= y < m * q + m) by (nonlinear_arith)
        requires
            0 <= y,
            0 < m,
            q == y / m,
    ;
    if d > 0 {
        if x >= 0 {
            assert(quo(x, d) == q);
        } else {
            assert(quo(x, d) == -q);
            assert(d * (-q) == -(m * q)) by (nonlinear_arith)
                requires
                    d == m,
            ;
        }
    } else {
        if x >= 0 {
            assert(quo(x, d) == -q);
            assert(d * (-q) == m * q) by (nonlinear_arith)
                requires
                    d == -m,
            ;
        } else {
            assert(quo(x, d) == q);
            assert(d * q == -(m * q)) by (nonlinear_arith)
                requires
                    d == -m,
            ;
        }
    }
}

/// A quotient of something no larger than `bound` times the divisor is no
/// larger than `bound`.
pub proof fn lemma_quo_bounded(x: int, d: int, bound: int)
    requires
        0 < d,
        0 <= bound,
        -(bound * d) <= x <= bound * d,
    ensures
        -bound <= quo(x, d) <= bound,
{
    lemma_quo_remainder(x, d);
    let q = quo(x, d);
    assert(-bound <= q <= bound) by (nonlinear_arith)
        requires
            -(bound * d) <= x <= bound * d,
            -d < x - d * q < d,
            0 < d,
            0 <= bound,
    ;
}

/// A scalar that is not negative, times a share between nothing and one, is
/// a scalar between nothing and the one before.
pub proof fn lemma_product_with_share(v: int, share: int)
    requires
        0 <= v <= LIMIT,
        0 <= share <= SCALE,
    ensures
        0 <= product(v, share) <= v,
        product(share, v) == product(v, share),
{
    let s = SCALE as int;
    assert(0 <= v * share <= v * s) by (nonlinear_arith)
        requires
            0 <= v,
            0 <= share <= s,
    ;
    assert(0 <= (v * share) / s <= v) by (nonlinear_arith)
        requires
            0 <= v * share <= v * s,
            s > 0,
    ;
    assert(share * v == v * share) by (nonlinear_arith);
}

} // verus!
