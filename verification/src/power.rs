//! Powers of a share with a fractional exponent.
//!
//! A share is a scalar between nothing and one. Its power is worked out at a
//! finer scale than that of the scalars: the exponent is cut into ticks of
//! one part in two to the power of thirty-two, the whole part of it is
//! repeated multiplication, and each binary digit of the fractional part
//! multiplies by one of the successive square roots of the share. Every step
//! rounds up. So the power of a share that is not nothing is never nothing,
//! and a larger exponent never gives a larger power. The result stays at the
//! finer scale, so that what it multiplies loses nothing to its rounding.

use crate::fixed::{is_root, isqrt, lemma_root, lemma_root_is, root, SCALE};
use vstd::arithmetic::power2::{lemma2_to64, lemma_pow2_unfold, pow2};
use vstd::prelude::*;

verus! {

/// Units of the finer scale in one whole.
pub const FINE: u128 = 1_000_000_000_000;

/// Units of the finer scale in one raw unit of a scalar.
pub const RAISE: u128 = 1_000_000;

/// Binary digits that the fractional part of an exponent is cut into.
pub const DIGITS: usize = 32;

/// Product of two shares at the finer scale, rounded up.
pub open spec fn up_product(a: int, b: int) -> int {
    (a * b + 999_999_999_999) / 1_000_000_000_000
}

/// Square root of a share at the finer scale, rounded up.
pub open spec fn up_root(a: int) -> int {
    let r = root(a * FINE);
    if r * r == a * FINE {
        r
    } else {
        r + 1
    }
}

/// What is left of the share `b` after `k` square roots in a row: `b` to the
/// power of one over two to the power of `k`.
pub open spec fn nth_root(b: int, k: int) -> int
    decreases k,
{
    if k <= 0 {
        b
    } else {
        up_root(nth_root(b, k - 1))
    }
}

/// The share `b` to the power of the whole number `n`, by repeated
/// multiplication.
pub open spec fn whole_power(b: int, n: int) -> int
    decreases n,
{
    if n <= 0 {
        FINE as int
    } else {
        up_product(whole_power(b, n - 1), b)
    }
}

/// The share `b` to the power of `ticks` over two to the power of `k`. The
/// lowest binary digit of `ticks` stands for the `k`-th root of `b`; the
/// digits above it are the ticks of the power one level up.
pub open spec fn dyadic_power(b: int, ticks: int, k: int) -> int
    decreases k,
{
    if k <= 0 {
        whole_power(b, ticks)
    } else if ticks % 2 == 1 {
        up_product(dyadic_power(b, ticks / 2, k - 1), nth_root(b, k))
    } else {
        dyadic_power(b, ticks / 2, k - 1)
    }
}

/// A product of two shares is a share, no larger than either factor. It is
/// the exact product rounded up: no smaller than it, and less than one unit
/// of the finer scale above it. It is nothing only if a factor is.
pub proof fn lemma_up_product(a: int, b: int)
    requires
        0 <= a <= FINE,
        0 <= b <= FINE,
    ensures
        0 <= up_product(a, b) <= a,
        up_product(a, b) <= b,
        up_product(a, b) * FINE >= a * b,
        (up_product(a, b) - 1) * FINE < a * b,
        0 <= a * b <= FINE * FINE,
        a >= 1 && b >= 1 ==> up_product(a, b) >= 1,
{
    let f = 1_000_000_000_000int;
    let p = a * b;
    assert(0 <= p <= a * f && p <= b * f && p <= f * f && (a >= 1 && b >= 1 ==> p >= 1))
        by (nonlinear_arith)
        requires
            0 <= a <= f,
            0 <= b <= f,
            p == a * b,
    ;
    let c = (p + 999_999_999_999) / f;
    assert(f * c <= p + 999_999_999_999 < f * c + f) by (nonlinear_arith)
        requires
            c == (p + 999_999_999_999) / f,
            f > 0,
            p >= 0,
    ;
    assert(c * f == f * c) by (nonlinear_arith);
    assert((c - 1) * f == f * c - f) by (nonlinear_arith);
    assert(a * f == f * a) by (nonlinear_arith);
    assert(b * f == f * b) by (nonlinear_arith);
}

/// The rounded product is the least whole number that is no smaller than the
/// exact product.
pub proof fn lemma_up_product_least(a: int, b: int, c: int)
    requires
        0 <= a * b,
        c * FINE >= a * b,
    ensures
        up_product(a, b) <= c,
{
    let f = 1_000_000_000_000int;
    let p = a * b;
    let u = (p + 999_999_999_999) / f;
    assert(f * u <= p + 999_999_999_999 < f * u + f) by (nonlinear_arith)
        requires
            u == (p + 999_999_999_999) / f,
            f > 0,
            p >= 0,
    ;
    assert(c * f == f * c) by (nonlinear_arith);
}

/// The root of a share is a share, and it is the exact root rounded up: its
/// square is no smaller than the share, and the square of the number below
/// it is smaller. It is nothing only if the share is.
pub proof fn lemma_up_root(a: int)
    requires
        0 <= a <= FINE,
    ensures
        0 <= up_root(a) <= FINE,
        up_root(a) * up_root(a) >= a * FINE,
        a >= 1 ==> (up_root(a) - 1) * (up_root(a) - 1) < a * FINE,
        0 <= a * FINE <= FINE * FINE,
        a >= 1 ==> up_root(a) >= 1,
{
    let f = FINE as int;
    assert(0 <= a * f <= f * f && (a >= 1 ==> a * f >= 1)) by (nonlinear_arith)
        requires
            0 <= a <= f,
            f == 1_000_000_000_000,
    ;
    lemma_root(a * f);
    let s = root(a * f);
    if s * s != a * f {
        assert((s + 1) * (s + 1) >= a * f);
        assert((s + 1 - 1) * (s + 1 - 1) == s * s);
        assert(s < f) by (nonlinear_arith)
            requires
                0 <= s,
                s * s < f * f,
                f > 0,
        ;
    } else {
        assert(s <= f) by (nonlinear_arith)
            requires
                0 <= s,
                s * s <= f * f,
                f > 0,
        ;
        if a >= 1 {
            assert(s >= 1) by (nonlinear_arith)
                requires
                    0 <= s,
                    s * s >= 1,
            ;
            assert((s - 1) * (s - 1) < s * s) by (nonlinear_arith)
                requires
                    s >= 1,
            ;
        }
    }
}

/// Multiplying twice by the root of a share takes no more away than
/// multiplying once by the share.
pub proof fn lemma_root_twice(x: int, share: int, r: int)
    requires
        0 <= x <= FINE,
        0 <= share <= FINE,
        0 <= r <= FINE,
        r * r >= share * FINE,
    ensures
        up_product(x, share) <= up_product(up_product(x, r), r),
{
    let f = FINE as int;
    lemma_up_product(x, r);
    let y = up_product(x, r);
    lemma_up_product(y, r);
    let z = up_product(y, r);
    lemma_up_product(x, share);
    assert(z * f * f >= y * r * f) by (nonlinear_arith)
        requires
            z * f >= y * r,
            f > 0,
    ;
    assert(y * r * f >= x * r * r) by (nonlinear_arith)
        requires
            y * f >= x * r,
            r >= 0,
    ;
    assert(x * r * r >= x * share * f) by (nonlinear_arith)
        requires
            r * r >= share * f,
            x >= 0,
    ;
    assert(z * f >= x * share) by (nonlinear_arith)
        requires
            z * f * f >= x * share * f,
            f > 0,
    ;
    lemma_up_product_least(x, share, z);
}

/// Every successive root of a share is a share, and is nothing only if the
/// share is.
pub proof fn lemma_nth_root(b: int, k: int)
    requires
        0 <= b <= FINE,
    ensures
        0 <= nth_root(b, k) <= FINE,
        b >= 1 ==> nth_root(b, k) >= 1,
        k > 0 ==> nth_root(b, k) * nth_root(b, k) >= nth_root(b, k - 1) * FINE,
    decreases k,
{
    if k > 0 {
        lemma_nth_root(b, k - 1);
        lemma_up_root(nth_root(b, k - 1));
    }
}

/// A whole power of a share is a share, and is nothing only if the share is.
pub proof fn lemma_whole_power(b: int, n: int)
    requires
        0 <= b <= FINE,
    ensures
        0 <= whole_power(b, n) <= FINE,
        b >= 1 ==> whole_power(b, n) >= 1,
    decreases n,
{
    if n > 0 {
        lemma_whole_power(b, n - 1);
        lemma_up_product(whole_power(b, n - 1), b);
    }
}

/// A power of a share is a share, and is nothing only if the share is.
pub proof fn lemma_dyadic_power(b: int, ticks: int, k: int)
    requires
        0 <= b <= FINE,
    ensures
        0 <= dyadic_power(b, ticks, k) <= FINE,
        b >= 1 ==> dyadic_power(b, ticks, k) >= 1,
    decreases k,
{
    if k <= 0 {
        lemma_whole_power(b, ticks);
    } else {
        lemma_dyadic_power(b, ticks / 2, k - 1);
        lemma_nth_root(b, k);
        lemma_up_product(dyadic_power(b, ticks / 2, k - 1), nth_root(b, k));
    }
}

/// One tick more takes at least as much away as one more factor of the root
/// that a tick stands for.
pub proof fn lemma_tick_step(b: int, ticks: int, k: int)
    requires
        0 <= b <= FINE,
        0 <= ticks,
        0 <= k,
    ensures
        dyadic_power(b, ticks + 1, k) <= up_product(dyadic_power(b, ticks, k), nth_root(b, k)),
    decreases k,
{
    if k > 0 {
        let x = dyadic_power(b, ticks / 2, k - 1);
        let r = nth_root(b, k);
        lemma_dyadic_power(b, ticks / 2, k - 1);
        lemma_nth_root(b, k);
        lemma_nth_root(b, k - 1);
        if ticks % 2 == 1 {
            assert((ticks + 1) % 2 == 0 && (ticks + 1) / 2 == ticks / 2 + 1);
            lemma_tick_step(b, ticks / 2, k - 1);
            lemma_root_twice(x, nth_root(b, k - 1), r);
        } else {
            assert((ticks + 1) % 2 == 1 && (ticks + 1) / 2 == ticks / 2);
        }
    }
}

/// A power never grows with its exponent: more ticks never give a larger
/// power.
pub proof fn lemma_ticks_monotone(b: int, fewer: int, more: int, k: int)
    requires
        0 <= b <= FINE,
        0 <= fewer <= more,
        0 <= k,
    ensures
        dyadic_power(b, more, k) <= dyadic_power(b, fewer, k),
    decreases more - fewer,
{
    if fewer < more {
        lemma_ticks_monotone(b, fewer, more - 1, k);
        lemma_tick_step(b, more - 1, k);
        lemma_dyadic_power(b, more - 1, k);
        lemma_nth_root(b, k);
        lemma_up_product(dyadic_power(b, more - 1, k), nth_root(b, k));
    }
}

/// Once a further factor changes nothing, no number of further factors
/// does.
proof fn lemma_whole_power_settles(b: int, settled: int, n: int)
    requires
        0 <= settled <= n,
        up_product(whole_power(b, settled), b) == whole_power(b, settled),
    ensures
        whole_power(b, n) == whole_power(b, settled),
    decreases n,
{
    if settled < n {
        lemma_whole_power_settles(b, settled, n - 1);
    }
}

fn up_times(a: u128, b: u128) -> (r: u128)
    requires
        a <= FINE,
        b <= FINE,
    ensures
        r == up_product(a as int, b as int),
        r <= FINE,
{
    proof {
        lemma_up_product(a as int, b as int);
    }
    (a * b + 999_999_999_999) / FINE
}

fn up_sqrt(a: u128) -> (r: u128)
    requires
        a <= FINE,
    ensures
        r == up_root(a as int),
        r <= FINE,
{
    proof {
        lemma_up_root(a as int);
    }
    let wide: u128 = a * FINE;
    let low: u128 = isqrt(wide) as u128;
    proof {
        assert(low * low <= FINE * FINE) by (nonlinear_arith)
            requires
                low * low <= wide,
                wide <= FINE * FINE,
        ;
    }
    if low * low == wide {
        low
    } else {
        low + 1
    }
}

/// The share and its first thirty-two successive roots.
fn root_table(b: u128) -> (table: Vec<u128>)
    requires
        b <= FINE,
    ensures
        table@.len() == DIGITS + 1,
        forall|k: int| 0 <= k <= DIGITS ==> #[trigger] table@[k] == nth_root(b as int, k),
{
    let mut table: Vec<u128> = Vec::new();
    table.push(b);
    let mut k: usize = 0;
    while k < DIGITS
        invariant
            k <= DIGITS,
            b <= FINE,
            table@.len() == k + 1,
            forall|i: int| 0 <= i <= k ==> #[trigger] table@[i] == nth_root(b as int, i),
        decreases DIGITS - k,
    {
        proof {
            lemma_nth_root(b as int, k as int);
        }
        let next: u128 = up_sqrt(table[k]);
        table.push(next);
        k = k + 1;
    }
    table
}

fn whole(b: u128, n: u128) -> (r: u128)
    requires
        b <= FINE,
    ensures
        r == whole_power(b as int, n as int),
        r <= FINE,
{
    let mut value: u128 = FINE;
    let mut i: u128 = 0;
    while i < n
        invariant
            i <= n,
            b <= FINE,
            value <= FINE,
            value == whole_power(b as int, i as int),
        decreases n - i,
    {
        let next: u128 = up_times(value, b);
        if next == value {
            proof {
                lemma_whole_power_settles(b as int, i as int, n as int);
            }
            return value;
        }
        value = next;
        i = i + 1;
    }
    value
}

fn dyadic(b: u128, ticks: u128, k: usize, table: &Vec<u128>) -> (r: u128)
    requires
        b <= FINE,
        k <= DIGITS,
        table@.len() == DIGITS + 1,
        forall|i: int| 0 <= i <= DIGITS ==> #[trigger] table@[i] == nth_root(b as int, i),
    ensures
        r == dyadic_power(b as int, ticks as int, k as int),
        r <= FINE,
    decreases k,
{
    if k == 0 {
        whole(b, ticks)
    } else {
        let rest: u128 = dyadic(b, ticks / 2, k - 1, table);
        if ticks % 2 == 1 {
            proof {
                lemma_nth_root(b as int, k as int);
            }
            up_times(rest, table[k])
        } else {
            rest
        }
    }
}

/// Raises a share, given as a scalar, to the power of a number of ticks of
/// one part in two to the power of thirty-two; the result is a share at the
/// finer scale.
pub fn raise_by_ticks(base: i64, ticks: u128) -> (r: i64)
    requires
        0 <= base <= SCALE,
    ensures
        r == dyadic_power(base * RAISE, ticks as int, DIGITS as int),
        0 <= r <= FINE,
        base > 0 ==> r > 0,
{
    let b: u128 = (base as u128) * RAISE;
    let table: Vec<u128> = root_table(b);
    let fine: u128 = dyadic(b, ticks, DIGITS, &table);
    proof {
        lemma_dyadic_power(b as int, ticks as int, DIGITS as int);
    }
    fine as i64
}

/// A share times one is the share.
proof fn lemma_up_product_by_one(a: int)
    requires
        0 <= a,
    ensures
        up_product(a, FINE as int) == a,
        up_product(FINE as int, a) == a,
{
    let f = 1_000_000_000_000int;
    assert((a * f + 999_999_999_999) / f == a) by (nonlinear_arith)
        requires
            f == 1_000_000_000_000,
            0 <= a,
    ;
    assert(f * a == a * f) by (nonlinear_arith);
}

/// Ticks that fill whole turns of the exponent leave the whole power.
proof fn lemma_whole_turns(b: int, n: int, k: nat)
    requires
        0 <= n,
    ensures
        dyadic_power(b, n * pow2(k), k as int) == whole_power(b, n),
    decreases k,
{
    if k > 0 {
        lemma_pow2_unfold(k);
        let half = pow2((k - 1) as nat) as int;
        assert(n * pow2(k) == 2 * (n * half)) by (nonlinear_arith)
            requires
                pow2(k) == 2 * half,
        ;
        assert(0 <= n * half) by (nonlinear_arith)
            requires
                0 <= n,
                0 <= half,
        ;
        lemma_whole_turns(b, n, (k - 1) as nat);
    } else {
        lemma2_to64();
    }
}

/// With a whole exponent the power is repeated multiplication: ticks that
/// come to the whole number `n` give the share times itself `n` times.
pub proof fn lemma_whole_ticks(b: int, n: int)
    requires
        0 <= n,
    ensures
        dyadic_power(b, n * 0x1_0000_0000, DIGITS as int) == whole_power(b, n),
{
    lemma2_to64();
    lemma_whole_turns(b, n, 32);
}

/// With no tick at all the power is one.
pub proof fn lemma_no_ticks(b: int)
    ensures
        dyadic_power(b, 0, DIGITS as int) == FINE,
{
    lemma_whole_ticks(b, 0);
}

/// A share to the power of one is the share itself.
pub proof fn lemma_first_power(b: int)
    requires
        0 <= b,
    ensures
        dyadic_power(b, 0x1_0000_0000, DIGITS as int) == b,
{
    lemma_whole_ticks(b, 1);
    lemma_up_product_by_one(b);
    assert(whole_power(b, 0) == FINE);
    assert(whole_power(b, 1) == up_product(whole_power(b, 0), b));
}

/// Every whole power and every root of one is one.
proof fn lemma_ones(n: int, k: int)
    ensures
        whole_power(FINE as int, n) == FINE,
        nth_root(FINE as int, k) == FINE,
    decreases
            (if n > 0 {
                n
            } else {
                0
            }) + (if k > 0 {
                k
            } else {
                0
            }),
{
    lemma_up_product_by_one(FINE as int);
    if n > 0 {
        lemma_ones(n - 1, 0);
    }
    if k > 0 {
        lemma_ones(0, k - 1);
        assert(is_root(1_000_000_000_000_000_000_000_000, 1_000_000_000_000));
        lemma_root_is(1_000_000_000_000_000_000_000_000, 1_000_000_000_000);
        assert(FINE * FINE == 1_000_000_000_000_000_000_000_000);
    }
}

/// One to any power is one.
pub proof fn lemma_power_of_one(ticks: int, k: int)
    ensures
        dyadic_power(FINE as int, ticks, k) == FINE,
    decreases k,
{
    lemma_ones(ticks, k);
    lemma_up_product_by_one(FINE as int);
    if k > 0 {
        lemma_power_of_one(ticks / 2, k - 1);
    }
}

} // verus!
