//! Friction: a velocity decays exponentially in time, so over each frame it
//! keeps a share of itself that depends on the length of the frame alone.
//! The share is kept at the finer scale of the powers until it has
//! multiplied the velocity.

use crate::fixed::{
    in_range, lemma_product_bound, magnitude, quo, quotient, sat, saturate, LIMIT, SCALE, SECOND,
};
use crate::power::{
    dyadic_power, lemma_dyadic_power, lemma_first_power, lemma_no_ticks, lemma_power_of_one,
    lemma_ticks_monotone, lemma_up_product, raise_by_ticks, up_product, DIGITS, FINE, RAISE,
};
use vstd::arithmetic::div_mod::lemma_hoist_over_denominator;
use vstd::prelude::*;

verus! {

/// The friction time that passes in the time `delta`, at the `rate` per
/// second, in ticks of one part in two to the power of thirty-two: the rate
/// times the time, in one quotient. Time that does not run forwards comes to
/// nothing.
pub open spec fn friction_ticks(rate: int, delta: int) -> int {
    if rate * delta <= 0 {
        0
    } else {
        (rate * delta * 0x1_0000_0000) / 705_600_000_000_000
    }
}

/// The share of a velocity that friction leaves after the time `delta`, at
/// the finer scale: the friction base to the power of the friction time that
/// has passed. Time that does not run forwards leaves all of it.
pub open spec fn decayed(base: int, rate: int, delta: int) -> int {
    dyadic_power(base * RAISE, friction_ticks(rate, delta), DIGITS as int)
}

/// Works out the share of a velocity that friction leaves after the time
/// `delta`, at the finer scale.
pub fn decay(base: i64, rate: i64, delta: i64) -> (share: i64)
    requires
        0 <= base <= SCALE,
    ensures
        share == decayed(base as int, rate as int, delta as int),
        0 <= share <= FINE,
        base > 0 ==> share > 0,
{
    proof {
        lemma_product_bound(rate as int, delta as int, 0x8000_0000_0000_0000);
        assert(SECOND * SCALE == 705_600_000_000_000);
    }
    let both: i128 = (rate as i128) * (delta as i128);
    if both <= 0 {
        proof {
            lemma_no_ticks(base * RAISE);
        }
        return 1_000_000_000_000;
    }
    let span: u128 = 705_600_000_000_000;
    let turns: u128 = (both as u128) / span;
    let rest: u128 = (both as u128) % span;
    proof {
        let p = both as int;
        let d = span as int;
        let k = 0x1_0000_0000int;
        assert(p == d * (p / d) + p % d && 0 <= p % d < d && 0 <= p / d <= p) by (nonlinear_arith)
            requires
                0 <= p,
                0 < d,
        ;
        assert(p * k == (p % d) * k + ((p / d) * k) * d) by (nonlinear_arith)
            requires
                p == d * (p / d) + p % d,
        ;
        lemma_hoist_over_denominator((p % d) * k, (p / d) * k, d as nat);
        assert(0 <= (p % d) * k < d * k) by (nonlinear_arith)
            requires
                0 <= p % d < d,
                k == 0x1_0000_0000,
        ;
        assert(0 <= (p / d) * k <= p * k) by (nonlinear_arith)
            requires
                0 <= p / d <= p,
                k == 0x1_0000_0000,
        ;
    }
    let ticks: u128 = turns * 0x1_0000_0000 + (rest * 0x1_0000_0000) / span;
    raise_by_ticks(base, ticks)
}

/// A velocity component after it has kept the share `share` of itself: the
/// velocity times the share, given at the finer scale, in one quotient.
pub open spec fn damped(v: int, share: int) -> i64 {
    sat(quo(v * share, 1_000_000_000_000))
}

/// Damps a velocity component.
pub fn damp(v: i64, share: i64) -> (r: i64)
    ensures
        r == damped(v as int, share as int),
        in_range(r as int),
{
    proof {
        lemma_product_bound(v as int, share as int, 0x8000_0000_0000_0000);
    }
    let p: i128 = (v as i128) * (share as i128);
    saturate(quotient(p, 1_000_000_000_000))
}

/// Damping is odd in the velocity: a mirrored velocity decays to the
/// mirrored result.
pub proof fn lemma_damping_odd(v: int, share: int)
    requires
        0 <= share,
    ensures
        damped(-v, share) == -damped(v, share),
{
    assert(magnitude(-v * share) == magnitude(v * share)) by (nonlinear_arith);
    assert((-v * share < 0) == (v * share > 0)) by (nonlinear_arith);
    assert(0int / 1_000_000_000_000 == 0);
}

/// Damping a velocity that is not negative, by a share between nothing and
/// all, leaves a velocity between nothing and the one before.
pub proof fn lemma_damping_shrinks(v: int, share: int)
    requires
        0 <= v <= LIMIT,
        0 <= share <= FINE,
    ensures
        0 <= damped(v, share) <= v,
        damped(v, share) == (v * share) / 1_000_000_000_000,
{
    let f = 1_000_000_000_000int;
    assert(0 <= v * share <= v * f) by (nonlinear_arith)
        requires
            0 <= v,
            0 <= share <= f,
    ;
    assert(0 <= (v * share) / f <= v) by (nonlinear_arith)
        requires
            0 <= v * share <= v * f,
            f > 0,
    ;
}

/// What a division by the finer scale loses is less than one raw unit.
proof fn lemma_floor(x: int)
    requires
        0 <= x,
    ensures
        FINE * (x / 1_000_000_000_000) <= x < FINE * (x / 1_000_000_000_000) + FINE,
{
    let f = 1_000_000_000_000int;
    assert(f * (x / f) <= x < f * (x / f) + f) by (nonlinear_arith)
        requires
            0 <= x,
            f > 0,
    ;
}

/// Two damping steps in a row come to one step by the product of their
/// shares, for a velocity that is not negative: the one step leaves no less,
/// and at most two raw units more than a millionth of a millionth of the
/// velocity.
proof fn lemma_damping_composes_forward(v: int, first: int, second: int)
    requires
        0 <= v <= LIMIT,
        0 <= first <= FINE,
        0 <= second <= FINE,
    ensures
        0 <= damped(v, up_product(first, second)) - damped(damped(v, first) as int, second) <= v
            / 1_000_000_000_000 + 2,
{
    let f = 1_000_000_000_000int;
    lemma_damping_shrinks(v, first);
    let m = damped(v, first) as int;
    lemma_damping_shrinks(m, second);
    let lhs = damped(m, second) as int;
    lemma_up_product(first, second);
    let k = up_product(first, second);
    lemma_damping_shrinks(v, k);
    let rhs = damped(v, k) as int;
    assert(0 <= v * first) by (nonlinear_arith)
        requires
            0 <= v,
            0 <= first,
    ;
    assert(0 <= m * second) by (nonlinear_arith)
        requires
            0 <= m,
            0 <= second,
    ;
    assert(0 <= v * k) by (nonlinear_arith)
        requires
            0 <= v,
            0 <= k,
    ;
    lemma_floor(v * first);
    lemma_floor(m * second);
    lemma_floor(v * k);
    let p = v * first * second;
    // f * f * lhs <= p
    assert(f * f * lhs <= p) by (nonlinear_arith)
        requires
            f * lhs <= m * second,
            f * m <= v * first,
            0 <= second,
            f > 0,
            p == v * first * second,
    ;
    // p - 2 * f * f < f * f * lhs
    assert(p - 2 * f * f < f * f * lhs) by (nonlinear_arith)
        requires
            m * second < f * lhs + f,
            v * first < f * m + f,
            0 <= second <= f,
            f > 0,
            p == v * first * second,
    ;
    // p - f * f < f * f * rhs
    assert(p - f * f < f * f * rhs) by (nonlinear_arith)
        requires
            v * k < f * rhs + f,
            k * f >= first * second,
            0 <= v,
            f > 0,
            p == v * first * second,
    ;
    // f * f * rhs < p + v * f
    assert(f * f * rhs <= p + v * f) by (nonlinear_arith)
        requires
            f * rhs <= v * k,
            (k - 1) * f < first * second,
            0 <= v,
            f > 0,
            p == v * first * second,
    ;
    assert(lhs - rhs < 1) by (nonlinear_arith)
        requires
            f * f * lhs <= p,
            p - f * f < f * f * rhs,
            f > 0,
    ;
    let d = rhs - lhs - 2;
    assert(f * d < v) by (nonlinear_arith)
        requires
            f * f * rhs <= p + v * f,
            p - 2 * f * f < f * f * lhs,
            f > 0,
            d == rhs - lhs - 2,
    ;
    assert(d <= v / f) by (nonlinear_arith)
        requires
            f * d < v,
            f > 0,
            0 <= v,
            v < f * (v / f) + f,
    ;
}

/// Friction composes: damping by one share and then by another comes to
/// damping once by the product of the two shares, up to rounding. The two
/// results differ by at most two raw units more than a millionth of a
/// millionth of the velocity.
pub proof fn lemma_damping_composes(v: int, first: int, second: int)
    requires
        in_range(v),
        0 <= first <= FINE,
        0 <= second <= FINE,
    ensures
        magnitude(
            damped(damped(v, first) as int, second) - damped(v, up_product(first, second)),
        ) <= magnitude(v) / 1_000_000_000_000 + 2,
{
    lemma_up_product(first, second);
    let k = up_product(first, second);
    if v >= 0 {
        lemma_damping_composes_forward(v, first, second);
        assert(0 <= v / 1_000_000_000_000) by (nonlinear_arith)
            requires
                0 <= v,
        ;
    } else {
        lemma_damping_composes_forward(-v, first, second);
        lemma_damping_odd(v, first);
        lemma_damping_odd(damped(v, first) as int, second);
        lemma_damping_odd(v, k);
        assert(0 <= (-v) / 1_000_000_000_000) by (nonlinear_arith)
            requires
                0 <= -v,
        ;
    }
}

/// A share of all leaves a velocity as it is.
pub proof fn lemma_damping_by_one(v: int)
    requires
        in_range(v),
    ensures
        damped(v, FINE as int) == v,
{
    let f = 1_000_000_000_000int;
    let m = magnitude(v);
    assert(magnitude(v * f) == m * f) by (nonlinear_arith)
        requires
            m == magnitude(v),
            f > 0,
    ;
    assert((m * f) / f == m) by (nonlinear_arith)
        requires
            f > 0,
            0 <= m,
    ;
    assert((v * f < 0) == (v < 0)) by (nonlinear_arith)
        requires
            f > 0,
    ;
    assert(quo(v * f, f) == v);
}

/// Friction never speeds a body up: whatever the length of the frame, the
/// damped velocity points the same way and is no faster.
pub proof fn lemma_friction_slows(v: int, base: int, rate: int, delta: int)
    requires
        in_range(v),
        0 <= base <= SCALE,
    ensures
        magnitude(damped(v, decayed(base, rate, delta)) as int) <= magnitude(v),
        v >= 0 ==> damped(v, decayed(base, rate, delta)) >= 0,
        v <= 0 ==> damped(v, decayed(base, rate, delta)) <= 0,
{
    let share = decayed(base, rate, delta);
    lemma_dyadic_power(base * RAISE, friction_ticks(rate, delta), DIGITS as int);
    if v >= 0 {
        lemma_damping_shrinks(v, share);
    } else {
        lemma_damping_shrinks(-v, share);
        lemma_damping_odd(v, share);
    }
}

/// A frame of no length leaves a velocity as it is.
pub proof fn lemma_no_time_no_friction(v: int, base: int, rate: int)
    requires
        in_range(v),
    ensures
        damped(v, decayed(base, rate, 0)) == v,
{
    lemma_damping_by_one(v);
    assert(rate * 0 == 0) by (nonlinear_arith);
    lemma_no_ticks(base * RAISE);
}

/// Friction leaves something of every velocity: with a base that is not
/// nothing the share that is left is not nothing, whatever the length of
/// the frame.
pub proof fn lemma_decay_is_positive(base: int, rate: int, delta: int)
    requires
        0 < base <= SCALE,
    ensures
        0 < decayed(base, rate, delta) <= FINE,
{
    lemma_dyadic_power(base * RAISE, friction_ticks(rate, delta), DIGITS as int);
}

/// The friction time that passes grows with the length of the frame.
proof fn lemma_friction_time_grows(rate: int, shorter: int, longer: int)
    requires
        0 <= rate,
        shorter <= longer,
    ensures
        0 <= friction_ticks(rate, shorter) <= friction_ticks(rate, longer),
{
    let a = rate * shorter;
    let b = rate * longer;
    assert(a <= b) by (nonlinear_arith)
        requires
            0 <= rate,
            shorter <= longer,
            a == rate * shorter,
            b == rate * longer,
    ;
    let k = 0x1_0000_0000int;
    let d = 705_600_000_000_000int;
    if a > 0 {
        assert(0 <= (a * k) / d <= (b * k) / d) by (nonlinear_arith)
            requires
                0 < a <= b,
                k > 0,
                d > 0,
        ;
    } else if b > 0 {
        assert(0 <= (b * k) / d) by (nonlinear_arith)
            requires
                0 < b,
                k > 0,
                d > 0,
        ;
    }
}

/// A longer frame never leaves more: the share that friction leaves does
/// not grow with the length of the frame.
pub proof fn lemma_decay_non_increasing(base: int, rate: int, shorter: int, longer: int)
    requires
        0 <= base <= SCALE,
        0 <= rate,
        shorter <= longer,
    ensures
        decayed(base, rate, longer) <= decayed(base, rate, shorter),
{
    lemma_friction_time_grows(rate, shorter, longer);
    lemma_ticks_monotone(
        base * RAISE,
        friction_ticks(rate, shorter),
        friction_ticks(rate, longer),
        DIGITS as int,
    );
}

/// Friction does not stop a body that is fast enough: where the velocity
/// times the share comes to a raw unit at least, the damped velocity is not
/// nothing and keeps its sign.
pub proof fn lemma_damping_keeps_direction(v: int, share: int)
    requires
        in_range(v),
        0 < share <= FINE,
        magnitude(v) * share >= FINE,
    ensures
        v > 0 ==> damped(v, share) > 0,
        v < 0 ==> damped(v, share) < 0,
{
    let f = 1_000_000_000_000int;
    let m = magnitude(v);
    lemma_damping_shrinks(m, share);
    assert((m * share) / f >= 1) by (nonlinear_arith)
        requires
            m * share >= f,
            f == 1_000_000_000_000,
    ;
    if v < 0 {
        lemma_damping_odd(v, share);
    }
}

/// Over a frame in which just one unit of friction time passes, the share
/// that is left is the friction base itself.
pub proof fn lemma_one_friction_time(base: int, rate: int, delta: int)
    requires
        0 <= base <= SCALE,
        rate * delta == SECOND * SCALE,
    ensures
        decayed(base, rate, delta) == base * RAISE,
{
    assert(SECOND * SCALE == 705_600_000_000_000);
    assert((705_600_000_000_000 * 0x1_0000_0000int) / 705_600_000_000_000 == 0x1_0000_0000);
    lemma_first_power(base * RAISE);
}

/// A base of one leaves everything, however long the frame.
pub proof fn lemma_no_friction(rate: int, delta: int)
    ensures
        decayed(SCALE as int, rate, delta) == FINE,
{
    lemma_power_of_one(friction_ticks(rate, delta), DIGITS as int);
}

} // verus!
