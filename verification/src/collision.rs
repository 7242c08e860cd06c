//! Elastic response of two circles in contact: an impulse along the line
//! between their centres, with radii standing in for masses.

use crate::fixed::{
    in_range, lemma_product_bound, lemma_product_by_one, lemma_quo_remainder, lemma_root,
    magnitude, minus, plus, product, quo, quotient, sat, saturate, times, LIMIT, SCALE,
};
use crate::vector::{
    along_x, along_y, lemma_along_bounded, lemma_component_le_norm, norm, projected, refined_x,
    refined_y, Vector,
};
use vstd::prelude::*;

verus! {

/// What is taken off the sum of two radii where it stands in for the mass of
/// a pair.
pub const MASS_OFFSET: i64 = 8_000_000;

/// Gain of an impulse that is passed on unchanged.
pub const PLAIN: i64 = SCALE;

/// What a collision reads and changes of a circle: where it is, how it moves
/// and how large it is.
#[derive(Clone, Copy, Debug, PartialEq, Eq)]
pub struct Body {
    pub x: i64,
    pub y: i64,
    pub xv: i64,
    pub yv: i64,
    pub radius: i64,
}

impl Body {
    /// Every field is storable and the radius is positive.
    pub open spec fn wf(self) -> bool {
        &&& in_range(self.x as int)
        &&& in_range(self.y as int)
        &&& in_range(self.xv as int)
        &&& in_range(self.yv as int)
        &&& in_range(self.radius as int)
        &&& self.radius > 0
    }
}

/// The x component of the line from the centre of `a` to that of `b`.
pub open spec fn line_x(a: Body, b: Body) -> int {
    refined_x(b.x - a.x, b.y - a.y)
}

/// The y component of the line from the centre of `a` to that of `b`.
pub open spec fn line_y(a: Body, b: Body) -> int {
    refined_y(b.x - a.x, b.y - a.y)
}

/// The velocity of `a` relative to `b`, projected on the line from the
/// centre of `a` to that of `b`: positive while the two approach. Coincident
/// centres are given the positive x axis.
pub open spec fn closing_speed(a: Body, b: Body) -> i64 {
    projected(a.xv - b.xv, a.yv - b.yv, line_x(a, b), line_y(a, b))
}

/// What stands in for the mass of a pair: the sum of the radii less
/// `MASS_OFFSET`.
pub open spec fn pair_mass(a: Body, b: Body) -> int {
    a.radius + b.radius - MASS_OFFSET
}

/// The impulse of a pair as one of the two bodies feels it: twice the
/// closing speed over the mass, weighted by the radius of the other body.
/// The three are taken together in one quotient, so nothing is rounded
/// before the weight is applied. A mass of nothing saturates in the
/// direction of the dividend.
pub open spec fn weighted_impulse(closing: int, other_radius: int, mass: int) -> i64 {
    if mass != 0 {
        sat(quo(2 * closing * other_radius, mass))
    } else if closing * other_radius > 0 {
        LIMIT
    } else if closing * other_radius < 0 {
        (-LIMIT) as i64
    } else {
        0
    }
}

/// One velocity component of `a` after the exchange: it loses the component
/// `along` of its weighted impulse, times `gain`.
pub open spec fn struck(v: int, along: int, gain: int) -> i64 {
    sat(v - product(along, gain))
}

/// One velocity component of `b` after the exchange: it gains the component
/// `along` of its weighted impulse.
pub open spec fn pushed(v: int, along: int) -> i64 {
    sat(v + along)
}

/// The two bodies after their contact has been resolved. A pair that is
/// moving apart is left alone. Otherwise each velocity changes along the
/// line of centres, by the impulse weighted with the radius of the other
/// body; positions and radii stay.
pub open spec fn rebound(a: Body, b: Body, gain: int) -> (Body, Body) {
    if closing_speed(a, b) < 0 {
        (a, b)
    } else {
        let closing = closing_speed(a, b) as int;
        let taken = weighted_impulse(closing, b.radius as int, pair_mass(a, b)) as int;
        let given = weighted_impulse(closing, a.radius as int, pair_mass(a, b)) as int;
        let x = line_x(a, b);
        let y = line_y(a, b);
        (
            Body {
                xv: struck(a.xv as int, along_x(x, y, taken) as int, gain),
                yv: struck(a.yv as int, along_y(x, y, taken) as int, gain),
                ..a
            },
            Body {
                xv: pushed(b.xv as int, along_x(x, y, given) as int),
                yv: pushed(b.yv as int, along_y(x, y, given) as int),
                ..b
            },
        )
    }
}

/// Weights the impulse of a pair by a radius.
pub fn weigh(closing: i64, other_radius: i64, mass: i64) -> (w: i64)
    requires
        in_range(closing as int),
        in_range(other_radius as int),
    ensures
        w == weighted_impulse(closing as int, other_radius as int, mass as int),
        in_range(w as int),
{
    proof {
        lemma_product_bound(closing as int, other_radius as int, LIMIT as int);
        assert(LIMIT * LIMIT == 1_000_000_000_000_000_000_000_000_000_000_000_000);
        assert(2 * closing * other_radius == 2 * (closing * other_radius)) by (nonlinear_arith);
    }
    let both: i128 = (closing as i128) * (other_radius as i128);
    if mass != 0 {
        saturate(quotient(2 * both, mass as i128))
    } else if both > 0 {
        LIMIT
    } else if both < 0 {
        -LIMIT
    } else {
        0
    }
}

/// Resolves the contact of two bodies; `gain` scales what the first one
/// receives.
pub fn resolve(a: Body, b: Body, gain: i64) -> (r: (Body, Body))
    requires
        a.wf(),
        b.wf(),
    ensures
        r == rebound(a, b, gain as int),
        r.0.wf(),
        r.1.wf(),
{
    let line: Vector = Vector::new(b.x - a.x, b.y - a.y).refined();
    let speed: i64 = line.component_of(&Vector::new(a.xv - b.xv, a.yv - b.yv));
    if speed < 0 {
        return (a, b);
    }
    let mass: i64 = a.radius + b.radius - MASS_OFFSET;
    let taken: Vector = line.stretched(weigh(speed, b.radius, mass));
    let given: Vector = line.stretched(weigh(speed, a.radius, mass));
    let first = Body {
        xv: minus(a.xv, times(taken.x, gain)),
        yv: minus(a.yv, times(taken.y, gain)),
        ..a
    };
    let second = Body { xv: plus(b.xv, given.x), yv: plus(b.yv, given.y), ..b };
    (first, second)
}

/// A sum of two products is bounded by the bounds of the factors.
proof fn lemma_weighted_bound(ra: int, rb: int, ea: int, eb: int, m: int)
    requires
        0 <= ra,
        0 <= rb,
        -m <= ea <= m,
        -m <= eb <= m,
    ensures
        -((ra + rb) * m) <= ra * ea - rb * eb <= (ra + rb) * m,
{
    assert(-(ra * m) <= ra * ea <= ra * m) by (nonlinear_arith)
        requires
            0 <= ra,
            -m <= ea <= m,
    ;
    assert(-(rb * m) <= rb * eb <= rb * m) by (nonlinear_arith)
        requires
            0 <= rb,
            -m <= eb <= m,
    ;
    assert((ra + rb) * m == ra * m + rb * m) by (nonlinear_arith);
}

/// Two weighted impulses that balance still balance along the line of
/// centres: with `t` a component of a line of length `d`, what the two come
/// to along it differs, weighted, by at most twice the sum of the radii.
proof fn lemma_balance_along(wa: int, wb: int, ra: int, rb: int, t: int, d: int)
    requires
        0 <= ra,
        0 <= rb,
        0 < d,
        -d <= t <= d,
        -(ra + rb) <= rb * wb - ra * wa <= ra + rb,
    ensures
        -2 * (ra + rb) <= rb * quo(wb * t, d) - ra * quo(wa * t, d) <= 2 * (ra + rb),
{
    let y = rb * wb - ra * wa;
    lemma_quo_remainder(wa * t, d);
    lemma_quo_remainder(wb * t, d);
    let ta = quo(wa * t, d);
    let gb = quo(wb * t, d);
    let fa = wa * t - d * ta;
    let fb = wb * t - d * gb;
    let x = rb * gb - ra * ta;
    let along_a = wa * t;
    let along_b = wb * t;
    assert(rb * (d * gb) == rb * along_b - rb * fb) by (nonlinear_arith)
        requires
            d * gb == along_b - fb,
    ;
    assert(ra * (d * ta) == ra * along_a - ra * fa) by (nonlinear_arith)
        requires
            d * ta == along_a - fa,
    ;
    assert(d * x == rb * (d * gb) - ra * (d * ta)) by (nonlinear_arith)
        requires
            x == rb * gb - ra * ta,
    ;
    assert(t * y == rb * along_b - ra * along_a) by (nonlinear_arith)
        requires
            y == rb * wb - ra * wa,
            along_a == wa * t,
            along_b == wb * t,
    ;
    assert(d * x == t * y - (rb * fb - ra * fa));
    lemma_weighted_bound(rb, ra, fb, fa, d);
    assert(-((ra + rb) * d) <= t * y <= (ra + rb) * d) by (nonlinear_arith)
        requires
            -d <= t <= d,
            -(ra + rb) <= y <= ra + rb,
            0 <= ra + rb,
    ;
    assert((rb + ra) * d == (ra + rb) * d);
    assert(-2 * (ra + rb) <= x <= 2 * (ra + rb)) by (nonlinear_arith)
        requires
            -2 * ((ra + rb) * d) <= d * x <= 2 * ((ra + rb) * d),
            0 < d,
    ;
}

/// The two sides of an exchange balance: what the second body is given,
/// weighted by its radius, is what the first body gives up, weighted by its
/// own, up to rounding. For a closing speed and radii `ra` and `rb` whose
/// weighted impulses are storable, and along either axis of the line
/// `(x, y)`, the two differ by at most twice the sum of the radii.
pub proof fn lemma_exchange_balances(closing: int, ra: int, rb: int, mass: int, x: int, y: int)
    requires
        0 <= ra,
        0 <= rb,
        mass != 0,
        in_range(quo(2 * closing * rb, mass)),
        in_range(quo(2 * closing * ra, mass)),
    ensures
        -2 * (ra + rb) <= rb * along_x(x, y, weighted_impulse(closing, ra, mass) as int) - ra
            * along_x(x, y, weighted_impulse(closing, rb, mass) as int) <= 2 * (ra + rb),
        -2 * (ra + rb) <= rb * along_y(x, y, weighted_impulse(closing, ra, mass) as int) - ra
            * along_y(x, y, weighted_impulse(closing, rb, mass) as int) <= 2 * (ra + rb),
{
    let m = magnitude(mass);
    let wa = quo(2 * closing * rb, mass);
    let wb = quo(2 * closing * ra, mass);
    assert(weighted_impulse(closing, rb, mass) == wa);
    assert(weighted_impulse(closing, ra, mass) == wb);
    lemma_quo_remainder(2 * closing * rb, mass);
    lemma_quo_remainder(2 * closing * ra, mass);
    let ea = 2 * closing * rb - mass * wa;
    let eb = 2 * closing * ra - mass * wb;
    // the weighted impulses differ by no more than the sum of the radii
    let w = rb * wb - ra * wa;
    let both = 2 * closing * ra * rb;
    assert(rb * (mass * wb) == both - rb * eb) by (nonlinear_arith)
        requires
            mass * wb == 2 * closing * ra - eb,
            both == 2 * closing * ra * rb,
    ;
    assert(ra * (mass * wa) == both - ra * ea) by (nonlinear_arith)
        requires
            mass * wa == 2 * closing * rb - ea,
            both == 2 * closing * ra * rb,
    ;
    assert(mass * w == rb * (mass * wb) - ra * (mass * wa)) by (nonlinear_arith)
        requires
            w == rb * wb - ra * wa,
    ;
    assert(mass * w == ra * ea - rb * eb);
    lemma_weighted_bound(ra, rb, ea, eb, m);
    assert(-(ra + rb) <= w <= ra + rb) by (nonlinear_arith)
        requires
            -((ra + rb) * m) <= mass * w <= (ra + rb) * m,
            mass == m || mass == -m,
            m > 0,
            0 <= ra + rb,
    ;
    // along the line of centres
    let d = norm(x, y);
    lemma_along_bounded(x, y, wa);
    lemma_along_bounded(x, y, wb);
    if d != 0 {
        lemma_component_le_norm(x, y);
        lemma_balance_along(wa, wb, ra, rb, x, d);
        lemma_balance_along(wa, wb, ra, rb, y, d);
    } else {
        assert(rb * 0 - ra * 0 == 0) by (nonlinear_arith);
    }
}

/// Momentum of a pair along x, with radii standing in for masses.
pub open spec fn momentum_x(a: Body, b: Body) -> int {
    a.radius * a.xv + b.radius * b.xv
}

/// Momentum of a pair along y, with radii standing in for masses.
pub open spec fn momentum_y(a: Body, b: Body) -> int {
    a.radius * a.yv + b.radius * b.yv
}

/// Whether the exchange of a pair stays within the storable range at every
/// step: the mass is not nothing, and the two weighted impulses and the four
/// velocity components that come out are storable.
pub open spec fn unclipped(a: Body, b: Body) -> bool {
    let closing = closing_speed(a, b) as int;
    let mass = pair_mass(a, b);
    let taken = weighted_impulse(closing, b.radius as int, mass) as int;
    let given = weighted_impulse(closing, a.radius as int, mass) as int;
    let x = line_x(a, b);
    let y = line_y(a, b);
    &&& mass != 0
    &&& in_range(quo(2 * closing * b.radius, mass))
    &&& in_range(quo(2 * closing * a.radius, mass))
    &&& in_range(a.xv - along_x(x, y, taken))
    &&& in_range(a.yv - along_y(x, y, taken))
    &&& in_range(b.xv + along_x(x, y, given))
    &&& in_range(b.yv + along_y(x, y, given))
}

/// An exchange with plain gain keeps the momentum of the pair, up to
/// rounding: where nothing saturates, neither component of the momentum
/// changes by more than twice the sum of the radii, in raw units.
pub proof fn lemma_rebound_keeps_momentum(a: Body, b: Body)
    requires
        a.wf(),
        b.wf(),
        unclipped(a, b),
    ensures
        -2 * (a.radius + b.radius) <= momentum_x(rebound(a, b, PLAIN as int).0, rebound(
            a,
            b,
            PLAIN as int,
        ).1) - momentum_x(a, b) <= 2 * (a.radius + b.radius),
        -2 * (a.radius + b.radius) <= momentum_y(rebound(a, b, PLAIN as int).0, rebound(
            a,
            b,
            PLAIN as int,
        ).1) - momentum_y(a, b) <= 2 * (a.radius + b.radius),
{
    if closing_speed(a, b) >= 0 {
        let closing = closing_speed(a, b) as int;
        let mass = pair_mass(a, b);
        let x = line_x(a, b);
        let y = line_y(a, b);
        let ra = a.radius as int;
        let rb = b.radius as int;
        let taken = weighted_impulse(closing, rb, mass) as int;
        let given = weighted_impulse(closing, ra, mass) as int;
        lemma_exchange_balances(closing, ra, rb, mass, x, y);
        let tx = along_x(x, y, taken) as int;
        let ty = along_y(x, y, taken) as int;
        let gx = along_x(x, y, given) as int;
        let gy = along_y(x, y, given) as int;
        lemma_product_by_one(tx);
        lemma_product_by_one(ty);
        assert(struck(a.xv as int, tx, PLAIN as int) == a.xv - tx);
        assert(struck(a.yv as int, ty, PLAIN as int) == a.yv - ty);
        assert(pushed(b.xv as int, gx) == b.xv + gx);
        assert(pushed(b.yv as int, gy) == b.yv + gy);
        assert(ra * (a.xv - tx) + rb * (b.xv + gx) - (ra * a.xv + rb * b.xv) == rb * gx - ra * tx)
            by (nonlinear_arith);
        assert(ra * (a.yv - ty) + rb * (b.yv + gy) - (ra * a.yv + rb * b.yv) == rb * gy - ra * ty)
            by (nonlinear_arith);
    }
}

/// The scalar product of the velocity of `a` relative to `b` and the line
/// from the centre of `a` to that of `b`.
pub open spec fn approach(a: Body, b: Body) -> int {
    (a.xv - b.xv) * line_x(a, b) + (a.yv - b.yv) * line_y(a, b)
}

/// What a weighted impulse comes to along a line, taken along that line
/// again, takes in at least the impulse times the length of the line, less
/// what rounding can cost: twice the length.
proof fn lemma_along_takes(w: int, x: int, y: int)
    requires
        0 <= w,
        in_range(w),
        norm(x, y) > 0,
    ensures
        along_x(x, y, w) * x + along_y(x, y, w) * y >= w * norm(x, y) - 2 * norm(x, y),
{
    let d = norm(x, y);
    lemma_along_bounded(x, y, w);
    lemma_component_le_norm(x, y);
    assert(x * x >= 0) by (nonlinear_arith);
    assert(y * y >= 0) by (nonlinear_arith);
    lemma_root(x * x + y * y);
    let tx = quo(w * x, d);
    let ty = quo(w * y, d);
    lemma_quo_remainder(w * x, d);
    lemma_quo_remainder(w * y, d);
    let fx = w * x - d * tx;
    let fy = w * y - d * ty;
    assert(-(d * d) <= fx * x <= d * d) by (nonlinear_arith)
        requires
            -d < fx < d,
            -d <= x <= d,
            0 < d,
    ;
    assert(-(d * d) <= fy * y <= d * d) by (nonlinear_arith)
        requires
            -d < fy < d,
            -d <= y <= d,
            0 < d,
    ;
    assert(d * (tx * x) == w * (x * x) - fx * x) by (nonlinear_arith)
        requires
            d * tx == w * x - fx,
    ;
    assert(d * (ty * y) == w * (y * y) - fy * y) by (nonlinear_arith)
        requires
            d * ty == w * y - fy,
    ;
    let square = x * x + y * y;
    assert(w * (x * x) + w * (y * y) == w * square) by (nonlinear_arith)
        requires
            square == x * x + y * y,
    ;
    assert(w * square >= w * (d * d)) by (nonlinear_arith)
        requires
            0 <= w,
            square >= d * d,
    ;
    let s = tx * x + ty * y;
    assert(d * s == d * (tx * x) + d * (ty * y)) by (nonlinear_arith)
        requires
            s == tx * x + ty * y,
    ;
    assert(s >= w * d - 2 * d) by (nonlinear_arith)
        requires
            d * s >= w * (d * d) - 2 * (d * d),
            0 < d,
    ;
}

/// An exchange with plain gain parts a pair: where nothing saturates, the
/// centres are apart, the mass is positive and the two close in at seven raw
/// units or more, they no longer approach afterwards. Below that the
/// impulse may be lost to rounding.
pub proof fn lemma_rebound_separates(a: Body, b: Body)
    requires
        a.wf(),
        b.wf(),
        unclipped(a, b),
        0 < pair_mass(a, b),
        norm(line_x(a, b), line_y(a, b)) > 0,
        in_range(quo(approach(a, b), norm(line_x(a, b), line_y(a, b)))),
        closing_speed(a, b) >= 7,
    ensures
        closing_speed(rebound(a, b, PLAIN as int).0, rebound(a, b, PLAIN as int).1) < 0,
{
    let x = line_x(a, b);
    let y = line_y(a, b);
    let d = norm(x, y);
    let p = approach(a, b);
    let c = closing_speed(a, b) as int;
    let m = pair_mass(a, b);
    let ra = a.radius as int;
    let rb = b.radius as int;
    assert(c == quo(p, d));
    lemma_quo_remainder(p, d);
    // the two weighted impulses come to twice the closing speed, nearly
    let wa = weighted_impulse(c, rb, m) as int;
    let wb = weighted_impulse(c, ra, m) as int;
    assert(wa == quo(2 * c * rb, m) && wb == quo(2 * c * ra, m));
    lemma_quo_remainder(2 * c * rb, m);
    lemma_quo_remainder(2 * c * ra, m);
    assert(2 * c * rb >= 0 && 2 * c * ra >= 0) by (nonlinear_arith)
        requires
            c >= 0,
            ra >= 0,
            rb >= 0,
    ;
    assert(wa >= 0 && wb >= 0) by (nonlinear_arith)
        requires
            wa == (2 * c * rb) / m,
            wb == (2 * c * ra) / m,
            2 * c * rb >= 0,
            2 * c * ra >= 0,
            m > 0,
    ;
    assert(m * (wa + wb) > 2 * c * m - 2 * m) by (nonlinear_arith)
        requires
            m * wa > 2 * c * rb - m,
            m * wb > 2 * c * ra - m,
            ra + rb >= m,
            c >= 0,
    ;
    assert(wa + wb >= 2 * c - 1) by (nonlinear_arith)
        requires
            m * (wa + wb) > 2 * c * m - 2 * m,
            m > 0,
    ;
    // what the two bodies take and are given along the line
    lemma_along_takes(wa, x, y);
    lemma_along_takes(wb, x, y);
    let tx = along_x(x, y, wa) as int;
    let ty = along_y(x, y, wa) as int;
    let gx = along_x(x, y, wb) as int;
    let gy = along_y(x, y, wb) as int;
    lemma_product_by_one(tx);
    lemma_product_by_one(ty);
    let first = rebound(a, b, PLAIN as int).0;
    let second = rebound(a, b, PLAIN as int).1;
    assert(first.xv == a.xv - tx && first.yv == a.yv - ty);
    assert(second.xv == b.xv + gx && second.yv == b.yv + gy);
    let after = approach(first, second);
    assert(after == p - (tx * x + ty * y) - (gx * x + gy * y)) by (nonlinear_arith)
        requires
            after == (a.xv - tx - (b.xv + gx)) * x + (a.yv - ty - (b.yv + gy)) * y,
            p == (a.xv - b.xv) * x + (a.yv - b.yv) * y,
    ;
    assert((wa + wb) * d >= (2 * c - 1) * d) by (nonlinear_arith)
        requires
            wa + wb >= 2 * c - 1,
            d > 0,
    ;
    assert(wa * d + wb * d == (wa + wb) * d) by (nonlinear_arith);
    assert((2 * c - 1) * d == 2 * (c * d) - d) by (nonlinear_arith);
    assert(d * c == c * d) by (nonlinear_arith);
    assert(c * d >= 7 * d) by (nonlinear_arith)
        requires
            c >= 7,
            d > 0,
    ;
    assert(after <= -d);
    lemma_quo_remainder(after, d);
    let q = quo(after, d);
    assert(q < 0) by (nonlinear_arith)
        requires
            after <= -d,
            -d < after - d * q < d,
            d > 0,
    ;
    assert(closing_speed(first, second) == sat(q));
}

} // verus!
