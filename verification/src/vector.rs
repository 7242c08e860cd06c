//! Plane vectors with fixed-point components.

use crate::fixed::{
    in_range, is_root, isqrt, lemma_product_bound, lemma_quo_bounded, lemma_root, lemma_root_is,
    magnitude, quo, quotient, root, sat, saturate, LIMIT, SCALE,
};
use vstd::prelude::*;

verus! {

/// The Euclidean length of `(x, y)`, rounded down to a raw unit.
pub open spec fn norm(x: int, y: int) -> int {
    root(x * x + y * y)
}

/// The x component of the vector of length one along `(x, y)`. A zero vector
/// has no direction of its own and is given the positive x axis.
pub open spec fn unit_x(x: int, y: int) -> i64 {
    if norm(x, y) == 0 {
        SCALE
    } else {
        sat(quo(x * SCALE, norm(x, y)))
    }
}

/// The y component of the vector of length one along `(x, y)`.
pub open spec fn unit_y(x: int, y: int) -> i64 {
    if norm(x, y) == 0 {
        0
    } else {
        sat(quo(y * SCALE, norm(x, y)))
    }
}

/// The longest component of a vector that is taken for short.
pub const SHORT: i64 = 1_000_000_000_000;

/// How many times a short vector is magnified before its length is taken.
pub const FINER: i64 = 1_000_000;

/// Whether neither component of `(x, y)` exceeds `SHORT`.
pub open spec fn is_short(x: int, y: int) -> bool {
    -SHORT <= x <= SHORT && -SHORT <= y <= SHORT
}

/// The x component of `(x, y)` as a line to steer or to collide along: a
/// short vector is magnified, so that the rounding of its length costs a
/// millionth of what it would; its direction is the same.
pub open spec fn refined_x(x: int, y: int) -> int {
    if is_short(x, y) {
        x * FINER
    } else {
        x
    }
}

/// The y component of `(x, y)` as a line to steer or to collide along.
pub open spec fn refined_y(x: int, y: int) -> int {
    if is_short(x, y) {
        y * FINER
    } else {
        y
    }
}

/// The x component of the vector of length `length` along `(x, y)`: the
/// length times `x` over the length of `(x, y)`, in one quotient. A zero
/// vector has no direction of its own and is given the positive x axis.
pub open spec fn along_x(x: int, y: int, length: int) -> i64 {
    if norm(x, y) == 0 {
        sat(length)
    } else {
        sat(quo(length * x, norm(x, y)))
    }
}

/// The y component of the vector of length `length` along `(x, y)`.
pub open spec fn along_y(x: int, y: int, length: int) -> i64 {
    if norm(x, y) == 0 {
        0
    } else {
        sat(quo(length * y, norm(x, y)))
    }
}

/// The component of `(vx, vy)` along `(x, y)`: the scalar product of the
/// two over the length of `(x, y)`, in one quotient. A zero vector is given
/// the positive x axis.
pub open spec fn projected(vx: int, vy: int, x: int, y: int) -> i64 {
    if norm(x, y) == 0 {
        sat(vx)
    } else {
        sat(quo(vx * x + vy * y, norm(x, y)))
    }
}

/// A vector in the plane.
#[derive(Clone, Copy, Debug, PartialEq, Eq)]
pub struct Vector {
    pub x: i64,
    pub y: i64,
}

impl Vector {
    /// The vector of length one that points the same way.
    pub open spec fn unit(self) -> Vector {
        Vector { x: unit_x(self.x as int, self.y as int), y: unit_y(self.x as int, self.y as int) }
    }

    pub fn new(x: i64, y: i64) -> (v: Vector)
        ensures
            v == (Vector { x, y }),
    {
        Vector { x, y }
    }

    /// The Euclidean length, rounded down to a raw unit.
    pub fn length(&self) -> (r: u64)
        ensures
            r == norm(self.x as int, self.y as int),
    {
        proof {
            lemma_product_bound(self.x as int, self.x as int, 0x8000_0000_0000_0000);
            lemma_product_bound(self.y as int, self.y as int, 0x8000_0000_0000_0000);
            assert(self.x * self.x >= 0) by (nonlinear_arith);
            assert(self.y * self.y >= 0) by (nonlinear_arith);
        }
        let sx: i128 = (self.x as i128) * (self.x as i128);
        let sy: i128 = (self.y as i128) * (self.y as i128);
        isqrt(sx as u128 + sy as u128)
    }

    /// This vector as a line to steer or to collide along: magnified if it
    /// is short.
    pub fn refined(&self) -> (v: Vector)
        ensures
            v.x == refined_x(self.x as int, self.y as int),
            v.y == refined_y(self.x as int, self.y as int),
            magnitude(self.x as int) <= 2 * LIMIT ==> magnitude(v.x as int) <= 2 * LIMIT,
            magnitude(self.y as int) <= 2 * LIMIT ==> magnitude(v.y as int) <= 2 * LIMIT,
    {
        if -SHORT <= self.x && self.x <= SHORT && -SHORT <= self.y && self.y <= SHORT {
            Vector { x: self.x * FINER, y: self.y * FINER }
        } else {
            Vector { x: self.x, y: self.y }
        }
    }

    /// The vector of the given length along this one.
    pub fn stretched(&self, length: i64) -> (v: Vector)
        requires
            in_range(length as int),
        ensures
            v.x == along_x(self.x as int, self.y as int, length as int),
            v.y == along_y(self.x as int, self.y as int, length as int),
            magnitude(v.x as int) <= magnitude(length as int),
            magnitude(v.y as int) <= magnitude(length as int),
    {
        let d: u64 = self.length();
        proof {
            lemma_along_bounded(self.x as int, self.y as int, length as int);
        }
        if d == 0 {
            Vector { x: length, y: 0 }
        } else {
            proof {
                lemma_product_bound(length as int, self.x as int, 0x8000_0000_0000_0000);
                lemma_product_bound(length as int, self.y as int, 0x8000_0000_0000_0000);
            }
            let vx: i64 = saturate(quotient((length as i128) * (self.x as i128), d as i128));
            let vy: i64 = saturate(quotient((length as i128) * (self.y as i128), d as i128));
            Vector { x: vx, y: vy }
        }
    }

    /// The component of `v` along this vector.
    pub fn component_of(&self, v: &Vector) -> (r: i64)
        requires
            magnitude(self.x as int) <= 2 * LIMIT,
            magnitude(self.y as int) <= 2 * LIMIT,
            magnitude(v.x as int) <= 2 * LIMIT,
            magnitude(v.y as int) <= 2 * LIMIT,
        ensures
            r == projected(v.x as int, v.y as int, self.x as int, self.y as int),
            in_range(r as int),
    {
        let d: u64 = self.length();
        if d == 0 {
            saturate(v.x as i128)
        } else {
            proof {
                lemma_product_bound(v.x as int, self.x as int, 2_000_000_000_000_000_000);
                lemma_product_bound(v.y as int, self.y as int, 2_000_000_000_000_000_000);
            }
            let dot: i128 = (v.x as i128) * (self.x as i128) + (v.y as i128) * (self.y as i128);
            saturate(quotient(dot, d as i128))
        }
    }

    /// The unit vector along this one.
    pub fn direction(&self) -> (u: Vector)
        ensures
            u == self.unit(),
            magnitude(u.x as int) <= SCALE,
            magnitude(u.y as int) <= SCALE,
    {
        let d: u64 = self.length();
        proof {
            lemma_unit_bounded(self.x as int, self.y as int);
        }
        if d == 0 {
            Vector { x: SCALE, y: 0 }
        } else {
            proof {
                lemma_product_bound(self.x as int, SCALE as int, 0x8000_0000_0000_0000);
                lemma_product_bound(self.y as int, SCALE as int, 0x8000_0000_0000_0000);
            }
            let ux: i64 = saturate(quotient((self.x as i128) * (SCALE as i128), d as i128));
            let uy: i64 = saturate(quotient((self.y as i128) * (SCALE as i128), d as i128));
            Vector { x: ux, y: uy }
        }
    }
}

/// Neither component of a vector exceeds its length.
pub proof fn lemma_component_le_norm(x: int, y: int)
    ensures
        magnitude(x) <= norm(x, y),
        magnitude(y) <= norm(x, y),
{
    let n = x * x + y * y;
    assert(x * x >= 0) by (nonlinear_arith);
    assert(y * y >= 0) by (nonlinear_arith);
    lemma_root(n);
    let r = root(n);
    let mx = magnitude(x);
    let my = magnitude(y);
    assert(mx * mx == x * x) by (nonlinear_arith)
        requires
            mx == x || mx == -x,
    ;
    assert(my * my == y * y) by (nonlinear_arith)
        requires
            my == y || my == -y,
    ;
    assert(mx < r + 1) by (nonlinear_arith)
        requires
            0 <= mx,
            0 <= r,
            mx * mx < (r + 1) * (r + 1),
    ;
    assert(my < r + 1) by (nonlinear_arith)
        requires
            0 <= my,
            0 <= r,
            my * my < (r + 1) * (r + 1),
    ;
}

/// The components of a unit vector lie between minus one and one, so they
/// are plain quotients that never saturate.
pub proof fn lemma_unit_bounded(x: int, y: int)
    ensures
        magnitude(unit_x(x, y) as int) <= SCALE,
        magnitude(unit_y(x, y) as int) <= SCALE,
        norm(x, y) != 0 ==> unit_x(x, y) == quo(x * SCALE, norm(x, y)),
        norm(x, y) != 0 ==> unit_y(x, y) == quo(y * SCALE, norm(x, y)),
{
    let d = norm(x, y);
    assert(x * x >= 0) by (nonlinear_arith);
    assert(y * y >= 0) by (nonlinear_arith);
    lemma_root(x * x + y * y);
    if d != 0 {
        lemma_component_le_norm(x, y);
        lemma_scaled_quotient(x, d);
        lemma_scaled_quotient(y, d);
    }
}

/// A value no larger than `d`, scaled up and divided by `d`, is at most one.
proof fn lemma_scaled_quotient(a: int, d: int)
    requires
        magnitude(a) <= d,
        0 < d,
    ensures
        magnitude(quo(a * SCALE, d)) <= SCALE,
{
    let m = magnitude(a);
    assert(magnitude(a * SCALE) == m * SCALE) by (nonlinear_arith)
        requires
            m == magnitude(a),
    ;
    assert((m * SCALE) / d <= SCALE) by (nonlinear_arith)
        requires
            0 <= m <= d,
            0 < d,
    ;
    assert(0 <= (m * SCALE) / d) by (nonlinear_arith)
        requires
            0 <= m,
            0 < d,
    ;
}

/// A vector that points straight along the negative x axis has the unit
/// vector of that axis.
pub proof fn lemma_unit_to_the_left(distance: int)
    requires
        0 < distance,
    ensures
        norm(-distance, 0) == distance,
        unit_x(-distance, 0) == -SCALE,
        unit_y(-distance, 0) == 0,
        forall|length: int|
            in_range(length) ==> #[trigger] along_x(-distance, 0, length) == -length && along_y(
                -distance,
                0,
                length,
            ) == 0,
        forall|v: int| in_range(v) ==> #[trigger] projected(v, 0, -distance, 0) == -v,
{
    let d = distance;
    assert((-d) * (-d) + 0 * 0 == d * d) by (nonlinear_arith);
    assert(is_root(d * d, d)) by (nonlinear_arith)
        requires
            0 < d,
    ;
    lemma_root_is(d * d, d);
    assert((-d) * SCALE < 0 && -((-d) * SCALE) == d * SCALE) by (nonlinear_arith)
        requires
            0 < d,
            SCALE == 1_000_000,
    ;
    assert((d * SCALE) / d == SCALE) by (nonlinear_arith)
        requires
            0 < d,
            SCALE == 1_000_000,
    ;
    assert(0 * SCALE == 0);
    assert(0int / d == 0) by (nonlinear_arith)
        requires
            0 < d,
    ;
    assert forall|length: int| in_range(length) implies #[trigger] along_x(-d, 0, length)
        == -length && along_y(-d, 0, length) == 0 by {
        lemma_whole_quotient(-length, d);
        assert(length * (-d) == (-length) * d) by (nonlinear_arith);
        assert(length * 0 == 0) by (nonlinear_arith);
    }
    assert forall|v: int| in_range(v) implies #[trigger] projected(v, 0, -d, 0) == -v by {
        lemma_whole_quotient(-v, d);
        assert(v * (-d) + 0 * 0 == (-v) * d) by (nonlinear_arith);
    }
}

/// A whole multiple of the divisor divides without remainder.
proof fn lemma_whole_quotient(q: int, d: int)
    requires
        0 < d,
    ensures
        quo(q * d, d) == q,
{
    let m = magnitude(q);
    assert((m * d) / d == m) by (nonlinear_arith)
        requires
            0 <= m,
            0 < d,
    ;
    assert(q >= 0 ==> q * d == m * d && q * d >= 0) by (nonlinear_arith)
        requires
            m == magnitude(q),
            0 < d,
    ;
    assert(q < 0 ==> -(q * d) == m * d && q * d < 0) by (nonlinear_arith)
        requires
            m == magnitude(q),
            0 < d,
    ;
}

/// A vector along another is no longer than asked for: neither component
/// exceeds the length, and for a storable length nothing saturates.
pub proof fn lemma_along_bounded(x: int, y: int, length: int)
    ensures
        magnitude(along_x(x, y, length) as int) <= magnitude(length),
        magnitude(along_y(x, y, length) as int) <= magnitude(length),
        in_range(length) && norm(x, y) != 0 ==> along_x(x, y, length) == quo(
            length * x,
            norm(x, y),
        ) && along_y(x, y, length) == quo(length * y, norm(x, y)),
{
    let d = norm(x, y);
    assert(x * x >= 0) by (nonlinear_arith);
    assert(y * y >= 0) by (nonlinear_arith);
    lemma_root(x * x + y * y);
    if d != 0 {
        lemma_component_le_norm(x, y);
        let m = magnitude(length);
        assert(-(m * d) <= length * x <= m * d) by (nonlinear_arith)
            requires
                -m <= length <= m,
                -d <= x <= d,
                0 <= m,
                0 < d,
        ;
        assert(-(m * d) <= length * y <= m * d) by (nonlinear_arith)
            requires
                -m <= length <= m,
                -d <= y <= d,
                0 <= m,
                0 < d,
        ;
        lemma_quo_bounded(length * x, d, m);
        lemma_quo_bounded(length * y, d, m);
    }
}

} // verus!
