//! The playfield, and what its walls do to a circle that reaches them.

use crate::fixed::{fits, in_range, magnitude, sat, saturate, LIMIT};
use vstd::prelude::*;

verus! {

/// The playfield: its top-left corner and its extents.
#[derive(Clone, Copy, Debug, PartialEq, Eq)]
pub struct Arena {
    pub x: i64,
    pub y: i64,
    pub width: i64,
    pub height: i64,
}

/// The rectangle that a ball tests its walls against.
#[derive(Clone, Copy, Debug, PartialEq, Eq)]
pub struct Bound {
    pub x: i64,
    pub y: i64,
    pub width: i64,
    pub height: i64,
}

impl Arena {
    /// Every field is storable and the extents are not negative.
    pub open spec fn wf(self) -> bool {
        &&& in_range(self.x as int)
        &&& in_range(self.y as int)
        &&& in_range(self.width as int)
        &&& in_range(self.height as int)
        &&& self.width >= 0
        &&& self.height >= 0
    }

    /// Whether a circle of the given radius fits between the walls, with the
    /// positions at which it touches the near walls storable.
    pub open spec fn holds(self, radius: int) -> bool {
        &&& 0 <= 2 * radius <= self.width
        &&& 2 * radius <= self.height
        &&& self.x + radius <= LIMIT
        &&& self.y + radius <= LIMIT
    }

    /// Whether the arena is well formed.
    pub fn is_wf(&self) -> (r: bool)
        ensures
            r == self.wf(),
    {
        fits(self.x) && fits(self.y) && fits(self.width) && fits(self.height) && self.width >= 0
            && self.height >= 0
    }

    pub fn new(x: i64, y: i64, width: i64, height: i64) -> (a: Arena)
        requires
            (Arena { x, y, width, height }).wf(),
        ensures
            a == (Arena { x, y, width, height }),
            a.wf(),
    {
        Arena { x, y, width, height }
    }
}

impl Bound {
    /// Every field is storable and the extents are not negative.
    pub open spec fn wf(self) -> bool {
        &&& in_range(self.x as int)
        &&& in_range(self.y as int)
        &&& in_range(self.width as int)
        &&& in_range(self.height as int)
        &&& self.width >= 0
        &&& self.height >= 0
    }

    /// Whether the bound is well formed.
    pub fn is_wf(&self) -> (r: bool)
        ensures
            r == self.wf(),
    {
        fits(self.x) && fits(self.y) && fits(self.width) && fits(self.height) && self.width >= 0
            && self.height >= 0
    }

    /// The bound that coincides with the arena.
    pub fn from(arena: &Arena) -> (b: Bound)
        ensures
            b == (Bound { x: arena.x, y: arena.y, width: arena.width, height: arena.height }),
            arena.wf() ==> b.wf(),
    {
        Bound { x: arena.x, y: arena.y, width: arena.width, height: arena.height }
    }
}

/// Where a circle's centre stands on one axis after a hard clamp between the
/// walls at `lo` and `lo + extent`: pushed back until its edge touches the
/// far wall, then until its edge touches the near wall.
pub open spec fn clamped(pos: int, radius: int, lo: int, extent: int) -> i64 {
    let back: int = if pos + radius > lo + extent {
        sat(lo + extent - radius) as int
    } else {
        pos
    };
    if back - radius < lo {
        sat(lo + radius)
    } else {
        sat(back)
    }
}

/// Position and velocity of a circle on one axis after the walls at `lo` and
/// `lo + extent` have reflected it: a circle whose edge has reached a wall is
/// mirrored about the line on which its centre would touch that wall, and its
/// velocity is turned round.
pub open spec fn reflected(pos: int, vel: int, radius: int, lo: int, extent: int) -> (i64, i64) {
    if pos + radius >= lo + extent {
        (sat(2 * (lo + extent) - pos - 2 * radius), sat(-vel))
    } else if pos - radius <= lo {
        (sat(2 * lo - pos + 2 * radius), sat(-vel))
    } else {
        (sat(pos), sat(vel))
    }
}

/// Clamps a circle's centre on one axis.
pub fn clamp_axis(pos: i64, radius: i64, lo: i64, extent: i64) -> (r: i64)
    requires
        in_range(pos as int),
        in_range(radius as int),
        in_range(lo as int),
        in_range(extent as int),
    ensures
        r == clamped(pos as int, radius as int, lo as int, extent as int),
        in_range(r as int),
{
    let far: i64 = lo + extent;
    let back: i64 = if pos + radius > far {
        saturate((far - radius) as i128)
    } else {
        pos
    };
    if back - radius < lo {
        saturate((lo + radius) as i128)
    } else {
        back
    }
}

/// Reflects a circle on one axis; returns its position and velocity.
pub fn reflect_axis(pos: i64, vel: i64, radius: i64, lo: i64, extent: i64) -> (r: (i64, i64))
    requires
        in_range(pos as int),
        in_range(vel as int),
        in_range(radius as int),
        in_range(lo as int),
        in_range(extent as int),
    ensures
        r == reflected(pos as int, vel as int, radius as int, lo as int, extent as int),
        in_range(r.0 as int),
        in_range(r.1 as int),
{
    let far: i64 = lo + extent;
    if pos + radius >= far {
        (saturate((far as i128) * 2 - (pos as i128) - (radius as i128) * 2), -vel)
    } else if pos - radius <= lo {
        (saturate((lo as i128) * 2 - (pos as i128) + (radius as i128) * 2), -vel)
    } else {
        (pos, vel)
    }
}

/// A clamped circle lies between the walls: wherever it stood before, its
/// extent on the axis exceeds neither wall, provided the circle fits between
/// them at all and the place at which it touches the near wall is storable.
pub proof fn lemma_clamp_contains(pos: int, radius: int, lo: int, extent: int)
    requires
        in_range(pos),
        in_range(lo),
        0 <= radius,
        2 * radius <= extent,
        lo + radius <= LIMIT,
    ensures
        lo <= clamped(pos, radius, lo, extent) - radius,
        clamped(pos, radius, lo, extent) + radius <= lo + extent,
{
}

/// A reflection keeps the speed and turns the velocity round: a circle that
/// has reached a wall leaves with the velocity it came with, negated, and one
/// that has not keeps its velocity.
pub proof fn lemma_reflect_speed(pos: int, vel: int, radius: int, lo: int, extent: int)
    requires
        in_range(vel),
    ensures
        magnitude(reflected(pos, vel, radius, lo, extent).1 as int) == magnitude(vel),
        (pos + radius >= lo + extent || pos - radius <= lo) ==> reflected(
            pos,
            vel,
            radius,
            lo,
            extent,
        ).1 == -vel,
        !(pos + radius >= lo + extent || pos - radius <= lo) ==> reflected(
            pos,
            vel,
            radius,
            lo,
            extent,
        ).1 == vel,
{
}

/// A circle that has crossed the far wall by less than its diameter is set
/// back inside by exactly the distance it had crossed, so that no reflection
/// leaves it beyond that wall.
pub proof fn lemma_reflect_far(pos: int, vel: int, radius: int, lo: int, extent: int)
    requires
        in_range(pos),
        in_range(radius),
        in_range(lo),
        in_range(extent),
        0 <= radius,
        pos + radius >= lo + extent,
        2 * (lo + extent) - pos - 2 * radius >= -LIMIT,
    ensures
        reflected(pos, vel, radius, lo, extent).0 + radius == (lo + extent) - (pos + radius - (lo
            + extent)),
        reflected(pos, vel, radius, lo, extent).0 + radius <= lo + extent,
{
}

/// A circle that has crossed the near wall is set back inside by exactly the
/// distance it had crossed.
pub proof fn lemma_reflect_near(pos: int, vel: int, radius: int, lo: int, extent: int)
    requires
        in_range(pos),
        in_range(radius),
        in_range(lo),
        in_range(extent),
        0 <= radius,
        pos + radius < lo + extent,
        pos - radius <= lo,
        2 * lo - pos + 2 * radius <= LIMIT,
    ensures
        reflected(pos, vel, radius, lo, extent).0 - radius == lo + (lo - (pos - radius)),
        reflected(pos, vel, radius, lo, extent).0 - radius >= lo,
{
}

/// No tunnelling: a circle that lay between the walls and has travelled no
/// further than the room it has between them lies between them again once it
/// has been reflected.
pub proof fn lemma_reflect_contains(
    start: int,
    travel: int,
    vel: int,
    radius: int,
    lo: int,
    extent: int,
)
    requires
        in_range(start),
        in_range(start + travel),
        in_range(lo),
        in_range(extent),
        0 <= radius,
        lo <= start - radius,
        start + radius <= lo + extent,
        magnitude(travel) <= extent - 2 * radius,
    ensures
        lo <= reflected(start + travel, vel, radius, lo, extent).0 - radius,
        reflected(start + travel, vel, radius, lo, extent).0 + radius <= lo + extent,
{
}

/// What the clamp does, case by case, to a circle that fits between the
/// walls: one that has passed the far wall is set with its edge on that
/// wall, one that has passed the near wall with its edge on this one, and
/// one that lies between them is not moved.
pub proof fn lemma_clamp_cases(pos: int, radius: int, lo: int, extent: int)
    requires
        in_range(pos),
        in_range(lo),
        0 <= radius,
        2 * radius <= extent,
        lo + radius <= LIMIT,
    ensures
        pos + radius > lo + extent ==> clamped(pos, radius, lo, extent) == lo + extent - radius,
        pos - radius < lo ==> clamped(pos, radius, lo, extent) == lo + radius,
        lo <= pos - radius && pos + radius <= lo + extent ==> clamped(pos, radius, lo, extent)
            == pos,
{
}

} // verus!
