//! The steered circle.

use crate::arena::{clamp_axis, clamped, lemma_clamp_contains, Arena};
use crate::circle::Circle;
use crate::collision::Body;
use crate::fixed::{
    during, fits, in_range, lemma_product_bound, lemma_quo_bounded, lemma_quo_remainder,
    lemma_root, magnitude, min, over_time, plus, quo, quotient, sat, saturate, LIMIT,
};
use crate::frame::Frame;
use crate::friction::{damp, damped, decay, decayed};
use crate::vector::{along_x, along_y, norm, refined_x, refined_y, Vector};
use vstd::prelude::*;

verus! {

/// Acceleration of the player without boost.
pub const PLAYER_ACCEL: i64 = 3_000_000_000;

/// Acceleration of the player while the boost trigger is held.
pub const PLAYER_BOOST_MAX_ACCEL: i64 = 6_000_000_000;

/// Radius of the player.
pub const PLAYER_RADIUS: i64 = 30_000_000;

/// Base of the player's friction: the share of its velocity that is left
/// after one unit of friction time.
pub const PLAYER_FRICTION: i64 = 900_000;

/// Units of friction time that pass for the player in one second.
pub const PLAYER_FRICTION_MULTIPLIER: i64 = 60_000_000;

/// Length of the control vector at and beyond which the player moves at full
/// pace.
pub const CONTROL_CAP: i64 = 80_000_000;

/// The steered circle.
#[derive(Clone, Copy, Debug, PartialEq, Eq)]
pub struct Player {
    pub x: i64,
    pub y: i64,
    pub xv: i64,
    pub yv: i64,
    pub radius: i64,
    pub accel: i64,
    /// Time played, in ticks of which `SECOND` make a second.
    pub timer: i64,
    pub boost: bool,
}

/// How far a control vector reaches towards full pace: its length, capped at
/// `CONTROL_CAP`. The player travels at the share of its velocity that the
/// reach is of the cap.
pub open spec fn reach(control: Vector) -> int {
    let length = norm(control.x as int, control.y as int);
    if length <= CONTROL_CAP {
        length
    } else {
        CONTROL_CAP as int
    }
}

/// A velocity component after one frame of steering and friction: it gains
/// what the component `drive` of the acceleration comes to over `delta`, and
/// keeps the share `decay` of the sum.
pub open spec fn steered(v: int, drive: int, delta: int, decay: int) -> i64 {
    damped(sat(v + over_time(drive, delta)) as int, decay)
}

/// A coordinate after the frame's travel at velocity `v`, slowed to the share
/// that `reach` is of `CONTROL_CAP`: what the velocity comes to over `delta`,
/// times the reach over the cap in one quotient.
pub open spec fn travelled(p: int, v: int, reach: int, delta: int) -> i64 {
    sat(p + quo(over_time(v, delta) * reach, CONTROL_CAP as int))
}

impl Player {
    /// Every scalar is storable and the radius is positive.
    pub open spec fn wf(self) -> bool {
        &&& in_range(self.x as int)
        &&& in_range(self.y as int)
        &&& in_range(self.xv as int)
        &&& in_range(self.yv as int)
        &&& in_range(self.radius as int)
        &&& in_range(self.accel as int)
        &&& in_range(self.timer as int)
        &&& self.radius > 0
    }

    /// The player's circle.
    pub open spec fn circle(self) -> Circle {
        Circle { x: self.x, y: self.y, radius: self.radius }
    }

    /// What a collision reads of the player.
    pub open spec fn body(self) -> Body {
        Body { x: self.x, y: self.y, xv: self.xv, yv: self.yv, radius: self.radius }
    }

    /// The player with the velocity of `body`.
    pub open spec fn with_velocity(self, body: Body) -> Player {
        Player { xv: body.xv, yv: body.yv, ..self }
    }

    /// Whether the player's circle lies within the arena on every side.
    pub open spec fn inside(self, arena: Arena) -> bool {
        &&& arena.x <= self.x - self.radius
        &&& self.x + self.radius <= arena.x + arena.width
        &&& arena.y <= self.y - self.radius
        &&& self.y + self.radius <= arena.y + arena.height
    }

    /// The player after one frame: the timer runs on, the boost trigger picks
    /// the acceleration, the velocity is steered along the control vector and
    /// damped, the position follows at the pace that the control vector asks
    /// for, and the circle is clamped into the arena. The velocity is not
    /// touched by the clamp.
    pub open spec fn advanced(self, arena: Arena, frame: Frame) -> Player {
        let accel = if frame.boost {
            PLAYER_BOOST_MAX_ACCEL
        } else {
            PLAYER_ACCEL
        };
        let aim_x = refined_x(frame.control.x as int, frame.control.y as int);
        let aim_y = refined_y(frame.control.x as int, frame.control.y as int);
        let drive_x = along_x(aim_x, aim_y, accel as int);
        let drive_y = along_y(aim_x, aim_y, accel as int);
        let keep = decayed(
            PLAYER_FRICTION as int,
            PLAYER_FRICTION_MULTIPLIER as int,
            frame.delta as int,
        );
        let xv = steered(self.xv as int, drive_x as int, frame.delta as int, keep as int);
        let yv = steered(self.yv as int, drive_y as int, frame.delta as int, keep as int);
        let far = reach(frame.control);
        let x = travelled(self.x as int, xv as int, far, frame.delta as int);
        let y = travelled(self.y as int, yv as int, far, frame.delta as int);
        Player {
            x: clamped(x as int, PLAYER_RADIUS as int, arena.x as int, arena.width as int),
            y: clamped(y as int, PLAYER_RADIUS as int, arena.y as int, arena.height as int),
            xv,
            yv,
            radius: PLAYER_RADIUS,
            accel,
            timer: sat(self.timer + frame.delta),
            boost: frame.boost,
        }
    }

    /// Whether the player is well formed.
    pub fn is_wf(&self) -> (r: bool)
        ensures
            r == self.wf(),
    {
        fits(self.x) && fits(self.y) && fits(self.xv) && fits(self.yv) && fits(self.radius)
            && fits(self.accel) && fits(self.timer) && self.radius > 0
    }

    /// A player at rest at `(x, y)`.
    pub fn new(x: i64, y: i64) -> (p: Player)
        requires
            in_range(x as int),
            in_range(y as int),
        ensures
            p == (Player {
                x,
                y,
                xv: 0,
                yv: 0,
                radius: PLAYER_RADIUS,
                accel: PLAYER_ACCEL,
                timer: 0,
                boost: false,
            }),
            p.wf(),
    {
        Player {
            x,
            y,
            xv: 0,
            yv: 0,
            radius: PLAYER_RADIUS,
            timer: 0,
            boost: false,
            accel: PLAYER_ACCEL,
        }
    }

    /// Advances the player by one frame.
    pub fn update(&mut self, arena: &Arena, frame: &Frame)
        requires
            old(self).wf(),
            arena.wf(),
        ensures
            *final(self) == old(self).advanced(*arena, *frame),
            final(self).wf(),
            arena.holds(PLAYER_RADIUS as int) ==> final(self).inside(*arena),
    {
        self.timer = plus(self.timer, frame.delta);
        if frame.boost {
            self.accel = PLAYER_BOOST_MAX_ACCEL;
            self.boost = true;
        } else {
            self.boost = false;
            self.accel = PLAYER_ACCEL;
        }
        let drive: Vector = frame.control.refined().stretched(self.accel);
        let length: u64 = frame.control.length();
        let whole: i64 = if length > LIMIT as u64 {
            LIMIT
        } else {
            length as i64
        };
        let far: i64 = min(whole, CONTROL_CAP);
        let keep: i64 = decay(PLAYER_FRICTION, PLAYER_FRICTION_MULTIPLIER, frame.delta);
        self.xv = damp(plus(self.xv, during(drive.x, frame.delta)), keep);
        self.yv = damp(plus(self.yv, during(drive.y, frame.delta)), keep);
        self.x = slowed(self.x, during(self.xv, frame.delta), far);
        self.y = slowed(self.y, during(self.yv, frame.delta), far);
        self.radius = PLAYER_RADIUS;
        proof {
            if arena.holds(PLAYER_RADIUS as int) {
                lemma_clamp_contains(
                    self.x as int,
                    PLAYER_RADIUS as int,
                    arena.x as int,
                    arena.width as int,
                );
                lemma_clamp_contains(
                    self.y as int,
                    PLAYER_RADIUS as int,
                    arena.y as int,
                    arena.height as int,
                );
            }
        }
        self.x = clamp_axis(self.x, self.radius, arena.x, arena.width);
        self.y = clamp_axis(self.y, self.radius, arena.y, arena.height);
    }

    /// Reads what a collision needs.
    pub fn to_body(&self) -> (b: Body)
        ensures
            b == self.body(),
    {
        Body { x: self.x, y: self.y, xv: self.xv, yv: self.yv, radius: self.radius }
    }
}

/// Adds to a coordinate the share of a step that `reach` is of the cap.
fn slowed(p: i64, step: i64, reach: i64) -> (r: i64)
    requires
        in_range(step as int),
        0 <= reach <= CONTROL_CAP,
    ensures
        r == sat(p + quo(step * reach, CONTROL_CAP as int)),
        in_range(r as int),
{
    proof {
        lemma_product_bound(step as int, reach as int, LIMIT as int);
        assert(LIMIT * LIMIT == 1_000_000_000_000_000_000_000_000_000_000_000_000);
        lemma_reach_slows(step as int, reach as int);
    }
    let part: i128 = quotient((step as i128) * (reach as i128), CONTROL_CAP as i128);
    saturate((p as i128) + part)
}

/// The reach of a control vector lies between nothing and the cap.
pub proof fn lemma_reach_bounded(control: Vector)
    ensures
        0 <= reach(control) <= CONTROL_CAP,
{
    assert(control.x * control.x >= 0) by (nonlinear_arith);
    assert(control.y * control.y >= 0) by (nonlinear_arith);
    lemma_root(control.x * control.x + control.y * control.y);
}

/// A step slowed by the reach is no longer than the step, and is the whole
/// step where the reach is the cap.
pub proof fn lemma_reach_slows(step: int, reach: int)
    requires
        0 <= reach <= CONTROL_CAP,
    ensures
        magnitude(quo(step * reach, CONTROL_CAP as int)) <= magnitude(step),
        quo(step * CONTROL_CAP, CONTROL_CAP as int) == step,
        quo(step * 0, CONTROL_CAP as int) == 0,
{
    let cap = CONTROL_CAP as int;
    let m = magnitude(step);
    assert(-(m * cap) <= step * reach <= m * cap) by (nonlinear_arith)
        requires
            -m <= step <= m,
            0 <= reach <= cap,
            0 <= m,
    ;
    lemma_quo_bounded(step * reach, cap, m);
    lemma_quo_remainder(step * cap, cap);
    let q = quo(step * cap, cap);
    assert(q == step) by (nonlinear_arith)
        requires
            -cap < step * cap - cap * q < cap,
            cap > 0,
    ;
    assert(step * 0 == 0) by (nonlinear_arith);
}

} // verus!
