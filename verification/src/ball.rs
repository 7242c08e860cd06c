//! The free circles.

use crate::arena::{reflect_axis, reflected, Bound};
use crate::circle::Circle;
use crate::collision::{
    closing_speed, lemma_rebound_keeps_momentum, line_x, line_y, momentum_x, momentum_y, pair_mass,
    pushed, rebound, resolve, struck, unclipped, weighted_impulse, Body, PLAIN,
};
use crate::fixed::{
    during, fits, in_range, lemma_product_with_share, over_time, plus, product, sat, saturate,
    times, LIMIT, SCALE,
};
use crate::frame::Frame;
use crate::friction::{damp, damped, decay, decayed};
use crate::player::{Player, PLAYER_RADIUS};
use crate::random::random;
use crate::vector::{along_x, along_y, lemma_unit_to_the_left, projected, Vector, FINER};
use vstd::arithmetic::div_mod::lemma_div_multiples_vanish_quotient;
use vstd::prelude::*;

verus! {

/// Speed at which a ball sets out.
pub const BALL_SPEED: i64 = 100_000_000;

/// Radius of a ball.
pub const BALL_RADIUS: i64 = 35_000_000;

/// Number of balls in a game.
pub const BALL_COUNT: usize = 2;

/// Base of a ball's friction: the share of its velocity that is left after
/// one unit of friction time.
pub const BALL_FRICTION: i64 = 990_000;

/// Units of friction time that pass for a ball in one second.
pub const BALL_FRICTION_MULTIPLIER: i64 = 20_000_000;

/// Gain of the impulse that a ball takes from the player: a ball is kicked
/// harder by the player than by another ball.
pub const PLAYER_KICK: i64 = 1_200_000;

/// A free circle.
#[derive(Clone, Copy, Debug, PartialEq, Eq)]
pub struct Ball {
    pub x: i64,
    pub y: i64,
    pub xv: i64,
    pub yv: i64,
    pub radius: i64,
    /// A tag drawn at random when the ball is made. Two balls with one tag
    /// pass through each other.
    pub id: i64,
    pub bound: Bound,
}

impl Ball {
    /// Every scalar is storable, the radius is positive and the bound is
    /// well formed.
    pub open spec fn wf(self) -> bool {
        &&& in_range(self.x as int)
        &&& in_range(self.y as int)
        &&& in_range(self.xv as int)
        &&& in_range(self.yv as int)
        &&& in_range(self.radius as int)
        &&& self.radius > 0
        &&& self.bound.wf()
    }

    /// The ball's circle.
    pub open spec fn circle(self) -> Circle {
        Circle { x: self.x, y: self.y, radius: self.radius }
    }

    /// What a collision reads of the ball.
    pub open spec fn body(self) -> Body {
        Body { x: self.x, y: self.y, xv: self.xv, yv: self.yv, radius: self.radius }
    }

    /// The ball with the velocity of `body`.
    pub open spec fn with_velocity(self, body: Body) -> Ball {
        Ball { xv: body.xv, yv: body.yv, ..self }
    }

    /// The ball after friction, travel and the walls of its bound, axis by
    /// axis: the velocity keeps the share of itself that friction leaves
    /// over `delta`, the position follows it over `delta`, and a wall that
    /// the circle has reached reflects it.
    pub open spec fn moved(self, frame: Frame) -> Ball {
        let keep = decayed(
            BALL_FRICTION as int,
            BALL_FRICTION_MULTIPLIER as int,
            frame.delta as int,
        );
        let xv = damped(self.xv as int, keep as int);
        let yv = damped(self.yv as int, keep as int);
        let x = sat(self.x + over_time(xv as int, frame.delta as int));
        let y = sat(self.y + over_time(yv as int, frame.delta as int));
        let across = reflected(
            x as int,
            xv as int,
            self.radius as int,
            self.bound.x as int,
            self.bound.width as int,
        );
        let along = reflected(
            y as int,
            yv as int,
            self.radius as int,
            self.bound.y as int,
            self.bound.height as int,
        );
        Ball { x: across.0, xv: across.1, y: along.0, yv: along.1, ..self }
    }

    /// The ball and the player after their contact, if they are in contact,
    /// has been resolved. The normal points from the ball to the player, and
    /// the ball takes its share of the impulse with the gain `PLAYER_KICK`.
    pub open spec fn met(self, player: Player) -> (Ball, Player) {
        if self.circle().touches(player.circle()) {
            let after = rebound(self.body(), player.body(), PLAYER_KICK as int);
            (self.with_velocity(after.0), player.with_velocity(after.1))
        } else {
            (self, player)
        }
    }

    /// The ball and the player after the ball's frame: the ball moves, then
    /// meets the player.
    pub open spec fn updated(self, player: Player, frame: Frame) -> (Ball, Player) {
        self.moved(frame).met(player)
    }

    /// The ball that sets out along `heading` at `speed`, from the place that
    /// two draws pick: `along` and `down` say how far into the bound its
    /// centre lies. Its tag is `id` and its radius `BALL_RADIUS`.
    pub open spec fn spawned(
        speed: int,
        bound: Bound,
        heading: Vector,
        along: int,
        down: int,
        id: i64,
    ) -> Ball {
        Ball {
            x: sat(
                product(along, sat(bound.width - BALL_RADIUS) as int) + bound.x + BALL_RADIUS,
            ),
            y: sat(
                product(down, sat(bound.height - 2 * BALL_RADIUS) as int) + bound.y + BALL_RADIUS,
            ),
            xv: product(heading.x as int, speed),
            yv: product(heading.y as int, speed),
            radius: BALL_RADIUS,
            id,
            bound,
        }
    }

    /// Makes the ball that belongs to a heading and three given draws.
    pub fn spawn(
        speed: i64,
        bound: Bound,
        heading: Vector,
        along: i64,
        down: i64,
        id: i64,
    ) -> (b: Ball)
        ensures
            b == Ball::spawned(speed as int, bound, heading, along as int, down as int, id),
            bound.wf() ==> b.wf(),
    {
        let radius: i64 = BALL_RADIUS;
        let room_x: i64 = saturate((bound.width as i128) - (radius as i128));
        let room_y: i64 = saturate((bound.height as i128) - (radius as i128) * 2);
        let x: i64 = saturate(
            (times(along, room_x) as i128) + (bound.x as i128) + (radius as i128),
        );
        let y: i64 = saturate((times(down, room_y) as i128) + (bound.y as i128) + (radius as i128));
        Ball { x, y, bound, id, radius, xv: times(heading.x, speed), yv: times(heading.y, speed) }
    }

    /// Makes a ball that sets out along `heading` at `speed`, at a random
    /// place in the bound and with a random tag. The heading is the cosine
    /// and the sine of the angle of launch.
    pub fn new(speed: i64, bound: Bound, heading: Vector) -> (b: Ball)
        ensures
            exists|along: int, down: int, id: i64|
                {
                    &&& 0 <= along < SCALE
                    &&& 0 <= down < SCALE
                    &&& 0 <= id < SCALE
                    &&& b == #[trigger] Ball::spawned(speed as int, bound, heading, along, down, id)
                },
            bound.wf() ==> b.wf(),
    {
        let along: i64 = random();
        let down: i64 = random();
        let id: i64 = random();
        Ball::spawn(speed, bound, heading, along, down, id)
    }

    /// Whether the ball is well formed.
    pub fn is_wf(&self) -> (r: bool)
        ensures
            r == self.wf(),
    {
        fits(self.x) && fits(self.y) && fits(self.xv) && fits(self.yv) && fits(self.radius)
            && self.radius > 0 && self.bound.is_wf()
    }

    /// Whether the ball's circle is in contact with `circle`.
    pub fn intersect_circle(&self, circle: Circle) -> (r: bool)
        requires
            self.wf(),
            circle.wf(),
        ensures
            r == self.circle().touches(circle),
    {
        Circle::from_ball(self).intersects(&circle)
    }

    /// Reads what a collision needs.
    pub fn to_body(&self) -> (b: Body)
        ensures
            b == self.body(),
    {
        Body { x: self.x, y: self.y, xv: self.xv, yv: self.yv, radius: self.radius }
    }

    /// Advances the ball by one frame and lets it meet the player.
    pub fn update(&mut self, player: &mut Player, frame: &Frame)
        requires
            old(self).wf(),
            old(player).wf(),
        ensures
            (*final(self), *final(player)) == old(self).updated(*old(player), *frame),
            final(self).wf(),
            final(player).wf(),
    {
        let keep: i64 = decay(BALL_FRICTION, BALL_FRICTION_MULTIPLIER, frame.delta);
        self.xv = damp(self.xv, keep);
        self.yv = damp(self.yv, keep);
        self.x = plus(self.x, during(self.xv, frame.delta));
        let across: (i64, i64) = reflect_axis(
            self.x,
            self.xv,
            self.radius,
            self.bound.x,
            self.bound.width,
        );
        self.x = across.0;
        self.xv = across.1;
        self.y = plus(self.y, during(self.yv, frame.delta));
        let along: (i64, i64) = reflect_axis(
            self.y,
            self.yv,
            self.radius,
            self.bound.y,
            self.bound.height,
        );
        self.y = along.0;
        self.yv = along.1;
        if self.intersect_circle(Circle::from_player(player)) {
            let after: (Body, Body) = resolve(self.to_body(), player.to_body(), PLAYER_KICK);
            self.xv = after.0.xv;
            self.yv = after.0.yv;
            player.xv = after.1.xv;
            player.yv = after.1.yv;
        }
    }

    /// Resolves the contacts among the balls of a game. Every ball is held
    /// against every ball but the first of the list, in list order, so a pair
    /// that does not hold the first ball is visited twice, once from either
    /// side.
    pub fn collide(ball: &mut Vec<Ball>)
        requires
            all_wf(old(ball)@),
        ensures
            final(ball)@ == swept(old(ball)@, old(ball)@.len() as int),
            all_wf(final(ball)@),
            same_places(final(ball)@, old(ball)@),
    {
        let length: usize = ball.len();
        let mut i: usize = 0;
        while i < length
            invariant
                i <= length,
                ball@.len() == length,
                old(ball)@.len() == length,
                all_wf(ball@),
                ball@ == swept(old(ball)@, i as int),
            decreases length - i,
        {
            let ghost row = ball@;
            let mut j: usize = 1;
            while j < length
                invariant
                    1 <= j <= length,
                    i < length,
                    ball@.len() == length,
                    row.len() == length,
                    all_wf(ball@),
                    ball@ == row_swept(row, i as int, j as int),
                decreases length - j,
            {
                collide_pair(ball, i, j);
                j = j + 1;
            }
            assert(swept(old(ball)@, i + 1) == row_swept(row, i as int, length as int));
            i = i + 1;
        }
        proof {
            lemma_sweep_keeps_places(old(ball)@, length as int);
        }
    }
}

/// Whether every ball of the list is well formed.
pub open spec fn all_wf(balls: Seq<Ball>) -> bool {
    forall|k: int| 0 <= k < balls.len() ==> (#[trigger] balls[k]).wf()
}

/// The list after ball `i` has been held against ball `j`: if their tags
/// differ and their circles are in contact, the contact is resolved with the
/// normal from `i` to `j`; otherwise nothing changes.
pub open spec fn pair_collided(balls: Seq<Ball>, i: int, j: int) -> Seq<Ball> {
    if balls[i].id != balls[j].id && balls[i].circle().touches(balls[j].circle()) {
        let after = rebound(balls[i].body(), balls[j].body(), PLAIN as int);
        balls.update(i, balls[i].with_velocity(after.0)).update(
            j,
            balls[j].with_velocity(after.1),
        )
    } else {
        balls
    }
}

/// The list after ball `i` has been held against the balls from the second of
/// the list up to, but not including, ball `end`.
pub open spec fn row_swept(balls: Seq<Ball>, i: int, end: int) -> Seq<Ball>
    decreases end,
{
    if end <= 1 {
        balls
    } else {
        pair_collided(row_swept(balls, i, end - 1), i, end - 1)
    }
}

/// The list after each of the first `rows` balls has been held against every
/// ball but the first.
pub open spec fn swept(balls: Seq<Ball>, rows: int) -> Seq<Ball>
    decreases rows,
{
    if rows <= 0 {
        balls
    } else {
        row_swept(swept(balls, rows - 1), rows - 1, balls.len() as int)
    }
}

/// Holds ball `i` against ball `j`.
fn collide_pair(ball: &mut Vec<Ball>, i: usize, j: usize)
    requires
        i < old(ball)@.len(),
        j < old(ball)@.len(),
        all_wf(old(ball)@),
    ensures
        final(ball)@ == pair_collided(old(ball)@, i as int, j as int),
        final(ball)@.len() == old(ball)@.len(),
        all_wf(final(ball)@),
{
    let first: Ball = ball[i];
    let second: Ball = ball[j];
    if first.id != second.id && first.intersect_circle(Circle::from_ball(&second)) {
        let after: (Body, Body) = resolve(first.to_body(), second.to_body(), PLAIN);
        ball.set(i, Ball { xv: after.0.xv, yv: after.0.yv, ..first });
        ball.set(j, Ball { xv: after.1.xv, yv: after.1.yv, ..second });
    }
}

/// Whether two lists hold the same balls but for their velocities.
pub open spec fn same_places(a: Seq<Ball>, b: Seq<Ball>) -> bool {
    &&& a.len() == b.len()
    &&& forall|k: int|
        0 <= k < a.len() ==> {
            &&& (#[trigger] a[k]).x == b[k].x
            &&& a[k].y == b[k].y
            &&& a[k].radius == b[k].radius
            &&& a[k].id == b[k].id
            &&& a[k].bound == b[k].bound
        }
}

/// Whether all balls of the list carry one tag.
pub open spec fn one_tag(balls: Seq<Ball>) -> bool {
    forall|i: int, j: int|
        0 <= i < balls.len() && 0 <= j < balls.len() ==> (#[trigger] balls[i]).id == (
        #[trigger] balls[j]).id
}

/// A pair is resolved only if its tags differ and its circles are in
/// contact. In particular a ball is never resolved against itself.
pub proof fn lemma_pair_needs_tag_and_contact(balls: Seq<Ball>, i: int, j: int)
    requires
        0 <= i < balls.len(),
        0 <= j < balls.len(),
    ensures
        balls[i].id == balls[j].id ==> pair_collided(balls, i, j) == balls,
        !balls[i].circle().touches(balls[j].circle()) ==> pair_collided(balls, i, j) == balls,
        pair_collided(balls, i, i) == balls,
{
}

/// Holding one ball against the others moves no ball: only velocities
/// change.
pub proof fn lemma_row_keeps_places(balls: Seq<Ball>, i: int, end: int)
    requires
        0 <= i < balls.len(),
        end <= balls.len(),
    ensures
        same_places(row_swept(balls, i, end), balls),
    decreases end,
{
    if end > 1 {
        lemma_row_keeps_places(balls, i, end - 1);
    }
}

/// The sweep moves no ball: only velocities change.
pub proof fn lemma_sweep_keeps_places(balls: Seq<Ball>, rows: int)
    requires
        rows <= balls.len(),
    ensures
        same_places(swept(balls, rows), balls),
    decreases rows,
{
    if rows > 0 {
        lemma_sweep_keeps_places(balls, rows - 1);
        lemma_row_keeps_places(swept(balls, rows - 1), rows - 1, balls.len() as int);
    }
}

/// Among balls that all carry one tag a row of the sweep resolves nothing.
pub proof fn lemma_one_tag_row(balls: Seq<Ball>, i: int, end: int)
    requires
        one_tag(balls),
        0 <= i < balls.len(),
        end <= balls.len(),
    ensures
        row_swept(balls, i, end) == balls,
    decreases end,
{
    if end > 1 {
        lemma_one_tag_row(balls, i, end - 1);
    }
}

/// Among balls that all carry one tag the sweep resolves nothing, whether or
/// not their circles are in contact.
pub proof fn lemma_one_tag_sweep(balls: Seq<Ball>, rows: int)
    requires
        one_tag(balls),
        rows <= balls.len(),
    ensures
        swept(balls, rows) == balls,
    decreases rows,
{
    if rows > 0 {
        lemma_one_tag_sweep(balls, rows - 1);
        lemma_one_tag_row(balls, rows - 1, balls.len() as int);
    }
}

/// Whether no two different balls of the list are in contact.
pub open spec fn all_apart(balls: Seq<Ball>) -> bool {
    forall|i: int, j: int|
        0 <= i < balls.len() && 0 <= j < balls.len() && i != j ==> !(
        #[trigger] balls[i]).circle().touches((#[trigger] balls[j]).circle())
}

/// Among balls that are not in contact a row of the sweep resolves nothing.
pub proof fn lemma_apart_row(balls: Seq<Ball>, i: int, end: int)
    requires
        all_apart(balls),
        0 <= i < balls.len(),
        end <= balls.len(),
    ensures
        row_swept(balls, i, end) == balls,
    decreases end,
{
    if end > 1 {
        lemma_apart_row(balls, i, end - 1);
    }
}

/// Among balls that are not in contact the sweep resolves nothing, whatever
/// their tags.
pub proof fn lemma_apart_sweep(balls: Seq<Ball>, rows: int)
    requires
        all_apart(balls),
        rows <= balls.len(),
    ensures
        swept(balls, rows) == balls,
    decreases rows,
{
    if rows > 0 {
        lemma_apart_sweep(balls, rows - 1);
        lemma_apart_row(balls, rows - 1, balls.len() as int);
    }
}

/// Where a new ball lies: in a bound that has room for it, its centre keeps
/// a radius away from the near walls and from the far wall below it, and
/// does not pass the far wall beside it.
pub proof fn lemma_spawn_in_bound(
    speed: int,
    bound: Bound,
    heading: Vector,
    along: int,
    down: int,
    id: i64,
)
    requires
        bound.wf(),
        BALL_RADIUS <= bound.width,
        2 * BALL_RADIUS <= bound.height,
        bound.x + bound.width <= LIMIT,
        bound.y + bound.height <= LIMIT,
        0 <= along <= SCALE,
        0 <= down <= SCALE,
    ensures
        bound.x + BALL_RADIUS <= Ball::spawned(speed, bound, heading, along, down, id).x <= bound.x
            + bound.width,
        bound.y + BALL_RADIUS <= Ball::spawned(speed, bound, heading, along, down, id).y <= bound.y
            + bound.height - BALL_RADIUS,
{
    let room_x = bound.width - BALL_RADIUS;
    let room_y = bound.height - 2 * BALL_RADIUS;
    lemma_product_with_share(room_x, along);
    lemma_product_with_share(room_y, down);
}

/// A player that runs from the left into a resting ball of the usual size:
/// the ball is pushed to the right with six fifths of sixty fifty-sevenths
/// of the player's speed, and the player loses seventy fifty-sevenths of
/// its speed, each rounded down to a raw unit. Neither is moved, and neither
/// gains any velocity across. Whatever the player's speed, the ball does
/// move to the right and the player is slowed.
pub proof fn lemma_push_from_the_left(ball: Ball, player: Player)
    requires
        ball.wf(),
        player.wf(),
        ball.radius == BALL_RADIUS,
        player.radius == PLAYER_RADIUS,
        ball.xv == 0,
        ball.yv == 0,
        player.y == ball.y,
        player.x < ball.x,
        ball.circle().touches(player.circle()),
        player.yv == 0,
        0 <= player.xv,
        2 * player.xv <= LIMIT,
    ensures
        in_range((6 * ((60 * player.xv) / 57)) / 5),
        in_range(player.xv - (70 * player.xv) / 57),
        ball.met(player).0 == (Ball { xv: ((6 * ((60 * player.xv) / 57)) / 5) as i64, ..ball }),
        ball.met(player).1 == (Player {
            xv: (player.xv - (70 * player.xv) / 57) as i64,
            ..player
        }),
        player.xv >= 1 ==> ball.met(player).0.xv > 0 && ball.met(player).1.xv < player.xv,
{
    let a = ball.body();
    let b = player.body();
    let v = player.xv as int;
    let gap = ball.x - player.x;
    let d = -line_x(a, b);
    let taken = (60 * v) / 57;
    let given = (70 * v) / 57;
    assert(d == gap || d == gap * FINER);
    assert(line_y(a, b) == 0);
    lemma_unit_to_the_left(d);
    // closing speed
    assert(projected(-v, 0, -d, 0) == v);
    assert(closing_speed(a, b) == v);
    // the weighted impulses
    assert(pair_mass(a, b) == 57_000_000);
    assert(2 * v * 30_000_000 == 1_000_000 * (60 * v)) by (nonlinear_arith);
    assert(2 * v * 35_000_000 == 1_000_000 * (70 * v)) by (nonlinear_arith);
    lemma_div_multiples_vanish_quotient(1_000_000, 60 * v, 57);
    lemma_div_multiples_vanish_quotient(1_000_000, 70 * v, 57);
    assert(1_000_000 * 57 == 57_000_000);
    assert(0 <= taken && 57 * taken <= 60 * v && (v >= 1 ==> taken >= 1));
    assert(0 <= given && 57 * given <= 70 * v && (v >= 1 ==> given >= 1));
    assert(weighted_impulse(v, b.radius as int, pair_mass(a, b)) == taken);
    assert(weighted_impulse(v, a.radius as int, pair_mass(a, b)) == given);
    // along the line of centres, and the kick
    assert(along_x(-d, 0, taken) == -taken && along_y(-d, 0, taken) == 0);
    assert(along_x(-d, 0, given) == -given && along_y(-d, 0, given) == 0);
    assert((-taken) * 1_200_000 == -(200_000 * (6 * taken))) by (nonlinear_arith);
    lemma_div_multiples_vanish_quotient(200_000, 6 * taken, 5);
    assert(200_000 * 5 == 1_000_000);
    assert(product(-taken, PLAYER_KICK as int) == -((6 * taken) / 5));
    assert(product(0, PLAYER_KICK as int) == 0) by {
        assert(0 * PLAYER_KICK == 0);
    }
    assert(struck(0, -taken, PLAYER_KICK as int) == (6 * taken) / 5);
    assert(struck(0, 0, PLAYER_KICK as int) == 0);
    assert(pushed(v, -given) == v - given);
    assert(pushed(0, 0) == 0);
}

/// Momentum along x of the balls of a list, with radii standing in for
/// masses.
pub open spec fn total_x(balls: Seq<Ball>) -> int
    decreases balls.len(),
{
    if balls.len() == 0 {
        0
    } else {
        total_x(balls.drop_last()) + balls.last().radius * balls.last().xv
    }
}

/// Momentum along y of the balls of a list.
pub open spec fn total_y(balls: Seq<Ball>) -> int
    decreases balls.len(),
{
    if balls.len() == 0 {
        0
    } else {
        total_y(balls.drop_last()) + balls.last().radius * balls.last().yv
    }
}

/// Whether holding ball `i` against ball `j` stays within the storable
/// range: either nothing is resolved, or the exchange is unclipped.
pub open spec fn pair_unclipped(balls: Seq<Ball>, i: int, j: int) -> bool {
    balls[i].id != balls[j].id && balls[i].circle().touches(balls[j].circle()) ==> unclipped(
        balls[i].body(),
        balls[j].body(),
    )
}

/// What rounding can cost the momentum when ball `i` is held against ball
/// `j`: twice the sum of the two radii.
pub open spec fn pair_slack(balls: Seq<Ball>, i: int, j: int) -> int {
    2 * (balls[i].radius + balls[j].radius)
}

/// Whether a row of the sweep stays within the storable range at every
/// pair, each taken in the state in which the sweep reaches it.
pub open spec fn row_unclipped(balls: Seq<Ball>, i: int, end: int) -> bool
    decreases end,
{
    if end <= 1 {
        true
    } else {
        row_unclipped(balls, i, end - 1) && pair_unclipped(row_swept(balls, i, end - 1), i, end - 1)
    }
}

/// Whether the first `rows` rows of the sweep stay within the storable
/// range at every pair.
pub open spec fn sweep_unclipped(balls: Seq<Ball>, rows: int) -> bool
    decreases rows,
{
    if rows <= 0 {
        true
    } else {
        sweep_unclipped(balls, rows - 1) && row_unclipped(
            swept(balls, rows - 1),
            rows - 1,
            balls.len() as int,
        )
    }
}

/// What rounding can cost the momentum over a row of the sweep.
pub open spec fn row_slack(balls: Seq<Ball>, i: int, end: int) -> int
    decreases end,
{
    if end <= 1 {
        0
    } else {
        row_slack(balls, i, end - 1) + pair_slack(balls, i, end - 1)
    }
}

/// What rounding can cost the momentum over the first `rows` rows of the
/// sweep.
pub open spec fn sweep_slack(balls: Seq<Ball>, rows: int) -> int
    decreases rows,
{
    if rows <= 0 {
        0
    } else {
        sweep_slack(balls, rows - 1) + row_slack(balls, rows - 1, balls.len() as int)
    }
}

/// Replacing one ball of a list changes the momentum by what that ball's
/// own momentum changes.
proof fn lemma_total_update(balls: Seq<Ball>, k: int, ball: Ball)
    requires
        0 <= k < balls.len(),
    ensures
        total_x(balls.update(k, ball)) == total_x(balls) - balls[k].radius * balls[k].xv
            + ball.radius * ball.xv,
        total_y(balls.update(k, ball)) == total_y(balls) - balls[k].radius * balls[k].yv
            + ball.radius * ball.yv,
    decreases balls.len(),
{
    let after = balls.update(k, ball);
    if k == balls.len() - 1 {
        assert(after.drop_last() =~= balls.drop_last());
    } else {
        lemma_total_update(balls.drop_last(), k, ball);
        assert(after.drop_last() =~= balls.drop_last().update(k, ball));
    }
}

/// Holding one ball against another keeps the momentum of the list, up to
/// rounding, and keeps every ball well formed.
proof fn lemma_pair_keeps_momentum(balls: Seq<Ball>, i: int, j: int)
    requires
        all_wf(balls),
        0 <= i < balls.len(),
        0 <= j < balls.len(),
        pair_unclipped(balls, i, j),
    ensures
        all_wf(pair_collided(balls, i, j)),
        same_places(pair_collided(balls, i, j), balls),
        -pair_slack(balls, i, j) <= total_x(pair_collided(balls, i, j)) - total_x(balls)
            <= pair_slack(balls, i, j),
        -pair_slack(balls, i, j) <= total_y(pair_collided(balls, i, j)) - total_y(balls)
            <= pair_slack(balls, i, j),
{
    let a = balls[i];
    let b = balls[j];
    if a.id != b.id && a.circle().touches(b.circle()) {
        let after = rebound(a.body(), b.body(), PLAIN as int);
        lemma_rebound_keeps_momentum(a.body(), b.body());
        let first = balls.update(i, a.with_velocity(after.0));
        lemma_total_update(balls, i, a.with_velocity(after.0));
        lemma_total_update(first, j, b.with_velocity(after.1));
        assert(first[j] == b);
        assert(momentum_x(after.0, after.1) == a.radius * after.0.xv + b.radius * after.1.xv);
        assert(momentum_y(after.0, after.1) == a.radius * after.0.yv + b.radius * after.1.yv);
    }
}

/// A row of the sweep keeps the momentum of the list, up to rounding.
proof fn lemma_row_keeps_momentum(balls: Seq<Ball>, i: int, end: int)
    requires
        all_wf(balls),
        0 <= i < balls.len(),
        end <= balls.len(),
        row_unclipped(balls, i, end),
    ensures
        all_wf(row_swept(balls, i, end)),
        same_places(row_swept(balls, i, end), balls),
        -row_slack(balls, i, end) <= total_x(row_swept(balls, i, end)) - total_x(balls)
            <= row_slack(balls, i, end),
        -row_slack(balls, i, end) <= total_y(row_swept(balls, i, end)) - total_y(balls)
            <= row_slack(balls, i, end),
    decreases end,
{
    if end > 1 {
        lemma_row_keeps_momentum(balls, i, end - 1);
        let before = row_swept(balls, i, end - 1);
        lemma_pair_keeps_momentum(before, i, end - 1);
        assert(pair_slack(before, i, end - 1) == pair_slack(balls, i, end - 1));
    }
}

/// What rounding can cost over a row depends on the radii alone.
proof fn lemma_row_slack_of_places(a: Seq<Ball>, b: Seq<Ball>, i: int, end: int)
    requires
        same_places(a, b),
        0 <= i < a.len(),
        end <= a.len(),
    ensures
        row_slack(a, i, end) == row_slack(b, i, end),
    decreases end,
{
    if end > 1 {
        lemma_row_slack_of_places(a, b, i, end - 1);
    }
}

/// The sweep keeps the momentum of the balls, up to rounding: where no
/// exchange saturates, neither component of the sum of the velocities,
/// weighted by the radii, changes by more than twice the sum of the two
/// radii for each pair that the sweep holds against each other.
pub proof fn lemma_sweep_keeps_momentum(balls: Seq<Ball>, rows: int)
    requires
        all_wf(balls),
        rows <= balls.len(),
        sweep_unclipped(balls, rows),
    ensures
        all_wf(swept(balls, rows)),
        same_places(swept(balls, rows), balls),
        -sweep_slack(balls, rows) <= total_x(swept(balls, rows)) - total_x(balls) <= sweep_slack(
            balls,
            rows,
        ),
        -sweep_slack(balls, rows) <= total_y(swept(balls, rows)) - total_y(balls) <= sweep_slack(
            balls,
            rows,
        ),
    decreases rows,
{
    if rows > 0 {
        lemma_sweep_keeps_momentum(balls, rows - 1);
        let before = swept(balls, rows - 1);
        lemma_row_keeps_momentum(before, rows - 1, balls.len() as int);
        lemma_row_slack_of_places(before, balls, rows - 1, balls.len() as int);
    }
}

} // verus!
