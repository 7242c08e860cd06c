//! The circle of a player or a ball, and the test for two circles in contact.

use crate::ball::Ball;
use crate::fixed::{in_range, lemma_product_bound};
use crate::player::Player;
use vstd::prelude::*;

verus! {

/// A circle: centre and radius.
#[derive(Clone, Copy, Debug, PartialEq, Eq)]
pub struct Circle {
    pub x: i64,
    pub y: i64,
    pub radius: i64,
}

impl Circle {
    /// Every field is storable.
    pub open spec fn wf(self) -> bool {
        &&& in_range(self.x as int)
        &&& in_range(self.y as int)
        &&& in_range(self.radius as int)
    }

    /// Two circles are in contact when the squared distance of their centres
    /// does not exceed the square of the sum of their radii. Circles that
    /// only touch are in contact.
    pub open spec fn touches(self, other: Circle) -> bool {
        (self.x - other.x) * (self.x - other.x) + (self.y - other.y) * (self.y - other.y) <= (
        self.radius + other.radius) * (self.radius + other.radius)
    }

    /// The circle of the player.
    pub fn from_player(player: &Player) -> (c: Circle)
        ensures
            c == player.circle(),
    {
        Circle { x: player.x, y: player.y, radius: player.radius }
    }

    /// The circle of a ball.
    pub fn from_ball(ball: &Ball) -> (c: Circle)
        ensures
            c == ball.circle(),
    {
        Circle { x: ball.x, y: ball.y, radius: ball.radius }
    }

    /// Whether the two circles are in contact.
    pub fn intersects(&self, other: &Circle) -> (r: bool)
        requires
            self.wf(),
            other.wf(),
        ensures
            r == self.touches(*other),
    {
        let dx: i128 = (self.x as i128) - (other.x as i128);
        let dy: i128 = (self.y as i128) - (other.y as i128);
        let reach: i128 = (self.radius as i128) + (other.radius as i128);
        proof {
            lemma_product_bound(dx as int, dx as int, 2_000_000_000_000_000_000);
            lemma_product_bound(dy as int, dy as int, 2_000_000_000_000_000_000);
            lemma_product_bound(reach as int, reach as int, 2_000_000_000_000_000_000);
        }
        dx * dx + dy * dy <= reach * reach
    }
}

} // verus!
