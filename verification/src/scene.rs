//! What a frame shows: the game as seen by a camera that follows the player,
//! in screen coordinates.

use crate::ball::Ball;
use crate::fixed::{
    in_range, lemma_product_bound, max, over, product, quo, quotient, ratio, sat, saturate, times,
    SCALE,
};
use crate::game::GameState;
use crate::player::Player;
use vstd::prelude::*;

verus! {

/// World units that a viewport shows along its governing side.
pub const ZOOM: i64 = 1_000_000_000;

/// Height over width of the widest view: nine sixteenths.
pub const ASPECT: i64 = 562_500;

/// A rectangle on the screen.
#[derive(Clone, Copy, Debug, PartialEq, Eq)]
pub struct Rect {
    pub x: i64,
    pub y: i64,
    pub width: i64,
    pub height: i64,
}

/// A filled circle on the screen.
#[derive(Clone, Copy, Debug, PartialEq, Eq)]
pub struct Disc {
    pub x: i64,
    pub y: i64,
    pub radius: i64,
}

/// Everything that one frame shows.
#[derive(Debug)]
pub struct Scene {
    pub arena: Rect,
    pub balls: Vec<Disc>,
    pub player: Disc,
    /// Whether the player is drawn with the ring that marks a boost.
    pub boost: bool,
}

/// The side that governs the scale of a viewport of the given size: the
/// larger of the height and nine sixteenths of the width.
pub open spec fn governing(width: int, height: int) -> i64 {
    let wide = product(width, ASPECT as int);
    if height >= wide {
        sat(height)
    } else {
        wide
    }
}

/// Screen units per world unit in a viewport of the given size: the
/// governing side over `ZOOM`.
pub open spec fn scale_for(width: int, height: int) -> i64 {
    ratio(governing(width, height) as int, ZOOM as int)
}

/// A world length on the screen: the length times the governing side over
/// `ZOOM`, in one quotient.
pub open spec fn sized(length: int, side: int) -> i64 {
    sat(quo(length * side, ZOOM as int))
}

/// Half of a screen extent.
pub open spec fn half(extent: int) -> i64 {
    sat(quo(extent, 2))
}

/// Where a world coordinate falls on the screen, for a camera centred on
/// `focus`, in a viewport whose governing side is `side`.
pub open spec fn on_screen(world: int, focus: int, side: int, extent: int) -> i64 {
    sat(sized(world - focus, side) + half(extent))
}

/// The whole number of units nearest to `v`, halves rounded away from zero.
pub open spec fn rounded(v: int) -> i64 {
    if v >= 0 {
        sat(quo(2 * v + SCALE, 2 * SCALE) * SCALE)
    } else {
        sat(quo(2 * v - SCALE, 2 * SCALE) * SCALE)
    }
}

/// The arena as the camera sees it. Its extents are rounded to whole units.
pub open spec fn arena_seen(state: GameState, width: int, height: int) -> Rect {
    let side = governing(width, height) as int;
    Rect {
        x: on_screen(state.arena.x as int, state.player.x as int, side, width),
        y: on_screen(state.arena.y as int, state.player.y as int, side, height),
        width: rounded(sized(state.arena.width as int, side) as int),
        height: rounded(sized(state.arena.height as int, side) as int),
    }
}

/// A ball as the camera sees it.
pub open spec fn ball_seen(ball: Ball, player: Player, width: int, height: int) -> Disc {
    let side = governing(width, height) as int;
    Disc {
        x: on_screen(ball.x as int, player.x as int, side, width),
        y: on_screen(ball.y as int, player.y as int, side, height),
        radius: sized(ball.radius as int, side),
    }
}

/// The player as the camera sees it: in the middle of the screen.
pub open spec fn player_seen(player: Player, width: int, height: int) -> Disc {
    Disc {
        x: half(width),
        y: half(height),
        radius: sized(player.radius as int, governing(width, height) as int),
    }
}

/// The side that governs the scale of a viewport of the given size.
pub fn governing_side(width: i64, height: i64) -> (r: i64)
    ensures
        r == governing(width as int, height as int),
        in_range(r as int),
{
    saturate(max(height, times(width, ASPECT)) as i128)
}

/// A world length on the screen of a viewport whose governing side is
/// `side`.
pub fn size(length: i64, side: i64) -> (r: i64)
    ensures
        r == sized(length as int, side as int),
        in_range(r as int),
{
    proof {
        lemma_product_bound(length as int, side as int, 0x8000_0000_0000_0000);
    }
    saturate(quotient((length as i128) * (side as i128), ZOOM as i128))
}

/// Screen units per world unit in a viewport of the given size.
pub fn get_scale(width: i64, height: i64) -> (r: i64)
    ensures
        r == scale_for(width as int, height as int),
{
    over(governing_side(width, height), ZOOM)
}

/// Halves a screen extent.
pub fn halve(extent: i64) -> (r: i64)
    ensures
        r == half(extent as int),
{
    saturate(quotient(extent as i128, 2))
}

/// Maps a world coordinate to the screen of a viewport whose governing side
/// is `side`.
pub fn project(world: i64, focus: i64, side: i64, extent: i64) -> (r: i64)
    requires
        in_range(world as int),
        in_range(focus as int),
    ensures
        r == on_screen(world as int, focus as int, side as int, extent as int),
{
    saturate((size(world - focus, side) as i128) + (halve(extent) as i128))
}

/// Rounds a scalar to the nearest whole number of units.
pub fn round(v: i64) -> (r: i64)
    ensures
        r == rounded(v as int),
{
    let twice: i128 = (v as i128) * 2;
    let unit: i128 = SCALE as i128;
    let whole: i128 = if v >= 0 {
        quotient(twice + unit, unit * 2)
    } else {
        quotient(twice - unit, unit * 2)
    };
    saturate(whole * unit)
}

/// Lays out the frame that shows `state` in a viewport of the given size.
pub fn render(state: &GameState, width: i64, height: i64) -> (scene: Scene)
    requires
        state@.wf(),
    ensures
        scene.arena == arena_seen(*state, width as int, height as int),
        scene.player == player_seen(state.player, width as int, height as int),
        scene.boost == state.player.boost,
        scene.balls@.len() == state.ball@.len(),
        forall|k: int|
            0 <= k < state.ball@.len() ==> #[trigger] scene.balls@[k] == ball_seen(
                state.ball@[k],
                state.player,
                width as int,
                height as int,
            ),
{
    let side: i64 = governing_side(width, height);
    let arena = Rect {
        x: project(state.arena.x, state.player.x, side, width),
        y: project(state.arena.y, state.player.y, side, height),
        width: round(size(state.arena.width, side)),
        height: round(size(state.arena.height, side)),
    };
    let mut balls: Vec<Disc> = Vec::new();
    let length: usize = state.ball.len();
    let mut i: usize = 0;
    while i < length
        invariant
            i <= length,
            length == state.ball@.len(),
            state@.wf(),
            side == governing(width as int, height as int),
            balls@.len() == i,
            forall|k: int|
                0 <= k < i ==> #[trigger] balls@[k] == ball_seen(
                    state.ball@[k],
                    state.player,
                    width as int,
                    height as int,
                ),
        decreases length - i,
    {
        let ball: Ball = state.ball[i];
        balls.push(
            Disc {
                x: project(ball.x, state.player.x, side, width),
                y: project(ball.y, state.player.y, side, height),
                radius: size(ball.radius, side),
            },
        );
        i = i + 1;
    }
    let player =
        Disc { x: halve(width), y: halve(height), radius: size(state.player.radius, side) };
    Scene { arena, balls, player, boost: state.player.boost }
}

} // verus!
