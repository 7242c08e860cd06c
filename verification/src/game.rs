//! The whole game: an arena, the player and the balls, stepped once a frame.

use crate::arena::Arena;
use crate::ball::{all_wf, swept, Ball};
use crate::frame::Frame;
use crate::player::{Player, PLAYER_ACCEL, PLAYER_RADIUS};
use vstd::prelude::*;

verus! {

/// Width of the arena of a new game.
pub const ARENA_WIDTH: i64 = 1_500_000_000;

/// Height of the arena of a new game.
pub const ARENA_HEIGHT: i64 = 1_000_000_000;

/// The state of a game.
#[derive(Debug)]
pub struct GameState {
    pub player: Player,
    pub arena: Arena,
    pub render_debug: bool,
    pub ball: Vec<Ball>,
}

/// The state of a game as a mathematical value.
pub struct World {
    pub player: Player,
    pub arena: Arena,
    pub render_debug: bool,
    pub balls: Seq<Ball>,
}

impl View for GameState {
    type V = World;

    open spec fn view(&self) -> World {
        World {
            player: self.player,
            arena: self.arena,
            render_debug: self.render_debug,
            balls: self.ball@,
        }
    }
}

impl World {
    /// The player, the arena and every ball are well formed.
    pub open spec fn wf(self) -> bool {
        &&& self.player.wf()
        &&& self.arena.wf()
        &&& all_wf(self.balls)
    }

    /// The world after one frame: the player advances; then each ball in
    /// list order advances and meets the player; then the contacts among the
    /// balls are resolved.
    pub open spec fn stepped(self, frame: Frame) -> World {
        let player = self.player.advanced(self.arena, frame);
        let moved = balls_updated(self.balls, player, frame, self.balls.len() as int);
        World { player: moved.1, balls: swept(moved.0, moved.0.len() as int), ..self }
    }
}

/// The balls and the player after the first `count` balls have, in list
/// order, advanced by one frame and met the player.
pub open spec fn balls_updated(balls: Seq<Ball>, player: Player, frame: Frame, count: int) -> (
    Seq<Ball>,
    Player,
)
    decreases count,
{
    if count <= 0 {
        (balls, player)
    } else {
        let before = balls_updated(balls, player, frame, count - 1);
        let after = before.0[count - 1].updated(before.1, frame);
        (before.0.update(count - 1, after.0), after.1)
    }
}

/// The balls change the player's velocity only: where it stands, its radius
/// and the rest of its state are as before.
pub proof fn lemma_balls_keep_player_place(
    balls: Seq<Ball>,
    player: Player,
    frame: Frame,
    count: int,
)
    requires
        count <= balls.len(),
    ensures
        balls_updated(balls, player, frame, count).0.len() == balls.len(),
        balls_updated(balls, player, frame, count).1 == (Player {
            xv: balls_updated(balls, player, frame, count).1.xv,
            yv: balls_updated(balls, player, frame, count).1.yv,
            ..player
        }),
    decreases count,
{
    if count > 0 {
        lemma_balls_keep_player_place(balls, player, frame, count - 1);
    }
}

impl GameState {
    /// Whether the player, the arena and every ball are well formed.
    pub fn is_wf(&self) -> (r: bool)
        ensures
            r == self@.wf(),
    {
        if !self.player.is_wf() || !self.arena.is_wf() {
            return false;
        }
        let length: usize = self.ball.len();
        let mut i: usize = 0;
        while i < length
            invariant
                i <= length,
                length == self.ball@.len(),
                forall|k: int| 0 <= k < i ==> (#[trigger] self.ball@[k]).wf(),
            decreases length - i,
        {
            if !self.ball[i].is_wf() {
                return false;
            }
            i = i + 1;
        }
        true
    }

    /// A game with the player at rest in the middle of the arena and no ball
    /// yet.
    pub fn new() -> (state: GameState)
        ensures
            state@.wf(),
            state@.player == (Player {
                x: 750_000_000,
                y: 500_000_000,
                xv: 0,
                yv: 0,
                radius: PLAYER_RADIUS,
                accel: PLAYER_ACCEL,
                timer: 0,
                boost: false,
            }),
            state@.arena == (Arena { x: 0, y: 0, width: ARENA_WIDTH, height: ARENA_HEIGHT }),
            !state@.render_debug,
            state@.balls.len() == 0,
    {
        GameState {
            player: Player::new(ARENA_WIDTH / 2, ARENA_HEIGHT / 2),
            arena: Arena::new(0, 0, ARENA_WIDTH, ARENA_HEIGHT),
            render_debug: false,
            ball: Vec::new(),
        }
    }
}

/// Steps the game by one frame.
pub fn update(state: &mut GameState, frame: &Frame)
    requires
        old(state)@.wf(),
    ensures
        final(state)@ == old(state)@.stepped(*frame),
        final(state)@.wf(),
        final(state)@.arena == old(state)@.arena,
        final(state)@.render_debug == old(state)@.render_debug,
        final(state)@.balls.len() == old(state)@.balls.len(),
        final(state)@.player.radius == PLAYER_RADIUS,
        old(state)@.arena.holds(PLAYER_RADIUS as int) ==> final(state)@.player.inside(
            final(state)@.arena,
        ),
{
    let arena: Arena = state.arena;
    let mut player: Player = state.player;
    player.update(&arena, frame);
    let ghost steered = player;
    let length: usize = state.ball.len();
    let mut i: usize = 0;
    while i < length
        invariant
            i <= length,
            state.ball@.len() == length,
            old(state).ball@.len() == length,
            state.arena == old(state).arena,
            state.render_debug == old(state).render_debug,
            player.wf(),
            all_wf(state.ball@),
            (state.ball@, player) == balls_updated(old(state).ball@, steered, *frame, i as int),
        decreases length - i,
    {
        let mut ball: Ball = state.ball[i];
        ball.update(&mut player, frame);
        state.ball.set(i, ball);
        i = i + 1;
    }
    proof {
        lemma_balls_keep_player_place(old(state).ball@, steered, *frame, length as int);
    }
    state.player = player;
    Ball::collide(&mut state.ball);
}

} // verus!
