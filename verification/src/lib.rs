//! A small two-dimensional arena simulation in fixed-point arithmetic: a
//! steered player circle and free balls, with friction, wall response and
//! impulse collisions.

pub mod arena;
pub mod ball;
pub mod circle;
pub mod collision;
pub mod fixed;
pub mod frame;
pub mod friction;
pub mod game;
pub mod player;
pub mod power;
pub mod random;
pub mod scene;
pub mod vector;
