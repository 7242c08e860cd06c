//! Random draws.

use crate::fixed::SCALE;
use vstd::prelude::*;

verus! {

/// The next number of `quad_rand`'s global generator, from `quad_rand::rand`.
/// Any `u32` may come back, and two calls need not agree, so nothing is
/// claimed of the result.
#[verifier::external_body]
fn draw() -> (r: u32) {
    quad_rand::rand()
}

/// The scalar in `[0, 1)` that a drawn number stands for: the number over
/// two to the power of thirty-two.
pub open spec fn share(drawn: u32) -> i64 {
    ((drawn * SCALE) / 0x1_0000_0000) as i64
}

/// Turns a drawn number into a scalar in `[0, 1)`.
pub fn share_of(drawn: u32) -> (r: i64)
    ensures
        r == share(drawn),
        0 <= r < SCALE,
{
    let wide: i64 = (drawn as i64) * SCALE;
    wide / 0x1_0000_0000
}

/// A random scalar in `[0, 1)`.
pub fn random() -> (r: i64)
    ensures
        0 <= r < SCALE,
{
    share_of(draw())
}

} // verus!
