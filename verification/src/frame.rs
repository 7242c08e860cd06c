//! What one frame hands to the simulation.

use crate::vector::Vector;
use vstd::prelude::*;

verus! {

/// The inputs of one step.
#[derive(Clone, Copy, Debug, PartialEq, Eq)]
pub struct Frame {
    /// Time since the last step, in ticks of which `SECOND` make a second.
    pub delta: i64,
    /// Offset of the pointer from the centre of the viewport.
    pub control: Vector,
    /// Whether the boost trigger is held during this frame.
    pub boost: bool,
}

} // verus!
