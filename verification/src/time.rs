//! The length of the last update step and of the last drawn frame.

use std::time::Duration;

use vstd::prelude::*;

verus! {

/// How much game time the last update step covered.
#[derive(Debug, Default, Clone, Copy)]
pub struct UpdateDelta(pub Duration);

/// How much wall time passed since the last frame was drawn.
#[derive(Debug, Default, Clone, Copy)]
pub struct DrawDelta(pub Duration);

impl UpdateDelta {
    pub fn new(d: Duration) -> (u: UpdateDelta)
        ensures
            u.0 == d,
    {
        UpdateDelta(d)
    }
}

impl DrawDelta {
    pub fn new(d: Duration) -> (u: DrawDelta)
        ensures
            u.0 == d,
    {
        DrawDelta(d)
    }
}

} // verus!
