//! Telemetry counters that the engine maintains for external persistence.

use vstd::prelude::*;

verus! {

/// Clamp a non-negative mathematical integer into the machine-word range.
pub open spec fn sat_usize(v: int) -> int {
    if v > usize::MAX {
        usize::MAX as int
    } else {
        v
    }
}

/// Saturating counter addition.
pub fn sat_add_usize(a: usize, b: usize) -> (r: usize)
    ensures
        r == sat_usize(a + b),
{
    if a > usize::MAX - b {
        usize::MAX
    } else {
        a + b
    }
}

/// Counters of the simulation: successful reroutes, direct collisions,
/// proximity detections, cumulative planned path length, and cumulative
/// steps advanced. All additions saturate.
#[derive(Copy, Clone, PartialEq, Eq, Structural, Debug)]
pub struct Statistics {
    pub recalculations: usize,
    pub collisions: usize,
    pub detections: usize,
    pub total_path_length: usize,
    pub total_steps: usize,
}

impl Statistics {
    pub fn new() -> (s: Statistics)
        ensures
            s.recalculations == 0,
            s.collisions == 0,
            s.detections == 0,
            s.total_path_length == 0,
            s.total_steps == 0,
    {
        Statistics {
            recalculations: 0,
            collisions: 0,
            detections: 0,
            total_path_length: 0,
            total_steps: 0,
        }
    }
}

} // verus!
