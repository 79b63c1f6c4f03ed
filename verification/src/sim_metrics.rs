//! Simple counters for the collision engine.
use vstd::prelude::*;

verus! {

/// Work counters maintained by `check_collisions`.
pub struct SimulationMetrics {
    pub pairs_checked: u64,
}

impl SimulationMetrics {
    pub fn new() -> (m: SimulationMetrics)
        ensures
            m.pairs_checked == 0,
    {
        SimulationMetrics { pairs_checked: 0 }
    }
}

} // verus!
