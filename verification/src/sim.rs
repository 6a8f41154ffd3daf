//! Simulation run state and rendering level-of-detail tiers.

use vstd::prelude::*;

verus! {

/// Simulation run state.
#[derive(Debug, Clone, Copy, PartialEq, Eq, Structural)]
pub enum SimState {
    Stopped,
    Running,
    Paused,
}

impl SimState {
    /// Whether the simulation advances on each tick.
    pub fn is_running(self) -> (r: bool)
        ensures
            r == (self == SimState::Running),
    {
        match self {
            SimState::Running => true,
            _ => false,
        }
    }
}

/// LOD rendering tier for an agent.
#[derive(Debug, Clone, Copy, PartialEq, Eq, Structural)]
pub enum LodTier {
    /// Full 3D mesh rendering (nearest agents).
    Mesh,
    /// Camera-facing billboard sprite (mid-range).
    Billboard,
    /// Simple colored dot (far range, cheapest).
    Dot,
}

} // verus!
