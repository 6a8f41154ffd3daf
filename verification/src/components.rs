//! ECS component definitions for agent state that carry no floating-point
//! data, and the packed per-agent record uploaded to the GPU.

use vstd::prelude::*;

verus! {

/// Vehicle type tag for an agent in the ECS.
#[derive(Debug, Clone, Copy, PartialEq, Eq, Structural, Hash)]
pub enum VehicleType {
    Motorbike,
    Car,
    Pedestrian,
}

/// Agent's assigned route as a sequence of node indices.
#[derive(Debug, Clone)]
pub struct Route {
    /// Sequence of node indices forming the path.
    pub path: Vec<u32>,
    /// Current index into `path` (the node we are heading toward).
    pub current_step: usize,
}

impl Route {
    /// The node the agent is heading toward and the route's destination;
    /// `None` once the current step has passed the end of the path.
    pub fn next_node_and_destination(&self) -> (r: Option<(u32, u32)>)
        ensures
            r is None <==> self.current_step >= self.path@.len(),
            r matches Some((next, dest)) ==> next == self.path@[self.current_step as int] && dest
                == self.path@.last(),
    {
        if self.current_step >= self.path.len() {
            return None;
        }
        Some((self.path[self.current_step], self.path[self.path.len() - 1]))
    }
}

/// Per-agent state uploaded to the GPU wave-front pass, in fixed-point.
#[derive(Debug, Clone, Copy, PartialEq, Eq, Structural)]
pub struct GpuAgentState {
    /// Index of the current edge in the road graph.
    pub edge_id: u32,
    /// Current lane (0-based from right).
    pub lane_idx: u32,
    /// Position along the edge, raw Q16.16 metres.
    pub position: i32,
    /// Lateral offset, raw Q8.8 metres.
    pub lateral: i32,
    /// Speed, raw Q12.20 metres per second.
    pub speed: i32,
    /// Acceleration, raw Q12.20 metres per second squared.
    pub acceleration: i32,
    /// Car-following model selector.
    pub cf_model: u32,
    /// Per-agent random number generator state.
    pub rng_state: u32,
    /// Vehicle type index.
    pub vehicle_type: u32,
    /// Bitfield: bit0 = bus dwelling, bit1 = emergency active, bits 4-7 =
    /// agent profile ID.
    pub flags: u32,
}

} // verus!
