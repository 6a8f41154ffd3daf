//! Spawn requests produced by demand generation, and the vehicle mode
//! shares they are drawn from.

use vstd::prelude::*;
use crate::cost::AgentProfile;
use crate::od_matrix::Zone;

verus! {

/// Vehicle type for spawn requests.
///
/// Order matches the vehicle type indices used on the GPU.
#[derive(Debug, Clone, Copy, PartialEq, Eq, Structural, Hash)]
pub enum SpawnVehicleType {
    Motorbike,
    Car,
    Bus,
    Bicycle,
    Truck,
    Emergency,
    Pedestrian,
}

/// HCMC vehicle mode shares in parts per thousand, matching the
/// [`SpawnVehicleType`] variant order:
/// - Motorbike dominates (76%) per HCMC transport surveys
/// - Bus weight is small because GTFS-scheduled buses are spawned apart
/// - Emergency vehicles are rare (0.5%)
pub const VEHICLE_WEIGHTS: [u32; 7] = [
    760,  // Motorbike
    120,  // Car
    20,  // Bus
    30,  // Bicycle
    30,  // Truck
    5,  // Emergency
    35,  // Pedestrian
];

/// The vehicle type a weighted draw of index `i` stands for.
pub open spec fn vehicle_type_at(i: int) -> SpawnVehicleType {
    if i == 0 {
        SpawnVehicleType::Motorbike
    } else if i == 1 {
        SpawnVehicleType::Car
    } else if i == 2 {
        SpawnVehicleType::Bus
    } else if i == 3 {
        SpawnVehicleType::Bicycle
    } else if i == 4 {
        SpawnVehicleType::Truck
    } else if i == 5 {
        SpawnVehicleType::Emergency
    } else {
        SpawnVehicleType::Pedestrian
    }
}

/// Map the index drawn from the [`VEHICLE_WEIGHTS`] distribution to its
/// vehicle type (indices past the table are pedestrians).
pub fn vehicle_type_from_index(i: usize) -> (r: SpawnVehicleType)
    ensures
        r == vehicle_type_at(i as int),
{
    match i {
        0 => SpawnVehicleType::Motorbike,
        1 => SpawnVehicleType::Car,
        2 => SpawnVehicleType::Bus,
        3 => SpawnVehicleType::Bicycle,
        4 => SpawnVehicleType::Truck,
        5 => SpawnVehicleType::Emergency,
        _ => SpawnVehicleType::Pedestrian,
    }
}

/// A request to spawn an agent at a specific origin heading to a destination.
#[derive(Debug, Clone, PartialEq, Eq, Structural)]
pub struct SpawnRequest {
    /// Origin traffic analysis zone.
    pub origin: Zone,
    /// Destination traffic analysis zone.
    pub destination: Zone,
    /// Type of vehicle/agent to spawn.
    pub vehicle_type: SpawnVehicleType,
    /// Agent profile for cost-weighted route choice.
    pub profile: AgentProfile,
}

} // verus!
