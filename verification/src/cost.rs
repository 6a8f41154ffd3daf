//! Agent profiles for route cost differentiation, and their encoding in the
//! GPU agent flags word.
//!
//! The profile ID is stored in bits 4-7 of `GpuAgentState::flags`; bits 0-3
//! hold per-agent state (bit0 = at_bus_stop, bit1 = emergency_active,
//! bit2 = yielding, bit3 = reserved).

use vstd::prelude::*;

verus! {

/// Agent profile type for route cost differentiation.
///
/// Each profile maps to a distinct set of cost weights. Stored in bits 4-7
/// of the GPU agent flags; its numeric ID is given by [`AgentProfile::id`].
#[derive(Debug, Clone, Copy, PartialEq, Eq, Structural, Hash)]
pub enum AgentProfile {
    /// Time-focused commuter (default for Car/Motorbike).
    Commuter,
    /// Public transit bus -- schedule adherence + safety.
    Bus,
    /// Heavy goods -- fuel cost dominant.
    Truck,
    /// Emergency vehicle -- pure time minimization.
    Emergency,
    /// Tourist -- comfort and safety, not rushed.
    Tourist,
    /// Teen rider -- time-focused, low safety concern.
    Teen,
    /// Senior -- safety and comfort paramount.
    Senior,
    /// Cyclist -- safety paramount, fuel irrelevant.
    Cyclist,
}

/// The numeric ID of a profile (0-7, in declaration order).
pub open spec fn profile_id(p: AgentProfile) -> u8 {
    match p {
        AgentProfile::Commuter => 0,
        AgentProfile::Bus => 1,
        AgentProfile::Truck => 2,
        AgentProfile::Emergency => 3,
        AgentProfile::Tourist => 4,
        AgentProfile::Teen => 5,
        AgentProfile::Senior => 6,
        AgentProfile::Cyclist => 7,
    }
}

/// The profile with the given ID, if the ID is one of 0-7.
pub open spec fn profile_from_id(v: u8) -> Option<AgentProfile> {
    if v == 0 {
        Some(AgentProfile::Commuter)
    } else if v == 1 {
        Some(AgentProfile::Bus)
    } else if v == 2 {
        Some(AgentProfile::Truck)
    } else if v == 3 {
        Some(AgentProfile::Emergency)
    } else if v == 4 {
        Some(AgentProfile::Tourist)
    } else if v == 5 {
        Some(AgentProfile::Teen)
    } else if v == 6 {
        Some(AgentProfile::Senior)
    } else if v == 7 {
        Some(AgentProfile::Cyclist)
    } else {
        None
    }
}

impl AgentProfile {
    /// Convert a u8 value to an AgentProfile, returning None for invalid values.
    pub fn from_u8(v: u8) -> (r: Option<Self>)
        ensures
            r == profile_from_id(v),
            r is Some <==> v < 8,
            r matches Some(p) ==> profile_id(p) == v,
    {
        match v {
            0 => Some(AgentProfile::Commuter),
            1 => Some(AgentProfile::Bus),
            2 => Some(AgentProfile::Truck),
            3 => Some(AgentProfile::Emergency),
            4 => Some(AgentProfile::Tourist),
            5 => Some(AgentProfile::Teen),
            6 => Some(AgentProfile::Senior),
            7 => Some(AgentProfile::Cyclist),
            _ => None,
        }
    }

    /// The numeric ID of this profile (0-7), used to index per-profile tables.
    pub fn id(self) -> (r: u8)
        ensures
            r == profile_id(self),
            r < 8,
    {
        match self {
            AgentProfile::Commuter => 0,
            AgentProfile::Bus => 1,
            AgentProfile::Truck => 2,
            AgentProfile::Emergency => 3,
            AgentProfile::Tourist => 4,
            AgentProfile::Teen => 5,
            AgentProfile::Senior => 6,
            AgentProfile::Cyclist => 7,
        }
    }
}

/// The flags word with bits 0-3 kept from `flags`, bits 4-7 set to the
/// profile ID, and all higher bits cleared.
pub open spec fn encode_profile_spec(flags: u32, profile: AgentProfile) -> u32 {
    (flags & 0x0F) | ((profile_id(profile) as u32) << 4u32)
}

/// The 4-bit profile field (bits 4-7) of a flags word.
pub open spec fn profile_field(flags: u32) -> u32 {
    (flags >> 4u32) & 0x0F
}

proof fn lemma_encode_fields(flags: u32, id: u32)
    requires
        id < 8,
    ensures
        ((flags & 0x0F) | (id << 4u32)) & 0x0F == flags & 0x0F,
        (((flags & 0x0F) | (id << 4u32)) >> 4u32) & 0x0F == id,
        ((flags & 0x0F) | (id << 4u32)) < 0x80,
{
    assert(((flags & 0x0F) | (id << 4u32)) & 0x0F == flags & 0x0F) by (bit_vector);
    assert((((flags & 0x0F) | (id << 4u32)) >> 4u32) & 0x0F == id) by (bit_vector)
        requires
            id < 8,
    ;
    assert(((flags & 0x0F) | (id << 4u32)) < 0x80) by (bit_vector)
        requires
            id < 8,
    ;
}

/// Encode an agent profile ID into GpuAgentState flags (bits 4-7).
///
/// Preserves existing bits 0-3 (bit0=at_bus_stop, bit1=emergency_active,
/// bit2=yielding, bit3=reserved); bits 8 and above are cleared.
pub fn encode_profile_in_flags(flags: u32, profile: AgentProfile) -> (r: u32)
    ensures
        r == encode_profile_spec(flags, profile),
        r & 0x0F == flags & 0x0F,
        profile_field(r) == profile_id(profile),
        r < 0x80,
{
    let id = profile.id() as u32;
    proof {
        lemma_encode_fields(flags, id);
    }
    (flags & 0x0F) | (id << 4)
}

/// Decode an agent profile ID from GpuAgentState flags (bits 4-7).
///
/// The profile field must hold a valid profile ID (0-7); the field values
/// 8-15 do not name a profile.
pub fn decode_profile_from_flags(flags: u32) -> (r: AgentProfile)
    requires
        profile_field(flags) < 8,
    ensures
        profile_id(r) == profile_field(flags),
        Some(r) == profile_from_id(profile_field(flags) as u8),
{
    let id = ((flags >> 4) & 0x0F) as u8;
    match AgentProfile::from_u8(id) {
        Some(p) => p,
        None => AgentProfile::Commuter,
    }
}

/// Law: decoding the flags produced by encoding a profile gives back that
/// profile, whatever the original flags were.
pub proof fn law_decode_encode_roundtrip(flags: u32, profile: AgentProfile)
    ensures
        profile_field(encode_profile_spec(flags, profile)) < 8,
        profile_from_id(profile_field(encode_profile_spec(flags, profile)) as u8) == Some(profile),
{
    lemma_encode_fields(flags, profile_id(profile) as u32);
}

/// Law: re-encoding replaces the profile and leaves bits 0-3 alone, so only
/// the last profile encoded counts.
pub proof fn law_encode_last_wins(flags: u32, first: AgentProfile, second: AgentProfile)
    ensures
        encode_profile_spec(encode_profile_spec(flags, first), second) == encode_profile_spec(
            flags,
            second,
        ),
{
    lemma_encode_fields(flags, profile_id(first) as u32);
}

/// Weighted cost factors of a profile, in percent. The route cost is
/// `sum_i(weight_i * factor_i)` over the six factors; each profile's
/// weights add up to 100 percent.
#[derive(Debug, Clone, Copy, PartialEq, Eq, Structural)]
pub struct CostWeights {
    /// Weight for travel time factor.
    pub time: u32,
    /// Weight for ride comfort (road quality, turns, noise).
    pub comfort: u32,
    /// Weight for safety score (accident risk, lighting, width).
    pub safety: u32,
    /// Weight for fuel/energy consumption.
    pub fuel: u32,
    /// Weight for expected signal delay penalty.
    pub signal_delay: u32,
    /// Weight for prediction uncertainty penalty.
    pub prediction_penalty: u32,
}

/// Sum of the six weights.
pub open spec fn weights_sum(w: CostWeights) -> int {
    w.time + w.comfort + w.safety + w.fuel + w.signal_delay + w.prediction_penalty
}

impl CostWeights {
    /// Sum of all weight factors.
    pub fn sum(&self) -> (r: u64)
        ensures
            r == weights_sum(*self),
    {
        self.time as u64 + self.comfort as u64 + self.safety as u64 + self.fuel as u64 + self.signal_delay as u64
            + self.prediction_penalty as u64
    }
}

/// The cost weights of each profile, in percent.
pub open spec fn profile_weights_spec(profile: AgentProfile) -> CostWeights {
    match profile {
        // time-focused, moderate fuel concern
        AgentProfile::Commuter => CostWeights { time: 40, comfort: 5, safety: 10, fuel: 20, signal_delay: 15, prediction_penalty: 10 },
        // schedule adherence (time), safety paramount
        AgentProfile::Bus => CostWeights { time: 35, comfort: 5, safety: 25, fuel: 15, signal_delay: 10, prediction_penalty: 10 },
        // fuel-heavy (weight = cost), avoids tight roads
        AgentProfile::Truck => CostWeights { time: 20, comfort: 10, safety: 15, fuel: 35, signal_delay: 10, prediction_penalty: 10 },
        // pure time, ignore comfort/fuel
        AgentProfile::Emergency => CostWeights { time: 80, comfort: 0, safety: 5, fuel: 0, signal_delay: 10, prediction_penalty: 5 },
        // comfort and safety, not rushed
        AgentProfile::Tourist => CostWeights { time: 10, comfort: 35, safety: 30, fuel: 5, signal_delay: 5, prediction_penalty: 15 },
        // time-focused, low safety concern (risky behavior)
        AgentProfile::Teen => CostWeights { time: 45, comfort: 10, safety: 5, fuel: 15, signal_delay: 15, prediction_penalty: 10 },
        // safety and comfort, slow and steady
        AgentProfile::Senior => CostWeights { time: 10, comfort: 25, safety: 40, fuel: 10, signal_delay: 5, prediction_penalty: 10 },
        // safety paramount, comfort matters, fuel irrelevant
        AgentProfile::Cyclist => CostWeights { time: 15, comfort: 20, safety: 45, fuel: 0, signal_delay: 10, prediction_penalty: 10 },
    }
}

/// The cost weights of a profile, in percent.
pub fn profile_weights(profile: AgentProfile) -> (r: CostWeights)
    ensures
        r == profile_weights_spec(profile),
        weights_sum(r) == 100,
        follows_profile_priorities(profile, r),
{
    match profile {
        AgentProfile::Commuter => CostWeights { time: 40, comfort: 5, safety: 10, fuel: 20, signal_delay: 15, prediction_penalty: 10 },
        AgentProfile::Bus => CostWeights { time: 35, comfort: 5, safety: 25, fuel: 15, signal_delay: 10, prediction_penalty: 10 },
        AgentProfile::Truck => CostWeights { time: 20, comfort: 10, safety: 15, fuel: 35, signal_delay: 10, prediction_penalty: 10 },
        AgentProfile::Emergency => CostWeights { time: 80, comfort: 0, safety: 5, fuel: 0, signal_delay: 10, prediction_penalty: 5 },
        AgentProfile::Tourist => CostWeights { time: 10, comfort: 35, safety: 30, fuel: 5, signal_delay: 5, prediction_penalty: 15 },
        AgentProfile::Teen => CostWeights { time: 45, comfort: 10, safety: 5, fuel: 15, signal_delay: 15, prediction_penalty: 10 },
        AgentProfile::Senior => CostWeights { time: 10, comfort: 25, safety: 40, fuel: 10, signal_delay: 5, prediction_penalty: 10 },
        AgentProfile::Cyclist => CostWeights { time: 15, comfort: 20, safety: 45, fuel: 0, signal_delay: 10, prediction_penalty: 10 },
    }
}

/// Law: every profile's weights add up to 100 percent.
pub proof fn law_profile_weights_sum_to_hundred(profile: AgentProfile)
    ensures
        weights_sum(profile_weights_spec(profile)) == 100,
{
}

/// The documented priorities of a profile's weights: commuters, buses and
/// teens put time first (teens putting safety last), trucks fuel, an
/// emergency vehicle time alone (ignoring comfort and fuel), tourists
/// comfort then safety, seniors safety then comfort, and cyclists safety
/// (ignoring fuel).
pub open spec fn follows_profile_priorities(profile: AgentProfile, w: CostWeights) -> bool {
    let others_below = |top: u32, a: u32, b: u32, c: u32, d: u32, e: u32| top > a && top > b && top > c && top > d && top > e;
    match profile {
        AgentProfile::Commuter => others_below(w.time, w.comfort, w.safety, w.fuel, w.signal_delay, w.prediction_penalty),
        AgentProfile::Bus => others_below(w.time, w.comfort, w.safety, w.fuel, w.signal_delay, w.prediction_penalty),
        AgentProfile::Truck => others_below(w.fuel, w.time, w.comfort, w.safety, w.signal_delay, w.prediction_penalty),
        AgentProfile::Emergency => others_below(w.time, w.comfort, w.safety, w.fuel, w.signal_delay, w.prediction_penalty)
            && w.comfort == 0 && w.fuel == 0,
        AgentProfile::Tourist => others_below(w.comfort, w.time, w.safety, w.fuel, w.signal_delay, w.prediction_penalty)
            && w.safety > w.time && w.safety > w.fuel && w.safety > w.signal_delay && w.safety > w.prediction_penalty,
        AgentProfile::Teen => others_below(w.time, w.comfort, w.safety, w.fuel, w.signal_delay, w.prediction_penalty)
            && w.safety < w.comfort && w.safety < w.fuel && w.safety < w.signal_delay && w.safety < w.prediction_penalty,
        AgentProfile::Senior => others_below(w.safety, w.time, w.comfort, w.fuel, w.signal_delay, w.prediction_penalty)
            && w.comfort > w.time && w.comfort > w.fuel && w.comfort > w.signal_delay && w.comfort > w.prediction_penalty,
        AgentProfile::Cyclist => others_below(w.safety, w.time, w.comfort, w.fuel, w.signal_delay, w.prediction_penalty)
            && w.fuel == 0,
    }
}

/// Law: every profile's weights follow its documented priorities; in
/// particular a truck weighs fuel above each other factor.
pub proof fn law_profile_weights_follow_priorities(profile: AgentProfile)
    ensures
        follows_profile_priorities(profile, profile_weights_spec(profile)),
{
}

/// Road classification for heuristic edge attribute derivation.
#[derive(Debug, Clone, Copy, PartialEq, Eq, Structural, Hash)]
pub enum RoadClass {
    Motorway,
    Trunk,
    Primary,
    Secondary,
    Tertiary,
    Residential,
    Service,
}

} // verus!
