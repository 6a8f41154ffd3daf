//! Wave-front helpers: agent flags and lane-sorted dispatch order.

use velos::components::GpuAgentState;
use velos::compute::{compute_agent_flags, compute_agent_flags_test, sort_agents_by_lane, wave_front_grid};
use velos::cost::{decode_profile_from_flags, AgentProfile};

fn agent(edge_id: u32, lane_idx: u32, position: i32) -> GpuAgentState {
    GpuAgentState {
        edge_id,
        lane_idx,
        position,
        lateral: 0,
        speed: 50,
        acceleration: 0,
        cf_model: 0,
        rng_state: 0,
        vehicle_type: 0,
        flags: 0,
    }
}

#[test]
fn sort_agents_empty() {
    let (offsets, counts, indices) = sort_agents_by_lane(&[]);
    assert_eq!(offsets, vec![0]);
    assert_eq!(counts, vec![0]);
    assert!(indices.is_empty());
}

#[test]
fn sort_agents_single_lane() {
    let agents = vec![
        GpuAgentState {
            edge_id: 0, lane_idx: 0, position: 100, lateral: 0,
            speed: 50, acceleration: 0, cf_model: 0, rng_state: 0,
            vehicle_type: 0, flags: 0,
        },
        GpuAgentState {
            edge_id: 0, lane_idx: 0, position: 500, lateral: 0,
            speed: 50, acceleration: 0, cf_model: 0, rng_state: 0,
            vehicle_type: 0, flags: 0,
        },
        GpuAgentState {
            edge_id: 0, lane_idx: 0, position: 300, lateral: 0,
            speed: 50, acceleration: 0, cf_model: 0, rng_state: 0,
            vehicle_type: 0, flags: 0,
        },
    ];
    let (offsets, counts, indices) = sort_agents_by_lane(&agents);
    assert_eq!(offsets.len(), 1);
    assert_eq!(counts, vec![3]);
    assert_eq!(indices, vec![1, 2, 0]);
}

#[test]
fn sort_agents_multiple_lanes() {
    let agents = vec![
        GpuAgentState {
            edge_id: 0, lane_idx: 0, position: 100, lateral: 0,
            speed: 50, acceleration: 0, cf_model: 0, rng_state: 0,
            vehicle_type: 0, flags: 0,
        },
        GpuAgentState {
            edge_id: 0, lane_idx: 1, position: 200, lateral: 0,
            speed: 50, acceleration: 0, cf_model: 1, rng_state: 42,
            vehicle_type: 0, flags: 0,
        },
        GpuAgentState {
            edge_id: 0, lane_idx: 0, position: 300, lateral: 0,
            speed: 50, acceleration: 0, cf_model: 0, rng_state: 0,
            vehicle_type: 0, flags: 0,
        },
    ];
    let (offsets, counts, indices) = sort_agents_by_lane(&agents);
    assert_eq!(counts.len(), 2);
    assert_eq!(counts[0], 2);
    assert_eq!(counts[1], 1);
    assert_eq!(indices[offsets[0] as usize], 2);
    assert_eq!(indices[offsets[0] as usize + 1], 0);
    assert_eq!(indices[offsets[1] as usize], 1);
}

#[test]
fn sort_agents_orders_lanes_by_edge_then_lane() {
    let agents = vec![
        agent(2, 0, 10),
        agent(1, 1, 50),
        agent(1, 0, 20),
        agent(2, 0, 30),
        agent(1, 1, 60),
    ];
    let (offsets, counts, indices) = sort_agents_by_lane(&agents);
    // Lanes in order: (1,0), (1,1), (2,0); leader (largest position) first.
    assert_eq!(offsets, vec![0, 1, 3]);
    assert_eq!(counts, vec![1, 2, 2]);
    assert_eq!(indices, vec![2, 4, 1, 3, 0]);
}

#[test]
fn sort_agents_equal_positions_keep_index_order() {
    let agents = vec![agent(0, 0, 7), agent(0, 0, 7), agent(0, 0, 7)];
    let (offsets, counts, indices) = sort_agents_by_lane(&agents);
    assert_eq!(offsets, vec![0]);
    assert_eq!(counts, vec![3]);
    assert_eq!(indices, vec![0, 1, 2]);
}

#[test]
fn flags_neither_dwelling_nor_emergency() {
    assert_eq!(compute_agent_flags_test(false, false), 0);
}

#[test]
fn flags_bus_dwelling_only() {
    assert_eq!(compute_agent_flags_test(true, false), 1);
}

#[test]
fn flags_emergency_only() {
    let flags = compute_agent_flags_test(false, true);
    assert_eq!(flags & 2, 2, "FLAG_EMERGENCY_ACTIVE (bit 1) must be set");
    assert_eq!(flags, 2);
}

#[test]
fn flags_bus_dwelling_and_emergency() {
    let flags = compute_agent_flags_test(true, true);
    assert_eq!(flags, 3, "Both FLAG_BUS_DWELLING and FLAG_EMERGENCY_ACTIVE must be set");
    assert_eq!(flags & 1, 1, "FLAG_BUS_DWELLING bit must be set");
    assert_eq!(flags & 2, 2, "FLAG_EMERGENCY_ACTIVE bit must be set");
}

#[test]
fn compute_flags_with_tourist_profile_encodes_bits_4_7() {
    let flags = compute_agent_flags(false, false, AgentProfile::Tourist);
    assert_eq!((flags >> 4) & 0x0F, 4, "Profile bits 4-7 should encode Tourist (4)");
    assert_eq!(flags & 0x0F, 0, "Low bits should be 0 (no dwelling, no emergency)");
}

#[test]
fn compute_flags_with_profile_preserves_low_bits() {
    let flags = compute_agent_flags(true, true, AgentProfile::Bus);
    assert_eq!(flags & 0x01, 1, "FLAG_BUS_DWELLING should be set");
    assert_eq!(flags & 0x02, 2, "FLAG_EMERGENCY_ACTIVE should be set");
    assert_eq!((flags >> 4) & 0x0F, 1, "Profile bits should encode Bus (1)");
}

#[test]
fn compute_flags_decode_roundtrip_all_profiles() {
    for profile in [
        AgentProfile::Commuter,
        AgentProfile::Bus,
        AgentProfile::Truck,
        AgentProfile::Emergency,
        AgentProfile::Tourist,
        AgentProfile::Teen,
        AgentProfile::Senior,
        AgentProfile::Cyclist,
    ] {
        let flags = compute_agent_flags(false, false, profile);
        let decoded = decode_profile_from_flags(flags);
        assert_eq!(decoded, profile, "Round-trip failed for {profile:?}");
    }
}

#[test]
fn compute_flags_exact_words() {
    assert_eq!(compute_agent_flags(true, false, AgentProfile::Cyclist), 0x71);
    assert_eq!(compute_agent_flags(false, true, AgentProfile::Senior), 0x62);
}

#[test]
fn wave_front_grid_splits_large_lane_counts() {
    assert_eq!(wave_front_grid(0), None);
    assert_eq!(wave_front_grid(1), Some((1, 1)));
    assert_eq!(wave_front_grid(65535), Some((65535, 1)));
    assert_eq!(wave_front_grid(65536), Some((65535, 2)));
    assert_eq!(wave_front_grid(200_000), Some((65535, 4)));
    assert_eq!(wave_front_grid(u32::MAX), Some((65535, 65537)));
}
