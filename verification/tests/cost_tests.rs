use velos::cost::{decode_profile_from_flags, encode_profile_in_flags, profile_weights, AgentProfile};

#[test]
fn encode_profile_preserves_low_bits() {
    // Set bits 0-2 (at_bus_stop=1, emergency_active=1, yielding=1) = 0b0111 = 7
    let flags = 0x07;
    let encoded = encode_profile_in_flags(flags, AgentProfile::Tourist);
    // Tourist = 4, shifted left 4 = 0x40
    assert_eq!(encoded & 0x0F, 0x07, "Low bits should be preserved");
    assert_eq!((encoded >> 4) & 0x0F, 4, "Profile should be Tourist (4)");
}

#[test]
fn decode_profile_returns_correct_id() {
    for profile in [
        AgentProfile::Commuter,
        AgentProfile::Bus,
        AgentProfile::Truck,
        AgentProfile::Emergency,
        AgentProfile::Tourist,
        AgentProfile::Teen,
        AgentProfile::Senior,
        AgentProfile::Cyclist,
    ] {
        let flags = encode_profile_in_flags(0, profile);
        let decoded = decode_profile_from_flags(flags);
        assert_eq!(decoded, profile, "Round-trip failed for {profile:?}");
    }
}

#[test]
fn encode_decode_roundtrip_with_existing_flags() {
    let original_flags = 0x05; // bits 0 and 2 set
    let profile = AgentProfile::Senior;
    let encoded = encode_profile_in_flags(original_flags, profile);
    let decoded = decode_profile_from_flags(encoded);
    assert_eq!(decoded, profile);
    assert_eq!(encoded & 0x0F, original_flags);
}

#[test]
fn profile_ids_follow_declaration_order() {
    let all = [
        AgentProfile::Commuter,
        AgentProfile::Bus,
        AgentProfile::Truck,
        AgentProfile::Emergency,
        AgentProfile::Tourist,
        AgentProfile::Teen,
        AgentProfile::Senior,
        AgentProfile::Cyclist,
    ];
    for (i, p) in all.iter().enumerate() {
        assert_eq!(p.id() as usize, i);
        assert_eq!(AgentProfile::from_u8(i as u8), Some(*p));
    }
    assert_eq!(AgentProfile::from_u8(8), None);
    assert_eq!(AgentProfile::from_u8(255), None);
}

#[test]
fn encode_clears_high_bits_and_replaces_profile() {
    // Bits above 7 are dropped; an earlier profile is overwritten.
    let first = encode_profile_in_flags(0xFFFF_FF03, AgentProfile::Cyclist);
    assert_eq!(first, 0x73);
    let second = encode_profile_in_flags(first, AgentProfile::Bus);
    assert_eq!(second, 0x13);
    assert_eq!(decode_profile_from_flags(second), AgentProfile::Bus);
}

#[test]
fn commuter_has_time_as_highest_weight() {
    let w = &profile_weights(AgentProfile::Commuter);
    assert!(w.time > w.comfort);
    assert!(w.time > w.safety);
    assert!(w.time > w.fuel);
    assert!(w.time > w.signal_delay);
    assert!(w.time > w.prediction_penalty);
}

#[test]
fn tourist_has_comfort_and_safety_as_top_two() {
    let w = &profile_weights(AgentProfile::Tourist);
    let mut factors = [
        ("time", w.time),
        ("comfort", w.comfort),
        ("safety", w.safety),
        ("fuel", w.fuel),
        ("signal_delay", w.signal_delay),
        ("prediction_penalty", w.prediction_penalty),
    ];
    factors.sort_by(|a, b| b.1.cmp(&a.1));
    assert_eq!(factors[0].0, "comfort");
    assert_eq!(factors[1].0, "safety");
}

#[test]
fn emergency_has_time_080() {
    // Weights are held in percent.
    let w = &profile_weights(AgentProfile::Emergency);
    assert!((w.time as f32 / 100.0 - 0.80).abs() < f32::EPSILON);
}

#[test]
fn all_profiles_weights_sum_to_one() {
    for (i, profile) in [
        AgentProfile::Commuter,
        AgentProfile::Bus,
        AgentProfile::Truck,
        AgentProfile::Emergency,
        AgentProfile::Tourist,
        AgentProfile::Teen,
        AgentProfile::Senior,
        AgentProfile::Cyclist,
    ]
    .into_iter()
    .enumerate()
    {
        let sum = profile_weights(profile).sum();
        assert_eq!(sum, 100, "Profile {} weights sum to {} percent (expected 100)", i, sum);
    }
}

#[test]
fn cyclist_ignores_fuel_and_weighs_safety_most() {
    let w = profile_weights(AgentProfile::Cyclist);
    assert_eq!(w.fuel, 0);
    assert_eq!(w.safety, 45);
    assert_eq!(w.sum(), 100);
}
