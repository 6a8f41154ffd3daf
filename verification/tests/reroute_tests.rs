//! Staggered reroute scheduling. Simulation times are in milliseconds.

use velos::reroute::{PerceptionSnapshot, RerouteConfig, RerouteScheduler};

fn make_config(batch_size: usize) -> RerouteConfig {
    RerouteConfig { batch_size, cooldown_ms: 30_000 }
}

#[test]
fn scheduler_returns_exactly_batch_size_per_step() {
    let mut sched = RerouteScheduler::new(make_config(1000));
    sched.set_population(5000);
    let batch = sched.next_batch(0);
    assert_eq!(batch.len(), 1000);
}

#[test]
fn scheduler_round_robin_covers_all_agents_in_5_steps() {
    let mut sched = RerouteScheduler::new(make_config(1000));
    sched.set_population(5000);
    let mut all_ids: Vec<u32> = Vec::new();
    for _ in 0..5 {
        let batch = sched.next_batch(0);
        assert_eq!(batch.len(), 1000);
        all_ids.extend(batch);
    }
    all_ids.sort();
    all_ids.dedup();
    assert_eq!(all_ids.len(), 5000, "All 5000 agents should be scheduled exactly once");
    let expected: Vec<u32> = (0..5000).collect();
    assert_eq!(all_ids, expected);
}

#[test]
fn scheduler_immediate_trigger_front_loaded() {
    let mut sched = RerouteScheduler::new(make_config(5));
    sched.set_population(100);
    sched.add_immediate_trigger(99);
    sched.add_immediate_trigger(50);
    let batch = sched.next_batch(0);
    assert_eq!(batch.len(), 5);
    assert_eq!(batch[0], 99);
    assert_eq!(batch[1], 50);
}

#[test]
fn scheduler_immediate_triggers_respect_budget() {
    let mut sched = RerouteScheduler::new(make_config(3));
    sched.set_population(100);
    for id in [10, 20, 30, 40, 50] {
        sched.add_immediate_trigger(id);
    }
    let batch = sched.next_batch(0);
    assert_eq!(batch.len(), 3, "Must respect batch_size budget");
    assert_eq!(batch, vec![10, 20, 30]);
    let batch2 = sched.next_batch(0);
    assert!(batch2.contains(&40));
    assert!(batch2.contains(&50));
}

#[test]
fn scheduler_cooldown_skips_recently_rerouted() {
    let mut sched = RerouteScheduler::new(make_config(1000));
    sched.set_population(5);
    sched.record_reroute(0, 0);
    sched.record_reroute(1, 0);
    sched.record_reroute(2, 0);
    let batch = sched.next_batch(10_000);
    assert_eq!(batch.len(), 2);
    assert!(batch.contains(&3));
    assert!(batch.contains(&4));
}

#[test]
fn scheduler_cooldown_expires_after_30s() {
    let mut sched = RerouteScheduler::new(make_config(1000));
    sched.set_population(3);
    sched.record_reroute(0, 0);
    sched.record_reroute(1, 0);
    sched.record_reroute(2, 0);
    assert!(sched.is_on_cooldown(0, 29_900));
    assert!(!sched.is_on_cooldown(0, 30_000));
    let batch = sched.next_batch(31_000);
    assert_eq!(batch.len(), 3);
}

#[test]
fn scheduler_config_customizable() {
    let config = RerouteConfig { batch_size: 500, cooldown_ms: 60_000 };
    let mut sched = RerouteScheduler::new(config);
    sched.set_population(1000);
    let batch = sched.next_batch(0);
    assert_eq!(batch.len(), 500);
    sched.record_reroute(0, 0);
    assert!(sched.is_on_cooldown(0, 59_000));
    assert!(!sched.is_on_cooldown(0, 60_000));
}

#[test]
fn scheduler_empty_population_returns_empty_batch() {
    let mut sched = RerouteScheduler::new(make_config(1000));
    let batch = sched.next_batch(0);
    assert!(batch.is_empty());
}

#[test]
fn scheduler_population_less_than_batch_returns_all() {
    let mut sched = RerouteScheduler::new(make_config(1000));
    sched.set_population(50);
    let batch = sched.next_batch(0);
    assert_eq!(batch.len(), 50);
}

#[test]
fn perception_snapshot_flag_decoding() {
    let p = PerceptionSnapshot { flags: 0b11 };
    assert!(p.is_route_blocked());
    assert!(p.is_emergency_nearby());
    let p2 = PerceptionSnapshot { flags: 0b01 };
    assert!(p2.is_route_blocked());
    assert!(!p2.is_emergency_nearby());
    let p3 = PerceptionSnapshot { flags: 0b10 };
    assert!(!p3.is_route_blocked());
    assert!(p3.is_emergency_nearby());
}

#[test]
fn scheduler_immediate_trigger_skips_cooldown_agents() {
    let mut sched = RerouteScheduler::new(make_config(5));
    sched.set_population(10);
    sched.record_reroute(5, 0);
    sched.add_immediate_trigger(5);
    let batch = sched.next_batch(10_000);
    assert!(!batch.contains(&5), "Agent 5 should be skipped due to cooldown");
}

#[test]
fn default_config_is_1000_agents_and_30s() {
    let config = RerouteConfig::default();
    assert_eq!(config.batch_size, 1000);
    assert_eq!(config.cooldown_ms, 30_000);
    let sched = RerouteScheduler::new(config);
    assert_eq!(sched.config().batch_size, 1000);
    assert_eq!(sched.config().cooldown_ms, 30_000);
}

#[test]
fn round_robin_wraps_around_population() {
    let mut sched = RerouteScheduler::new(make_config(4));
    sched.set_population(6);
    assert_eq!(sched.next_batch(0), vec![0, 1, 2, 3]);
    assert_eq!(sched.next_batch(0), vec![4, 5, 0, 1]);
    assert_eq!(sched.next_batch(0), vec![2, 3, 4, 5]);
}

#[test]
fn cooled_down_trigger_stays_queued_until_cooldown_ends() {
    let mut sched = RerouteScheduler::new(make_config(2));
    sched.set_population(10);
    sched.record_reroute(7, 0);
    sched.add_immediate_trigger(7);
    sched.add_immediate_trigger(3);
    // Agent 7 is set aside; 3 goes first, then the ring.
    assert_eq!(sched.next_batch(1_000), vec![3, 0]);
    // After the cooldown, 7 comes back at the front.
    assert_eq!(sched.next_batch(30_000), vec![7, 1]);
}

#[test]
fn duplicate_trigger_is_queued_once() {
    let mut sched = RerouteScheduler::new(make_config(3));
    sched.set_population(10);
    sched.add_immediate_trigger(8);
    sched.add_immediate_trigger(8);
    // The ring skips 8's duplicate only if it comes up; here it does not.
    assert_eq!(sched.next_batch(0), vec![8, 0, 1]);
}

#[test]
fn ring_skips_agents_already_triggered() {
    let mut sched = RerouteScheduler::new(make_config(3));
    sched.set_population(3);
    sched.add_immediate_trigger(1);
    assert_eq!(sched.next_batch(0), vec![1, 0, 2]);
}

#[test]
fn set_population_wraps_ring_position() {
    let mut sched = RerouteScheduler::new(make_config(3));
    sched.set_population(10);
    assert_eq!(sched.next_batch(0), vec![0, 1, 2]);
    assert_eq!(sched.next_batch(0), vec![3, 4, 5]);
    // Ring is at 6; shrinking to 4 wraps it to 6 % 4 = 2.
    sched.set_population(4);
    assert_eq!(sched.next_batch(0), vec![2, 3, 0]);
}

#[test]
fn clock_before_last_reroute_counts_as_cooldown() {
    let mut sched = RerouteScheduler::new(make_config(3));
    sched.record_reroute(0, 5_000);
    assert!(sched.is_on_cooldown(0, 1_000));
    assert!(sched.is_on_cooldown(0, 34_999));
    assert!(!sched.is_on_cooldown(0, 35_000));
    assert!(!sched.is_on_cooldown(1, 0));
}

#[test]
fn perception_triggers_queue_blocked_and_emergency_agents() {
    let mut sched = RerouteScheduler::new(make_config(4));
    sched.set_population(6);
    sched.add_immediate_trigger(4);
    sched.add_perception_triggers(&vec![0, 0b01, 0b100, 0b10, 0b11, 0]);
    // Agent 4 was queued already; 1 and 3 follow in agent order.
    assert_eq!(sched.next_batch(0), vec![4, 1, 3, 0]);
}
