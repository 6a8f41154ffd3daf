//! Staggered reroute scheduling.
//!
//! The [`RerouteScheduler`] hands out a fixed budget of agents per
//! simulation step: agents with an immediate trigger (blocked route,
//! emergency nearby) first, in trigger order, then the next agents of a
//! round-robin ring over the population. Agents rerouted less than the
//! cooldown ago are skipped. Simulation time is counted in milliseconds.

use std::collections::HashMap;
use vstd::prelude::*;

verus! {

/// Whether the perception flags report the agent's route as blocked (bit 0).
pub open spec fn route_blocked_spec(flags: u32) -> bool {
    flags & 1 != 0
}

/// Whether the perception flags report an emergency vehicle nearby (bit 1).
pub open spec fn emergency_nearby_spec(flags: u32) -> bool {
    flags & 2 != 0
}

/// The part of a perception readback that reroute decisions read: the
/// flag bits (bit 0: route blocked, bit 1: emergency vehicle nearby).
#[derive(Debug, Clone, Copy, PartialEq, Eq, Structural)]
pub struct PerceptionSnapshot {
    /// Bitfield: bit0=route_blocked, bit1=emergency_nearby.
    pub flags: u32,
}

impl PerceptionSnapshot {
    /// Check if the agent's route is blocked (bit 0 of flags).
    pub fn is_route_blocked(&self) -> (r: bool)
        ensures
            r == route_blocked_spec(self.flags),
    {
        self.flags & 1 != 0
    }

    /// Check if an emergency vehicle is nearby (bit 1 of flags).
    pub fn is_emergency_nearby(&self) -> (r: bool)
        ensures
            r == emergency_nearby_spec(self.flags),
    {
        self.flags & 2 != 0
    }
}

/// Perception flags that call for evaluation at once: route blocked or
/// emergency vehicle nearby (bit 0 or bit 1).
pub open spec fn immediate_spec(flags: u32) -> bool {
    flags & 3 != 0
}

/// Whether perception flags call for evaluation at once.
pub fn needs_immediate_evaluation(flags: u32) -> (r: bool)
    ensures
        r == immediate_spec(flags),
        r == (route_blocked_spec(flags) || emergency_nearby_spec(flags)),
{
    proof {
        assert((flags & 3 != 0) == (flags & 1 != 0 || flags & 2 != 0)) by (bit_vector);
    }
    flags & 3 != 0
}

/// The queue after adding an agent to it, unless it is queued already.
pub open spec fn queue_once(queue: Seq<u32>, id: u32) -> Seq<u32> {
    if queue.contains(id) {
        queue
    } else {
        queue.push(id)
    }
}

/// The queue after adding, in order, each of the first `k` agents whose
/// flags call for evaluation at once.
pub open spec fn queue_triggers(queue: Seq<u32>, flags: Seq<u32>, k: int) -> Seq<u32>
    decreases k,
{
    if k <= 0 {
        queue
    } else {
        let before = queue_triggers(queue, flags, k - 1);
        if immediate_spec(flags[k - 1]) {
            queue_once(before, (k - 1) as u32)
        } else {
            before
        }
    }
}

/// Whether an agent whose last reroute happened at `last[id]` (in
/// milliseconds of simulation time) is still within a cooldown of
/// `cooldown_ms` at time `now`. Agents never rerouted are not on cooldown.
pub open spec fn cooling(last: Map<u32, u64>, cooldown_ms: u64, now: u64, id: u32) -> bool {
    last.contains_key(id) && (now as int - last[id] as int) < cooldown_ms as int
}

/// Draining the immediate queue: agents are taken from the front while the
/// batch has room; agents on cooldown are set aside. Returns the batch and
/// the queue left over (set-aside agents first, then the agents not
/// reached).
pub open spec fn drain_immediate(
    queue: Seq<u32>,
    on_cooldown: spec_fn(u32) -> bool,
    budget: nat,
    batch: Seq<u32>,
    skipped: Seq<u32>,
) -> (Seq<u32>, Seq<u32>)
    decreases queue.len(),
{
    if batch.len() >= budget || queue.len() == 0 {
        (batch, skipped + queue)
    } else if on_cooldown(queue[0]) {
        drain_immediate(queue.drop_first(), on_cooldown, budget, batch, skipped.push(queue[0]))
    } else {
        drain_immediate(queue.drop_first(), on_cooldown, budget, batch.push(queue[0]), skipped)
    }
}

/// Filling the batch from the round-robin ring: each step considers the
/// agent at the ring position and advances the ring; at most `total`
/// agents are considered. Agents already in the batch or on cooldown are
/// passed over. Returns the batch and the new ring position.
pub open spec fn fill_from_ring(
    ring: nat,
    total: nat,
    on_cooldown: spec_fn(u32) -> bool,
    budget: nat,
    batch: Seq<u32>,
    considered: nat,
) -> (Seq<u32>, nat)
    decreases total - considered,
{
    if batch.len() >= budget || considered >= total {
        (batch, ring)
    } else {
        let id = ring as u32;
        let next = ((ring + 1) % total) as nat;
        if batch.contains(id) || on_cooldown(id) {
            fill_from_ring(next, total, on_cooldown, budget, batch, considered + 1)
        } else {
            fill_from_ring(next, total, on_cooldown, budget, batch.push(id), considered + 1)
        }
    }
}

/// Configuration of the reroute scheduler.
#[derive(Debug, Clone, Copy)]
pub struct RerouteConfig {
    /// Number of agents evaluated per simulation step.
    pub batch_size: usize,
    /// Minimum simulation time between reroutes of the same agent, in
    /// milliseconds.
    pub cooldown_ms: u64,
}

impl Default for RerouteConfig {
    /// 1000 agents per step, 30 s cooldown.
    fn default() -> (r: Self)
        ensures
            r.batch_size == 1000,
            r.cooldown_ms == 30_000,
    {
        RerouteConfig { batch_size: 1000, cooldown_ms: 30_000 }
    }
}

/// Staggered reroute scheduler that processes a fixed batch of agents
/// per simulation step in round-robin fashion.
///
/// Immediate triggers (blocked edges, emergency) are front-loaded into
/// the next batch but still respect the per-step budget.
#[derive(Debug)]
pub struct RerouteScheduler {
    config: RerouteConfig,
    ring_index: usize,
    total_agents: usize,
    immediate_queue: Vec<u32>,
    last_reroute: HashMap<u32, u64>,
}

/// One step of the scheduler at time `now`: `after` is `before` once it
/// has handed out `batch`. Nothing is handed out for an empty population;
/// otherwise the batch is the ready triggers (up to the budget) followed
/// by ring agents, the set-aside triggers stay queued, and the ring
/// advances past the agents considered. Budget, cooldown, population and
/// reroute times are unchanged.
pub open spec fn batch_step(before: RerouteScheduler, after: RerouteScheduler, now: u64, batch: Seq<u32>) -> bool {
    &&& after.budget() == before.budget()
    &&& after.cooldown_ms() == before.cooldown_ms()
    &&& after.population() == before.population()
    &&& after.last_reroutes() == before.last_reroutes()
    &&& before.population() == 0 ==> batch.len() == 0 && after.queue() == before.queue() && after.ring()
        == before.ring()
    &&& before.population() > 0 ==> {
        let cool = before.cooldown_test(now);
        let drained = drain_immediate(before.queue(), cool, before.budget(), Seq::empty(), Seq::empty());
        let filled = fill_from_ring(before.ring(), before.population(), cool, before.budget(), drained.0, 0);
        &&& batch == filled.0
        &&& after.queue() == drained.1
        &&& after.ring() == filled.1
    }
}

impl RerouteScheduler {
    /// Number of agents handed out per step at most.
    pub closed spec fn budget(&self) -> nat {
        self.config.batch_size as nat
    }

    /// Cooldown between reroutes of one agent, in milliseconds.
    pub closed spec fn cooldown_ms(&self) -> u64 {
        self.config.cooldown_ms
    }

    /// Current position in the round-robin ring.
    pub closed spec fn ring(&self) -> nat {
        self.ring_index as nat
    }

    /// Total number of agents in the simulation.
    pub closed spec fn population(&self) -> nat {
        self.total_agents as nat
    }

    /// Agents waiting for immediate evaluation, in trigger order.
    pub closed spec fn queue(&self) -> Seq<u32> {
        self.immediate_queue@
    }

    /// Time of the last recorded reroute of each agent, in milliseconds.
    pub closed spec fn last_reroutes(&self) -> Map<u32, u64> {
        self.last_reroute@
    }

    /// Whether agent `id` is on cooldown at time `now`.
    pub open spec fn cooling_at(&self, id: u32, now: u64) -> bool {
        cooling(self.last_reroutes(), self.cooldown_ms(), now, id)
    }

    /// The cooldown test at time `now`, as a predicate on agent IDs.
    pub open spec fn cooldown_test(&self, now: u64) -> spec_fn(u32) -> bool {
        |id: u32| self.cooling_at(id, now)
    }

    /// The ring position lies inside the population (or the population is
    /// empty), and no agent waits twice in the immediate queue.
    pub open spec fn wf(&self) -> bool {
        &&& (self.population() == 0 || self.ring() < self.population())
        &&& self.queue().no_duplicates()
    }

    /// Create a new scheduler with the given configuration.
    pub fn new(config: RerouteConfig) -> (r: Self)
        ensures
            r.wf(),
            r.budget() == config.batch_size,
            r.cooldown_ms() == config.cooldown_ms,
            r.ring() == 0,
            r.population() == 0,
            r.queue() == Seq::<u32>::empty(),
            r.last_reroutes() == Map::<u32, u64>::empty(),
    {
        RerouteScheduler {
            config,
            ring_index: 0,
            total_agents: 0,
            immediate_queue: Vec::new(),
            last_reroute: HashMap::new(),
        }
    }

    /// Access the current configuration.
    pub fn config(&self) -> (r: &RerouteConfig)
        ensures
            r.batch_size == self.budget(),
            r.cooldown_ms == self.cooldown_ms(),
    {
        &self.config
    }

    /// Update the total agent population count.
    ///
    /// Called when agents are spawned or removed. A ring position beyond a
    /// non-empty population wraps around.
    pub fn set_population(&mut self, count: usize)
        ensures
            final(self).population() == count,
            final(self).ring() == if old(self).ring() >= count && count > 0 {
                old(self).ring() % (count as nat)
            } else {
                old(self).ring()
            },
            final(self).budget() == old(self).budget(),
            final(self).cooldown_ms() == old(self).cooldown_ms(),
            final(self).queue() == old(self).queue(),
            final(self).last_reroutes() == old(self).last_reroutes(),
            old(self).wf() ==> final(self).wf(),
    {
        self.total_agents = count;
        if self.ring_index >= count && count > 0 {
            self.ring_index = self.ring_index % count;
        }
    }

    /// Record that an agent was rerouted at the given simulation time (in
    /// milliseconds).
    pub fn record_reroute(&mut self, agent_id: u32, sim_time_ms: u64)
        ensures
            final(self).last_reroutes() == old(self).last_reroutes().insert(agent_id, sim_time_ms),
            final(self).population() == old(self).population(),
            final(self).ring() == old(self).ring(),
            final(self).budget() == old(self).budget(),
            final(self).cooldown_ms() == old(self).cooldown_ms(),
            final(self).queue() == old(self).queue(),
            old(self).wf() ==> final(self).wf(),
    {
        broadcast use vstd::std_specs::hash::group_hash_axioms;

        self.last_reroute.insert(agent_id, sim_time_ms);
    }

    /// Check if an agent is still within the cooldown period at the given
    /// simulation time (in milliseconds).
    pub fn is_on_cooldown(&self, agent_id: u32, sim_time_ms: u64) -> (r: bool)
        ensures
            r == self.cooling_at(agent_id, sim_time_ms),
    {
        broadcast use vstd::std_specs::hash::group_hash_axioms;

        match self.last_reroute.get(&agent_id) {
            Some(last) => {
                if sim_time_ms >= *last {
                    sim_time_ms - *last < self.config.cooldown_ms
                } else {
                    true
                }
            },
            None => false,
        }
    }

    /// Push an agent to the immediate evaluation queue (once).
    ///
    /// The agent will be included in the next batch, displacing
    /// regular round-robin agents (not added on top of the budget).
    pub fn add_immediate_trigger(&mut self, agent_id: u32)
        ensures
            final(self).queue() == if old(self).queue().contains(agent_id) {
                old(self).queue()
            } else {
                old(self).queue().push(agent_id)
            },
            final(self).ring() == old(self).ring(),
            final(self).population() == old(self).population(),
            final(self).budget() == old(self).budget(),
            final(self).cooldown_ms() == old(self).cooldown_ms(),
            final(self).last_reroutes() == old(self).last_reroutes(),
            old(self).wf() ==> final(self).wf(),
    {
        let found = vec_contains(&self.immediate_queue, agent_id);
        if !found {
            self.immediate_queue.push(agent_id);
            proof {
                let q = old(self).immediate_queue@;
                if q.no_duplicates() {
                    assert forall|a: int, b: int| 0 <= a < b < self.immediate_queue@.len() implies self.immediate_queue@[a] != self.immediate_queue@[b] by {
                        if b == q.len() {
                            assert(q.contains(q[a]));
                        }
                    }
                }
            }
        }
    }

    /// Queue every agent whose perception readback reports a blocked route
    /// or a nearby emergency vehicle (`flags[i]` is the flags word of agent
    /// `i`), in agent order, each at most once.
    pub fn add_perception_triggers(&mut self, flags: &Vec<u32>)
        requires
            flags@.len() <= u32::MAX,
        ensures
            final(self).queue() == queue_triggers(old(self).queue(), flags@, flags@.len() as int),
            final(self).ring() == old(self).ring(),
            final(self).population() == old(self).population(),
            final(self).budget() == old(self).budget(),
            final(self).cooldown_ms() == old(self).cooldown_ms(),
            final(self).last_reroutes() == old(self).last_reroutes(),
            old(self).wf() ==> final(self).wf(),
    {
        let mut i: usize = 0;
        while i < flags.len()
            invariant
                0 <= i <= flags@.len(),
                flags@.len() <= u32::MAX,
                self.queue() == queue_triggers(old(self).queue(), flags@, i as int),
                self.ring() == old(self).ring(),
                self.population() == old(self).population(),
                self.budget() == old(self).budget(),
                self.cooldown_ms() == old(self).cooldown_ms(),
                self.last_reroutes() == old(self).last_reroutes(),
                old(self).wf() ==> self.wf(),
            decreases flags@.len() - i,
        {
            if needs_immediate_evaluation(flags[i]) {
                self.add_immediate_trigger(i as u32);
            }
            i = i + 1;
        }
    }

    /// Get the next batch of agent IDs to evaluate for rerouting at the
    /// given simulation time (in milliseconds).
    ///
    /// 1. Pulls from the immediate queue first (setting aside agents on
    ///    cooldown, which stay queued ahead of the agents not reached),
    /// 2. fills the remainder from the round-robin ring (skipping agents on
    ///    cooldown and agents already in the batch), considering at most one
    ///    lap of the ring,
    /// 3. advances the ring past all considered agents.
    ///
    /// Returns up to `batch_size` agent IDs; nothing when the population is
    /// empty.
    pub fn next_batch(&mut self, sim_time_ms: u64) -> (r: Vec<u32>)
        requires
            old(self).wf(),
        ensures
            final(self).wf(),
            batch_step(*old(self), *final(self), sim_time_ms, r@),
    {
        if self.total_agents == 0 {
            return Vec::new();
        }
        let ghost q0 = self.immediate_queue@;
        let ghost ring0 = self.ring_index as nat;
        let ghost cool = self.cooldown_test(sim_time_ms);
        let budget = self.config.batch_size;
        let n = self.immediate_queue.len();

        // 1. Take from the immediate queue, setting aside agents on cooldown.
        let mut batch: Vec<u32> = Vec::new();
        let mut kept: Vec<u32> = Vec::new();
        let mut i: usize = 0;
        proof {
            assert(q0.skip(0) =~= q0);
        }
        while batch.len() < budget && i < n
            invariant
                n == self.immediate_queue@.len(),
                q0 == self.immediate_queue@,
                budget == self.config.batch_size,
                cool == self.cooldown_test(sim_time_ms),
                0 <= i <= n,
                drain_immediate(q0, cool, budget as nat, Seq::empty(), Seq::empty())
                    == drain_immediate(q0.skip(i as int), cool, budget as nat, batch@, kept@),
            decreases n - i,
        {
            let id = self.immediate_queue[i];
            proof {
                assert(q0.skip(i as int)[0] == id);
                assert(q0.skip(i as int).drop_first() =~= q0.skip(i + 1));
            }
            if self.is_on_cooldown(id, sim_time_ms) {
                kept.push(id);
            } else {
                batch.push(id);
            }
            i = i + 1;
        }
        proof {
            assert(drain_immediate(q0, cool, budget as nat, Seq::empty(), Seq::empty())
                == (batch@, kept@ + q0.skip(i as int)));
        }
        // Put back the agents not reached, after the ones set aside.
        while i < n
            invariant
                n == self.immediate_queue@.len(),
                q0 == self.immediate_queue@,
                0 <= i <= n,
                drain_immediate(q0, cool, budget as nat, Seq::empty(), Seq::empty()).1
                    == kept@ + q0.skip(i as int),
            decreases n - i,
        {
            let id = self.immediate_queue[i];
            proof {
                assert(q0.skip(i as int) =~= seq![id] + q0.skip(i + 1));
                assert(kept@.push(id) + q0.skip(i + 1) =~= kept@ + q0.skip(i as int));
            }
            kept.push(id);
            i = i + 1;
        }
        proof {
            assert(kept@ + q0.skip(n as int) =~= kept@);
            lemma_drain_keeps_distinct(q0, cool, budget as nat, Seq::empty(), Seq::empty());
        }
        self.immediate_queue = kept;

        // 2. Fill from the round-robin ring.
        let ghost b1 = batch@;
        let ghost q1 = self.immediate_queue@;
        let ghost total0 = self.total_agents;
        let ghost cd0 = self.config.cooldown_ms;
        let ghost lr0 = self.last_reroute@;
        let mut considered: usize = 0;
        while batch.len() < budget && considered < self.total_agents
            invariant
                budget == self.config.batch_size,
                cd0 == self.config.cooldown_ms,
                lr0 == self.last_reroute@,
                cool == self.cooldown_test(sim_time_ms),
                self.immediate_queue@ == q1,
                q1.no_duplicates(),
                self.total_agents == total0,
                self.total_agents > 0,
                self.ring_index < self.total_agents,
                considered <= self.total_agents,
                fill_from_ring(ring0, self.total_agents as nat, cool, budget as nat, b1, 0)
                    == fill_from_ring(
                    self.ring_index as nat,
                    self.total_agents as nat,
                    cool,
                    budget as nat,
                    batch@,
                    considered as nat,
                ),
            decreases self.total_agents - considered,
        {
            let agent_id = #[verifier::truncate] (self.ring_index as u32);
            self.ring_index = (self.ring_index + 1) % self.total_agents;
            considered = considered + 1;
            if vec_contains(&batch, agent_id) {
                continue;
            }
            if self.is_on_cooldown(agent_id, sim_time_ms) {
                continue;
            }
            batch.push(agent_id);
        }
        batch
    }
}

/// Whether `v` holds `x`.
fn vec_contains(v: &Vec<u32>, x: u32) -> (r: bool)
    ensures
        r == v@.contains(x),
{
    let mut i: usize = 0;
    while i < v.len()
        invariant
            0 <= i <= v@.len(),
            forall|k: int| 0 <= k < i ==> v@[k] != x,
        decreases v@.len() - i,
    {
        if v[i] == x {
            return true;
        }
        i = i + 1;
    }
    false
}

/// No element repeats within, or is shared between, the two sequences.
pub open spec fn distinct_pair(a: Seq<u32>, b: Seq<u32>) -> bool {
    a.no_duplicates() && b.no_duplicates() && forall|i: int, j: int|
        0 <= i < a.len() && 0 <= j < b.len() ==> a[i] != b[j]
}

proof fn lemma_concat_distinct(a: Seq<u32>, b: Seq<u32>)
    requires
        distinct_pair(a, b),
    ensures
        (a + b).no_duplicates(),
{
    assert forall|i: int, j: int| 0 <= i < j < (a + b).len() implies (a + b)[i] != (a + b)[j] by {
        if j < a.len() {
        } else if i >= a.len() {
            assert((a + b)[i] == b[i - a.len()]);
            assert((a + b)[j] == b[j - a.len()]);
        } else {
            assert((a + b)[j] == b[j - a.len()]);
        }
    }
}

/// Draining keeps the leftover queue free of repeats.
proof fn lemma_drain_keeps_distinct(queue: Seq<u32>, on_cooldown: spec_fn(u32) -> bool, budget: nat, batch: Seq<u32>, skipped: Seq<u32>)
    requires
        distinct_pair(skipped, queue),
    ensures
        drain_immediate(queue, on_cooldown, budget, batch, skipped).1.no_duplicates(),
    decreases queue.len(),
{
    if batch.len() >= budget || queue.len() == 0 {
        lemma_concat_distinct(skipped, queue);
    } else {
        let x = queue[0];
        let rest = queue.drop_first();
        assert forall|i: int, j: int| 0 <= i < j < rest.len() implies rest[i] != rest[j] by {
            assert(rest[i] == queue[i + 1] && rest[j] == queue[j + 1]);
        }
        if on_cooldown(x) {
            let s2 = skipped.push(x);
            assert forall|i: int, j: int| 0 <= i < j < s2.len() implies s2[i] != s2[j] by {
                if j == skipped.len() {
                    assert(s2[i] == skipped[i]);
                    assert(skipped[i] != queue[0]);
                }
            }
            assert forall|i: int, j: int| 0 <= i < s2.len() && 0 <= j < rest.len() implies s2[i] != rest[j] by {
                assert(rest[j] == queue[j + 1]);
                if i == skipped.len() {
                    assert(queue[0] != queue[j + 1]);
                }
            }
            lemma_drain_keeps_distinct(rest, on_cooldown, budget, batch, s2);
        } else {
            assert forall|i: int, j: int| 0 <= i < skipped.len() && 0 <= j < rest.len() implies skipped[i] != rest[j] by {
                assert(rest[j] == queue[j + 1]);
            }
            lemma_drain_keeps_distinct(rest, on_cooldown, budget, batch.push(x), skipped);
        }
    }
}

/// A batch within budget, without repeats, holding no agent on cooldown.
pub open spec fn fresh_batch(batch: Seq<u32>, on_cooldown: spec_fn(u32) -> bool, budget: nat) -> bool {
    &&& batch.len() <= budget
    &&& batch.no_duplicates()
    &&& forall|k: int| 0 <= k < batch.len() ==> !on_cooldown(#[trigger] batch[k])
}

proof fn lemma_drain_fresh(queue: Seq<u32>, on_cooldown: spec_fn(u32) -> bool, budget: nat, batch: Seq<u32>, skipped: Seq<u32>)
    requires
        fresh_batch(batch, on_cooldown, budget),
        distinct_pair(batch, queue),
    ensures
        fresh_batch(drain_immediate(queue, on_cooldown, budget, batch, skipped).0, on_cooldown, budget),
    decreases queue.len(),
{
    if batch.len() >= budget || queue.len() == 0 {
    } else {
        let x = queue[0];
        let rest = queue.drop_first();
        assert forall|i: int, j: int| 0 <= i < j < rest.len() implies rest[i] != rest[j] by {
            assert(rest[i] == queue[i + 1] && rest[j] == queue[j + 1]);
        }
        if on_cooldown(x) {
            assert forall|i: int, j: int| 0 <= i < batch.len() && 0 <= j < rest.len() implies batch[i] != rest[j] by {
                assert(rest[j] == queue[j + 1]);
            }
            lemma_drain_fresh(rest, on_cooldown, budget, batch, skipped.push(x));
        } else {
            let b2 = batch.push(x);
            assert forall|i: int, j: int| 0 <= i < j < b2.len() implies b2[i] != b2[j] by {
                if j == batch.len() {
                    assert(batch[i] != queue[0]);
                }
            }
            assert forall|i: int, j: int| 0 <= i < b2.len() && 0 <= j < rest.len() implies b2[i] != rest[j] by {
                assert(rest[j] == queue[j + 1]);
                if i == batch.len() {
                    assert(queue[0] != queue[j + 1]);
                }
            }
            lemma_drain_fresh(rest, on_cooldown, budget, b2, skipped);
        }
    }
}

proof fn lemma_fill_fresh(ring: nat, total: nat, on_cooldown: spec_fn(u32) -> bool, budget: nat, batch: Seq<u32>, considered: nat)
    requires
        fresh_batch(batch, on_cooldown, budget),
    ensures
        fresh_batch(fill_from_ring(ring, total, on_cooldown, budget, batch, considered).0, on_cooldown, budget),
        batch.is_prefix_of(fill_from_ring(ring, total, on_cooldown, budget, batch, considered).0),
    decreases total - considered,
{
    if batch.len() >= budget || considered >= total {
    } else {
        let id = ring as u32;
        let next = ((ring + 1) % total) as nat;
        if batch.contains(id) || on_cooldown(id) {
            lemma_fill_fresh(next, total, on_cooldown, budget, batch, considered + 1);
        } else {
            let b2 = batch.push(id);
            assert forall|i: int, j: int| 0 <= i < j < b2.len() implies b2[i] != b2[j] by {
                if j == batch.len() {
                    assert(batch.contains(batch[i]));
                }
            }
            lemma_fill_fresh(next, total, on_cooldown, budget, b2, considered + 1);
        }
    }
}

/// The agents of the queue that are not on cooldown, in queue order.
pub open spec fn ready_triggers(queue: Seq<u32>, on_cooldown: spec_fn(u32) -> bool) -> Seq<u32> {
    queue.filter(|x: u32| !on_cooldown(x))
}

proof fn lemma_drain_takes_ready(queue: Seq<u32>, on_cooldown: spec_fn(u32) -> bool, budget: nat, batch: Seq<u32>, skipped: Seq<u32>)
    requires
        batch.len() <= budget,
    ensures
        drain_immediate(queue, on_cooldown, budget, batch, skipped).0 == batch + ready_triggers(queue, on_cooldown).take(
            vstd::math::min((budget - batch.len()) as int, ready_triggers(queue, on_cooldown).len() as int),
        ),
    decreases queue.len(),
{
    let p = |x: u32| !on_cooldown(x);
    if queue.len() == 0 {
        assert(queue.filter(p) =~= Seq::<u32>::empty()) by {
            reveal(Seq::filter);
        }
        assert(batch + Seq::<u32>::empty().take(0) =~= batch);
    } else if batch.len() >= budget {
        assert(batch + queue.filter(p).take(0) =~= batch);
    } else {
        let x = queue[0];
        let rest = queue.drop_first();
        assert(queue =~= seq![x] + rest);
        rest.lemma_filter_prepend(x, p);
        if on_cooldown(x) {
            lemma_drain_takes_ready(rest, on_cooldown, budget, batch, skipped.push(x));
        } else {
            lemma_drain_takes_ready(rest, on_cooldown, budget, batch.push(x), skipped);
            let f = rest.filter(p);
            let m = vstd::math::min((budget - batch.len() - 1) as int, f.len() as int);
            assert(queue.filter(p) =~= seq![x] + f);
            assert(batch.push(x) + f.take(m) =~= batch + (seq![x] + f).take(m + 1));
        }
    }
}

/// Law: every batch stays within the budget, names no agent twice and no
/// agent on cooldown; it starts with the triggered agents that are not on
/// cooldown, in trigger order, as many as the budget allows.
pub proof fn law_batch_is_fresh_and_triggers_first(sched: RerouteScheduler, now: u64)
    requires
        sched.wf(),
        sched.population() > 0,
    ensures
        ({
            let cool = sched.cooldown_test(now);
            let drained = drain_immediate(sched.queue(), cool, sched.budget(), Seq::empty(), Seq::empty());
            let filled = fill_from_ring(sched.ring(), sched.population(), cool, sched.budget(), drained.0, 0);
            let ready = ready_triggers(sched.queue(), cool);
            &&& fresh_batch(filled.0, cool, sched.budget())
            &&& ready.take(vstd::math::min(sched.budget() as int, ready.len() as int)).is_prefix_of(filled.0)
        }),
{
    let q = sched.queue();
    let b = sched.budget();
    let cool = sched.cooldown_test(now);
    lemma_drain_fresh(q, cool, b, Seq::empty(), Seq::empty());
    lemma_drain_takes_ready(q, cool, b, Seq::empty(), Seq::empty());
    let drained = drain_immediate(q, cool, b, Seq::empty(), Seq::empty());
    let ready = ready_triggers(q, cool);
    assert(Seq::<u32>::empty() + ready.take(vstd::math::min(b as int, ready.len() as int))
        =~= ready.take(vstd::math::min(b as int, ready.len() as int)));
    lemma_fill_fresh(sched.ring(), sched.population(), cool, b, drained.0, 0);
}

proof fn lemma_drain_keeps_all(queue: Seq<u32>, on_cooldown: spec_fn(u32) -> bool, budget: nat, batch: Seq<u32>, skipped: Seq<u32>, x: u32)
    requires
        queue.contains(x) || batch.contains(x) || skipped.contains(x),
    ensures
        drain_immediate(queue, on_cooldown, budget, batch, skipped).0.contains(x)
            || drain_immediate(queue, on_cooldown, budget, batch, skipped).1.contains(x),
    decreases queue.len(),
{
    if batch.len() >= budget || queue.len() == 0 {
        if queue.contains(x) {
            let k = choose|k: int| 0 <= k < queue.len() && queue[k] == x;
            assert((skipped + queue)[skipped.len() + k] == x);
        } else if skipped.contains(x) {
            let k = choose|k: int| 0 <= k < skipped.len() && skipped[k] == x;
            assert((skipped + queue)[k] == x);
        }
    } else {
        let rest = queue.drop_first();
        if queue.contains(x) && queue[0] != x {
            let k = choose|k: int| 0 <= k < queue.len() && queue[k] == x;
            assert(rest[k - 1] == x);
        }
        if on_cooldown(queue[0]) {
            let s2 = skipped.push(queue[0]);
            if skipped.contains(x) {
                let k = choose|k: int| 0 <= k < skipped.len() && skipped[k] == x;
                assert(s2[k] == x);
            }
            assert(s2[skipped.len() as int] == queue[0]);
            lemma_drain_keeps_all(rest, on_cooldown, budget, batch, s2, x);
        } else {
            let b2 = batch.push(queue[0]);
            if batch.contains(x) {
                let k = choose|k: int| 0 <= k < batch.len() && batch[k] == x;
                assert(b2[k] == x);
            }
            assert(b2[batch.len() as int] == queue[0]);
            lemma_drain_keeps_all(rest, on_cooldown, budget, b2, skipped, x);
        }
    }
}

/// Law: a triggered agent is never dropped: after a step it is either in
/// the batch or still waiting in the immediate queue.
pub proof fn law_triggers_not_lost(sched: RerouteScheduler, now: u64, agent: u32)
    requires
        sched.wf(),
        sched.population() > 0,
        sched.queue().contains(agent),
    ensures
        ({
            let cool = sched.cooldown_test(now);
            let drained = drain_immediate(sched.queue(), cool, sched.budget(), Seq::empty(), Seq::empty());
            let filled = fill_from_ring(sched.ring(), sched.population(), cool, sched.budget(), drained.0, 0);
            filled.0.contains(agent) || drained.1.contains(agent)
        }),
{
    let cool = sched.cooldown_test(now);
    let b = sched.budget();
    lemma_drain_keeps_all(sched.queue(), cool, b, Seq::empty(), Seq::empty(), agent);
    let drained = drain_immediate(sched.queue(), cool, b, Seq::empty(), Seq::empty());
    if drained.0.contains(agent) {
        lemma_drain_fresh(sched.queue(), cool, b, Seq::empty(), Seq::empty());
        lemma_fill_fresh(sched.ring(), sched.population(), cool, b, drained.0, 0);
        let filled = fill_from_ring(sched.ring(), sched.population(), cool, b, drained.0, 0);
        let k = choose|k: int| 0 <= k < drained.0.len() && drained.0[k] == agent;
        assert(filled.0[k] == agent);
    }
}

/// Law: once an agent's reroute is recorded at time `t`, the agent is on
/// cooldown at exactly the times `now` with `now - t < cooldown`.
pub proof fn law_cooldown_window(before: RerouteScheduler, after: RerouteScheduler, agent: u32, t: u64, now: u64)
    requires
        after.last_reroutes() == before.last_reroutes().insert(agent, t),
        after.cooldown_ms() == before.cooldown_ms(),
    ensures
        after.cooling_at(agent, now) <==> (now as int) - (t as int) < after.cooldown_ms() as int,
{
}

proof fn lemma_mod_wrap(y: int, t: int)
    requires
        0 < t,
        0 <= y < 2 * t,
    ensures
        y % t == if y < t { y } else { y - t },
{
    if y < t {
        vstd::arithmetic::div_mod::lemma_small_mod(y as nat, t as nat);
    } else {
        vstd::arithmetic::div_mod::lemma_fundamental_div_mod_converse(y, t, 1, y - t);
    }
}

/// The ring positions `ring, ring + 1, ...` (wrapping at `total`) as agent IDs.
pub open spec fn ring_run(ring: nat, total: nat, len: nat) -> Seq<u32> {
    Seq::new(len, |k: int| ((ring + k) % (total as int)) as u32)
}

proof fn lemma_fill_round_robin(ring0: nat, total: nat, on_cooldown: spec_fn(u32) -> bool, budget: nat, k: nat)
    requires
        0 < total <= u32::MAX + 1,
        ring0 < total,
        budget <= total,
        k <= budget,
        forall|id: u32| !#[trigger] on_cooldown(id),
    ensures
        fill_from_ring(((ring0 + k) % total) as nat, total, on_cooldown, budget, ring_run(ring0, total, k), k)
            == (ring_run(ring0, total, budget), ((ring0 + budget) % total) as nat),
    decreases budget - k,
{
    let cur = ((ring0 + k) % total) as nat;
    let batch = ring_run(ring0, total, k);
    lemma_mod_wrap((ring0 + k) as int, total as int);
    if k == budget {
    } else {
        let id = cur as u32;
        assert(id as int == cur);
        assert(!on_cooldown(id));
        assert(!batch.contains(id)) by {
            if batch.contains(id) {
                let a = choose|a: int| 0 <= a < batch.len() && batch[a] == id;
                lemma_mod_wrap(ring0 + a, total as int);
            }
        }
        lemma_mod_wrap((cur + 1) as int, total as int);
        lemma_mod_wrap((ring0 + k + 1) as int, total as int);
        assert(((cur + 1) % total) as nat == ((ring0 + (k + 1)) % total) as nat);
        assert(batch.push(id) =~= ring_run(ring0, total, k + 1));
        lemma_fill_round_robin(ring0, total, on_cooldown, budget, k + 1);
    }
}

/// Law: without triggers and with no agent on cooldown at time `now`, a
/// batch is the next `budget` agents of the ring (wrapping around the
/// population), and the ring advances by `budget`.
pub proof fn law_round_robin(sched: RerouteScheduler, now: u64)
    requires
        sched.wf(),
        sched.queue().len() == 0,
        0 < sched.population() <= u32::MAX + 1,
        sched.budget() <= sched.population(),
        forall|id: u32| !#[trigger] sched.cooling_at(id, now),
    ensures
        ({
            let cool = sched.cooldown_test(now);
            let drained = drain_immediate(sched.queue(), cool, sched.budget(), Seq::empty(), Seq::empty());
            let filled = fill_from_ring(sched.ring(), sched.population(), cool, sched.budget(), drained.0, 0);
            &&& filled.0 == ring_run(sched.ring(), sched.population(), sched.budget())
            &&& filled.1 == (sched.ring() + sched.budget()) % sched.population()
        }),
{
    let t = sched.population();
    let r = sched.ring();
    let cool = sched.cooldown_test(now);
    assert(drain_immediate(sched.queue(), cool, sched.budget(), Seq::empty(), Seq::empty()).0 =~= Seq::<u32>::empty());
    vstd::arithmetic::div_mod::lemma_small_mod(r, t);
    assert(ring_run(r, t, 0) =~= Seq::<u32>::empty());
    assert forall|id: u32| !#[trigger] cool(id) by {
        assert(!sched.cooling_at(id, now));
    }
    lemma_fill_round_robin(r, t, cool, sched.budget(), 0);
}

/// Law: consecutive round-robin batches join up: the run of `a` agents
/// from ring position `ring`, followed by the run of `b` agents from where
/// it stopped, is the run of `a + b` agents from `ring`.
pub proof fn law_ring_runs_concatenate(ring: nat, total: nat, a: nat, b: nat)
    requires
        0 < total,
    ensures
        ring_run(ring, total, a) + ring_run(((ring + a) % total) as nat, total, b) == ring_run(ring, total, a + b),
{
    let lhs = ring_run(ring, total, a) + ring_run(((ring + a) % total) as nat, total, b);
    let rhs = ring_run(ring, total, a + b);
    assert forall|k: int| 0 <= k < a + b implies lhs[k] == rhs[k] by {
        if k >= a {
            vstd::arithmetic::div_mod::lemma_add_mod_noop_right(k - a, (ring + a) as int, total as int);
            assert((k - a) + (ring + a) == ring + k);
        }
    }
    assert(lhs =~= rhs);
}

/// Law: one full lap of the ring, from any position inside the
/// population, names every agent exactly once.
pub proof fn law_full_lap_covers_each_agent_once(ring: nat, total: nat)
    requires
        0 < total <= u32::MAX + 1,
        ring < total,
    ensures
        ring_run(ring, total, total).no_duplicates(),
        forall|agent: u32| agent < total ==> #[trigger] ring_run(ring, total, total).contains(agent),
{
    let s = ring_run(ring, total, total);
    assert forall|i: int| 0 <= i < total implies s[i] as int == (if ring + i < total { ring + i } else { ring + i - total }) by {
        lemma_mod_wrap(ring + i, total as int);
    }
    assert forall|i: int, j: int| 0 <= i < j < s.len() implies s[i] != s[j] by {
        assert(s[i] as int == (if ring + i < total { ring + i } else { ring + i - total }));
        assert(s[j] as int == (if ring + j < total { ring + j } else { ring + j - total }));
    }
    assert forall|agent: u32| agent < total implies #[trigger] s.contains(agent) by {
        let k: int = if agent >= ring { agent - ring } else { agent + total - ring };
        assert(s[k] as int == (if ring + k < total { ring + k } else { ring + k - total }));
        assert(s[k] == agent);
    }
}

/// The batches handed out by the first `k` steps, one after another.
pub open spec fn concat_batches(batches: Seq<Seq<u32>>, k: int) -> Seq<u32>
    decreases k,
{
    if k <= 0 {
        Seq::empty()
    } else {
        concat_batches(batches, k - 1) + batches[k - 1]
    }
}

proof fn lemma_batches_prefix(scheds: Seq<RerouteScheduler>, nows: Seq<u64>, batches: Seq<Seq<u32>>, k: nat, j: nat)
    requires
        scheds.len() == k + 1,
        nows.len() == k,
        batches.len() == k,
        scheds[0].wf(),
        scheds[0].queue().len() == 0,
        0 < scheds[0].population() <= u32::MAX + 1,
        scheds[0].budget() <= scheds[0].population(),
        forall|i: int| 0 <= i < k ==> #[trigger] batch_step(scheds[i], scheds[i + 1], nows[i], batches[i]),
        forall|i: int, id: u32| 0 <= i < k ==> !#[trigger] scheds[i].cooling_at(id, nows[i]),
        j <= k,
    ensures
        concat_batches(batches, j as int) == ring_run(scheds[0].ring(), scheds[0].population(), j * scheds[0].budget()),
        scheds[j as int].ring() == (scheds[0].ring() + j * scheds[0].budget()) % scheds[0].population(),
        scheds[j as int].queue().len() == 0,
        scheds[j as int].population() == scheds[0].population(),
        scheds[j as int].budget() == scheds[0].budget(),
        forall|i: int| 0 <= i < j ==> (#[trigger] batches[i]).len() == scheds[0].budget(),
    decreases j,
{
    let r0 = scheds[0].ring();
    let n = scheds[0].population();
    let b = scheds[0].budget();
    if j == 0 {
        vstd::arithmetic::div_mod::lemma_small_mod(r0, n);
        assert(ring_run(r0, n, 0) =~= Seq::<u32>::empty());
    } else {
        let i = (j - 1) as nat;
        lemma_batches_prefix(scheds, nows, batches, k, i);
        let s = scheds[i as int];
        vstd::arithmetic::div_mod::lemma_mod_bound((r0 + i * b) as int, n as int);
        assert(s.queue() =~= Seq::<u32>::empty());
        assert(s.wf());
        assert(batch_step(scheds[i as int], scheds[i as int + 1], nows[i as int], batches[i as int]));
        assert(i as int + 1 == j as int);
        assert forall|id: u32| !#[trigger] s.cooling_at(id, nows[i as int]) by {
            assert(!scheds[i as int].cooling_at(id, nows[i as int]));
        }
        law_round_robin(s, nows[i as int]);
        let cool = s.cooldown_test(nows[i as int]);
        assert(drain_immediate(s.queue(), cool, b, Seq::empty(), Seq::empty()).1 =~= Seq::<u32>::empty());
        assert(i * b + b == j * b) by (nonlinear_arith)
            requires
                j == i + 1,
        ;
        law_ring_runs_concatenate(r0, n, i * b, b);
        vstd::arithmetic::div_mod::lemma_add_mod_noop_right(b as int, (r0 + i * b) as int, n as int);
        assert(concat_batches(batches, j as int) == concat_batches(batches, i as int) + batches[i as int]);
        assert(batches[i as int].len() == b);
    }
}

/// Law: with no triggers queued and no agent on cooldown, `k` consecutive
/// steps of the scheduler (each as `next_batch` performs it) each hand out
/// exactly `budget` agents, together the next `k * budget` ring positions
/// in order; when `k * budget` is the population, every agent is handed
/// out exactly once.
pub proof fn law_consecutive_batches_cover(
    scheds: Seq<RerouteScheduler>,
    nows: Seq<u64>,
    batches: Seq<Seq<u32>>,
    k: nat,
)
    requires
        scheds.len() == k + 1,
        nows.len() == k,
        batches.len() == k,
        scheds[0].wf(),
        scheds[0].queue().len() == 0,
        0 < scheds[0].population() <= u32::MAX + 1,
        scheds[0].budget() <= scheds[0].population(),
        forall|i: int| 0 <= i < k ==> #[trigger] batch_step(scheds[i], scheds[i + 1], nows[i], batches[i]),
        forall|i: int, id: u32| 0 <= i < k ==> !#[trigger] scheds[i].cooling_at(id, nows[i]),
    ensures
        forall|i: int| 0 <= i < k ==> (#[trigger] batches[i]).len() == scheds[0].budget(),
        concat_batches(batches, k as int) == ring_run(scheds[0].ring(), scheds[0].population(), k * scheds[0].budget()),
        k * scheds[0].budget() == scheds[0].population() ==> {
            &&& concat_batches(batches, k as int).no_duplicates()
            &&& forall|agent: u32| agent < scheds[0].population() ==> #[trigger] concat_batches(batches, k as int).contains(agent)
        },
{
    lemma_batches_prefix(scheds, nows, batches, k, k);
    if k * scheds[0].budget() == scheds[0].population() {
        law_full_lap_covers_each_agent_once(scheds[0].ring(), scheds[0].population());
    }
}

} // verus!
