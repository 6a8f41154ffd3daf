//! Helpers for the wave-front compute pass: the per-agent flags word and
//! the lane-sorted agent ordering that gives one workgroup per lane.

use vstd::prelude::*;
use crate::components::GpuAgentState;
use crate::cost::{encode_profile_spec, encode_profile_in_flags, profile_id, AgentProfile};

verus! {

/// Flag bit set while a bus is dwelling at a stop.
pub const FLAG_BUS_DWELLING: u32 = 1;

/// Flag bit set while an emergency vehicle is active.
pub const FLAG_EMERGENCY_ACTIVE: u32 = 2;

/// The flags word built from vehicle state: bit 0 for a dwelling bus, bit 1
/// for an active emergency vehicle, bits 4-7 for the profile.
pub open spec fn agent_flags_spec(is_bus_dwelling: bool, is_emergency: bool, profile: AgentProfile) -> u32 {
    let low: u32 = (if is_bus_dwelling { 1u32 } else { 0u32 }) | (if is_emergency { 2u32 } else { 0u32 });
    encode_profile_spec(low, profile)
}

/// Compute agent flags bitfield from vehicle state.
///
/// Combines FLAG_BUS_DWELLING (bit 0), FLAG_EMERGENCY_ACTIVE (bit 1),
/// and agent profile ID (bits 4-7) via `encode_profile_in_flags`.
pub fn compute_agent_flags(is_bus_dwelling: bool, is_emergency: bool, profile: AgentProfile) -> (r: u32)
    ensures
        r == agent_flags_spec(is_bus_dwelling, is_emergency, profile),
        (r & 1 == 1) == is_bus_dwelling,
        (r & 2 == 2) == is_emergency,
        r & 0x0C == 0,
{
    let mut f = 0u32;
    if is_bus_dwelling {
        f = f | FLAG_BUS_DWELLING;
    }
    if is_emergency {
        f = f | FLAG_EMERGENCY_ACTIVE;
    }
    proof {
        assert(0u32 | 1u32 == 1u32) by (bit_vector);
        assert(0u32 | 2u32 == 2u32) by (bit_vector);
        assert(1u32 | 2u32 == 3u32) by (bit_vector);
        assert(0u32 | 0u32 == 0u32) by (bit_vector);
        assert(1u32 | 0u32 == 1u32) by (bit_vector);
    }
    let r = encode_profile_in_flags(f, profile);
    proof {
        assert(f <= 3);
        assert((r & 0x0F == f & 0x0F && f <= 3) ==> ((r & 1 == 1) == (f & 1 == 1) && (r & 2 == 2)
            == (f & 2 == 2) && r & 0x0C == 0)) by (bit_vector);
        assert(f == 0 || f == 1 || f == 2 || f == 3);
        assert((f == 0 || f == 1 || f == 2 || f == 3) ==> (f & 1 == 1) == (f == 1 || f == 3))
            by (bit_vector);
        assert((f == 0 || f == 1 || f == 2 || f == 3) ==> (f & 2 == 2) == (f == 2 || f == 3))
            by (bit_vector);
    }
    r
}

/// Flags word with the default (commuter) profile: bit 0 for a dwelling
/// bus, bit 1 for an active emergency vehicle, profile bits 0.
pub fn compute_agent_flags_test(is_bus_dwelling: bool, is_emergency: bool) -> (r: u32)
    ensures
        r == agent_flags_spec(is_bus_dwelling, is_emergency, AgentProfile::Commuter),
        r == (if is_bus_dwelling { 1u32 } else { 0u32 }) + (if is_emergency { 2u32 } else { 0u32 }),
{
    let r = compute_agent_flags(is_bus_dwelling, is_emergency, AgentProfile::Commuter);
    proof {
        let low: u32 = (if is_bus_dwelling { 1u32 } else { 0u32 }) | (if is_emergency { 2u32 } else { 0u32 });
        assert(0u32 | 1u32 == 1u32) by (bit_vector);
        assert(0u32 | 2u32 == 2u32) by (bit_vector);
        assert(1u32 | 2u32 == 3u32) by (bit_vector);
        assert(0u32 | 0u32 == 0u32) by (bit_vector);
        assert(1u32 | 0u32 == 1u32) by (bit_vector);
        assert(low <= 3);
        assert(profile_id(AgentProfile::Commuter) == 0);
        assert(low <= 3 ==> (low & 0x0F) | ((0u8 as u32) << 4u32) == low) by (bit_vector);
    }
    r
}

/// Most workgroups a dispatch may have along one dimension.
pub const MAX_WORKGROUPS_PER_DIM: u32 = 65535;

/// The workgroup grid of a wave-front dispatch with one workgroup per
/// lane: nothing to dispatch without lanes; otherwise `x` is the lane
/// count capped at 65535 and `y` the number of such rows needed (rounded
/// up).
pub fn wave_front_grid(lane_count: u32) -> (r: Option<(u32, u32)>)
    ensures
        lane_count == 0 <==> r is None,
        r matches Some((x, y)) ==> {
            &&& x == if lane_count < MAX_WORKGROUPS_PER_DIM { lane_count } else { MAX_WORKGROUPS_PER_DIM }
            &&& y == (lane_count + MAX_WORKGROUPS_PER_DIM - 1) / (MAX_WORKGROUPS_PER_DIM as int)
            &&& (y - 1) * MAX_WORKGROUPS_PER_DIM < lane_count <= y * MAX_WORKGROUPS_PER_DIM
        },
{
    if lane_count == 0 {
        return None;
    }
    let x = if lane_count < MAX_WORKGROUPS_PER_DIM { lane_count } else { MAX_WORKGROUPS_PER_DIM };
    let y = lane_count / MAX_WORKGROUPS_PER_DIM + if lane_count % MAX_WORKGROUPS_PER_DIM == 0 { 0 } else { 1 };
    proof {
        let n = lane_count as int;
        let m = MAX_WORKGROUPS_PER_DIM as int;
        vstd::arithmetic::div_mod::lemma_fundamental_div_mod(n, m);
        vstd::arithmetic::div_mod::lemma_fundamental_div_mod(n + m - 1, m);
        assert((n + m - 1) / m == n / m + if n % m == 0 { 0int } else { 1int }) by (nonlinear_arith)
            requires
                m > 0,
                n == m * (n / m) + n % m,
                0 <= n % m < m,
                n + m - 1 == m * ((n + m - 1) / m) + (n + m - 1) % m,
                0 <= (n + m - 1) % m < m,
        ;
        assert((y - 1) * m < n <= y * m) by (nonlinear_arith)
            requires
                m > 0,
                n > 0,
                n == m * (n / m) + n % m,
                0 <= n % m < m,
                y == n / m + if n % m == 0 { 0int } else { 1int },
        ;
    }
    Some((x, y))
}

/// Two agents are on the same lane (same edge and lane index).
pub open spec fn same_lane(a: GpuAgentState, b: GpuAgentState) -> bool {
    a.edge_id == b.edge_id && a.lane_idx == b.lane_idx
}

/// Lane `a` comes before lane `b`: lanes are ordered by edge, then by lane
/// index.
pub open spec fn lane_before(a: GpuAgentState, b: GpuAgentState) -> bool {
    a.edge_id < b.edge_id || (a.edge_id == b.edge_id && a.lane_idx < b.lane_idx)
}

/// Agent `i` is dispatched before agent `j`: lanes in ascending order;
/// within a lane, agents further along the edge first; agents at the same
/// position keep their input order.
pub open spec fn dispatch_before(agents: Seq<GpuAgentState>, i: int, j: int) -> bool {
    let a = agents[i];
    let b = agents[j];
    ||| lane_before(a, b)
    ||| (same_lane(a, b) && a.position > b.position)
    ||| (same_lane(a, b) && a.position == b.position && i < j)
}

/// The indices are listed in strictly increasing dispatch order.
pub open spec fn in_dispatch_order(agents: Seq<GpuAgentState>, idx: Seq<u32>) -> bool {
    forall|p: int, q: int|
        0 <= p < q < idx.len() ==> dispatch_before(agents, #[trigger] idx[p] as int, #[trigger] idx[q] as int)
}

/// Every index lies in `[lo, hi)`.
pub open spec fn indices_within(idx: Seq<u32>, lo: int, hi: int) -> bool {
    forall|p: int| 0 <= p < idx.len() ==> lo <= #[trigger] idx[p] < hi
}

/// Position `p` of the ordering starts a new lane.
pub open spec fn is_lane_start(agents: Seq<GpuAgentState>, idx: Seq<u32>, p: int) -> bool {
    p == 0 || !same_lane(agents[idx[p - 1] as int], agents[idx[p] as int])
}

/// `offsets` lists the lane starts of the ordering, in increasing order,
/// and `counts` the length of each lane's run.
pub open spec fn lane_runs(agents: Seq<GpuAgentState>, idx: Seq<u32>, n: int, offsets: Seq<u32>, counts: Seq<u32>) -> bool {
    &&& offsets.len() == counts.len()
    &&& forall|m: int, k: int| 0 <= m < k < offsets.len() ==> #[trigger] offsets[m] < #[trigger] offsets[k]
    &&& forall|m: int| 0 <= m < offsets.len() ==> (#[trigger] offsets[m]) < n && is_lane_start(agents, idx, offsets[m] as int)
    &&& forall|p: int| 0 <= p < n && #[trigger] is_lane_start(agents, idx, p) ==> exists|m: int| 0 <= m < offsets.len() && offsets[m] == p
    &&& forall|m: int| 0 <= m < counts.len() ==> #[trigger] counts[m] == (if m + 1 < offsets.len() { offsets[m + 1] as int } else { n }) - offsets[m]
}

proof fn lemma_dispatch_total(agents: Seq<GpuAgentState>, i: int, j: int)
    requires
        i != j,
    ensures
        dispatch_before(agents, i, j) || dispatch_before(agents, j, i),
        !(dispatch_before(agents, i, j) && dispatch_before(agents, j, i)),
{
}

proof fn lemma_dispatch_transitive(agents: Seq<GpuAgentState>, i: int, j: int, k: int)
    requires
        dispatch_before(agents, i, j),
        dispatch_before(agents, j, k),
    ensures
        dispatch_before(agents, i, k),
{
}

/// Whether agent `i` is dispatched before agent `j`.
fn dispatched_before(agents: &[GpuAgentState], i: u32, j: u32) -> (r: bool)
    requires
        i < agents@.len(),
        j < agents@.len(),
    ensures
        r == dispatch_before(agents@, i as int, j as int),
{
    let a = &agents[i as usize];
    let b = &agents[j as usize];
    if a.edge_id != b.edge_id {
        a.edge_id < b.edge_id
    } else if a.lane_idx != b.lane_idx {
        a.lane_idx < b.lane_idx
    } else if a.position != b.position {
        a.position > b.position
    } else {
        i < j
    }
}

/// Merge two dispatch-ordered index lists whose indices come from disjoint
/// ranges.
fn merge_by_dispatch(agents: &[GpuAgentState], left: &Vec<u32>, right: &Vec<u32>, lo: Ghost<int>, mid: Ghost<int>, hi: Ghost<int>) -> (r: Vec<u32>)
    requires
        0 <= lo@ <= mid@ <= hi@ <= agents@.len(),
        in_dispatch_order(agents@, left@),
        in_dispatch_order(agents@, right@),
        indices_within(left@, lo@, mid@),
        indices_within(right@, mid@, hi@),
        left@.len() + right@.len() <= usize::MAX,
    ensures
        r@.len() == left@.len() + right@.len(),
        in_dispatch_order(agents@, r@),
        indices_within(r@, lo@, hi@),
{
    let mut out: Vec<u32> = Vec::with_capacity(left.len() + right.len());
    let mut i: usize = 0;
    let mut j: usize = 0;
    while i < left.len() || j < right.len()
        invariant
            0 <= lo@ <= mid@ <= hi@ <= agents@.len(),
            in_dispatch_order(agents@, left@),
            in_dispatch_order(agents@, right@),
            indices_within(left@, lo@, mid@),
            indices_within(right@, mid@, hi@),
            i <= left@.len(),
            j <= right@.len(),
            out@.len() == i + j,
            in_dispatch_order(agents@, out@),
            indices_within(out@, lo@, hi@),
            out@.len() > 0 ==> forall|p: int| i <= p < left@.len() ==> dispatch_before(agents@, out@.last() as int, #[trigger] left@[p] as int),
            out@.len() > 0 ==> forall|p: int| j <= p < right@.len() ==> dispatch_before(agents@, out@.last() as int, #[trigger] right@[p] as int),
        decreases left@.len() + right@.len() - i - j,
    {
        let take_left = if i < left.len() && j < right.len() {
            proof {
                lemma_dispatch_total(agents@, left@[i as int] as int, right@[j as int] as int);
            }
            dispatched_before(agents, left[i], right[j])
        } else {
            i < left.len()
        };
        let x = if take_left { left[i] } else { right[j] };
        proof {
            if take_left {
                assert forall|p: int| i < p < left@.len() implies dispatch_before(agents@, x as int, #[trigger] left@[p] as int) by {}
                assert forall|p: int| j <= p < right@.len() implies dispatch_before(agents@, x as int, #[trigger] right@[p] as int) by {
                    if j < right@.len() {
                        if p > j {
                            lemma_dispatch_transitive(agents@, x as int, right@[j as int] as int, right@[p] as int);
                        }
                    }
                }
            } else {
                assert forall|p: int| j < p < right@.len() implies dispatch_before(agents@, x as int, #[trigger] right@[p] as int) by {}
                assert forall|p: int| i <= p < left@.len() implies dispatch_before(agents@, x as int, #[trigger] left@[p] as int) by {
                    if i < left@.len() {
                        if p > i {
                            lemma_dispatch_transitive(agents@, x as int, left@[i as int] as int, left@[p] as int);
                        }
                    }
                }
            }
        }
        let ghost prev = out@;
        out.push(x);
        proof {
            assert forall|p: int, q: int| 0 <= p < q < out@.len() implies dispatch_before(agents@, #[trigger] out@[p] as int, #[trigger] out@[q] as int) by {
                if q == out@.len() - 1 && p < q {
                    if p < prev.len() - 1 {
                        assert(dispatch_before(agents@, prev[p] as int, prev.last() as int));
                        if take_left {
                            assert(dispatch_before(agents@, prev.last() as int, left@[i as int] as int));
                        } else {
                            assert(dispatch_before(agents@, prev.last() as int, right@[j as int] as int));
                        }
                        lemma_dispatch_transitive(agents@, prev[p] as int, prev.last() as int, x as int);
                    } else {
                        if take_left {
                            assert(dispatch_before(agents@, prev.last() as int, left@[i as int] as int));
                        } else {
                            assert(dispatch_before(agents@, prev.last() as int, right@[j as int] as int));
                        }
                    }
                }
            }
        }
        if take_left {
            i = i + 1;
        } else {
            j = j + 1;
        }
    }
    out
}

/// The indices `lo..hi` listed in dispatch order.
fn sort_range_by_dispatch(agents: &[GpuAgentState], lo: u32, hi: u32) -> (r: Vec<u32>)
    requires
        lo <= hi <= agents@.len(),
    ensures
        r@.len() == hi - lo,
        in_dispatch_order(agents@, r@),
        indices_within(r@, lo as int, hi as int),
    decreases hi - lo,
{
    if hi - lo == 0 {
        Vec::new()
    } else if hi - lo == 1 {
        let mut v: Vec<u32> = Vec::new();
        v.push(lo);
        v
    } else {
        let mid = lo + (hi - lo) / 2;
        let left = sort_range_by_dispatch(agents, lo, mid);
        let right = sort_range_by_dispatch(agents, mid, hi);
        merge_by_dispatch(agents, &left, &right, Ghost(lo as int), Ghost(mid as int), Ghost(hi as int))
    }
}

/// Sort agents by lane for wave-front dispatch.
///
/// Returns `(lane_offsets, lane_counts, lane_agent_indices)`:
/// `lane_agent_indices` lists every agent index once, lanes in ascending
/// (edge, lane) order and, within a lane, agents in descending position
/// (equal positions in input order); lane `k` occupies
/// `lane_counts[k]` entries starting at `lane_offsets[k]`. An empty input
/// gives one empty lane: `([0], [0], [])`.
pub fn sort_agents_by_lane(agents: &[GpuAgentState]) -> (r: (Vec<u32>, Vec<u32>, Vec<u32>))
    requires
        agents@.len() <= u32::MAX,
    ensures
        agents@.len() == 0 ==> r.0@ == seq![0u32] && r.1@ == seq![0u32] && r.2@.len() == 0,
        agents@.len() > 0 ==> {
            &&& r.2@.len() == agents@.len()
            &&& indices_within(r.2@, 0, agents@.len() as int)
            &&& in_dispatch_order(agents@, r.2@)
            &&& lane_runs(agents@, r.2@, agents@.len() as int, r.0@, r.1@)
        },
{
    let n = agents.len();
    if n == 0 {
        let mut offsets: Vec<u32> = Vec::new();
        offsets.push(0);
        let mut counts: Vec<u32> = Vec::new();
        counts.push(0);
        return (offsets, counts, Vec::new());
    }
    let order = sort_range_by_dispatch(agents, 0, n as u32);
    let mut offsets: Vec<u32> = Vec::new();
    let mut counts: Vec<u32> = Vec::new();
    let mut p: usize = 0;
    while p < n
        invariant
            n == agents@.len(),
            n <= u32::MAX,
            order@.len() == n,
            indices_within(order@, 0, n as int),
            0 <= p <= n,
            offsets@.len() == counts@.len(),
            p > 0 ==> offsets@.len() > 0,
            forall|m: int, k: int| 0 <= m < k < offsets@.len() ==> #[trigger] offsets@[m] < #[trigger] offsets@[k],
            forall|m: int| 0 <= m < offsets@.len() ==> (#[trigger] offsets@[m]) < p && is_lane_start(agents@, order@, offsets@[m] as int),
            forall|q: int| 0 <= q < p && #[trigger] is_lane_start(agents@, order@, q) ==> exists|m: int| 0 <= m < offsets@.len() && offsets@[m] == q,
            forall|m: int| 0 <= m < counts@.len() ==> #[trigger] counts@[m] == (if m + 1 < offsets@.len() { offsets@[m + 1] as int } else { p as int }) - offsets@[m],
        decreases n - p,
    {
        let start = p == 0 || {
            let a = &agents[order[p - 1] as usize];
            let b = &agents[order[p] as usize];
            !(a.edge_id == b.edge_id && a.lane_idx == b.lane_idx)
        };
        let ghost old_offsets = offsets@;
        let ghost old_counts = counts@;
        if start {
            offsets.push(p as u32);
            counts.push(1);
            proof {
                assert forall|q: int| 0 <= q < p + 1 && #[trigger] is_lane_start(agents@, order@, q) implies exists|m: int| 0 <= m < offsets@.len() && offsets@[m] == q by {
                    if q < p {
                        let m = choose|m: int| 0 <= m < old_offsets.len() && old_offsets[m] == q;
                        assert(offsets@[m] == q);
                    } else {
                        assert(offsets@[offsets@.len() - 1] == q);
                    }
                }
                assert forall|m: int| 0 <= m < counts@.len() implies #[trigger] counts@[m] == (if m + 1 < offsets@.len() { offsets@[m + 1] as int } else { p + 1 }) - offsets@[m] by {
                    if m + 1 < counts@.len() {
                        assert(counts@[m] == old_counts[m]);
                    }
                }
            }
        } else {
            let last = counts.len() - 1;
            let c = counts[last];
            counts.set(last, c + 1);
            proof {
                assert forall|m: int| 0 <= m < counts@.len() implies #[trigger] counts@[m] == (if m + 1 < offsets@.len() { offsets@[m + 1] as int } else { p + 1 }) - offsets@[m] by {
                    if m < last {
                        assert(counts@[m] == old_counts[m]);
                    }
                }
                assert forall|q: int| 0 <= q < p + 1 && #[trigger] is_lane_start(agents@, order@, q) implies exists|m: int| 0 <= m < offsets@.len() && offsets@[m] == q by {
                    assert(q != p);
                }
            }
        }
        p = p + 1;
    }
    (offsets, counts, order)
}

/// Law: a dispatch ordering of `n` agents that lists `n` indices below `n`
/// lists every agent exactly once.
pub proof fn law_dispatch_order_is_permutation(agents: Seq<GpuAgentState>, idx: Seq<u32>)
    requires
        idx.len() == agents.len(),
        indices_within(idx, 0, agents.len() as int),
        in_dispatch_order(agents, idx),
    ensures
        idx.no_duplicates(),
        forall|i: u32| i < agents.len() ==> #[trigger] idx.contains(i),
{
    let n = agents.len() as int;
    let t = idx.map_values(|x: u32| x as int);
    assert forall|p: int, q: int| 0 <= p < idx.len() && 0 <= q < idx.len() && p != q implies idx[p] != idx[q] by {
        if p < q {
            assert(dispatch_before(agents, idx[p] as int, idx[q] as int));
        } else {
            assert(dispatch_before(agents, idx[q] as int, idx[p] as int));
        }
    }
    assert(t.no_duplicates());
    t.unique_seq_to_set();
    vstd::set_lib::lemma_int_range(0, n);
    assert(t.to_set().subset_of(vstd::set_lib::set_int_range(0, n)));
    vstd::set_lib::lemma_subset_equality(t.to_set(), vstd::set_lib::set_int_range(0, n));
    assert forall|i: u32| i < n implies #[trigger] idx.contains(i) by {
        assert(vstd::set_lib::set_int_range(0, n).contains(i as int));
        assert(t.to_set().contains(i as int));
        assert(t.contains(i as int));
        let p = choose|p: int| 0 <= p < t.len() && t[p] == i as int;
        assert(idx[p] == i);
    }
}

} // verus!
