//! Lane ordering for the wave-front vehicle dispatch.
//!
//! The wave-front shader processes one lane per workgroup, front vehicle
//! first. `sort_agents_by_lane` groups agents by `(edge_id, lane_idx)` in
//! ascending order and orders each group by position, front-most first.
use vstd::prelude::*;

use crate::components::GpuAgentState;
use crate::sorting::{key_lt, lemma_sorted_is_permutation, stable_order_by_key};

verus! {

/// The lane an agent drives in.
pub open spec fn lane_of(a: GpuAgentState) -> (u32, u32) {
    (a.edge_id, a.lane_idx)
}

/// Dispatch order between agents `i` and `j`: by edge, then lane, then
/// position with the front-most (largest) first, then by index.
pub open spec fn dispatch_before(agents: Seq<GpuAgentState>, i: u32, j: u32) -> bool {
    let a = agents[i as int];
    let b = agents[j as int];
    ||| a.edge_id < b.edge_id
    ||| (a.edge_id == b.edge_id && a.lane_idx < b.lane_idx)
    ||| (a.edge_id == b.edge_id && a.lane_idx == b.lane_idx && a.position > b.position)
    ||| (a.edge_id == b.edge_id && a.lane_idx == b.lane_idx && a.position == b.position && i < j)
}

/// Every index in `s` lies in `[lo, hi)`.
pub open spec fn indices_below(s: Seq<u32>, lo: int, hi: int) -> bool {
    forall|a: int| 0 <= a < s.len() ==> lo <= #[trigger] s[a] < hi
}

/// `order` lists the agents in dispatch order.
pub open spec fn in_dispatch_order(agents: Seq<GpuAgentState>, order: Seq<u32>) -> bool {
    forall|p: int, q: int| 0 <= p < q < order.len() ==> #[trigger] dispatch_before(agents, order[p], order[q])
}

/// `offsets`/`counts` cut `order` into maximal runs of agents in the same lane.
pub open spec fn lane_runs(agents: Seq<GpuAgentState>, order: Seq<u32>, offsets: Seq<u32>, counts: Seq<u32>) -> bool {
    let l = offsets.len();
    &&& counts.len() == l
    &&& l >= 1
    &&& offsets[0] == 0
    &&& offsets[l - 1] + counts[l - 1] == order.len()
    &&& forall|r: int| 0 <= r < l ==> #[trigger] counts[r] > 0
    &&& forall|r: int| 0 <= r < l ==> #[trigger] offsets[r] + counts[r] <= order.len()
    &&& forall|r: int| 0 <= r < l - 1 ==> #[trigger] offsets[r + 1] == offsets[r] + counts[r]
    &&& forall|r: int, t: int| #![trigger order[t], offsets[r]] 0 <= r < l && offsets[r] <= t < offsets[r] + counts[r]
        ==> lane_of(agents[order[t] as int]) == lane_of(agents[order[offsets[r] as int] as int])
    &&& forall|r: int| 0 < r < l ==> lane_of(agents[order[#[trigger] offsets[r] as int] as int])
        != lane_of(agents[order[offsets[r] - 1] as int])
}

/// The distinct lanes the agents drive in.
pub open spec fn lanes(agents: Seq<GpuAgentState>) -> Set<(u32, u32)> {
    Set::new(|l: (u32, u32)| exists|i: int| 0 <= i < agents.len() && lane_of(#[trigger] agents[i]) == l)
}

/// `order` lists each of the indices `0..n` exactly once.
pub open spec fn is_permutation(order: Seq<u32>, n: int) -> bool {
    &&& order.len() == n
    &&& order.no_duplicates()
    &&& forall|i: u32| i < n ==> #[trigger] order.contains(i)
}

/// Lane `a` comes strictly before lane `b`: by edge, then by lane index.
pub open spec fn lane_lt(a: (u32, u32), b: (u32, u32)) -> bool {
    a.0 < b.0 || (a.0 == b.0 && a.1 < b.1)
}

/// The lane of the first agent of each run.
pub open spec fn run_lanes(agents: Seq<GpuAgentState>, order: Seq<u32>, offsets: Seq<u32>) -> Seq<(u32, u32)> {
    Seq::new(offsets.len(), |r: int| lane_of(agents[order[offsets[r] as int] as int]))
}

proof fn lemma_offsets_increase(order: Seq<u32>, offsets: Seq<u32>, counts: Seq<u32>, r1: int, r2: int, agents: Seq<GpuAgentState>)
    requires
        lane_runs(agents, order, offsets, counts),
        0 <= r1 < r2 < offsets.len(),
    ensures
        offsets[r1] + counts[r1] <= offsets[r2],
    decreases r2 - r1,
{
    assert(offsets[(r2 - 1) + 1] == offsets[r2 - 1] + counts[r2 - 1]);
    if r1 < r2 - 1 {
        lemma_offsets_increase(order, offsets, counts, r1, r2 - 1, agents);
        assert(counts[r2 - 1] > 0);
    }
}

proof fn lemma_run_covers(order: Seq<u32>, offsets: Seq<u32>, counts: Seq<u32>, agents: Seq<GpuAgentState>, t: int, r: int)
    requires
        lane_runs(agents, order, offsets, counts),
        0 <= r < offsets.len(),
        0 <= t < offsets[r] + counts[r],
    ensures
        exists|q: int| 0 <= q <= r && #[trigger] offsets[q] <= t < offsets[q] + counts[q],
    decreases r,
{
    if t < offsets[r] {
        assert(r > 0);
        assert(offsets[(r - 1) + 1] == offsets[r - 1] + counts[r - 1]);
        lemma_run_covers(order, offsets, counts, agents, t, r - 1);
        let q = choose|q: int| 0 <= q <= r - 1 && #[trigger] offsets[q] <= t < offsets[q] + counts[q];
        assert(0 <= q <= r && offsets[q] <= t < offsets[q] + counts[q]);
    } else {
        assert(offsets[r] <= t < offsets[r] + counts[r]);
    }
}

/// Law: the lane runs of a dispatch-ordered permutation of the agents are
/// one per distinct lane, in ascending lane order.
pub proof fn lemma_one_run_per_lane(agents: Seq<GpuAgentState>, order: Seq<u32>, offsets: Seq<u32>, counts: Seq<u32>)
    requires
        0 < agents.len() <= u32::MAX,
        is_permutation(order, agents.len() as int),
        indices_below(order, 0, agents.len() as int),
        in_dispatch_order(agents, order),
        lane_runs(agents, order, offsets, counts),
    ensures
        forall|r1: int, r2: int| 0 <= r1 < r2 < offsets.len() ==> lane_lt(
            #[trigger] run_lanes(agents, order, offsets)[r1],
            #[trigger] run_lanes(agents, order, offsets)[r2],
        ),
        run_lanes(agents, order, offsets).to_set() == lanes(agents),
        offsets.len() == lanes(agents).len(),
{
    let h = run_lanes(agents, order, offsets);
    let l = offsets.len() as int;
    assert forall|r1: int, r2: int| 0 <= r1 < r2 < l implies lane_lt(#[trigger] h[r1], #[trigger] h[r2]) by {
        lemma_offsets_increase(order, offsets, counts, r1, r2, agents);
        let a = offsets[r1] as int;
        let p = offsets[r2] - 1;
        let b = offsets[r2] as int;
        assert(counts[r1] > 0);
        assert(offsets[r2] + counts[r2] <= order.len());
        let la = lane_of(agents[order[a] as int]);
        let lp = lane_of(agents[order[p] as int]);
        let lb = lane_of(agents[order[b] as int]);
        assert(lp != lb);
        assert(dispatch_before(agents, order[p], order[b]));
        if a < p {
            assert(dispatch_before(agents, order[a], order[p]));
        }
        assert(h[r1] == la && h[r2] == lb);
    }
    assert(h.no_duplicates()) by {
        assert forall|i: int, j: int| 0 <= i < h.len() && 0 <= j < h.len() && i != j implies h[i] != h[j] by {
            if i < j {
                assert(lane_lt(h[i], h[j]));
            } else {
                assert(lane_lt(h[j], h[i]));
            }
        }
    }
    assert forall|x: (u32, u32)| #[trigger] h.to_set().contains(x) <==> lanes(agents).contains(x) by {
        if h.to_set().contains(x) {
            assert(h.contains(x));
            let r = choose|r: int| 0 <= r < h.len() && h[r] == x;
            assert(counts[r] > 0);
            assert(offsets[r] + counts[r] <= order.len());
            let i = order[offsets[r] as int] as int;
            assert(0 <= i < agents.len());
            assert(lane_of(agents[i]) == x);
        }
        if lanes(agents).contains(x) {
            let i = choose|i: int| 0 <= i < agents.len() && lane_of(#[trigger] agents[i]) == x;
            assert(order.contains(i as u32));
            let t = choose|t: int| 0 <= t < order.len() && order[t] == i as u32;
            lemma_run_covers(order, offsets, counts, agents, t, l - 1);
            let q = choose|q: int| 0 <= q <= l - 1 && #[trigger] offsets[q] <= t < offsets[q] + counts[q];
            assert(lane_of(agents[order[t] as int]) == lane_of(agents[order[offsets[q] as int] as int]));
            assert(h[q] == x);
            assert(h.contains(x));
        }
    }
    assert(h.to_set() =~= lanes(agents));
    h.unique_seq_to_set();
}

/// The key whose integer order is the dispatch order of the agent's lane and position.
pub open spec fn lane_key(a: GpuAgentState) -> int {
    a.edge_id as int * 0x1_0000_0000_0000_0000 + a.lane_idx as int * 0x1_0000_0000 + (0x7FFF_FFFF - a.position as int)
}

proof fn lemma_lane_key_order(a: GpuAgentState, b: GpuAgentState)
    ensures
        lane_key(a) < lane_key(b) <==> (
            a.edge_id < b.edge_id
            || (a.edge_id == b.edge_id && a.lane_idx < b.lane_idx)
            || (a.edge_id == b.edge_id && a.lane_idx == b.lane_idx && a.position > b.position)),
        lane_key(a) == lane_key(b) <==> (a.edge_id == b.edge_id && a.lane_idx == b.lane_idx && a.position == b.position),
{
}

fn compute_lane_key(a: &GpuAgentState) -> (k: u128)
    ensures
        k == lane_key(*a),
{
    let low: i64 = 0x7FFF_FFFFi64 - a.position as i64;
    (a.edge_id as u128) * 0x1_0000_0000_0000_0000u128 + (a.lane_idx as u128) * 0x1_0000_0000u128 + (low as u128)
}

/// Sort agents by lane for wave-front dispatch.
///
/// Returns `(lane_offsets, lane_counts, lane_agent_indices)`: the agent
/// indices in dispatch order, and for each lane (ascending by
/// `(edge_id, lane_idx)`) where its run starts and how many agents it has.
/// With no agents the result is `([0], [0], [])`.
pub fn sort_agents_by_lane(agents: &[GpuAgentState]) -> (r: (Vec<u32>, Vec<u32>, Vec<u32>))
    requires
        agents@.len() <= u32::MAX,
    ensures
        agents@.len() == 0 ==> r.0@ == seq![0u32] && r.1@ == seq![0u32] && r.2@.len() == 0,
        agents@.len() > 0 ==> {
            &&& r.2@.len() == agents@.len()
            &&& indices_below(r.2@, 0, agents@.len() as int)
            &&& in_dispatch_order(agents@, r.2@)
            &&& lane_runs(agents@, r.2@, r.0@, r.1@)
            &&& is_permutation(r.2@, agents@.len() as int)
            &&& r.0@.len() == lanes(agents@).len()
        },
{
    let n = agents.len();
    if n == 0 {
        let mut offsets = Vec::new();
        offsets.push(0u32);
        let mut counts = Vec::new();
        counts.push(0u32);
        return (offsets, counts, Vec::new());
    }
    let mut keys: Vec<u128> = Vec::new();
    let mut i: usize = 0;
    while i < n
        invariant
            n == agents@.len(),
            i <= n,
            keys@.len() == i,
            forall|k: int| 0 <= k < i ==> keys@[k] == lane_key(#[trigger] agents@[k]),
        decreases n - i,
    {
        let k = compute_lane_key(&agents[i]);
        keys.push(k);
        i = i + 1;
    }
    let order_ix = stable_order_by_key(&keys);
    proof {
        lemma_sorted_is_permutation(keys@, order_ix@, n);
    }
    let mut order: Vec<u32> = Vec::new();
    let mut c: usize = 0;
    while c < n
        invariant
            n == agents@.len(),
            n <= u32::MAX,
            order_ix@.len() == n,
            crate::sorting::within(order_ix@, 0, n as int),
            c <= n,
            order@.len() == c,
            forall|k: int| 0 <= k < c ==> #[trigger] order@[k] as int == order_ix@[k] as int,
        decreases n - c,
    {
        order.push(order_ix[c] as u32);
        c = c + 1;
    }
    proof {
        assert forall|p: int, q: int| 0 <= p < q < order@.len() implies #[trigger] dispatch_before(agents@, order@[p], order@[q]) by {
            assert(key_lt(keys@, order_ix@[p], order_ix@[q]));
            assert(order@[p] as int == order_ix@[p] as int && order@[q] as int == order_ix@[q] as int);
            lemma_lane_key_order(agents@[order@[p] as int], agents@[order@[q] as int]);
        }
        assert(indices_below(order@, 0, n as int)) by {
            assert forall|a: int| 0 <= a < order@.len() implies 0 <= #[trigger] order@[a] < n by {
                assert(order@[a] as int == order_ix@[a] as int);
            }
        }
        assert(is_permutation(order@, n as int)) by {
            assert forall|p: int, q: int| 0 <= p < order@.len() && 0 <= q < order@.len() && p != q implies order@[p] != order@[q] by {
                assert(order@[p] as int == order_ix@[p] as int && order@[q] as int == order_ix@[q] as int);
                assert(order_ix@[p] != order_ix@[q]);
            }
            assert forall|i: u32| i < n implies #[trigger] order@.contains(i) by {
                assert(order_ix@.contains(i as usize));
                let p = choose|p: int| 0 <= p < order_ix@.len() && order_ix@[p] == i as usize;
                assert(order@[p] as int == order_ix@[p] as int);
            }
        }
    }

    let mut offsets: Vec<u32> = Vec::new();
    let mut counts: Vec<u32> = Vec::new();
    let mut t: usize = 0;
    while t < n
        invariant
            n == agents@.len(),
            n <= u32::MAX,
            order@.len() == n,
            indices_below(order@, 0, n as int),
            is_permutation(order@, n as int),
            t <= n,
            t == 0 ==> offsets@.len() == 0 && counts@.len() == 0,
            t > 0 ==> lane_runs(agents@, order@.take(t as int), offsets@, counts@),
        decreases n - t,
    {
        let cur = lane_of_exec(&agents[order[t] as usize]);
        let new_run = if t == 0 {
            true
        } else {
            let prev = lane_of_exec(&agents[order[t - 1] as usize]);
            cur.0 != prev.0 || cur.1 != prev.1
        };
        let ghost old_offsets = offsets@;
        let ghost old_counts = counts@;
        if new_run {
            offsets.push(t as u32);
            counts.push(1u32);
        } else {
            let last = counts.len() - 1;
            let c = counts[last];
            counts.set(last, c + 1);
        }
        t = t + 1;
        proof {
            let s = order@.take(t as int);
            let s0 = order@.take(t - 1);
            assert(forall|k: int| 0 <= k < t - 1 ==> s[k] == s0[k]);
            let l = offsets@.len() as int;
            if new_run {
                if t - 1 > 0 {
                    assert(lane_runs(agents@, s0, old_offsets, old_counts));
                }
                assert forall|r: int, u: int| #![trigger s[u], offsets@[r]] 0 <= r < l && offsets@[r] <= u < offsets@[r] + counts@[r]
                    implies lane_of(agents@[s[u] as int]) == lane_of(agents@[s[offsets@[r] as int] as int]) by {
                    if r < l - 1 {
                        assert(offsets@[r] == old_offsets[r]);
                        assert(counts@[r] == old_counts[r]);
                        assert(s[u] == s0[u]);
                        assert(s[offsets@[r] as int] == s0[old_offsets[r] as int]);
                    }
                }
                assert forall|r: int| 0 < r < l implies lane_of(agents@[s[#[trigger] offsets@[r] as int] as int])
                    != lane_of(agents@[s[offsets@[r] - 1] as int]) by {
                    if r < l - 1 {
                        assert(offsets@[r] == old_offsets[r]);
                        assert(old_offsets[(r - 1) + 1] == old_offsets[r - 1] + old_counts[r - 1]);
                        assert(old_counts[r - 1] > 0);
                        assert(s[offsets@[r] as int] == s0[old_offsets[r] as int]);
                        assert(s[offsets@[r] - 1] == s0[old_offsets[r] - 1]);
                    } else {
                        assert(offsets@[r] == t - 1);
                    }
                }
            } else {
                assert(lane_runs(agents@, s0, old_offsets, old_counts));
                assert(offsets@ == old_offsets);
                assert forall|r: int, u: int| #![trigger s[u], offsets@[r]] 0 <= r < l && offsets@[r] <= u < offsets@[r] + counts@[r]
                    implies lane_of(agents@[s[u] as int]) == lane_of(agents@[s[offsets@[r] as int] as int]) by {
                    assert(s[offsets@[r] as int] == s0[old_offsets[r] as int]);
                    if r < l - 1 {
                        assert(counts@[r] == old_counts[r]);
                        assert(s[u] == s0[u]);
                    } else if u < t - 1 {
                        assert(s[u] == s0[u]);
                    } else {
                        assert(u == t - 1);
                        assert(s[t - 2] == s0[t - 2]);
                        assert(lane_of(agents@[s0[t - 2] as int]) == lane_of(agents@[s0[old_offsets[r] as int] as int]));
                    }
                }
                assert forall|r: int| 0 < r < l implies lane_of(agents@[s[#[trigger] offsets@[r] as int] as int])
                    != lane_of(agents@[s[offsets@[r] - 1] as int]) by {
                    assert(old_offsets[(r - 1) + 1] == old_offsets[r - 1] + old_counts[r - 1]);
                    assert(old_counts[r - 1] > 0);
                    assert(s[offsets@[r] as int] == s0[old_offsets[r] as int]);
                    assert(s[offsets@[r] - 1] == s0[old_offsets[r] - 1]);
                }
            }
        }
    }
    proof {
        assert(order@.take(n as int) =~= order@);
        lemma_one_run_per_lane(agents@, order@, offsets@, counts@);
    }
    (offsets, counts, order)
}

fn lane_of_exec(a: &GpuAgentState) -> (r: (u32, u32))
    ensures
        r == lane_of(*a),
{
    (a.edge_id, a.lane_idx)
}

} // verus!
