//! Multi-partition scheduling with the boundary agent protocol.
//!
//! Logical partitions share one device but keep separate agent buffers and
//! the same boundary transfer protocol that would be used across physical
//! devices: each partition owns its agents and two staging buffers (outbox
//! and inbox), and the scheduler routes boundary agents between them each
//! simulation step.
use std::collections::HashMap;
use std::collections::HashSet;
use vstd::prelude::*;

use crate::components::GpuAgentState;
use crate::partition::boundary_map_of;
use crate::partition::boundary_within;
use crate::partition::partition_edges;
use crate::partition::PartitionAssignment;

verus! {

broadcast use vstd::std_specs::hash::group_hash_axioms;

/// An agent transferring between partitions via the boundary protocol:
/// the full agent state plus the destination partition and edge.
#[derive(Debug, Clone, Copy)]
pub struct BoundaryAgent {
    /// Full agent state at the moment of boundary crossing.
    pub state: GpuAgentState,
    /// Target partition id.
    pub dest_partition: u32,
    /// Target edge id in the destination partition.
    pub dest_edge_id: u32,
}

/// The agent that a boundary agent becomes on arrival: on its destination
/// edge, at the start of that edge, everything else kept.
pub open spec fn arrived(ba: BoundaryAgent) -> GpuAgentState {
    GpuAgentState {
        edge_id: ba.dest_edge_id,
        lane_idx: ba.state.lane_idx,
        position: 0,
        lateral: ba.state.lateral,
        speed: ba.state.speed,
        acceleration: ba.state.acceleration,
        cf_model: ba.state.cf_model,
        rng_state: ba.state.rng_state,
        vehicle_type: ba.state.vehicle_type,
        flags: ba.state.flags,
    }
}

/// The agents spawned from an inbox, in inbox order.
pub open spec fn arrivals(inbox: Seq<BoundaryAgent>) -> Seq<GpuAgentState> {
    inbox.map_values(|ba: BoundaryAgent| arrived(ba))
}

/// Law: an agent spawned from an inbox is the transferred state with only
/// its edge and position changed: it stands at the start of its destination
/// edge, and its lane, lateral offset, speed, acceleration, car-following
/// model, random state, vehicle type and flags are those it crossed with.
/// One agent arrives per inbox entry, in inbox order.
pub proof fn lemma_arrivals_keep_state(inbox: Seq<BoundaryAgent>)
    ensures
        arrivals(inbox).len() == inbox.len(),
        forall|k: int| #![trigger arrivals(inbox)[k]] 0 <= k < inbox.len() ==> {
            &&& arrivals(inbox)[k].edge_id == inbox[k].dest_edge_id
            &&& arrivals(inbox)[k].position == 0
            &&& arrivals(inbox)[k].lane_idx == inbox[k].state.lane_idx
            &&& arrivals(inbox)[k].lateral == inbox[k].state.lateral
            &&& arrivals(inbox)[k].speed == inbox[k].state.speed
            &&& arrivals(inbox)[k].acceleration == inbox[k].state.acceleration
            &&& arrivals(inbox)[k].cf_model == inbox[k].state.cf_model
            &&& arrivals(inbox)[k].rng_state == inbox[k].state.rng_state
            &&& arrivals(inbox)[k].vehicle_type == inbox[k].state.vehicle_type
            &&& arrivals(inbox)[k].flags == inbox[k].state.flags
        },
{
}

/// Agent `a` of partition `pid` is on a boundary edge that starts in `pid`.
pub open spec fn leaves(bm: Map<u32, (u32, u32)>, pid: u32, a: GpuAgentState) -> bool {
    bm.contains_key(a.edge_id) && bm[a.edge_id].0 == pid
}

/// The agents of partition `pid` that stay where they are, in order.
pub open spec fn staying(bm: Map<u32, (u32, u32)>, pid: u32, s: Seq<GpuAgentState>) -> Seq<GpuAgentState>
    decreases s.len(),
{
    if s.len() == 0 {
        Seq::empty()
    } else {
        let rest = staying(bm, pid, s.drop_last());
        if leaves(bm, pid, s.last()) {
            rest
        } else {
            rest.push(s.last())
        }
    }
}

/// The boundary agent sent out for agent `a` crossing its boundary edge.
pub open spec fn departure(bm: Map<u32, (u32, u32)>, a: GpuAgentState) -> BoundaryAgent {
    BoundaryAgent { state: a, dest_partition: bm[a.edge_id].1, dest_edge_id: a.edge_id }
}

/// The boundary agents that leave partition `pid`, in order.
pub open spec fn departing(bm: Map<u32, (u32, u32)>, pid: u32, s: Seq<GpuAgentState>) -> Seq<BoundaryAgent>
    decreases s.len(),
{
    if s.len() == 0 {
        Seq::empty()
    } else {
        let rest = departing(bm, pid, s.drop_last());
        if leaves(bm, pid, s.last()) {
            rest.push(departure(bm, s.last()))
        } else {
            rest
        }
    }
}

/// The boundary agents of `s` bound for partition `j`, in order.
pub open spec fn bound_for(s: Seq<BoundaryAgent>, j: int) -> Seq<BoundaryAgent>
    decreases s.len(),
{
    if s.len() == 0 {
        Seq::empty()
    } else {
        let rest = bound_for(s.drop_last(), j);
        if s.last().dest_partition == j {
            rest.push(s.last())
        } else {
            rest
        }
    }
}

/// Agents on a boundary edge that starts in partition `pid`.
pub open spec fn crossing_from(bm: Map<u32, (u32, u32)>, pid: u32) -> spec_fn(GpuAgentState) -> bool {
    |a: GpuAgentState| bm.contains_key(a.edge_id) && bm[a.edge_id].0 == pid
}

/// Agents not on a boundary edge that starts in partition `pid`.
pub open spec fn not_crossing_from(bm: Map<u32, (u32, u32)>, pid: u32) -> spec_fn(GpuAgentState) -> bool {
    |a: GpuAgentState| !(bm.contains_key(a.edge_id) && bm[a.edge_id].0 == pid)
}

/// Boundary agents bound for partition `j`.
pub open spec fn headed_to(j: int) -> spec_fn(BoundaryAgent) -> bool {
    |b: BoundaryAgent| b.dest_partition == j
}

/// Law: collecting splits a partition's agents by whether their edge is a
/// boundary edge leaving the partition. The agents that stay are exactly
/// the others, in order. One boundary agent leaves per crossing agent, in
/// order, carrying that agent's whole state, bound for the edge's other
/// partition and for the same edge.
pub proof fn lemma_split_exact(bm: Map<u32, (u32, u32)>, pid: u32, s: Seq<GpuAgentState>)
    ensures
        staying(bm, pid, s) == s.filter(not_crossing_from(bm, pid)),
        departing(bm, pid, s).len() == s.filter(crossing_from(bm, pid)).len(),
        forall|k: int| #![trigger departing(bm, pid, s)[k]] 0 <= k < departing(bm, pid, s).len() ==> {
            &&& departing(bm, pid, s)[k].state == s.filter(crossing_from(bm, pid))[k]
            &&& departing(bm, pid, s)[k].dest_partition == bm[departing(bm, pid, s)[k].state.edge_id].1
            &&& departing(bm, pid, s)[k].dest_edge_id == departing(bm, pid, s)[k].state.edge_id
        },
    decreases s.len(),
{
    reveal(Seq::filter);
    if s.len() > 0 {
        lemma_split_exact(bm, pid, s.drop_last());
        let d0 = departing(bm, pid, s.drop_last());
        let f0 = s.drop_last().filter(crossing_from(bm, pid));
        let d = departing(bm, pid, s);
        let f = s.filter(crossing_from(bm, pid));
        if leaves(bm, pid, s.last()) {
            assert forall|k: int| #![trigger d[k]] 0 <= k < d.len() implies {
                &&& d[k].state == f[k]
                &&& d[k].dest_partition == bm[d[k].state.edge_id].1
                &&& d[k].dest_edge_id == d[k].state.edge_id
            } by {
                if k < d0.len() {
                    assert(d[k] == d0[k]);
                    assert(f[k] == f0[k]);
                } else {
                    assert(d[k] == departure(bm, s.last()));
                    assert(f[k] == s.last());
                }
            }
        }
    }
}

/// Law: the boundary agents routed to partition `j` are exactly those
/// whose destination is `j`, each once and in outbox order.
pub proof fn lemma_bound_for_exact(s: Seq<BoundaryAgent>, j: int)
    ensures
        bound_for(s, j) == s.filter(headed_to(j)),
    decreases s.len(),
{
    reveal(Seq::filter);
    if s.len() > 0 {
        lemma_bound_for_exact(s.drop_last(), j);
    }
}

proof fn lemma_split_len(bm: Map<u32, (u32, u32)>, pid: u32, s: Seq<GpuAgentState>)
    ensures
        staying(bm, pid, s).len() + departing(bm, pid, s).len() == s.len(),
    decreases s.len(),
{
    if s.len() > 0 {
        lemma_split_len(bm, pid, s.drop_last());
    }
}

proof fn lemma_departing_dests(bm: Map<u32, (u32, u32)>, pid: u32, s: Seq<GpuAgentState>, n: int)
    requires
        forall|e: u32| #[trigger] bm.contains_key(e) ==> bm[e].1 < n,
    ensures
        forall|k: int| 0 <= k < departing(bm, pid, s).len() ==> (#[trigger] departing(bm, pid, s)[k]).dest_partition < n,
    decreases s.len(),
{
    if s.len() > 0 {
        lemma_departing_dests(bm, pid, s.drop_last(), n);
        let rest = departing(bm, pid, s.drop_last());
        assert forall|k: int| 0 <= k < departing(bm, pid, s).len() implies (#[trigger] departing(bm, pid, s)[k]).dest_partition < n by {
            if k < rest.len() {
                assert(departing(bm, pid, s)[k] == rest[k]);
            }
        }
    }
}

/// A logical partition with its own agent buffer and boundary staging.
pub struct GpuPartition {
    /// Partition identifier (0-based).
    pub partition_id: u32,
    /// Edge ids belonging to this partition.
    pub edge_ids: Vec<u32>,
    /// Agent states currently in this partition.
    pub agent_states: Vec<GpuAgentState>,
    /// Agents leaving this partition (collected after dispatch).
    pub outbox: Vec<BoundaryAgent>,
    /// Agents arriving from other partitions (spawned before next dispatch).
    pub inbox: Vec<BoundaryAgent>,
    /// Set of edge ids for constant-time membership checks.
    edge_set: HashSet<u32>,
}

impl GpuPartition {
    /// The partition's id.
    pub closed spec fn id(&self) -> u32 {
        self.partition_id
    }

    /// The partition's edge ids.
    pub closed spec fn edges(&self) -> Seq<u32> {
        self.edge_ids@
    }

    /// The agents in the partition's buffer.
    pub closed spec fn agents(&self) -> Seq<GpuAgentState> {
        self.agent_states@
    }

    /// The agents waiting in the outbox.
    pub closed spec fn outgoing(&self) -> Seq<BoundaryAgent> {
        self.outbox@
    }

    /// The agents waiting in the inbox.
    pub closed spec fn incoming(&self) -> Seq<BoundaryAgent> {
        self.inbox@
    }

    /// The edge ids that membership checks answer from.
    pub closed spec fn edge_set_view(&self) -> Set<u32> {
        self.edge_set@
    }

    /// The membership set holds exactly the partition's edge ids.
    pub open spec fn wf(&self) -> bool {
        self.edge_set_view() == self.edges().to_set()
    }

    /// Agents held by this partition: in its buffer or in either staging buffer.
    pub open spec fn held(&self) -> nat {
        self.agents().len() + self.incoming().len() + self.outgoing().len()
    }

    /// Same id and edges as `other`.
    pub open spec fn same_layout(&self, other: &GpuPartition) -> bool {
        &&& self.id() == other.id()
        &&& self.edges() == other.edges()
        &&& self.edge_set_view() == other.edge_set_view()
    }

    /// Create a new partition with the given edge ids, holding no agents.
    pub fn new(partition_id: u32, edge_ids: Vec<u32>) -> (r: Self)
        ensures
            r.wf(),
            r.id() == partition_id,
            r.edges() == edge_ids@,
            r.agents().len() == 0,
            r.outgoing().len() == 0,
            r.incoming().len() == 0,
    {
        let mut edge_set: HashSet<u32> = HashSet::new();
        let mut i: usize = 0;
        while i < edge_ids.len()
            invariant
                i <= edge_ids@.len(),
                edge_set@ == edge_ids@.take(i as int).to_set(),
            decreases edge_ids@.len() - i,
        {
            let ghost prev = edge_ids@.take(i as int);
            edge_set.insert(edge_ids[i]);
            i = i + 1;
            proof {
                assert(edge_ids@.take(i as int) =~= prev.push(edge_ids@[i - 1]));
                prev.lemma_push_to_set_commute(edge_ids@[i - 1]);
            }
        }
        proof {
            assert(edge_ids@.take(i as int) =~= edge_ids@);
        }
        GpuPartition {
            partition_id,
            edge_ids,
            agent_states: Vec::new(),
            outbox: Vec::new(),
            inbox: Vec::new(),
            edge_set,
        }
    }

    /// Spawn inbox agents into this partition's agent buffer: each arrives
    /// on its destination edge at position 0. The inbox is drained.
    pub fn spawn_inbox_agents(&mut self)
        ensures
            final(self).agents() == old(self).agents() + arrivals(old(self).incoming()),
            final(self).agents().len() == old(self).agents().len() + old(self).incoming().len(),
            forall|k: int| 0 <= k < old(self).agents().len() ==> #[trigger] final(self).agents()[k] == old(self).agents()[k],
            forall|k: int| #![trigger old(self).incoming()[k]] 0 <= k < old(self).incoming().len() ==> {
                &&& final(self).agents()[old(self).agents().len() + k].edge_id == old(self).incoming()[k].dest_edge_id
                &&& final(self).agents()[old(self).agents().len() + k].position == 0
                &&& final(self).agents()[old(self).agents().len() + k].lane_idx == old(self).incoming()[k].state.lane_idx
                &&& final(self).agents()[old(self).agents().len() + k].lateral == old(self).incoming()[k].state.lateral
                &&& final(self).agents()[old(self).agents().len() + k].speed == old(self).incoming()[k].state.speed
                &&& final(self).agents()[old(self).agents().len() + k].acceleration
                    == old(self).incoming()[k].state.acceleration
                &&& final(self).agents()[old(self).agents().len() + k].cf_model == old(self).incoming()[k].state.cf_model
                &&& final(self).agents()[old(self).agents().len() + k].rng_state == old(self).incoming()[k].state.rng_state
                &&& final(self).agents()[old(self).agents().len() + k].vehicle_type
                    == old(self).incoming()[k].state.vehicle_type
                &&& final(self).agents()[old(self).agents().len() + k].flags == old(self).incoming()[k].state.flags
            },
            final(self).incoming().len() == 0,
            final(self).outgoing() == old(self).outgoing(),
            final(self).same_layout(&*old(self)),
            final(self).held() == old(self).held(),
    {
        let ghost a0 = self.agent_states@;
        let ghost in0 = self.inbox@;
        let ghost o0 = self.outbox@;
        let ghost e0 = self.edge_ids@;
        let ghost set0 = self.edge_set@;
        let ghost id0 = self.partition_id;
        let mut i: usize = 0;
        while i < self.inbox.len()
            invariant
                i <= in0.len(),
                self.inbox@ == in0,
                self.outbox@ == o0,
                self.edge_ids@ == e0,
                self.edge_set@ == set0,
                self.partition_id == id0,
                self.agent_states@ == a0 + arrivals(in0.take(i as int)),
            decreases in0.len() - i,
        {
            let ba = self.inbox[i];
            let mut agent = ba.state;
            agent.edge_id = ba.dest_edge_id;
            agent.position = 0;
            self.agent_states.push(agent);
            i = i + 1;
            proof {
                assert(arrivals(in0.take(i as int)) =~= arrivals(in0.take(i - 1)).push(arrived(ba)));
            }
        }
        proof {
            assert(in0.take(i as int) =~= in0);
            lemma_arrivals_keep_state(in0);
        }
        self.inbox.clear();
    }

    /// Move the agents on boundary edges that start in this partition to
    /// the outbox, bound for the edge's other partition on the same edge;
    /// the others stay, in order.
    ///
    /// `boundary_map`: edge_id -> (src_partition, dst_partition)
    pub fn collect_outbox_agents(&mut self, boundary_map: &HashMap<u32, (u32, u32)>)
        ensures
            final(self).agents() == staying(boundary_map@, old(self).id(), old(self).agents()),
            final(self).outgoing() == old(self).outgoing() + departing(boundary_map@, old(self).id(),
                old(self).agents()),
            final(self).incoming() == old(self).incoming(),
            final(self).same_layout(&*old(self)),
            final(self).held() == old(self).held(),
    {
        let ghost bm = boundary_map@;
        let ghost pid = self.partition_id;
        let ghost s0 = self.agent_states@;
        let ghost o0 = self.outbox@;
        let ghost in0 = self.inbox@;
        let ghost e0 = self.edge_ids@;
        let ghost set0 = self.edge_set@;
        let mut remaining: Vec<GpuAgentState> = Vec::new();
        let mut i: usize = 0;
        while i < self.agent_states.len()
            invariant
                i <= s0.len(),
                self.inbox@ == in0,
                self.edge_ids@ == e0,
                self.edge_set@ == set0,
                self.agent_states@ == s0,
                self.partition_id == pid,
                boundary_map@ == bm,
                remaining@ == staying(bm, pid, s0.take(i as int)),
                self.outbox@ == o0 + departing(bm, pid, s0.take(i as int)),
            decreases s0.len() - i,
        {
            let agent = self.agent_states[i];
            proof {
                assert(s0.take(i + 1).drop_last() =~= s0.take(i as int));
                assert(s0.take(i + 1).last() == agent);
            }
            match boundary_map.get(&agent.edge_id) {
                Some(ends) => {
                    let (src_p, dst_p) = *ends;
                    if src_p == self.partition_id {
                        self.outbox.push(
                            BoundaryAgent { state: agent, dest_partition: dst_p, dest_edge_id: agent.edge_id },
                        );
                    } else {
                        remaining.push(agent);
                    }
                },
                None => {
                    remaining.push(agent);
                },
            }
            i = i + 1;
        }
        proof {
            assert(s0.take(i as int) =~= s0);
            lemma_split_len(bm, pid, s0);
        }
        self.agent_states = remaining;
    }

    /// Whether this partition owns the given edge.
    pub fn contains_edge(&self, edge_id: u32) -> (r: bool)
        ensures
            r == self.edge_set_view().contains(edge_id),
            self.wf() ==> (r <==> self.edges().contains(edge_id)),
    {
        self.edge_set.contains(&edge_id)
    }
}


/// Every boundary agent of `s` is bound for a partition below `n`.
pub open spec fn dests_below(s: Seq<BoundaryAgent>, n: int) -> bool {
    forall|k: int| 0 <= k < s.len() ==> (#[trigger] s[k]).dest_partition < n
}

/// Agents held by the first `n` partitions.
pub open spec fn population_upto(parts: Seq<GpuPartition>, n: nat) -> nat
    decreases n,
{
    if n == 0 {
        0
    } else {
        population_upto(parts, (n - 1) as nat) + parts[n - 1].held()
    }
}

/// Agents held by all partitions: in agent buffers, inboxes and outboxes.
pub open spec fn population(parts: Seq<GpuPartition>) -> nat {
    population_upto(parts, parts.len())
}

/// Agents in the buffers of the first `n` partitions.
pub open spec fn agents_upto(parts: Seq<GpuPartition>, n: nat) -> nat
    decreases n,
{
    if n == 0 {
        0
    } else {
        agents_upto(parts, (n - 1) as nat) + parts[n - 1].agents().len()
    }
}

/// The outboxes of the first `n` partitions, concatenated in partition order.
pub open spec fn outboxes(parts: Seq<GpuPartition>, n: nat) -> Seq<BoundaryAgent>
    decreases n,
{
    if n == 0 {
        Seq::empty()
    } else {
        outboxes(parts, (n - 1) as nat) + parts[n - 1].outgoing()
    }
}

/// The outbox of `p` after one step has spawned its inbox and collected
/// its boundary agents.
pub open spec fn step_outbox(bm: Map<u32, (u32, u32)>, p: GpuPartition) -> Seq<BoundaryAgent> {
    p.outgoing() + departing(bm, p.id(), p.agents() + arrivals(p.incoming()))
}

/// The outboxes of the first `n` partitions after one step has spawned and
/// collected, concatenated in partition order: what the step routes.
pub open spec fn step_outboxes(bm: Map<u32, (u32, u32)>, parts: Seq<GpuPartition>, n: nat) -> Seq<BoundaryAgent>
    decreases n,
{
    if n == 0 {
        Seq::empty()
    } else {
        step_outboxes(bm, parts, (n - 1) as nat) + step_outbox(bm, parts[n - 1])
    }
}

/// The agents of `s` whose edge is assigned to partition `j`, in order.
pub open spec fn assigned_to(etp: Map<u32, u32>, j: int, s: Seq<GpuAgentState>) -> Seq<GpuAgentState>
    decreases s.len(),
{
    if s.len() == 0 {
        Seq::empty()
    } else {
        let rest = assigned_to(etp, j, s.drop_last());
        if etp.contains_key(s.last().edge_id) && etp[s.last().edge_id] == j {
            rest.push(s.last())
        } else {
            rest
        }
    }
}

/// The agents whose edge is owned by partition `j`.
pub open spec fn owned_by(etp: Map<u32, u32>, j: int) -> spec_fn(GpuAgentState) -> bool {
    |a: GpuAgentState| etp.contains_key(a.edge_id) && etp[a.edge_id] == j
}

/// The agents whose edge is owned by one of the first `n` partitions.
pub open spec fn owned_below(etp: Map<u32, u32>, n: int) -> spec_fn(GpuAgentState) -> bool {
    |a: GpuAgentState| etp.contains_key(a.edge_id) && etp[a.edge_id] < n
}

/// Agents of `s` assigned to the first `n` partitions, counted partition by
/// partition.
pub open spec fn assigned_upto(etp: Map<u32, u32>, s: Seq<GpuAgentState>, n: nat) -> nat
    decreases n,
{
    if n == 0 {
        0
    } else {
        assigned_upto(etp, s, (n - 1) as nat) + assigned_to(etp, n - 1, s).len()
    }
}

/// Law: the agents assigned to partition `j` are exactly the agents whose
/// edge is owned by `j`, each kept once and in the given order; two agents
/// on the same edge are both kept.
pub proof fn lemma_assigned_to_filter(etp: Map<u32, u32>, j: int, s: Seq<GpuAgentState>)
    ensures
        assigned_to(etp, j, s) == s.filter(owned_by(etp, j)),
    decreases s.len(),
{
    reveal(Seq::filter);
    if s.len() > 0 {
        lemma_assigned_to_filter(etp, j, s.drop_last());
    }
}

proof fn lemma_assigned_upto_empty(etp: Map<u32, u32>, s: Seq<GpuAgentState>, n: nat)
    requires
        s.len() == 0,
    ensures
        assigned_upto(etp, s, n) == 0,
    decreases n,
{
    if n > 0 {
        lemma_assigned_upto_empty(etp, s, (n - 1) as nat);
    }
}

proof fn lemma_assigned_upto_step(etp: Map<u32, u32>, s: Seq<GpuAgentState>, n: nat)
    requires
        s.len() > 0,
    ensures
        assigned_upto(etp, s, n) == assigned_upto(etp, s.drop_last(), n) + (if etp.contains_key(s.last().edge_id)
            && etp[s.last().edge_id] < n { 1int } else { 0int }),
    decreases n,
{
    if n > 0 {
        lemma_assigned_upto_step(etp, s, (n - 1) as nat);
    }
}

/// Law: distribution loses and duplicates no agent. Over the first `n`
/// partitions, the agents assigned number exactly the given agents whose
/// edge is owned by one of those partitions.
pub proof fn lemma_placed_count(etp: Map<u32, u32>, s: Seq<GpuAgentState>, n: nat)
    ensures
        assigned_upto(etp, s, n) == s.filter(owned_below(etp, n as int)).len(),
    decreases s.len(),
{
    reveal(Seq::filter);
    if s.len() == 0 {
        lemma_assigned_upto_empty(etp, s, n);
    } else {
        lemma_assigned_upto_step(etp, s, n);
        lemma_placed_count(etp, s.drop_last(), n);
    }
}

proof fn lemma_population_added(
    a: Seq<GpuPartition>,
    b: Seq<GpuPartition>,
    etp: Map<u32, u32>,
    s: Seq<GpuAgentState>,
    n: nat,
)
    requires
        n <= a.len(),
        n <= b.len(),
        forall|j: int| 0 <= j < n ==> #[trigger] b[j].held() == a[j].held() + assigned_to(etp, j, s).len(),
    ensures
        population_upto(b, n) == population_upto(a, n) + assigned_upto(etp, s, n),
    decreases n,
{
    if n > 0 {
        lemma_population_added(a, b, etp, s, (n - 1) as nat);
        assert(b[n - 1].held() == a[n - 1].held() + assigned_to(etp, n - 1, s).len());
    }
}

/// Boundary agents of `s` bound for the first `n` partitions.
pub open spec fn inbound_upto(s: Seq<BoundaryAgent>, n: nat) -> nat
    decreases n,
{
    if n == 0 {
        0
    } else {
        inbound_upto(s, (n - 1) as nat) + bound_for(s, n - 1).len()
    }
}

proof fn lemma_inbound_step(s: Seq<BoundaryAgent>, n: nat)
    requires
        s.len() > 0,
    ensures
        inbound_upto(s, n) == inbound_upto(s.drop_last(), n) + (if s.last().dest_partition < n { 1int } else { 0int }),
    decreases n,
{
    if n > 0 {
        lemma_inbound_step(s, (n - 1) as nat);
    }
}

proof fn lemma_inbound_all(s: Seq<BoundaryAgent>, n: nat)
    requires
        dests_below(s, n as int),
    ensures
        inbound_upto(s, n) == s.len(),
    decreases s.len(),
{
    if s.len() == 0 {
        assert(inbound_upto(s, n) == 0) by {
            lemma_inbound_empty(s, n);
        }
    } else {
        assert(s.last() == s[s.len() - 1]);
        lemma_inbound_step(s, n);
        assert(dests_below(s.drop_last(), n as int)) by {
            assert forall|k: int| 0 <= k < s.drop_last().len() implies (#[trigger] s.drop_last()[k]).dest_partition < n by {
                assert(s.drop_last()[k] == s[k]);
            }
        }
        lemma_inbound_all(s.drop_last(), n);
    }
}

proof fn lemma_inbound_empty(s: Seq<BoundaryAgent>, n: nat)
    requires
        s.len() == 0,
    ensures
        inbound_upto(s, n) == 0,
    decreases n,
{
    if n > 0 {
        lemma_inbound_empty(s, (n - 1) as nat);
    }
}

proof fn lemma_population_pointwise(a: Seq<GpuPartition>, b: Seq<GpuPartition>, n: nat)
    requires
        n <= a.len(),
        n <= b.len(),
        forall|j: int| 0 <= j < n ==> #[trigger] a[j].held() == b[j].held(),
    ensures
        population_upto(a, n) == population_upto(b, n),
    decreases n,
{
    if n > 0 {
        lemma_population_pointwise(a, b, (n - 1) as nat);
    }
}

proof fn lemma_population_routed(a: Seq<GpuPartition>, b: Seq<GpuPartition>, all: Seq<BoundaryAgent>, n: nat)
    requires
        n <= a.len(),
        n <= b.len(),
        forall|j: int| 0 <= j < n ==> #[trigger] b[j].held() + a[j].outgoing().len() == a[j].held() + bound_for(all, j).len(),
    ensures
        population_upto(b, n) + outboxes(a, n).len() == population_upto(a, n) + inbound_upto(all, n),
    decreases n,
{
    if n > 0 {
        lemma_population_routed(a, b, all, (n - 1) as nat);
        assert(b[n - 1].held() + a[n - 1].outgoing().len() == a[n - 1].held() + bound_for(all, n - 1).len());
    }
}

proof fn lemma_outboxes_dests(parts: Seq<GpuPartition>, n: nat, bound: int)
    requires
        n <= parts.len(),
        forall|j: int| 0 <= j < n ==> dests_below(#[trigger] parts[j].outgoing(), bound),
    ensures
        dests_below(outboxes(parts, n), bound),
    decreases n,
{
    if n > 0 {
        lemma_outboxes_dests(parts, (n - 1) as nat, bound);
        let prev = outboxes(parts, (n - 1) as nat);
        let last = parts[n - 1].outgoing();
        assert(dests_below(last, bound));
        assert forall|k: int| 0 <= k < outboxes(parts, n).len() implies (#[trigger] outboxes(parts, n)[k]).dest_partition < bound by {
            if k < prev.len() {
                assert(outboxes(parts, n)[k] == prev[k]);
            } else {
                assert(outboxes(parts, n)[k] == last[k - prev.len()]);
            }
        }
    }
}

proof fn lemma_step_outboxes(bm: Map<u32, (u32, u32)>, old_parts: Seq<GpuPartition>, mid: Seq<GpuPartition>, n: nat)
    requires
        n <= old_parts.len(),
        n <= mid.len(),
        forall|j: int| 0 <= j < n ==> #[trigger] mid[j].outgoing() == step_outbox(bm, old_parts[j]),
    ensures
        outboxes(mid, n) == step_outboxes(bm, old_parts, n),
    decreases n,
{
    if n > 0 {
        lemma_step_outboxes(bm, old_parts, mid, (n - 1) as nat);
        assert(mid[n - 1].outgoing() == step_outbox(bm, old_parts[n - 1]));
    }
}

proof fn lemma_agents_total_bound(parts: Seq<GpuPartition>, n: nat, m: nat)
    requires
        n <= m <= parts.len(),
    ensures
        agents_upto(parts, n) <= agents_upto(parts, m),
    decreases m,
{
    if n < m {
        lemma_agents_total_bound(parts, n, (m - 1) as nat);
    }
}

proof fn lemma_boundary_map_within(boundary: Seq<(u32, u32, u32)>, k: u32)
    requires
        boundary_within(boundary, k),
    ensures
        forall|e: u32| #[trigger] boundary_map_of(boundary).contains_key(e) ==> boundary_map_of(boundary)[e].1 < k,
    decreases boundary.len(),
{
    if boundary.len() > 0 {
        let rest = boundary.drop_last();
        assert(boundary_within(rest, k)) by {
            assert forall|i: int| 0 <= i < rest.len() implies (#[trigger] rest[i]).1 < k && rest[i].2 < k by {
                assert(rest[i] == boundary[i]);
            }
        }
        lemma_boundary_map_within(rest, k);
        let last = boundary[boundary.len() - 1];
        assert(boundary.last() == last);
        assert forall|e: u32| #[trigger] boundary_map_of(boundary).contains_key(e) implies boundary_map_of(boundary)[e].1 < k by {
            if e != last.0 {
                assert(boundary_map_of(rest).contains_key(e));
            }
        }
    }
}

/// Orchestrates multi-partition dispatch and boundary routing.
///
/// The per-step protocol:
/// 1. Drain inboxes (spawn boundary agents in destination partitions)
/// 2. Dispatch physics for each partition
/// 3. Collect outboxes (identify agents on boundary edges)
/// 4. Route outbox agents to the inboxes of their destination partitions
pub struct MultiGpuScheduler {
    /// Partitions indexed by partition id.
    partitions: Vec<GpuPartition>,
    /// Boundary edge map: edge_id -> (src_partition, dst_partition).
    boundary_map: HashMap<u32, (u32, u32)>,
    /// The partition assignment used to create this scheduler.
    assignment: PartitionAssignment,
}

impl MultiGpuScheduler {
    /// The partitions, indexed by partition id.
    pub closed spec fn parts(&self) -> Seq<GpuPartition> {
        self.partitions@
    }

    /// The boundary map: edge_id -> (src_partition, dst_partition).
    pub closed spec fn boundary(&self) -> Map<u32, (u32, u32)> {
        self.boundary_map@
    }

    /// The edge-to-partition map of the assignment the scheduler was made from.
    pub closed spec fn edge_owner(&self) -> Map<u32, u32> {
        self.assignment.edge_to_partition@
    }

    /// The boundary edges of the assignment the scheduler was made from.
    pub closed spec fn boundary_list(&self) -> Seq<(u32, u32, u32)> {
        self.assignment.boundary_edges@
    }

    /// The partition count of the assignment the scheduler was made from.
    pub closed spec fn count(&self) -> u32 {
        self.assignment.partition_count
    }

    /// Every boundary edge leads to an existing partition, and so does
    /// every agent waiting in an outbox: no agent can be lost in routing.
    pub open spec fn routes_closed(&self) -> bool {
        &&& forall|e: u32| #[trigger] self.boundary().contains_key(e) ==> self.boundary()[e].1 < self.parts().len()
        &&& forall|j: int| 0 <= j < self.parts().len() ==> dests_below(#[trigger] self.parts()[j].outgoing(),
            self.parts().len() as int)
    }

    /// Create a scheduler from a partition assignment: one partition per
    /// partition id, each owning exactly the edges assigned to it, with no
    /// agents yet.
    pub fn new(assignment: PartitionAssignment) -> (r: Self)
        ensures
            r.parts().len() == assignment.partition_count,
            r.boundary() == boundary_map_of(assignment.boundary_edges@),
            r.edge_owner() == assignment.edge_to_partition@,
            r.boundary_list() == assignment.boundary_edges@,
            r.count() == assignment.partition_count,
            boundary_within(assignment.boundary_edges@, assignment.partition_count) ==> r.routes_closed(),
            forall|j: int| 0 <= j < r.parts().len() ==> {
                let p = #[trigger] r.parts()[j];
                &&& p.wf()
                &&& p.id() == j
                &&& p.edges().no_duplicates()
                &&& forall|e: u32| #[trigger] p.edges().contains(e) <==> (assignment.edge_to_partition@.contains_key(e)
                    && assignment.edge_to_partition@[e] == j)
                &&& p.agents().len() == 0
                &&& p.incoming().len() == 0
                &&& p.outgoing().len() == 0
            },
    {
        let k = assignment.partition_count;
        let boundary_map = assignment.boundary_map();
        let mut partitions: Vec<GpuPartition> = Vec::new();
        let mut pid: u32 = 0;
        while pid < k
            invariant
                pid <= k,
                partitions@.len() == pid,
                forall|j: int| 0 <= j < pid ==> {
                    let p = #[trigger] partitions@[j];
                    &&& p.wf()
                    &&& p.id() == j
                    &&& p.edges().no_duplicates()
                    &&& forall|e: u32| #[trigger] p.edges().contains(e) <==> (assignment.edge_to_partition@.contains_key(e)
                        && assignment.edge_to_partition@[e] == j)
                    &&& p.agents().len() == 0
                    &&& p.incoming().len() == 0
                    &&& p.outgoing().len() == 0
                },
            decreases k - pid,
        {
            let edges = partition_edges(&assignment, pid);
            let p = GpuPartition::new(pid, edges);
            partitions.push(p);
            pid = pid + 1;
        }
        let r = MultiGpuScheduler { partitions, boundary_map, assignment };
        proof {
            if boundary_within(r.assignment.boundary_edges@, k) {
                lemma_boundary_map_within(r.assignment.boundary_edges@, k);
            }
        }
        r
    }

    /// The edge ids of a partition; empty for an unknown partition id.
    pub fn partition_edge_ids(&self, partition_id: u32) -> (r: Vec<u32>)
        ensures
            r@ == if partition_id < self.parts().len() {
                self.parts()[partition_id as int].edges()
            } else {
                Seq::empty()
            },
    {
        let idx = partition_id as usize;
        if idx < self.partitions.len() {
            let src = &self.partitions[idx].edge_ids;
            let mut out: Vec<u32> = Vec::new();
            let mut i: usize = 0;
            while i < src.len()
                invariant
                    i <= src@.len(),
                    out@ == src@.take(i as int),
                decreases src@.len() - i,
            {
                out.push(src[i]);
                i = i + 1;
                proof {
                    assert(src@.take(i as int) =~= src@.take(i - 1).push(src@[i - 1]));
                }
            }
            proof {
                assert(src@.take(i as int) =~= src@);
            }
            out
        } else {
            Vec::new()
        }
    }

    /// Distribute agents across partitions by the partition their edge is
    /// assigned to; an agent on an unassigned edge, or on an edge assigned
    /// to a partition that does not exist, is not placed anywhere.
    pub fn distribute_agents(&mut self, agents: &[GpuAgentState])
        ensures
            final(self).parts().len() == old(self).parts().len(),
            final(self).boundary() == old(self).boundary(),
            final(self).edge_owner() == old(self).edge_owner(),
            final(self).boundary_list() == old(self).boundary_list(),
            final(self).count() == old(self).count(),
            forall|j: int| 0 <= j < final(self).parts().len() ==> {
                let p = #[trigger] final(self).parts()[j];
                let q = old(self).parts()[j];
                &&& p.same_layout(&q)
                &&& p.agents() == q.agents() + assigned_to(old(self).edge_owner(), j, agents@)
                &&& p.incoming() == q.incoming()
                &&& p.outgoing() == q.outgoing()
            },
            forall|j: int| 0 <= j < final(self).parts().len() ==> #[trigger] final(self).parts()[j].agents()
                == old(self).parts()[j].agents() + agents@.filter(owned_by(old(self).edge_owner(), j)),
            population(final(self).parts()) == population(old(self).parts()) + agents@.filter(
                owned_below(old(self).edge_owner(), old(self).parts().len() as int)).len(),
    {
        let ghost p0 = self.partitions@;
        let ghost etp = self.assignment.edge_to_partition@;
        let mut i: usize = 0;
        while i < agents.len()
            invariant
                i <= agents@.len(),
                self.partitions@.len() == p0.len(),
                self.assignment.edge_to_partition@ == etp,
                self.boundary_map@ == old(self).boundary_map@,
                self.assignment.boundary_edges@ == old(self).assignment.boundary_edges@,
                self.assignment.partition_count == old(self).assignment.partition_count,
                forall|j: int| 0 <= j < p0.len() ==> {
                    let p = #[trigger] self.partitions@[j];
                    let q = p0[j];
                    &&& p.same_layout(&q)
                    &&& p.agents() == q.agents() + assigned_to(etp, j, agents@.take(i as int))
                    &&& p.incoming() == q.incoming()
                    &&& p.outgoing() == q.outgoing()
                },
            decreases agents@.len() - i,
        {
            let agent = agents[i];
            proof {
                assert(agents@.take(i + 1).drop_last() =~= agents@.take(i as int));
                assert(agents@.take(i + 1).last() == agent);
            }
            match self.assignment.edge_to_partition.get(&agent.edge_id) {
                Some(pid_ref) => {
                    let pid = *pid_ref as usize;
                    if pid < self.partitions.len() {
                        self.partitions[pid].agent_states.push(agent);
                    }
                },
                None => {},
            }
            i = i + 1;
        }
        proof {
            assert(agents@.take(i as int) =~= agents@);
            let n = p0.len();
            let p1 = self.partitions@;
            assert forall|j: int| 0 <= j < n implies #[trigger] p1[j].held() == p0[j].held() + assigned_to(etp, j, agents@).len() by {
                assert(p1[j].agents() == p0[j].agents() + assigned_to(etp, j, agents@));
            }
            assert forall|j: int| 0 <= j < n implies #[trigger] p1[j].agents() == p0[j].agents() + agents@.filter(
                owned_by(etp, j)) by {
                assert(p1[j].agents() == p0[j].agents() + assigned_to(etp, j, agents@));
                lemma_assigned_to_filter(etp, j, agents@);
            }
            lemma_population_added(p0, p1, etp, agents@, n as nat);
            lemma_placed_count(etp, agents@, n as nat);
        }
    }

    /// Run one CPU-only protocol step (no GPU dispatch): drain every inbox
    /// into its partition, collect every partition's boundary agents into
    /// its outbox, then route all outboxes to the destination inboxes.
    ///
    /// When every route leads to an existing partition, the step neither
    /// loses nor duplicates an agent.
    pub fn step_cpu(&mut self)
        ensures
            final(self).parts().len() == old(self).parts().len(),
            final(self).boundary() == old(self).boundary(),
            final(self).edge_owner() == old(self).edge_owner(),
            final(self).boundary_list() == old(self).boundary_list(),
            final(self).count() == old(self).count(),
            forall|j: int| 0 <= j < final(self).parts().len() ==> {
                let p = #[trigger] final(self).parts()[j];
                let q = old(self).parts()[j];
                &&& p.same_layout(&q)
                &&& p.agents() == staying(old(self).boundary(), q.id(), q.agents() + arrivals(q.incoming()))
                &&& p.outgoing().len() == 0
                &&& p.incoming() == bound_for(step_outboxes(old(self).boundary(), old(self).parts(),
                    old(self).parts().len()), j)
            },
            old(self).routes_closed() ==> population(final(self).parts()) == population(old(self).parts()),
    {
        let ghost p0 = self.partitions@;
        let ghost bm = self.boundary_map@;
        let ghost n = p0.len();
        let mut i: usize = 0;
        while i < self.partitions.len()
            invariant
                i <= n,
                self.partitions@.len() == n,
                self.boundary_map@ == bm,
                self.assignment.edge_to_partition@ == old(self).assignment.edge_to_partition@,
                self.assignment.boundary_edges@ == old(self).assignment.boundary_edges@,
                self.assignment.partition_count == old(self).assignment.partition_count,
                forall|j: int| 0 <= j < i ==> {
                    let p = #[trigger] self.partitions@[j];
                    let q = p0[j];
                    &&& p.same_layout(&q)
                    &&& p.agents() == q.agents() + arrivals(q.incoming())
                    &&& p.incoming().len() == 0
                    &&& p.outgoing() == q.outgoing()
                    &&& p.held() == q.held()
                },
                forall|j: int| i <= j < n ==> #[trigger] self.partitions@[j] == p0[j],
            decreases n - i,
        {
            self.partitions[i].spawn_inbox_agents();
            i = i + 1;
        }
        let ghost p1 = self.partitions@;
        let mut i: usize = 0;
        while i < self.partitions.len()
            invariant
                i <= n,
                self.partitions@.len() == n,
                self.boundary_map@ == bm,
                self.assignment.edge_to_partition@ == old(self).assignment.edge_to_partition@,
                self.assignment.boundary_edges@ == old(self).assignment.boundary_edges@,
                self.assignment.partition_count == old(self).assignment.partition_count,
                forall|j: int| 0 <= j < i ==> {
                    let p = #[trigger] self.partitions@[j];
                    let q = p1[j];
                    &&& p.same_layout(&q)
                    &&& p.agents() == staying(bm, q.id(), q.agents())
                    &&& p.outgoing() == q.outgoing() + departing(bm, q.id(), q.agents())
                    &&& p.incoming() == q.incoming()
                    &&& p.held() == q.held()
                },
                forall|j: int| i <= j < n ==> #[trigger] self.partitions@[j] == p1[j],
            decreases n - i,
        {
            self.partitions[i].collect_outbox_agents(&self.boundary_map);
            i = i + 1;
        }
        let ghost p2 = self.partitions@;
        proof {
            assert forall|j: int| 0 <= j < n implies #[trigger] p2[j].outgoing() == step_outbox(bm, p0[j]) by {
                assert(p1[j].id() == p0[j].id());
            }
            lemma_step_outboxes(bm, p0, p2, n);
        }
        self.route_outbox_agents();
        proof {
            let p3 = self.partitions@;
            let all = outboxes(p2, n);
            assert forall|j: int| 0 <= j < n implies #[trigger] p2[j].held() == p0[j].held() by {
                assert(p1[j].held() == p0[j].held());
            }
            lemma_population_pointwise(p2, p0, n);
            assert forall|j: int| 0 <= j < n implies #[trigger] p3[j].held() + p2[j].outgoing().len()
                == p2[j].held() + bound_for(all, j).len() by {
            }
            lemma_population_routed(p2, p3, all, n);
            if old(self).routes_closed() {
                assert(old(self).parts() == p0);
                assert(old(self).boundary() == bm);
                assert forall|j: int| 0 <= j < n implies dests_below(#[trigger] p2[j].outgoing(), n as int) by {
                    assert(dests_below(old(self).parts()[j].outgoing(), n as int));
                    let q = p1[j];
                    lemma_departing_dests(bm, q.id(), q.agents(), n as int);
                    assert(dests_below(p0[j].outgoing(), n as int));
                    let a = q.outgoing();
                    let d = departing(bm, q.id(), q.agents());
                    assert forall|k: int| 0 <= k < p2[j].outgoing().len() implies (#[trigger] p2[j].outgoing()[k]).dest_partition < n by {
                        if k < a.len() {
                            assert(p2[j].outgoing()[k] == a[k]);
                        } else {
                            assert(p2[j].outgoing()[k] == d[k - a.len()]);
                        }
                    }
                }
                lemma_outboxes_dests(p2, n, n as int);
                lemma_inbound_all(all, n);
            }
        }
    }

    /// Route all outbox agents, in partition order, to the inboxes of their
    /// destination partitions; an agent bound for a partition that does
    /// not exist is dropped. Every outbox is left empty.
    fn route_outbox_agents(&mut self)
        ensures
            final(self).parts().len() == old(self).parts().len(),
            final(self).boundary() == old(self).boundary(),
            final(self).edge_owner() == old(self).edge_owner(),
            final(self).boundary_list() == old(self).boundary_list(),
            final(self).count() == old(self).count(),
            forall|j: int| 0 <= j < final(self).parts().len() ==> {
                let p = #[trigger] final(self).parts()[j];
                let q = old(self).parts()[j];
                &&& p.same_layout(&q)
                &&& p.agents() == q.agents()
                &&& p.outgoing().len() == 0
                &&& p.incoming() == q.incoming() + bound_for(outboxes(old(self).parts(), old(self).parts().len()), j)
            },
    {
        let ghost p0 = self.partitions@;
        let ghost n = p0.len();
        let mut all_outbox: Vec<BoundaryAgent> = Vec::new();
        let mut i: usize = 0;
        while i < self.partitions.len()
            invariant
                i <= n,
                self.partitions@.len() == n,
                self.boundary_map@ == old(self).boundary_map@,
                self.assignment.edge_to_partition@ == old(self).assignment.edge_to_partition@,
                self.assignment.boundary_edges@ == old(self).assignment.boundary_edges@,
                self.assignment.partition_count == old(self).assignment.partition_count,
                all_outbox@ == outboxes(p0, i as nat),
                forall|j: int| 0 <= j < i ==> {
                    let p = #[trigger] self.partitions@[j];
                    let q = p0[j];
                    &&& p.same_layout(&q)
                    &&& p.agents() == q.agents()
                    &&& p.outgoing().len() == 0
                    &&& p.incoming() == q.incoming()
                },
                forall|j: int| i <= j < n ==> #[trigger] self.partitions@[j] == p0[j],
            decreases n - i,
        {
            all_outbox.append(&mut self.partitions[i].outbox);
            i = i + 1;
        }
        let ghost all = all_outbox@;
        let ghost p1 = self.partitions@;
        let mut k: usize = 0;
        while k < all_outbox.len()
            invariant
                k <= all.len(),
                all_outbox@ == all,
                all == outboxes(p0, n),
                self.partitions@.len() == n,
                self.boundary_map@ == old(self).boundary_map@,
                self.assignment.edge_to_partition@ == old(self).assignment.edge_to_partition@,
                self.assignment.boundary_edges@ == old(self).assignment.boundary_edges@,
                self.assignment.partition_count == old(self).assignment.partition_count,
                forall|j: int| 0 <= j < n ==> {
                    let p = #[trigger] self.partitions@[j];
                    let q = p1[j];
                    &&& p.same_layout(&q)
                    &&& p.agents() == q.agents()
                    &&& p.outgoing() == q.outgoing()
                    &&& p.incoming() == q.incoming() + bound_for(all.take(k as int), j)
                },
            decreases all.len() - k,
        {
            let ba = all_outbox[k];
            proof {
                assert(all.take(k + 1).drop_last() =~= all.take(k as int));
                assert(all.take(k + 1).last() == ba);
            }
            let dest = ba.dest_partition as usize;
            if dest < self.partitions.len() {
                self.partitions[dest].inbox.push(ba);
            }
            k = k + 1;
        }
        proof {
            assert(all.take(k as int) =~= all);
        }
    }

    /// Total agent count across all partition buffers.
    pub fn agent_count(&self) -> (r: usize)
        requires
            agents_upto(self.parts(), self.parts().len()) <= usize::MAX,
        ensures
            r == agents_upto(self.parts(), self.parts().len()),
    {
        let mut total: usize = 0;
        let mut i: usize = 0;
        while i < self.partitions.len()
            invariant
                i <= self.partitions@.len(),
                total == agents_upto(self.partitions@, i as nat),
                agents_upto(self.partitions@, self.partitions@.len()) <= usize::MAX,
            decreases self.partitions@.len() - i,
        {
            proof {
                lemma_agents_total_bound(self.partitions@, (i + 1) as nat, self.partitions@.len());
            }
            total = total + self.partitions[i].agent_states.len();
            i = i + 1;
        }
        total
    }

    /// The partitions, indexed by partition id.
    pub fn partitions(&self) -> (r: &[GpuPartition])
        ensures
            r@ == self.parts(),
    {
        self.partitions.as_slice()
    }

    /// Mutable access to the partitions; the scheduler's partitions are
    /// whatever the caller leaves in the slice.
    pub fn partitions_mut(&mut self) -> (r: &mut [GpuPartition])
        ensures
            r@ == old(self).parts(),
            final(self).parts() == final(r)@,
            final(self).boundary() == old(self).boundary(),
            final(self).edge_owner() == old(self).edge_owner(),
            final(self).boundary_list() == old(self).boundary_list(),
            final(self).count() == old(self).count(),
    {
        self.partitions.as_mut_slice()
    }

    /// The boundary map: edge_id -> (src_partition, dst_partition).
    pub fn boundary_map(&self) -> (r: &HashMap<u32, (u32, u32)>)
        ensures
            r@ == self.boundary(),
    {
        &self.boundary_map
    }

    /// The partition assignment the scheduler was made from.
    pub fn assignment(&self) -> (r: &PartitionAssignment)
        ensures
            r.edge_to_partition@ == self.edge_owner(),
            r.boundary_edges@ == self.boundary_list(),
            r.partition_count == self.count(),
    {
        &self.assignment
    }
}

} // verus!
