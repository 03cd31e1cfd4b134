use std::collections::HashMap;

use velos::components::GpuAgentState;
use velos::multi_gpu::{BoundaryAgent, GpuPartition, MultiGpuScheduler};
use velos::partition::{partition_network, PartitionAssignment, RoadTopology};

fn agent(edge_id: u32, position: i32) -> GpuAgentState {
    GpuAgentState {
        edge_id,
        lane_idx: 1,
        position,
        lateral: 3,
        speed: 7,
        acceleration: 0,
        cf_model: 1,
        rng_state: 99,
        vehicle_type: 2,
        flags: 0,
    }
}

fn two_way_assignment() -> PartitionAssignment {
    // Edges 0,1 in partition 0; edges 2,3 in partition 1; edge 1 crosses 0 -> 1, edge 3 crosses 1 -> 0.
    let mut edge_to_partition = HashMap::new();
    edge_to_partition.insert(0, 0);
    edge_to_partition.insert(1, 0);
    edge_to_partition.insert(2, 1);
    edge_to_partition.insert(3, 1);
    PartitionAssignment { edge_to_partition, boundary_edges: vec![(1, 0, 1), (3, 1, 0)], partition_count: 2 }
}

fn total_held(s: &MultiGpuScheduler) -> usize {
    s.partitions().iter().map(|p| p.agent_states.len() + p.inbox.len() + p.outbox.len()).sum()
}

#[test]
fn new_partition_owns_its_edges() {
    let p = GpuPartition::new(3, vec![5, 9]);
    assert_eq!(p.partition_id, 3);
    assert!(p.contains_edge(5));
    assert!(p.contains_edge(9));
    assert!(!p.contains_edge(6));
    assert!(p.agent_states.is_empty() && p.inbox.is_empty() && p.outbox.is_empty());
}

#[test]
fn spawn_inbox_places_agents_at_edge_start() {
    let mut p = GpuPartition::new(1, vec![2]);
    p.inbox.push(BoundaryAgent { state: agent(1, 12345), dest_partition: 1, dest_edge_id: 2 });
    p.spawn_inbox_agents();
    assert!(p.inbox.is_empty());
    assert_eq!(p.agent_states.len(), 1);
    let a = p.agent_states[0];
    assert_eq!(a.edge_id, 2);
    assert_eq!(a.position, 0);
    assert_eq!(a.rng_state, 99);
    assert_eq!(a.lateral, 3);
}

#[test]
fn collect_outbox_moves_only_own_boundary_agents() {
    let mut bm = HashMap::new();
    bm.insert(1, (0, 1));
    bm.insert(3, (1, 0));
    let mut p = GpuPartition::new(0, vec![0, 1]);
    p.agent_states = vec![agent(0, 1), agent(1, 2), agent(3, 3), agent(0, 4)];
    p.collect_outbox_agents(&bm);
    let positions: Vec<i32> = p.agent_states.iter().map(|a| a.position).collect();
    assert_eq!(positions, vec![1, 3, 4]);
    assert_eq!(p.outbox.len(), 1);
    assert_eq!(p.outbox[0].dest_partition, 1);
    assert_eq!(p.outbox[0].dest_edge_id, 1);
    assert_eq!(p.outbox[0].state.position, 2);
}

#[test]
fn scheduler_builds_one_partition_per_id() {
    let s = MultiGpuScheduler::new(two_way_assignment());
    assert_eq!(s.partitions().len(), 2);
    let mut e0 = s.partition_edge_ids(0);
    e0.sort();
    assert_eq!(e0, vec![0, 1]);
    let mut e1 = s.partition_edge_ids(1);
    e1.sort();
    assert_eq!(e1, vec![2, 3]);
    assert!(s.partition_edge_ids(2).is_empty());
    assert_eq!(s.boundary_map().len(), 2);
    assert_eq!(s.assignment().partition_count, 2);
}

#[test]
fn distribute_places_agents_by_edge_owner() {
    let mut s = MultiGpuScheduler::new(two_way_assignment());
    s.distribute_agents(&[agent(0, 1), agent(2, 2), agent(3, 3), agent(77, 4)]);
    assert_eq!(s.agent_count(), 3);
    assert_eq!(s.partitions()[0].agent_states.len(), 1);
    assert_eq!(s.partitions()[1].agent_states.len(), 2);
}

#[test]
fn step_moves_boundary_agents_and_conserves_them() {
    let mut s = MultiGpuScheduler::new(two_way_assignment());
    s.distribute_agents(&[agent(0, 1), agent(1, 2), agent(2, 3), agent(3, 4)]);
    assert_eq!(total_held(&s), 4);

    s.step_cpu();
    assert_eq!(total_held(&s), 4);
    // Agent on edge 1 (0 -> 1) waits in partition 1's inbox, agent on edge 3 in partition 0's.
    assert_eq!(s.partitions()[1].inbox.len(), 1);
    assert_eq!(s.partitions()[1].inbox[0].state.position, 2);
    assert_eq!(s.partitions()[0].inbox.len(), 1);
    assert_eq!(s.partitions()[0].inbox[0].state.position, 4);
    assert_eq!(s.agent_count(), 2);

    s.step_cpu();
    assert_eq!(total_held(&s), 4);
    // Spawned agents restart at position 0 on the boundary edge; in their
    // new partition that edge does not start there, so they stay.
    assert_eq!(s.agent_count(), 4);
    assert!(s.partitions()[0].inbox.is_empty() && s.partitions()[1].inbox.is_empty());
    let p1 = &s.partitions()[1].agent_states;
    assert_eq!(p1[p1.len() - 1].edge_id, 1);
    assert_eq!(p1[p1.len() - 1].position, 0);
}

#[test]
fn route_drops_agents_bound_for_missing_partition() {
    let mut s = MultiGpuScheduler::new(two_way_assignment());
    s.partitions_mut()[0].outbox.push(BoundaryAgent { state: agent(1, 5), dest_partition: 9, dest_edge_id: 1 });
    s.step_cpu();
    assert_eq!(total_held(&s), 0);
}

#[test]
fn scheduler_on_partitioned_network_conserves_agents() {
    let mut edges = Vec::new();
    for i in 0..5u32 {
        edges.push((i, i + 1));
        edges.push((i + 1, i));
    }
    let g = RoadTopology { node_count: 6, edges };
    let a = partition_network(&g, 3);
    let mut s = MultiGpuScheduler::new(a);
    let agents: Vec<GpuAgentState> = (0..10u32).map(|e| agent(e, e as i32)).collect();
    s.distribute_agents(&agents);
    assert_eq!(s.agent_count(), 10);
    for _ in 0..5 {
        s.step_cpu();
        assert_eq!(total_held(&s), 10);
    }
}
