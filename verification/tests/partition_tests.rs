use std::collections::{HashMap, HashSet};

use velos::partition::{
    bfs_bisect, partition_edges, partition_network, recursive_bisect, PartitionAssignment, RoadTopology,
};

fn path_adjacency(n: u32) -> HashMap<u32, HashSet<u32>> {
    let mut adj: HashMap<u32, HashSet<u32>> = HashMap::new();
    for i in 0..n - 1 {
        adj.entry(i).or_insert_with(HashSet::new).insert(i + 1);
        adj.entry(i + 1).or_insert_with(HashSet::new).insert(i);
    }
    adj
}

#[test]
fn bfs_bisect_splits_evenly() {
    let nodes: Vec<u32> = (0..10).collect();
    let mut adj = HashMap::new();
    for i in 0..9u32 {
        adj.entry(i).or_insert_with(HashSet::new).insert(i + 1);
        adj.entry(i + 1).or_insert_with(HashSet::new).insert(i);
    }

    let (a, b) = bfs_bisect(&nodes, &adj);
    assert_eq!(a.len(), 5);
    assert_eq!(b.len(), 5);
}

#[test]
fn bfs_bisect_grows_from_first_node_along_path() {
    let nodes: Vec<u32> = (0..10).collect();
    let (a, b) = bfs_bisect(&nodes, &path_adjacency(10));
    assert_eq!(a, vec![0, 1, 2, 3, 4]);
    assert_eq!(b, vec![5, 6, 7, 8, 9]);
}

#[test]
fn bfs_bisect_disconnected_stops_at_component() {
    // Two components {0,1} and {2,3,4,5}: BFS from 0 reaches only 2 nodes of the 3 wanted.
    let nodes: Vec<u32> = (0..6).collect();
    let mut adj: HashMap<u32, HashSet<u32>> = HashMap::new();
    for (s, t) in [(0u32, 1u32), (2, 3), (3, 4), (4, 5)] {
        adj.entry(s).or_insert_with(HashSet::new).insert(t);
        adj.entry(t).or_insert_with(HashSet::new).insert(s);
    }
    let (a, b) = bfs_bisect(&nodes, &adj);
    assert_eq!(a, vec![0, 1]);
    assert_eq!(b, vec![2, 3, 4, 5]);
}

#[test]
fn recursive_bisect_four_ways_on_a_path() {
    let nodes: Vec<u32> = (0..8).collect();
    let parts = recursive_bisect(&nodes, &path_adjacency(8), 4);
    assert_eq!(parts.len(), 8);
    let mut sizes = [0u32; 4];
    for v in 0..8u32 {
        let p = parts[&v];
        assert!(p < 4);
        sizes[p as usize] += 1;
    }
    assert_eq!(sizes, [2, 2, 2, 2]);
}

#[test]
fn recursive_bisect_one_part_is_all_zero() {
    let nodes: Vec<u32> = vec![7, 3, 5];
    let parts = recursive_bisect(&nodes, &HashMap::new(), 1);
    assert_eq!(parts.len(), 3);
    assert!(parts.values().all(|&p| p == 0));
}

fn path_graph(n: u32) -> RoadTopology {
    let mut edges = Vec::new();
    for i in 0..n - 1 {
        edges.push((i, i + 1));
        edges.push((i + 1, i));
    }
    RoadTopology { node_count: n, edges }
}

#[test]
fn partition_network_single_partition() {
    let g = path_graph(4);
    let a = partition_network(&g, 1);
    assert_eq!(a.partition_count, 1);
    assert_eq!(a.edge_to_partition.len(), g.edges.len());
    assert!(a.edge_to_partition.values().all(|&p| p == 0));
    assert!(a.boundary_edges.is_empty());
}

#[test]
fn partition_network_two_partitions_of_a_path() {
    let g = path_graph(4);
    let a = partition_network(&g, 2);
    assert_eq!(a.partition_count, 2);
    // Nodes 0,1 in partition 0 and 2,3 in partition 1: edges 2 (1->2) and 3 (2->1) cross.
    assert_eq!(a.boundary_edges, vec![(2, 0, 1), (3, 1, 0)]);
    for (e, &(s, _)) in g.edges.iter().enumerate() {
        let expected = if s < 2 { 0 } else { 1 };
        assert_eq!(a.edge_to_partition[&(e as u32)], expected);
    }
    let bm = a.boundary_map();
    assert_eq!(bm.len(), 2);
    assert_eq!(bm[&2], (0, 1));
    assert_eq!(bm[&3], (1, 0));
}

#[test]
fn partition_network_empty_graph_keeps_k() {
    let g = RoadTopology { node_count: 0, edges: Vec::new() };
    let a = partition_network(&g, 3);
    assert_eq!(a.partition_count, 3);
    assert!(a.edge_to_partition.is_empty());
    assert!(a.boundary_edges.is_empty());
}

#[test]
fn partition_edges_lists_each_owned_edge_once() {
    let mut edge_to_partition = HashMap::new();
    edge_to_partition.insert(0, 1);
    edge_to_partition.insert(1, 0);
    edge_to_partition.insert(2, 1);
    let a = PartitionAssignment { edge_to_partition, boundary_edges: Vec::new(), partition_count: 2 };
    let mut e1 = partition_edges(&a, 1);
    e1.sort();
    assert_eq!(e1, vec![0, 2]);
    assert_eq!(partition_edges(&a, 0), vec![1]);
    assert!(partition_edges(&a, 5).is_empty());
}

#[test]
fn boundary_map_later_entry_wins() {
    let a = PartitionAssignment {
        edge_to_partition: HashMap::new(),
        boundary_edges: vec![(4, 0, 1), (4, 1, 2), (9, 2, 0)],
        partition_count: 3,
    };
    let bm = a.boundary_map();
    assert_eq!(bm.len(), 2);
    assert_eq!(bm[&4], (1, 2));
    assert_eq!(bm[&9], (2, 0));
}

#[test]
fn bfs_bisect_visits_neighbours_in_ascending_order() {
    let nodes: Vec<u32> = (0..8).collect();
    let mut adj: HashMap<u32, HashSet<u32>> = HashMap::new();
    for (s, t) in [(0u32, 7u32), (0, 3), (0, 5), (3, 1), (7, 2), (5, 6), (1, 4)] {
        adj.entry(s).or_insert_with(HashSet::new).insert(t);
        adj.entry(t).or_insert_with(HashSet::new).insert(s);
    }
    let (a, b) = bfs_bisect(&nodes, &adj);
    assert_eq!(a, vec![0, 3, 5, 7]);
    assert_eq!(b, vec![1, 2, 4, 6]);
}

#[test]
fn recursive_bisect_three_ways_numbers_second_half_after_first() {
    let nodes: Vec<u32> = (0..6).collect();
    let parts = recursive_bisect(&nodes, &path_adjacency(6), 3);
    let got: Vec<u32> = (0..6u32).map(|v| parts[&v]).collect();
    assert_eq!(got, vec![0, 1, 1, 2, 2, 2]);
}

#[test]
fn partition_network_is_deterministic() {
    let mut edges = Vec::new();
    for i in 0..9u32 {
        edges.push((i, i + 1));
        edges.push((i + 1, i));
        edges.push((i, (i + 3) % 10));
    }
    let g = RoadTopology { node_count: 10, edges };
    let a1 = partition_network(&g, 4);
    let a2 = partition_network(&g, 4);
    assert_eq!(a1.edge_to_partition, a2.edge_to_partition);
    assert_eq!(a1.boundary_edges, a2.boundary_edges);
    for &(_, sp, dp) in &a1.boundary_edges {
        assert!(sp < 4 && dp < 4 && sp != dp);
    }
}
