use velos::components::GpuAgentState;
use velos::compute::sort_agents_by_lane;

fn agent(edge_id: u32, lane_idx: u32, position: i32, cf_model: u32, rng_state: u32) -> GpuAgentState {
    GpuAgentState {
        edge_id,
        lane_idx,
        position,
        lateral: 0,
        speed: 50,
        acceleration: 0,
        cf_model,
        rng_state,
        vehicle_type: 0,
        flags: 0,
    }
}

#[test]
fn sort_agents_empty() {
    let (offsets, counts, indices) = sort_agents_by_lane(&[]);
    assert_eq!(offsets, vec![0]);
    assert_eq!(counts, vec![0]);
    assert!(indices.is_empty());
}

#[test]
fn sort_agents_single_lane() {
    let agents = vec![
        GpuAgentState {
            edge_id: 0, lane_idx: 0, position: 100, lateral: 0,
            speed: 50, acceleration: 0, cf_model: 0, rng_state: 0,
            vehicle_type: 0, flags: 0,
        },
        GpuAgentState {
            edge_id: 0, lane_idx: 0, position: 500, lateral: 0,
            speed: 50, acceleration: 0, cf_model: 0, rng_state: 0,
            vehicle_type: 0, flags: 0,
        },
        GpuAgentState {
            edge_id: 0, lane_idx: 0, position: 300, lateral: 0,
            speed: 50, acceleration: 0, cf_model: 0, rng_state: 0,
            vehicle_type: 0, flags: 0,
        },
    ];
    let (offsets, counts, indices) = sort_agents_by_lane(&agents);
    assert_eq!(offsets.len(), 1);
    assert_eq!(counts, vec![3]);
    assert_eq!(indices, vec![1, 2, 0]);
}

#[test]
fn sort_agents_multiple_lanes() {
    let agents = vec![
        GpuAgentState {
            edge_id: 0, lane_idx: 0, position: 100, lateral: 0,
            speed: 50, acceleration: 0, cf_model: 0, rng_state: 0,
            vehicle_type: 0, flags: 0,
        },
        GpuAgentState {
            edge_id: 0, lane_idx: 1, position: 200, lateral: 0,
            speed: 50, acceleration: 0, cf_model: 1, rng_state: 42,
            vehicle_type: 0, flags: 0,
        },
        GpuAgentState {
            edge_id: 0, lane_idx: 0, position: 300, lateral: 0,
            speed: 50, acceleration: 0, cf_model: 0, rng_state: 0,
            vehicle_type: 0, flags: 0,
        },
    ];
    let (offsets, counts, indices) = sort_agents_by_lane(&agents);
    assert_eq!(counts.len(), 2);
    assert_eq!(counts[0], 2);
    assert_eq!(counts[1], 1);
    assert_eq!(indices[offsets[0] as usize], 2);
    assert_eq!(indices[offsets[0] as usize + 1], 0);
    assert_eq!(indices[offsets[1] as usize], 1);
}

#[test]
fn lanes_in_edge_then_lane_order_with_equal_positions_stable() {
    let agents = vec![
        agent(2, 0, 10, 0, 0),
        agent(1, 1, 10, 0, 0),
        agent(1, 0, 10, 0, 0),
        agent(1, 0, 10, 0, 0),
        agent(1, 0, 20, 0, 0),
    ];
    let (offsets, counts, indices) = sort_agents_by_lane(&agents);
    assert_eq!(offsets, vec![0, 3, 4]);
    assert_eq!(counts, vec![3, 1, 1]);
    assert_eq!(indices, vec![4, 2, 3, 1, 0]);
}
