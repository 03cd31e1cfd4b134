use velos::perception::{perception_buffer_sizes, GRID_CELL_SIZE, GRID_HEIGHT, GRID_WIDTH};

#[test]
fn perception_buffers_creation() {
    // edge_count=100: signal=400 bytes, travel_ratio=400 bytes
    // congestion_grid = 20*20*4 = 1600 bytes
    let edge_count: u32 = 100;
    let signal_size = (edge_count as u64) * 4;
    let grid_size = (GRID_WIDTH as u64) * (GRID_HEIGHT as u64) * 4;
    let travel_size = (edge_count as u64) * 4;

    assert_eq!(signal_size, 400);
    assert_eq!(grid_size, 1600);
    assert_eq!(travel_size, 400);

    let sizes = perception_buffer_sizes(edge_count);
    assert_eq!(sizes.signal_bytes, 400);
    assert_eq!(sizes.congestion_grid_bytes, 1600);
    assert_eq!(sizes.edge_travel_ratio_bytes, 400);
}

#[test]
fn perception_buffers_min_edge_count() {
    // Even with edge_count=0, should use at least 1 for valid buffer
    let edge_count: u32 = 0;
    let clamped = edge_count.max(1);
    assert_eq!(clamped, 1);

    let sizes = perception_buffer_sizes(edge_count);
    assert_eq!(sizes.edge_count, 1);
    assert_eq!(sizes.signal_bytes, 4);
    assert_eq!(sizes.edge_travel_ratio_bytes, 4);
}

#[test]
fn grid_constants() {
    assert_eq!(GRID_WIDTH, 20);
    assert_eq!(GRID_HEIGHT, 20);
    assert_eq!(GRID_CELL_SIZE as f32, 500.0);
}
