//! Sizing of the perception pass's auxiliary input buffers.
//!
//! The perception pass reads a per-edge signal state (one `u32` per edge),
//! a congestion grid heatmap (one `f32` per cell) and a per-edge travel time
//! ratio (one `f32` per edge). Their sizes are fixed at startup.
use vstd::prelude::*;

verus! {

/// Congestion grid width, in cells.
pub const GRID_WIDTH: u32 = 20;

/// Congestion grid height, in cells.
pub const GRID_HEIGHT: u32 = 20;

/// Side of a congestion grid cell, in metres.
pub const GRID_CELL_SIZE: u32 = 500;

/// Byte sizes of the perception input buffers.
#[derive(Debug, Clone, Copy, PartialEq, Eq, Structural)]
pub struct PerceptionBufferSizes {
    /// Number of edge entries: the edge count, at least 1 so that every
    /// buffer is valid.
    pub edge_count: u32,
    /// Per-edge signal state buffer, 4 bytes per edge entry.
    pub signal_bytes: u64,
    /// Congestion grid buffer, 4 bytes per cell.
    pub congestion_grid_bytes: u64,
    /// Per-edge travel time ratio buffer, 4 bytes per edge entry.
    pub edge_travel_ratio_bytes: u64,
}

/// Sizes of the perception input buffers for a road graph with
/// `edge_count` edges; the grid buffer is fixed at 20x20 cells (1600 bytes).
pub fn perception_buffer_sizes(edge_count: u32) -> (r: PerceptionBufferSizes)
    ensures
        r.edge_count == if edge_count == 0 { 1 } else { edge_count },
        r.signal_bytes == 4 * r.edge_count,
        r.congestion_grid_bytes == 4 * GRID_WIDTH * GRID_HEIGHT,
        r.congestion_grid_bytes == 1600,
        r.edge_travel_ratio_bytes == 4 * r.edge_count,
{
    let n: u32 = if edge_count == 0 { 1 } else { edge_count };
    assert(GRID_WIDTH == 20 && GRID_HEIGHT == 20);
    assert((GRID_WIDTH as u64) * (GRID_HEIGHT as u64) == 400) by (nonlinear_arith)
        requires
            GRID_WIDTH == 20 && GRID_HEIGHT == 20,
    ;
    PerceptionBufferSizes {
        edge_count: n,
        signal_bytes: (n as u64) * 4,
        congestion_grid_bytes: (GRID_WIDTH as u64) * (GRID_HEIGHT as u64) * 4,
        edge_travel_ratio_bytes: (n as u64) * 4,
    }
}

} // verus!
