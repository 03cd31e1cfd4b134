//! Agent component types shared by the simulation crates.
use vstd::prelude::*;

verus! {

/// Vehicle type tag for an agent.
///
/// GPU mapping: 0=Motorbike, 1=Car, 2=Bus, 3=Bicycle, 4=Truck, 5=Emergency, 6=Pedestrian.
#[derive(Debug, Clone, Copy, PartialEq, Eq, Hash, Structural)]
pub enum VehicleType {
    Motorbike,
    Car,
    Bus,
    Bicycle,
    Truck,
    Emergency,
    Pedestrian,
}

impl VehicleType {
    /// The index of this vehicle type in the GPU shader's type table.
    pub open spec fn spec_gpu_index(self) -> u32 {
        match self {
            VehicleType::Motorbike => 0,
            VehicleType::Car => 1,
            VehicleType::Bus => 2,
            VehicleType::Bicycle => 3,
            VehicleType::Truck => 4,
            VehicleType::Emergency => 5,
            VehicleType::Pedestrian => 6,
        }
    }

    /// The index of this vehicle type in the GPU shader's type table.
    pub fn gpu_index(self) -> (r: u32)
        ensures
            r == self.spec_gpu_index(),
            r < 7,
    {
        match self {
            VehicleType::Motorbike => 0,
            VehicleType::Car => 1,
            VehicleType::Bus => 2,
            VehicleType::Bicycle => 3,
            VehicleType::Truck => 4,
            VehicleType::Emergency => 5,
            VehicleType::Pedestrian => 6,
        }
    }
}

} // verus!

verus! {

/// Agent's assigned route as a sequence of node indices.
#[derive(Debug, Clone)]
pub struct Route {
    /// Sequence of node indices forming the path.
    pub path: Vec<u32>,
    /// Current index into `path` (the node the agent is heading toward).
    pub current_step: usize,
}

impl Route {
    /// The route has no node left to head for: the agent has finished.
    pub open spec fn spec_is_finished(&self) -> bool {
        self.current_step >= self.path@.len()
    }

    /// Whether the agent has passed the last node of its path; a finished
    /// agent is removed from the simulation.
    pub fn is_finished(&self) -> (r: bool)
        ensures
            r == self.spec_is_finished(),
    {
        self.current_step >= self.path.len()
    }
}

/// Car-following model selector for per-agent runtime switching.
///
/// The GPU shader branches on this tag: `Idm` is 0 and `Krauss` is 1.
#[derive(Debug, Clone, Copy, PartialEq, Eq, Hash, Structural)]
pub enum CarFollowingModel {
    /// Intelligent Driver Model (Treiber et al. 2000).
    Idm,
    /// Krauss model with safe-speed and dawdle (SUMO default).
    Krauss,
}

impl CarFollowingModel {
    /// The tag the GPU shader reads in `GpuAgentState::cf_model`.
    pub open spec fn spec_gpu_tag(self) -> u32 {
        match self {
            CarFollowingModel::Idm => 0,
            CarFollowingModel::Krauss => 1,
        }
    }

    /// The tag the GPU shader reads in `GpuAgentState::cf_model`.
    pub fn gpu_tag(self) -> (r: u32)
        ensures
            r == self.spec_gpu_tag(),
    {
        match self {
            CarFollowingModel::Idm => 0,
            CarFollowingModel::Krauss => 1,
        }
    }
}

/// Maximum yield ticks before an agent forces a crawl through a conflict point.
pub const MAX_YIELD_TICKS: u16 = 100;

/// Marker: agent just exited a junction this frame.
#[derive(Debug, Clone, Copy)]
pub struct JustExitedJunction;

/// GPU-side agent state packed for compute shader buffers.
///
/// Position and speed fields use fixed-point integers for cross-GPU
/// determinism: `position` Q16.16 metres along the edge, `lateral` Q8.8
/// metres from the road's right edge, `speed` and `acceleration` Q12.20.
/// `cf_model` is 0 for IDM and 1 for Krauss; `vehicle_type` follows
/// [`VehicleType::gpu_index`]; `flags` bit0=at_bus_stop,
/// bit1=emergency_active, bit2=yielding.
#[derive(Copy, Clone, Debug, PartialEq, Eq, Structural)]
pub struct GpuAgentState {
    /// Index of the current edge in the road graph.
    pub edge_id: u32,
    /// Lane index within the edge (0-based from right).
    pub lane_idx: u32,
    /// Longitudinal position along edge (Q16.16 fixed-point, metres).
    pub position: i32,
    /// Lateral offset from road right edge (Q8.8 in i32, metres).
    pub lateral: i32,
    /// Current speed (Q12.20 fixed-point, m/s).
    pub speed: i32,
    /// Current acceleration (Q12.20 fixed-point, m/s^2).
    pub acceleration: i32,
    /// Car-following model tag (0 = IDM, 1 = Krauss).
    pub cf_model: u32,
    /// RNG state for stochastic models (PCG hash seed).
    pub rng_state: u32,
    /// Vehicle type tag (matches the VehicleType order).
    pub vehicle_type: u32,
    /// Bitfield flags for agent state.
    pub flags: u32,
}

} // verus!
