//! VELOS traffic microsimulation: the verified core.
//!
//! Agent components and lane sorting for the wave-front dispatch, road
//! network partitioning and the multi-partition boundary agent protocol,
//! origin-destination demand, bus spawning from trip schedules, windowed
//! detection counts, and the error mapping of the detection API.
use vstd::prelude::*;

pub mod aggregator;
pub mod bus_spawner;
pub mod camera;
pub mod components;
pub mod compute;
pub mod error;
pub mod multi_gpu;
pub mod od_matrix;
pub mod partition;
pub mod perception;
pub mod sim;
pub mod sorting;
pub mod tiles;
pub mod view;

verus! {

} // verus!
