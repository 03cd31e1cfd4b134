//! Simulation run state and partition mode.
use vstd::prelude::*;

use crate::multi_gpu::MultiGpuScheduler;

verus! {

/// Partition mode for multi-partition dispatch.
pub enum PartitionMode {
    /// Single device: all agents dispatched together.
    Single,
    /// Multiple logical partitions (same physical device, separate buffers).
    Multi(MultiGpuScheduler),
}

/// Simulation run state.
#[derive(Debug, Clone, Copy, PartialEq, Eq, Structural)]
pub enum SimState {
    Stopped,
    Running,
    Paused,
}

impl SimState {
    /// Whether the simulation advances on a tick.
    pub fn is_running(self) -> (r: bool)
        ensures
            r <==> self == SimState::Running,
    {
        match self {
            SimState::Running => true,
            _ => false,
        }
    }
}

} // verus!
