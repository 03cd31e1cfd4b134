use velos::sim::{PartitionMode, SimState};

#[test]
fn only_running_state_runs() {
    assert!(SimState::Running.is_running());
    assert!(!SimState::Stopped.is_running());
    assert!(!SimState::Paused.is_running());
}

#[test]
fn single_partition_mode_exists() {
    let mode = PartitionMode::Single;
    assert!(matches!(mode, PartitionMode::Single));
}
